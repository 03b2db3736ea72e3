//! The inverted index: the document store, the postings and tag indexes,
//! the aggregate counters, the identifier counter and the search cache,
//! with the operations that spec-complete searches and corpus mutations.

use vstd::prelude::*;

use crate::cache::{cache_lookup, cache_wf, promote_spec, put_spec, CacheV, SearchCache};
use crate::classify::{classify, classify_spec, terms_view, Query, QueryV};
use crate::doc::{duplicate_results, Document, DocumentV, SearchResult, DOC_CONTENT_CAP};
use crate::errors::IndexError;
use crate::postings::{
    ascending_lt, entries_of, group_tokens, group_tokens_exec, groups_view, groups_wf, has_id,
    has_tok, ids_unique, index_doc_spec, insert_posting_spec, lemma_ascending_len,
    lemma_group_tokens_wf, lemma_insert_posting_props, lemma_remove_doc_structure, postings_wf,
    remove_doc_spec, tok_seq, PostingsIndex, PostingsV,
};
use crate::search::{
    doc_i, doc_of, docs_unique, engine_wf, has_doc, keyword_results_ok, keyword_search,
    phrase_results_ok, phrase_search, pos_bounded, tag_results_spec, tag_search,
};
use crate::tags::{add_tags_spec, lemma_add_tags_contains, remove_id_spec, tags_wf, TagIndex, TagsV};
use crate::text::str_eq;
use crate::tokenizer::{lemma_tokens_len, tokenize, tokens_of};

verus! {

/// Default capacity of the search cache.
pub const DEFAULT_CACHE_CAPACITY: usize = 100;

/// Ceiling on the total token count of the corpus.
pub const TOKEN_TOTAL_CAP: u64 = 0x8000_0000_0000_0000;

/// Ceiling on the document count of the corpus.
pub const DOC_COUNT_CAP: u64 = 0x1_0000_0000;

/// The mathematical value of the whole index.
#[verifier::ext_equal]
pub ghost struct IndexV {
    pub postings: PostingsV,
    pub docs: Seq<DocumentV>,
    pub tags: TagsV,
    pub next_doc_id: u32,
    pub total_docs: nat,
    pub total_tokens: nat,
    pub cache: CacheV,
    pub cache_capacity: nat,
}

/// The total token count of a document list.
pub open spec fn sum_tokens(docs: Seq<DocumentV>) -> int
    decreases docs.len(),
{
    if docs.len() == 0 {
        0
    } else {
        sum_tokens(docs.drop_last()) + docs.last().num_tokens
    }
}

/// The document list without the document carrying `id`.
pub open spec fn docs_without(docs: Seq<DocumentV>, id: u32) -> Seq<DocumentV>
    decreases docs.len(),
{
    if docs.len() == 0 {
        Seq::empty()
    } else {
        let rest = docs_without(docs.drop_last(), id);
        if docs.last().id == id {
            rest
        } else {
            rest.push(docs.last())
        }
    }
}

/// Removing a present, unique document shortens the list by one, subtracts
/// its token count, and keeps every other document.
pub proof fn lemma_docs_without(docs: Seq<DocumentV>, id: u32)
    requires
        docs_unique(docs),
        has_doc(docs, id),
    ensures
        docs_without(docs, id).len() == docs.len() - 1,
        sum_tokens(docs_without(docs, id)) == sum_tokens(docs) - doc_of(docs, id).num_tokens,
        docs_unique(docs_without(docs, id)),
        forall|i: int| 0 <= i < docs_without(docs, id).len() ==> docs.contains(
            #[trigger] docs_without(docs, id)[i],
        ) && docs_without(docs, id)[i].id != id,
        forall|id2: u32| has_doc(docs_without(docs, id), id2) <==> (has_doc(docs, id2) && id2
            != id),
        forall|id2: u32| id2 != id && has_doc(docs, id2) ==> doc_of(docs_without(docs, id), id2)
            == doc_of(docs, id2),
    decreases docs.len(),
{
    let r = docs_without(docs, id);
    assert(docs_unique(docs.drop_last())) by {
        assert(forall|i: int| 0 <= i < docs.drop_last().len() ==> docs.drop_last()[i] == docs[i]);
    }
    if docs.last().id == id {
        assert(!has_doc(docs.drop_last(), id)) by {
            if has_doc(docs.drop_last(), id) {
                let w = doc_i(docs.drop_last(), id);
                assert(docs[w].id == docs[docs.len() - 1].id);
            }
        }
        lemma_docs_without_absent(docs.drop_last(), id);
        assert(doc_of(docs, id) == docs.last()) by {
            let w = doc_i(docs, id);
            assert(docs[w].id == id);
            if w != docs.len() - 1 {
                assert(docs[w].id != docs[docs.len() - 1].id);
            }
        }
        assert forall|i: int| 0 <= i < r.len() implies docs.contains(#[trigger] r[i]) && r[i].id
            != id by {
            assert(r[i] == docs.drop_last()[i]);
            assert(docs[i] == r[i]);
        }
        assert forall|id2: u32| has_doc(r, id2) implies (has_doc(docs, id2) && id2 != id) by {
            let w = doc_i(r, id2);
            assert(docs[w].id == id2);
            if id2 == id {
                assert(docs[w].id != docs[docs.len() - 1].id);
            }
        }
        assert forall|id2: u32| has_doc(docs, id2) && id2 != id implies has_doc(r, id2) by {
            let w = doc_i(docs, id2);
            assert(docs[w].id == id2);
            assert(w != docs.len() - 1);
            assert(r[w].id == id2);
        }
        assert forall|id2: u32| id2 != id && has_doc(docs, id2) implies doc_of(r, id2) == doc_of(
            docs,
            id2,
        ) by {
            let w = doc_i(docs, id2);
            assert(docs[w].id == id2);
            assert(w != docs.len() - 1);
            assert(r[w].id == id2);
            let w2 = doc_i(r, id2);
            assert(r[w2].id == id2);
            if w2 != w {
                assert(docs[w2].id == id2);
                assert(docs[w2].id != docs[w].id);
            }
        }
    } else {
        assert(has_doc(docs.drop_last(), id)) by {
            let w = doc_i(docs, id);
            assert(docs[w].id == id);
            assert(w != docs.len() - 1);
            assert(docs.drop_last()[w].id == id);
        }
        lemma_docs_without(docs.drop_last(), id);
        let rest = docs_without(docs.drop_last(), id);
        assert(doc_of(docs.drop_last(), id) == doc_of(docs, id)) by {
            let w = doc_i(docs.drop_last(), id);
            assert(docs[w].id == id);
            let w2 = doc_i(docs, id);
            assert(docs[w2].id == id);
            if w2 != w {
                assert(docs[w2].id != docs[w].id || w2 == w);
                if w2 < w {
                    assert(docs[w2].id != docs[w].id);
                } else {
                    assert(docs[w].id != docs[w2].id);
                }
                assert(false);
            }
        }
        assert(r == rest.push(docs.last()));
        assert(r.drop_last() =~= rest);
        assert(r.last() == docs.last());
        assert(sum_tokens(r) == sum_tokens(rest) + docs.last().num_tokens);
        assert forall|i: int| 0 <= i < r.len() implies docs.contains(#[trigger] r[i]) && r[i].id
            != id by {
            if i == r.len() - 1 {
                assert(docs[docs.len() - 1] == r[i]);
            } else {
                assert(docs.drop_last().contains(rest[i]));
                let w = choose|w: int|
                    0 <= w < docs.drop_last().len() && docs.drop_last()[w] == rest[i];
                assert(docs[w] == r[i]);
            }
        }
        assert forall|a: int, b: int| 0 <= a < b < r.len() implies r[a].id != r[b].id by {
            if b == r.len() - 1 {
                assert(docs.drop_last().contains(rest[a]));
                let w = choose|w: int|
                    0 <= w < docs.drop_last().len() && docs.drop_last()[w] == rest[a];
                assert(docs[w].id != docs[docs.len() - 1].id);
            }
        }
        assert forall|id2: u32| has_doc(r, id2) implies (has_doc(docs, id2) && id2 != id) by {
            let w = doc_i(r, id2);
            assert(r[w].id == id2);
            assert(docs.contains(r[w]));
            let w2 = choose|w2: int| 0 <= w2 < docs.len() && docs[w2] == r[w];
            assert(docs[w2].id == id2);
        }
        assert forall|id2: u32| has_doc(docs, id2) && id2 != id implies has_doc(r, id2) by {
            if id2 == docs.last().id {
                assert(r[r.len() - 1].id == id2);
            } else {
                let w = doc_i(docs, id2);
                assert(docs[w].id == id2);
                assert(w != docs.len() - 1);
                assert(has_doc(docs.drop_last(), id2)) by {
                    assert(docs.drop_last()[w].id == id2);
                }
                assert(has_doc(rest, id2));
                let w2 = doc_i(rest, id2);
                assert(rest[w2].id == id2);
                assert(r[w2].id == id2);
            }
        }
        assert forall|id2: u32| id2 != id && has_doc(docs, id2) implies doc_of(r, id2) == doc_of(
            docs,
            id2,
        ) by {
            let w2 = doc_i(r, id2);
            assert(r[w2].id == id2);
            if id2 == docs.last().id {
                assert(doc_of(docs, id2) == docs.last()) by {
                    let w = doc_i(docs, id2);
                    assert(docs[w].id == id2);
                    if w != docs.len() - 1 {
                        assert(docs[w].id != docs[docs.len() - 1].id);
                    }
                }
                if w2 != r.len() - 1 {
                    assert(docs.drop_last().contains(rest[w2]));
                    let w3 = choose|w3: int|
                        0 <= w3 < docs.drop_last().len() && docs.drop_last()[w3] == rest[w2];
                    assert(docs[w3].id == id2);
                    assert(docs[w3].id != docs[docs.len() - 1].id);
                }
                assert(doc_of(r, id2) == docs.last());
            } else {
                if w2 == r.len() - 1 {
                    assert(false);
                }
                assert(rest[w2].id == id2);
                assert(doc_of(rest, id2) == rest[w2]) by {
                    let w3 = doc_i(rest, id2);
                    assert(rest[w3].id == id2);
                    if w3 != w2 {
                        if w3 < w2 {
                            assert(rest[w3].id != rest[w2].id);
                        } else {
                            assert(rest[w2].id != rest[w3].id);
                        }
                    }
                }
                assert(doc_of(r, id2) == r[w2]);
            }
        }
    }
}

/// The total token count is never negative.
pub proof fn lemma_sum_tokens_nonneg(docs: Seq<DocumentV>)
    ensures
        sum_tokens(docs) >= 0,
    decreases docs.len(),
{
    if docs.len() > 0 {
        lemma_sum_tokens_nonneg(docs.drop_last());
    }
}

/// The index after removing a document: it leaves the store, every postings
/// list and every tag, the aggregates are recomputed and the cache is
/// cleared; the identifier counter is untouched, so the id is never reused.
pub open spec fn remove_doc_spec_index(m: IndexV, id: u32) -> IndexV {
    IndexV {
        postings: remove_doc_spec(m.postings, id),
        docs: docs_without(m.docs, id),
        tags: remove_id_spec(m.tags, id),
        next_doc_id: m.next_doc_id,
        total_docs: (m.total_docs - 1) as nat,
        total_tokens: (m.total_tokens - doc_of(m.docs, id).num_tokens) as nat,
        cache: Seq::empty(),
        cache_capacity: m.cache_capacity,
    }
}

/// Removing an absent document changes nothing.
pub proof fn lemma_docs_without_absent(docs: Seq<DocumentV>, id: u32)
    requires
        !has_doc(docs, id),
    ensures
        docs_without(docs, id) == docs,
    decreases docs.len(),
{
    if docs.len() > 0 {
        assert(!has_doc(docs.drop_last(), id)) by {
            if has_doc(docs.drop_last(), id) {
                let w = doc_i(docs.drop_last(), id);
                assert(docs[w].id == id);
            }
        }
        lemma_docs_without_absent(docs.drop_last(), id);
        assert(docs.last().id != id) by {
            if docs.last().id == id {
                assert(docs[docs.len() - 1].id == id);
            }
        }
        assert(docs_without(docs, id) =~= docs);
    }
}

/// A document as the index stores it: the token count is derived from the
/// content.
pub open spec fn stored_doc(d: DocumentV) -> DocumentV {
    DocumentV { num_tokens: tokens_of(d.content).len(), ..d }
}

/// The index after adding a document: postings and tags gain the document,
/// the aggregates are recomputed, the identifier counter stays above every
/// id, and the cache is cleared.
pub open spec fn add_doc_spec(m: IndexV, d: DocumentV) -> IndexV {
    IndexV {
        postings: index_doc_spec(m.postings, d.id, group_tokens(tokens_of(d.content))),
        docs: m.docs.push(stored_doc(d)),
        tags: add_tags_spec(m.tags, d.tags, d.id),
        next_doc_id: if m.next_doc_id > d.id {
            m.next_doc_id
        } else {
            (d.id + 1) as u32
        },
        total_docs: (m.total_docs + 1) as nat,
        total_tokens: (m.total_tokens + tokens_of(d.content).len()) as nat,
        cache: Seq::empty(),
        cache_capacity: m.cache_capacity,
    }
}

/// What a search promises: the empty query and degenerate classifications
/// yield no results and leave the cache alone; a cache hit returns the
/// cached results and promotes the entry; otherwise the classified query is
/// answered by the matching algorithm and the results enter the cache.
pub open spec fn search_post(
    m: IndexV,
    q: Seq<char>,
    rv: Seq<crate::doc::SearchResultV>,
    cache2: CacheV,
) -> bool {
    if q.len() == 0 {
        rv.len() == 0 && cache2 == m.cache
    } else if cache_lookup(m.cache, q) is Some {
        rv == cache_lookup(m.cache, q).unwrap() && cache2 == promote_spec(m.cache, q)
    } else {
        match classify_spec(q, tok_seq(m.postings)) {
            QueryV::Empty => rv.len() == 0 && cache2 == promote_spec(m.cache, q),
            QueryV::Tag(t) => if t.len() == 0 {
                rv.len() == 0 && cache2 == promote_spec(m.cache, q)
            } else {
                rv == tag_results_spec(m.tags, m.docs, t) && cache2 == put_spec(
                    m.cache,
                    q,
                    rv,
                    m.cache_capacity,
                )
            },
            QueryV::Phrase(p) => phrase_results_ok(m.postings, m.docs, p, rv) && cache2
                == put_spec(m.cache, q, rv, m.cache_capacity),
            QueryV::Keyword(ts) => if ts.len() == 0 {
                rv.len() == 0 && cache2 == promote_spec(m.cache, q)
            } else {
                keyword_results_ok(
                    m.postings,
                    m.docs,
                    ts,
                    m.total_docs as int,
                    m.total_tokens as int,
                    rv,
                ) && cache2 == put_spec(m.cache, q, rv, m.cache_capacity)
            },
        }
    }
}

/// The largest document identifier, zero when the store is empty.
pub open spec fn max_id(docs: Seq<DocumentV>) -> u32
    decreases docs.len(),
{
    if docs.len() == 0 {
        0
    } else {
        let rest = max_id(docs.drop_last());
        if docs.last().id > rest {
            docs.last().id
        } else {
            rest
        }
    }
}

/// The persisted parts of an index.
pub open spec fn parts_of(m: IndexV) -> crate::codec::PartsV {
    crate::codec::PartsV {
        cache_capacity: m.cache_capacity as u64,
        total_docs: m.total_docs as u64,
        total_tokens: m.total_tokens as u64,
        docs: m.docs,
        postings: m.postings,
        tags: m.tags,
    }
}

/// Structural validity of decoded parts: everything the index's own
/// well-formedness demands of them, plus consistent aggregates.
pub open spec fn parts_ok(p: crate::codec::PartsV) -> bool {
    &&& p.cache_capacity >= 1
    &&& p.cache_capacity <= usize::MAX
    &&& docs_unique(p.docs)
    &&& forall|i: int| 0 <= i < p.docs.len() ==> (#[trigger] p.docs[i]).content.len()
        <= DOC_CONTENT_CAP && p.docs[i].num_tokens <= DOC_CONTENT_CAP && p.docs[i].id
        < 0xFFFF_FFFFu32
    &&& postings_wf(p.postings)
    &&& forall|i: int, j: int| 0 <= i < p.postings.len() && 0 <= j < p.postings[i].1.len()
        ==> has_doc(p.docs, (#[trigger] p.postings[i].1[j]).0) && pos_bounded(
        p.postings[i].1[j].1,
    )
    &&& tags_wf(p.tags)
    &&& forall|i: int, j: int| 0 <= i < p.tags.len() && 0 <= j < p.tags[i].1.len() ==> has_doc(
        p.docs,
        #[trigger] p.tags[i].1[j],
    )
    &&& p.total_docs == p.docs.len()
    &&& p.total_docs <= DOC_COUNT_CAP
    &&& p.total_tokens == sum_tokens(p.docs)
    &&& p.total_tokens <= TOKEN_TOTAL_CAP
}

/// Well-formedness of the whole index.
pub open spec fn index_wf(m: IndexV) -> bool {
    &&& engine_wf(m.postings, m.docs)
    &&& tags_wf(m.tags)
    &&& forall|i: int, j: int| 0 <= i < m.tags.len() && 0 <= j < m.tags[i].1.len() ==> has_doc(
        m.docs,
        #[trigger] m.tags[i].1[j],
    )
    &&& m.total_docs == m.docs.len()
    &&& m.total_docs <= DOC_COUNT_CAP
    &&& m.total_tokens == sum_tokens(m.docs)
    &&& m.total_tokens <= TOKEN_TOTAL_CAP
    &&& forall|i: int| 0 <= i < m.docs.len() ==> (#[trigger] m.docs[i]).id < m.next_doc_id
    &&& cache_wf(m.cache, m.cache_capacity)
}

/// A nonempty store attains its largest identifier.
pub proof fn lemma_max_id_witness(docs: Seq<DocumentV>)
    requires
        docs.len() > 0,
    ensures
        exists|i: int| 0 <= i < docs.len() && (#[trigger] docs[i]).id == max_id(docs),
    decreases docs.len(),
{
    if docs.len() == 1 {
        assert(docs.drop_last().len() == 0);
        assert(max_id(docs.drop_last()) == 0);
        assert(docs.last() == docs[0]);
        assert(docs[0].id == max_id(docs));
    } else {
        lemma_max_id_witness(docs.drop_last());
        if docs.last().id > max_id(docs.drop_last()) {
            assert(docs[docs.len() - 1].id == max_id(docs));
        } else {
            let w = choose|i: int|
                0 <= i < docs.drop_last().len() && (#[trigger] docs.drop_last()[i]).id == max_id(
                    docs.drop_last(),
                );
            assert(docs[w].id == max_id(docs));
        }
    }
}

/// Every identifier is bounded by the largest.
pub proof fn lemma_max_id(docs: Seq<DocumentV>)
    ensures
        forall|i: int| 0 <= i < docs.len() ==> (#[trigger] docs[i]).id <= max_id(docs),
    decreases docs.len(),
{
    if docs.len() > 0 {
        lemma_max_id(docs.drop_last());
        assert forall|i: int| 0 <= i < docs.len() implies (#[trigger] docs[i]).id <= max_id(
            docs,
        ) by {
            if i < docs.len() - 1 {
                assert(docs.drop_last()[i] == docs[i]);
            }
        }
    }
}

/// Whether some stored document carries identifier `id`.
fn doc_exists(docs: &Vec<Document>, id: u32) -> (r: bool)
    ensures
        r == has_doc(docs.deep_view(), id),
{
    let ghost dv = docs.deep_view();
    let mut n: usize = 0;
    while n < docs.len()
        invariant
            n <= docs@.len(),
            forall|j: int| 0 <= j < n ==> dv[j].id != id,
        decreases docs@.len() - n,
    {
        if docs[n].id == id {
            proof {
                assert(dv[n as int].id == id);
            }
            return true;
        }
        n = n + 1;
    }
    false
}

/// Checks the document-level validity conditions.
fn check_docs(docs: &Vec<Document>) -> (r: bool)
    ensures
        r == (docs_unique(docs.deep_view()) && forall|i: int|
            0 <= i < docs.deep_view().len() ==> (#[trigger] docs.deep_view()[i]).content.len()
                <= DOC_CONTENT_CAP && docs.deep_view()[i].num_tokens <= DOC_CONTENT_CAP
                && docs.deep_view()[i].id < 0xFFFF_FFFFu32),
{
    let ghost dv = docs.deep_view();
    let mut i: usize = 0;
    while i < docs.len()
        invariant
            i <= docs@.len(),
            forall|a: int, b: int| 0 <= a < b < i ==> dv[a].id != dv[b].id,
            forall|a: int| 0 <= a < i ==> (#[trigger] dv[a]).content.len() <= DOC_CONTENT_CAP
                && dv[a].num_tokens <= DOC_CONTENT_CAP && dv[a].id < 0xFFFF_FFFFu32,
        decreases docs@.len() - i,
    {
        let d = &docs[i];
        if d.content.as_str().unicode_len() > 0x8000_0000usize || d.num_tokens
            > 0x8000_0000usize || d.id >= 0xFFFF_FFFFu32 {
            proof {
                assert(dv[i as int].content.len() > DOC_CONTENT_CAP || dv[i as int].num_tokens
                    > DOC_CONTENT_CAP || dv[i as int].id >= 0xFFFF_FFFFu32);
            }
            return false;
        }
        let mut j: usize = 0;
        while j < i
            invariant
                j <= i < docs@.len(),
                forall|a: int| 0 <= a < j ==> dv[a].id != dv[i as int].id,
            decreases i - j,
        {
            if docs[j].id == d.id {
                proof {
                    assert(dv[j as int].id == dv[i as int].id);
                }
                return false;
            }
            j = j + 1;
        }
        i = i + 1;
    }
    true
}

/// Checks the postings-level validity conditions against the documents.
fn check_postings(postings: &PostingsIndex, docs: &Vec<Document>) -> (r: bool)
    ensures
        r == (postings_wf(postings@) && forall|i: int, j: int|
            0 <= i < postings@.len() && 0 <= j < postings@[i].1.len() ==> has_doc(
                docs.deep_view(),
                (#[trigger] postings@[i].1[j]).0,
            ) && pos_bounded(postings@[i].1[j].1)),
{
    let ghost pv = postings@;
    let ghost dv = docs.deep_view();
    let mut i: usize = 0;
    while i < postings.items.len()
        invariant
            i <= postings.items@.len(),
            pv.len() == postings.items@.len(),
            forall|a: int, b: int| 0 <= a < b < i ==> pv[a].0 != pv[b].0,
            forall|a: int| 0 <= a < i ==> ids_unique(#[trigger] pv[a].1) && pv[a].1.len() > 0,
            forall|a: int, j: int| 0 <= a < i && 0 <= j < pv[a].1.len() ==> has_doc(
                dv,
                (#[trigger] pv[a].1[j]).0,
            ) && pos_bounded(pv[a].1[j].1),
        decreases postings.items@.len() - i,
    {
        let item = &postings.items[i];
        proof {
            assert(pv[i as int] == postings.items@[i as int]@);
        }
        if item.entries.len() == 0 {
            proof {
                assert(pv[i as int].1.len() == 0);
                assert(!postings_wf(pv));
            }
            return false;
        }
        let mut j: usize = 0;
        while j < i
            invariant
                j <= i < postings.items@.len(),
                pv.len() == postings.items@.len(),
                item.token@ == pv[i as int].0,
                forall|a: int| 0 <= a < j ==> pv[a].0 != pv[i as int].0,
            decreases i - j,
        {
            if str_eq(postings.items[j].token.as_str(), item.token.as_str()) {
                proof {
                    assert(pv[j as int].0 == pv[i as int].0);
                }
                return false;
            }
            j = j + 1;
        }
        let ghost ev = item.entries.deep_view();
        let mut k: usize = 0;
        while k < item.entries.len()
            invariant
                k <= item.entries@.len(),
                ev == item.entries.deep_view(),
                ev.len() == item.entries@.len(),
                ev == pv[i as int].1,
                i < pv.len(),
                forall|a: int, b: int| 0 <= a < b < k ==> ev[a].0 != ev[b].0,
                forall|a: int| 0 <= a < k ==> has_doc(dv, (#[trigger] ev[a]).0) && pos_bounded(
                    ev[a].1,
                ),
            decreases item.entries@.len() - k,
        {
            let e = &item.entries[k];
            proof {
                assert(ev[k as int] == item.entries@[k as int]@);
            }
            if !doc_exists(docs, e.doc_id) {
                return false;
            }
            if e.positions.len() > 0x8000_0000usize {
                return false;
            }
            let mut m: usize = 0;
            while m < e.positions.len()
                invariant
                    m <= e.positions@.len(),
                    e.positions@ == ev[k as int].1,
                    i < pv.len(),
                    k < ev.len(),
                    forall|a: int| 0 <= a < m ==> (#[trigger] e.positions@[a])
                        <= 0x8000_0000usize,
                decreases e.positions@.len() - m,
            {
                if e.positions[m] > 0x8000_0000usize {
                    return false;
                }
                m = m + 1;
            }
            let mut w: usize = 0;
            while w < k
                invariant
                    w <= k < ev.len(),
                    i < pv.len(),
                    ev == pv[i as int].1,
                    forall|a: int| 0 <= a < w ==> ev[a].0 != ev[k as int].0,
                decreases k - w,
            {
                if item.entries[w].doc_id == e.doc_id {
                    proof {
                        assert(ev[w as int].0 == ev[k as int].0);
                    }
                    return false;
                }
                w = w + 1;
            }
            k = k + 1;
        }
        i = i + 1;
    }
    true
}

/// Checks the tag-level validity conditions against the documents.
fn check_tags(tags: &TagIndex, docs: &Vec<Document>) -> (r: bool)
    ensures
        r == (tags_wf(tags@) && forall|i: int, j: int|
            0 <= i < tags@.len() && 0 <= j < tags@[i].1.len() ==> has_doc(
                docs.deep_view(),
                #[trigger] tags@[i].1[j],
            )),
{
    let ghost tv = tags@;
    let ghost dv = docs.deep_view();
    let mut i: usize = 0;
    while i < tags.items.len()
        invariant
            i <= tags.items@.len(),
            tv.len() == tags.items@.len(),
            forall|a: int, b: int| 0 <= a < b < i ==> tv[a].0 != tv[b].0,
            forall|a: int| 0 <= a < i ==> (forall|x: int, y: int|
                0 <= x < y < (#[trigger] tv[a].1).len() ==> tv[a].1[x] != tv[a].1[y]) && tv[
                a].1.len() > 0,
            forall|a: int, j: int| 0 <= a < i && 0 <= j < tv[a].1.len() ==> has_doc(
                dv,
                #[trigger] tv[a].1[j],
            ),
        decreases tags.items@.len() - i,
    {
        let item = &tags.items[i];
        proof {
            assert(tv[i as int] == tags.items@[i as int]@);
        }
        if item.ids.len() == 0 {
            proof {
                assert(tv[i as int].1.len() == 0);
                assert(!tags_wf(tv));
            }
            return false;
        }
        let mut j: usize = 0;
        while j < i
            invariant
                j <= i < tags.items@.len(),
                tv.len() == tags.items@.len(),
                item.tag@ == tv[i as int].0,
                forall|a: int| 0 <= a < j ==> tv[a].0 != tv[i as int].0,
            decreases i - j,
        {
            if str_eq(tags.items[j].tag.as_str(), item.tag.as_str()) {
                proof {
                    assert(tv[j as int].0 == tv[i as int].0);
                }
                return false;
            }
            j = j + 1;
        }
        let mut k: usize = 0;
        while k < item.ids.len()
            invariant
                k <= item.ids@.len(),
                item.ids@ == tv[i as int].1,
                i < tv.len(),
                forall|x: int, y: int| 0 <= x < y < k ==> item.ids@[x] != item.ids@[y],
                forall|x: int| 0 <= x < k ==> has_doc(dv, #[trigger] item.ids@[x]),
            decreases item.ids@.len() - k,
        {
            if !doc_exists(docs, item.ids[k]) {
                return false;
            }
            let mut w: usize = 0;
            while w < k
                invariant
                    w <= k < item.ids@.len(),
                    forall|x: int| 0 <= x < w ==> item.ids@[x] != item.ids@[k as int],
                decreases k - w,
            {
                if item.ids[w] == item.ids[k] {
                    return false;
                }
                w = w + 1;
            }
            k = k + 1;
        }
        i = i + 1;
    }
    true
}

/// Sums the stored token counts.
fn sum_num_tokens(docs: &Vec<Document>) -> (r: u128)
    requires
        forall|i: int| 0 <= i < docs.deep_view().len() ==> (#[trigger] docs.deep_view()[
        i]).num_tokens <= DOC_CONTENT_CAP,
    ensures
        r == sum_tokens(docs.deep_view()),
{
    let ghost dv = docs.deep_view();
    let mut sum: u128 = 0;
    let mut i: usize = 0;
    while i < docs.len()
        invariant
            i <= docs@.len(),
            dv == docs.deep_view(),
            sum == sum_tokens(dv.subrange(0, i as int)),
            sum <= (i as int) * (DOC_CONTENT_CAP as int),
        decreases docs@.len() - i,
    {
        let ghost pre = dv.subrange(0, i as int);
        let ghost post = dv.subrange(0, i + 1 as int);
        proof {
            assert(post.drop_last() =~= pre);
            assert(post.last() == dv[i as int]);
            assert((i as int) * (DOC_CONTENT_CAP as int) + (DOC_CONTENT_CAP as int) == (i + 1
                as int) * (DOC_CONTENT_CAP as int)) by (nonlinear_arith);
        }
        sum = sum + (docs[i].num_tokens as u128);
        i = i + 1;
    }
    proof {
        assert(dv.subrange(0, dv.len() as int) =~= dv);
    }
    sum
}

/// The largest stored identifier.
fn max_doc_id(docs: &Vec<Document>) -> (r: u32)
    ensures
        r == max_id(docs.deep_view()),
{
    let ghost dv = docs.deep_view();
    let mut mx: u32 = 0;
    let mut i: usize = 0;
    while i < docs.len()
        invariant
            i <= docs@.len(),
            dv == docs.deep_view(),
            mx == max_id(dv.subrange(0, i as int)),
        decreases docs@.len() - i,
    {
        let ghost pre = dv.subrange(0, i as int);
        let ghost post = dv.subrange(0, i + 1 as int);
        proof {
            assert(post.drop_last() =~= pre);
            assert(post.last() == dv[i as int]);
        }
        if docs[i].id > mx {
            mx = docs[i].id;
        }
        i = i + 1;
    }
    proof {
        assert(dv.subrange(0, dv.len() as int) =~= dv);
    }
    mx
}

/// Reading back an encoded well-formed index reproduces its documents,
/// postings, tags and aggregate counters exactly; only the identifier
/// counter (reseeded from the largest identifier) and the cache (fresh at
/// the same capacity) are rebuilt.
pub proof fn lemma_serialization_round_trip(m: IndexV)
    requires
        index_wf(m),
        m.cache_capacity <= usize::MAX,
        crate::codec::parts_bounds(parts_of(m)),
    ensures
        crate::codec::dec_index(crate::codec::enc_index(parts_of(m))) == Some(parts_of(m)),
        parts_ok(parts_of(m)),
{
    crate::codec::lemma_index_round(parts_of(m));
}

/// The inverted index.
pub struct InvertedIndex {
    pub(crate) postings: PostingsIndex,
    pub(crate) documents: Vec<Document>,
    pub(crate) tags: TagIndex,
    pub(crate) next_doc_id: u32,
    pub(crate) total_docs: usize,
    pub(crate) total_tokens: u64,
    pub(crate) cache: SearchCache,
}

impl View for InvertedIndex {
    type V = IndexV;

    closed spec fn view(&self) -> IndexV {
        IndexV {
            postings: self.postings@,
            docs: self.documents.deep_view(),
            tags: self.tags@,
            next_doc_id: self.next_doc_id,
            total_docs: self.total_docs as nat,
            total_tokens: self.total_tokens as nat,
            cache: self.cache@,
            cache_capacity: self.cache.capacity as nat,
        }
    }
}

impl InvertedIndex {
    /// Well-formedness of this index.
    pub open spec fn wf(&self) -> bool {
        index_wf(self@)
    }

    /// An empty index with the default cache capacity.
    pub fn new() -> (r: InvertedIndex)
        ensures
            r.wf(),
            r@.postings.len() == 0,
            r@.docs.len() == 0,
            r@.tags.len() == 0,
            r@.next_doc_id == 1,
            r@.total_docs == 0,
            r@.total_tokens == 0,
            r@.cache.len() == 0,
            r@.cache_capacity == DEFAULT_CACHE_CAPACITY,
    {
        let r = InvertedIndex {
            postings: PostingsIndex::new(),
            documents: Vec::new(),
            tags: TagIndex::new(),
            next_doc_id: 1,
            total_docs: 0,
            total_tokens: 0,
            cache: SearchCache::new(DEFAULT_CACHE_CAPACITY),
        };
        proof {
            assert(r.documents.deep_view() =~= Seq::<DocumentV>::empty());
        }
        r
    }

    /// The number of indexed documents.
    pub fn total_documents(&self) -> (r: usize)
        ensures
            r == self@.total_docs,
    {
        self.total_docs
    }

    /// The total token count of the corpus.
    pub fn token_total(&self) -> (r: u64)
        ensures
            r == self@.total_tokens,
    {
        self.total_tokens
    }

    /// The next identifier the index would assign.
    pub fn next_id(&self) -> (r: u32)
        ensures
            r == self@.next_doc_id,
    {
        self.next_doc_id
    }

    /// Whether a document with this identifier is indexed.
    pub fn has_document(&self, id: u32) -> (r: bool)
        ensures
            r == has_doc(self@.docs, id),
    {
        let ghost dv = self@.docs;
        let mut n: usize = 0;
        while n < self.documents.len()
            invariant
                n <= self.documents@.len(),
                dv == self.documents.deep_view(),
                forall|j: int| 0 <= j < n ==> dv[j].id != id,
            decreases self.documents@.len() - n,
        {
            if self.documents[n].id == id {
                proof {
                    assert(dv[n as int].id == id);
                }
                return true;
            }
            n = n + 1;
        }
        false
    }

    /// Indexes a new document: its content is tokenized, every token's
    /// postings list gains the document's positions, its tags gain the
    /// document, the aggregates are recomputed and the cache is cleared.
    pub fn add_document(&mut self, doc: Document)
        requires
            old(self).wf(),
            !has_doc(old(self)@.docs, doc@.id),
            doc@.id < 0xFFFF_FFFFu32,
            doc@.content.len() <= DOC_CONTENT_CAP,
            old(self)@.total_tokens + doc@.content.len() <= TOKEN_TOTAL_CAP,
            old(self)@.total_docs < DOC_COUNT_CAP,
        ensures
            final(self).wf(),
            final(self)@ == add_doc_spec(old(self)@, doc@),
    {
        let ghost m = old(self)@;
        let ghost dvdoc = doc@;
        let tokens = tokenize(doc.content.as_str());
        let ghost toks = tokens.deep_view();
        let ghost gv = group_tokens(toks);
        proof {
            lemma_tokens_len(dvdoc.content);
            assert(toks.len() <= usize::MAX);
            lemma_group_tokens_wf(toks);
            assert forall|i: int, j: int|
                0 <= i < m.postings.len() && 0 <= j < m.postings[i].1.len() implies (
            #[trigger] m.postings[i].1[j]).0 != doc@.id by {
                assert(has_doc(m.docs, m.postings[i].1[j].0));
            }
        }
        let groups = group_tokens_exec(&tokens);
        let mut k: usize = 0;
        while k < groups.len()
            invariant
                k <= groups@.len(),
                groups_view(groups@) == gv,
                gv.len() == groups@.len(),
                groups_wf(gv, toks.len() as int),
                toks.len() <= DOC_CONTENT_CAP,
                self.postings@ == index_doc_spec(m.postings, doc@.id, gv.subrange(0, k as int)),
                postings_wf(self.postings@),
                forall|w: int| k <= w < gv.len() ==> entries_of(self.postings@, (#[trigger] gv[w]).0)
                    == entries_of(m.postings, gv[w].0),
                forall|i: int, j: int| 0 <= i < self.postings@.len() && 0 <= j
                    < self.postings@[i].1.len() ==> ((exists|w: int, v: int|
                    0 <= w < m.postings.len() && 0 <= v < m.postings[w].1.len()
                        && m.postings[w].1[v] == (#[trigger] self.postings@[i].1[j])) || (
                self.postings@[i].1[j].0 == doc@.id && pos_bounded(self.postings@[i].1[j].1))),
                self.documents == old(self).documents,
                self.tags == old(self).tags,
                self.next_doc_id == old(self).next_doc_id,
                self.total_docs == old(self).total_docs,
                self.total_tokens == old(self).total_tokens,
                self.cache == old(self).cache,
            decreases groups@.len() - k,
        {
            let ghost pre = gv.subrange(0, k as int);
            let ghost post = gv.subrange(0, k + 1 as int);
            let ghost cur = self.postings@;
            proof {
                assert(post.drop_last() =~= pre);
                assert(post.last() == gv[k as int]);
                assert(gv[k as int] == (groups@[k as int].0@, groups@[k as int].1@));
            }
            let g = &groups[k];
            let mut pos: Vec<usize> = Vec::new();
            let mut m2: usize = 0;
            while m2 < g.1.len()
                invariant
                    m2 <= g.1@.len(),
                    pos@ == g.1@.subrange(0, m2 as int),
                decreases g.1@.len() - m2,
            {
                pos.push(g.1[m2]);
                m2 = m2 + 1;
                proof {
                    assert(pos@ =~= g.1@.subrange(0, m2 as int));
                }
            }
            proof {
                assert(pos@ =~= g.1@);
                assert(pos@ == gv[k as int].1);
                assert(!has_id(entries_of(cur, gv[k as int].0), doc@.id)) by {
                    assert(entries_of(cur, gv[k as int].0) == entries_of(
                        m.postings,
                        gv[k as int].0,
                    ));
                    if has_id(entries_of(m.postings, gv[k as int].0), doc@.id) {
                        assert(has_tok(m.postings, gv[k as int].0)) by {
                            if !has_tok(m.postings, gv[k as int].0) {
                                assert(entries_of(m.postings, gv[k as int].0)
                                    =~= Seq::<(u32, Seq<usize>)>::empty());
                            }
                        }
                        let ti = crate::postings::tok_i(m.postings, gv[k as int].0);
                        assert(m.postings[ti].0 == gv[k as int].0);
                        let c = choose|c: int|
                            0 <= c < entries_of(m.postings, gv[k as int].0).len() && entries_of(
                                m.postings,
                                gv[k as int].0,
                            )[c].0 == doc@.id;
                        assert(m.postings[ti].1[c].0 == doc@.id);
                    }
                }
                assert(gv[k as int].1.len() > 0);
            }
            self.postings.insert_posting(g.0.as_str(), doc.id, pos);
            proof {
                lemma_insert_posting_props(cur, gv[k as int].0, doc@.id, gv[k as int].1);
                assert(self.postings@ == insert_posting_spec(
                    cur,
                    gv[k as int].0,
                    doc@.id,
                    gv[k as int].1,
                ));
                assert forall|w: int| k + 1 <= w < gv.len() implies entries_of(
                    self.postings@,
                    (#[trigger] gv[w]).0,
                ) == entries_of(m.postings, gv[w].0) by {
                    assert(gv[w].0 != gv[k as int].0);
                }
                assert(ascending_lt(gv[k as int].1, toks.len() as int));
                lemma_ascending_len(gv[k as int].1, toks.len() as int);
                assert(pos_bounded(gv[k as int].1));
                assert forall|i: int, j: int|
                    0 <= i < self.postings@.len() && 0 <= j < self.postings@[i].1.len() implies ((
                exists|w: int, v: int|
                    0 <= w < m.postings.len() && 0 <= v < m.postings[w].1.len()
                        && m.postings[w].1[v] == (#[trigger] self.postings@[i].1[j])) || (
                self.postings@[i].1[j].0 == doc@.id && pos_bounded(self.postings@[i].1[j].1))) by {
                    if self.postings@[i].1[j] == (doc@.id, gv[k as int].1) {
                    } else {
                        let wv = choose|w: int, v: int|
                            0 <= w < cur.len() && 0 <= v < cur[w].1.len() && cur[w].1[v]
                                == self.postings@[i].1[j];
                        assert(cur[wv.0].1[wv.1] == self.postings@[i].1[j]);
                    }
                }
            }
            k = k + 1;
        }
        proof {
            assert(gv.subrange(0, gv.len() as int) =~= gv);
        }
        let ghost tagv = dvdoc.tags;
        let mut k2: usize = 0;
        while k2 < doc.tags.len()
            invariant
                k2 <= doc.tags@.len(),
                tagv == doc.tags.deep_view(),
                tagv.len() == doc.tags@.len(),
                self.tags@ == add_tags_spec(m.tags, tagv.subrange(0, k2 as int), doc@.id),
                tags_wf(self.tags@),
                self.postings@ == index_doc_spec(m.postings, doc@.id, gv),
                forall|i: int, j: int| 0 <= i < self.postings@.len() && 0 <= j
                    < self.postings@[i].1.len() ==> ((exists|w: int, v: int|
                    0 <= w < m.postings.len() && 0 <= v < m.postings[w].1.len()
                        && m.postings[w].1[v] == (#[trigger] self.postings@[i].1[j])) || (
                self.postings@[i].1[j].0 == doc@.id && pos_bounded(self.postings@[i].1[j].1))),
                postings_wf(self.postings@),
                self.documents == old(self).documents,
                self.next_doc_id == old(self).next_doc_id,
                self.total_docs == old(self).total_docs,
                self.total_tokens == old(self).total_tokens,
                self.cache == old(self).cache,
            decreases doc.tags@.len() - k2,
        {
            let ghost pre = tagv.subrange(0, k2 as int);
            let ghost post = tagv.subrange(0, k2 + 1 as int);
            let ghost curt = self.tags@;
            proof {
                assert(post.drop_last() =~= pre);
                assert(post.last() == tagv[k2 as int]);
                assert(tagv[k2 as int] == doc.tags@[k2 as int]@);
            }
            self.tags.insert_tag_unique(doc.tags[k2].as_str(), doc.id);
            proof {
                crate::tags::lemma_insert_tag_unique_wf(curt, tagv[k2 as int], doc@.id);
            }
            k2 = k2 + 1;
        }
        proof {
            assert(tagv.subrange(0, tagv.len() as int) =~= tagv);
        }
        let num = tokens.len();
        let ghost old_docs_exec = self.documents.deep_view();
        let stored = Document {
            id: doc.id,
            path: doc.path,
            content: doc.content,
            title: doc.title,
            tags: doc.tags,
            num_tokens: num,
            modified_time: doc.modified_time,
        };
        proof {
            assert(stored@ =~~= stored_doc(dvdoc));
        }
        self.documents.push(stored);
        proof {
            assert(self.documents.deep_view() =~= m.docs.push(stored_doc(dvdoc)));
        }
        if self.next_doc_id <= doc.id {
            self.next_doc_id = doc.id + 1;
        }
        self.total_docs = self.documents.len();
        self.total_tokens = self.total_tokens + (num as u64);
        self.cache.clear();
        proof {
            let f = final(self)@;
            let target = add_doc_spec(m, dvdoc);
            assert(f.cache =~= target.cache);
            assert(f =~~= target);
            let fd = f.docs;
            assert(fd == m.docs.push(stored_doc(dvdoc)));
            assert forall|a: int, b: int| 0 <= a < b < fd.len() implies fd[a].id != fd[b].id by {
                if b == fd.len() - 1 {
                    if fd[a].id == dvdoc.id {
                        assert(has_doc(m.docs, dvdoc.id)) by {
                            assert(m.docs[a].id == dvdoc.id);
                        }
                    }
                }
            }
            assert forall|i: int| 0 <= i < fd.len() implies (#[trigger] fd[i]).content.len()
                <= DOC_CONTENT_CAP && fd[i].num_tokens <= DOC_CONTENT_CAP by {
                if i == fd.len() - 1 {
                    lemma_tokens_len(dvdoc.content);
                }
            }
            assert forall|i: int, j: int|
                0 <= i < f.postings.len() && 0 <= j < f.postings[i].1.len() implies has_doc(
                fd,
                (#[trigger] f.postings[i].1[j]).0,
            ) && pos_bounded(f.postings[i].1[j].1) by {
                if exists|w: int, v: int|
                    0 <= w < m.postings.len() && 0 <= v < m.postings[w].1.len()
                        && m.postings[w].1[v] == f.postings[i].1[j] {
                    let wv = choose|w: int, v: int|
                        0 <= w < m.postings.len() && 0 <= v < m.postings[w].1.len()
                            && m.postings[w].1[v] == f.postings[i].1[j];
                    assert(has_doc(m.docs, m.postings[wv.0].1[wv.1].0));
                    assert(pos_bounded(m.postings[wv.0].1[wv.1].1));
                    let w2 = doc_i(m.docs, f.postings[i].1[j].0);
                    assert(fd[w2].id == f.postings[i].1[j].0);
                } else {
                    assert(f.postings[i].1[j].0 == dvdoc.id);
                    assert(fd[fd.len() - 1].id == dvdoc.id);
                }
            }
            assert(engine_wf(f.postings, fd));
            assert forall|i: int, j: int|
                0 <= i < f.tags.len() && 0 <= j < f.tags[i].1.len() implies has_doc(
                fd,
                #[trigger] f.tags[i].1[j],
            ) by {
                let t = f.tags[i].0;
                let x = f.tags[i].1[j];
                assert(crate::tags::tag_has_id(f.tags, t, x)) by {
                    assert(crate::tags::has_tag(f.tags, t)) by {
                        assert(f.tags[i].0 == t);
                    }
                    let k3 = crate::tags::tag_i(f.tags, t);
                    assert(f.tags[k3].0 == t);
                    if k3 != i {
                        if k3 < i {
                            assert(f.tags[k3].0 != f.tags[i].0);
                        } else {
                            assert(f.tags[i].0 != f.tags[k3].0);
                        }
                        assert(false);
                    }
                    assert(crate::tags::ids_of(f.tags, t) == f.tags[i].1);
                    assert(crate::tags::ids_of(f.tags, t).contains(x)) by {
                        assert(crate::tags::ids_of(f.tags, t)[j] == x);
                    }
                }
                lemma_add_tags_contains(m.tags, dvdoc.tags, dvdoc.id, t, x);
                if crate::tags::tag_has_id(m.tags, t, x) {
                    let k4 = crate::tags::tag_i(m.tags, t);
                    assert(m.tags[k4].0 == t);
                    assert(crate::tags::ids_of(m.tags, t) == m.tags[k4].1);
                    let j2 = choose|j2: int|
                        0 <= j2 < m.tags[k4].1.len() && m.tags[k4].1[j2] == x;
                    assert(has_doc(m.docs, m.tags[k4].1[j2]));
                    let w2 = doc_i(m.docs, x);
                    assert(fd[w2].id == x);
                } else {
                    assert(x == dvdoc.id);
                    assert(fd[fd.len() - 1].id == x);
                }
            }
            assert(f.total_tokens == sum_tokens(fd)) by {
                assert(fd.drop_last() =~= m.docs);
                assert(fd.last() == stored_doc(dvdoc));
                lemma_tokens_len(dvdoc.content);
            }
            assert forall|i: int| 0 <= i < fd.len() implies (#[trigger] fd[i]).id
                < f.next_doc_id by {
                if i < fd.len() - 1 {
                    assert(m.docs[i].id < m.next_doc_id);
                }
            }
            assert(index_wf(f));
        }
    }

    /// Removes a document: it disappears from the store, from every
    /// postings list and from every tag; tokens and tags left empty are
    /// dropped; the aggregates are recomputed and the cache cleared. The
    /// removed record is returned so callers can inspect it.
    pub fn remove_document(&mut self, id: u32) -> (r: Option<Document>)
        requires
            old(self).wf(),
        ensures
            final(self).wf(),
            match r {
                Some(d) => has_doc(old(self)@.docs, id) && d@ == doc_of(old(self)@.docs, id)
                    && final(self)@ == remove_doc_spec_index(old(self)@, id),
                None => !has_doc(old(self)@.docs, id) && *final(self) == *old(self),
            },
    {
        let ghost m = old(self)@;
        let ghost dv = m.docs;
        if !self.has_document(id) {
            return None;
        }
        let mut kept: Vec<Document> = Vec::new();
        let mut removed_doc: Option<Document> = None;
        let mut n: usize = 0;
        while n < self.documents.len()
            invariant
                n <= self.documents@.len(),
                dv == self.documents.deep_view(),
                self.documents == old(self).documents,
                kept.deep_view() == docs_without(dv.subrange(0, n as int), id),
                match removed_doc {
                    Some(d) => d@ == doc_of(dv, id) && exists|j: int|
                        0 <= j < n && dv[j].id == id,
                    None => forall|j: int| 0 <= j < n ==> dv[j].id != id,
                },
            decreases self.documents@.len() - n,
        {
            let ghost pre = dv.subrange(0, n as int);
            let ghost post = dv.subrange(0, n + 1 as int);
            proof {
                assert(post.drop_last() =~= pre);
                assert(post.last() == dv[n as int]);
            }
            let d = &self.documents[n];
            if d.id != id {
                kept.push(d.duplicate());
                proof {
                    assert(kept.deep_view() =~= docs_without(post, id));
                }
            } else {
                proof {
                    assert(doc_of(dv, id) == dv[n as int]) by {
                        let k = doc_i(dv, id);
                        assert(dv[k].id == id);
                        if k != n {
                            if k < n {
                                assert(dv[k].id != dv[n as int].id);
                            } else {
                                assert(dv[n as int].id != dv[k].id);
                            }
                            assert(false);
                        }
                    }
                }
                removed_doc = Some(d.duplicate());
            }
            n = n + 1;
        }
        proof {
            assert(dv.subrange(0, dv.len() as int) =~= dv);
        }
        let removed = match removed_doc {
            Some(d) => d,
            None => {
                proof {
                    let k = doc_i(dv, id);
                    assert(dv[k].id == id);
                    assert(false);
                }
                return None;
            },
        };
        self.documents = kept;
        self.postings.remove_doc(id);
        self.tags.remove_id(id);
        self.total_docs = self.documents.len();
        proof {
            lemma_docs_without(dv, id);
            lemma_sum_tokens_nonneg(docs_without(dv, id));
            assert(removed@.num_tokens <= m.total_tokens);
        }
        let nt = removed.num_tokens as u64;
        self.total_tokens = self.total_tokens - nt;
        self.cache.clear();
        proof {
            let f = final(self)@;
            let target = remove_doc_spec_index(m, id);
            assert(f.cache =~= target.cache);
            assert(f =~~= target);
            lemma_remove_doc_structure(m.postings, id);
            crate::tags::lemma_remove_id_structure(m.tags, id);
            let fd = f.docs;
            assert forall|i: int, j: int|
                0 <= i < f.postings.len() && 0 <= j < f.postings[i].1.len() implies has_doc(
                fd,
                (#[trigger] f.postings[i].1[j]).0,
            ) && pos_bounded(f.postings[i].1[j].1) by {
                let wv = choose|w: int, v: int|
                    0 <= w < m.postings.len() && 0 <= v < m.postings[w].1.len()
                        && m.postings[w].1[v] == f.postings[i].1[j];
                assert(has_doc(m.docs, m.postings[wv.0].1[wv.1].0));
                assert(pos_bounded(m.postings[wv.0].1[wv.1].1));
                assert(f.postings[i].1[j].0 != id);
            }
            assert forall|i: int| 0 <= i < fd.len() implies (#[trigger] fd[i]).content.len()
                <= DOC_CONTENT_CAP && fd[i].num_tokens <= DOC_CONTENT_CAP && fd[i].id
                < f.next_doc_id by {
                assert(dv.contains(fd[i]));
                let w = choose|w: int| 0 <= w < dv.len() && dv[w] == fd[i];
                assert(dv[w].content.len() <= DOC_CONTENT_CAP);
                assert(dv[w].id < m.next_doc_id);
            }
            assert(engine_wf(f.postings, fd));
            assert forall|i: int, j: int|
                0 <= i < f.tags.len() && 0 <= j < f.tags[i].1.len() implies has_doc(
                fd,
                #[trigger] f.tags[i].1[j],
            ) by {
                let w = choose|w: int|
                    0 <= w < m.tags.len() && m.tags[w].0 == f.tags[i].0 && f.tags[i].1
                        == crate::tags::ids_without(m.tags[w].1, id);
                crate::tags::lemma_ids_without_props(m.tags[w].1, id);
                assert(m.tags[w].1.contains(f.tags[i].1[j]));
                let v = choose|v: int|
                    0 <= v < m.tags[w].1.len() && m.tags[w].1[v] == f.tags[i].1[j];
                assert(has_doc(m.docs, m.tags[w].1[v]));
                assert(f.tags[i].1[j] != id);
            }
            assert(index_wf(f));
        }
        Some(removed)
    }

    /// Searches the index: the query is classified as a tag lookup, a
    /// phrase, or a keyword query, answered from the cache when possible,
    /// and the computed results are cached. Only the cache changes.
    pub fn search(&mut self, query: &str) -> (r: Vec<SearchResult>)
        requires
            old(self).wf(),
        ensures
            final(self).wf(),
            final(self)@.postings == old(self)@.postings,
            final(self)@.docs == old(self)@.docs,
            final(self)@.tags == old(self)@.tags,
            final(self)@.next_doc_id == old(self)@.next_doc_id,
            final(self)@.total_docs == old(self)@.total_docs,
            final(self)@.total_tokens == old(self)@.total_tokens,
            final(self)@.cache_capacity == old(self)@.cache_capacity,
            search_post(old(self)@, query@, r.deep_view(), final(self)@.cache),
    {
        let ghost m = old(self)@;
        if query.is_empty() {
            let r: Vec<SearchResult> = Vec::new();
            proof {
                assert(r.deep_view() =~= Seq::<crate::doc::SearchResultV>::empty());
            }
            return r;
        }
        let hit = self.cache.get(query);
        match hit {
            Some(rs) => {
                return rs;
            },
            None => {},
        }
        let tokens = self.postings.tokens();
        proof {
            assert(tokens.deep_view() == tok_seq(m.postings));
        }
        let q = classify(query, &tokens);
        match q {
            Query::Empty => {
                let r: Vec<SearchResult> = Vec::new();
                proof {
                    assert(r.deep_view() =~= Seq::<crate::doc::SearchResultV>::empty());
                }
                r
            },
            Query::Tag(t) => {
                if t.as_str().unicode_len() == 0 {
                    let r: Vec<SearchResult> = Vec::new();
                    proof {
                        assert(r.deep_view() =~= Seq::<crate::doc::SearchResultV>::empty());
                    }
                    return r;
                }
                let results = tag_search(&self.tags, &self.documents, t.as_str());
                let copy = duplicate_results(&results);
                self.cache.put(query, copy);
                results
            },
            Query::Phrase(p) => {
                let results = phrase_search(&self.postings, &self.documents, p.as_str());
                let copy = duplicate_results(&results);
                self.cache.put(query, copy);
                results
            },
            Query::Keyword(ts) => {
                if ts.len() == 0 {
                    let r: Vec<SearchResult> = Vec::new();
                    proof {
                        assert(terms_view(ts@) =~= Seq::<(Seq<char>, bool)>::empty());
                        assert(r.deep_view() =~= Seq::<crate::doc::SearchResultV>::empty());
                    }
                    return r;
                }
                proof {
                    assert(terms_view(ts@).len() == ts@.len());
                }
                let results = keyword_search(
                    &self.postings,
                    &self.documents,
                    &ts,
                    self.total_docs as u64,
                    self.total_tokens,
                );
                let copy = duplicate_results(&results);
                self.cache.put(query, copy);
                results
            },
        }
    }

    /// How many documents the store holds.
    pub fn doc_count(&self) -> (r: usize)
        ensures
            r == self@.docs.len(),
    {
        self.documents.len()
    }

    /// The stored document at a position of the store.
    pub fn document_at(&self, i: usize) -> (r: &Document)
        requires
            i < self@.docs.len(),
        ensures
            r@ == self@.docs[i as int],
    {
        &self.documents[i]
    }

    /// Drops every cached result; the capacity is kept.
    pub fn clear_cache(&mut self)
        requires
            old(self).wf(),
        ensures
            final(self).wf(),
            final(self)@ == (IndexV { cache: Seq::empty(), ..old(self)@ }),
    {
        self.cache.clear();
        proof {
            assert(final(self)@ =~~= IndexV { cache: Seq::empty(), ..old(self)@ });
        }
    }

    /// Serializes the persisted parts of the index into one binary blob.
    /// The identifier counter and the live cache are transient and are not
    /// written; the cache capacity is.
    pub fn to_serialized_data(&self) -> (r: Result<Vec<u8>, IndexError>)
        requires
            self.wf(),
        ensures
            match r {
                Ok(bytes) => bytes@ == crate::codec::enc_index(parts_of(self@)),
                Err(_) => false,
            },
    {
        let bytes = crate::codec::encode_index(
            self.cache.capacity as u64,
            self.total_docs as u64,
            self.total_tokens,
            &self.documents,
            &self.postings,
            &self.tags,
        );
        Ok(bytes)
    }

    /// Rebuilds an index from a serialized blob. Fails with
    /// `DeserializationFailure` when the blob cannot be parsed or its
    /// contents are structurally invalid, and with `InvalidCacheCapacity`
    /// when the stored capacity is zero. The identifier counter is reseeded
    /// from the largest identifier and the cache starts empty.
    pub fn from_serialized_data(data: &[u8]) -> (r: Result<InvertedIndex, IndexError>)
        ensures
            match r {
                Ok(idx) => {
                    &&& idx.wf()
                    &&& crate::codec::dec_index(data@) is Some
                    &&& ({
                        let p = crate::codec::dec_index(data@).unwrap();
                        &&& parts_ok(p)
                        &&& idx@.postings == p.postings
                        &&& idx@.docs == p.docs
                        &&& idx@.tags == p.tags
                        &&& idx@.total_docs == p.total_docs
                        &&& idx@.total_tokens == p.total_tokens
                        &&& idx@.cache_capacity == p.cache_capacity
                        &&& idx@.cache.len() == 0
                        &&& idx@.next_doc_id == max_id(p.docs) + 1
                    })
                },
                Err(e) => match crate::codec::dec_index(data@) {
                    Option::None => e == IndexError::DeserializationFailure,
                    Option::Some(p) => (p.cache_capacity == 0 && e
                        == IndexError::InvalidCacheCapacity) || (p.cache_capacity != 0 && !parts_ok(
                        p,
                    ) && e == IndexError::DeserializationFailure),
                },
            },
    {
        let bv = vstd::slice::slice_to_vec(data);
        let parts = match crate::codec::parse_index(&bv) {
            Some(p) => p,
            None => {
                return Err(IndexError::DeserializationFailure);
            },
        };
        let ghost pv = parts@;
        if parts.cache_capacity == 0 {
            return Err(IndexError::InvalidCacheCapacity);
        }
        if parts.cache_capacity > usize::MAX as u64 {
            return Err(IndexError::DeserializationFailure);
        }
        if !check_docs(&parts.documents) {
            return Err(IndexError::DeserializationFailure);
        }
        if !check_postings(&parts.postings, &parts.documents) {
            return Err(IndexError::DeserializationFailure);
        }
        if !check_tags(&parts.tags, &parts.documents) {
            return Err(IndexError::DeserializationFailure);
        }
        if parts.total_docs > DOC_COUNT_CAP || parts.total_docs != parts.documents.len() as u64 {
            return Err(IndexError::DeserializationFailure);
        }
        let sum = sum_num_tokens(&parts.documents);
        if (parts.total_tokens as u128) != sum || parts.total_tokens > TOKEN_TOTAL_CAP {
            return Err(IndexError::DeserializationFailure);
        }
        let mx = max_doc_id(&parts.documents);
        proof {
            lemma_max_id(pv.docs);
            if pv.docs.len() > 0 {
                assert(exists|i: int| 0 <= i < pv.docs.len() && pv.docs[i].id == max_id(pv.docs))
                    by {
                    lemma_max_id_witness(pv.docs);
                }
                let w = choose|i: int|
                    0 <= i < pv.docs.len() && pv.docs[i].id == max_id(pv.docs);
                assert(pv.docs[w].id < 0xFFFF_FFFFu32);
            }
        }
        let idx = InvertedIndex {
            postings: parts.postings,
            documents: parts.documents,
            tags: parts.tags,
            next_doc_id: mx + 1,
            total_docs: parts.total_docs as usize,
            total_tokens: parts.total_tokens,
            cache: SearchCache::new(parts.cache_capacity as usize),
        };
        proof {
            assert(parts_ok(pv));
            assert(idx.wf()) by {
                assert(engine_wf(idx@.postings, idx@.docs));
                assert forall|i: int| 0 <= i < idx@.docs.len() implies (#[trigger] idx@.docs[
                i]).id < idx@.next_doc_id by {
                    lemma_max_id(pv.docs);
                }
            }
        }
        Ok(idx)
    }

    /// The document with this identifier, if any.
    pub fn get(&self, id: u32) -> (r: Option<&Document>)
        requires
            self.wf(),
        ensures
            match r {
                Some(d) => has_doc(self@.docs, id) && d@ == doc_of(self@.docs, id),
                None => !has_doc(self@.docs, id),
            },
    {
        let ghost dv = self@.docs;
        let mut n: usize = 0;
        while n < self.documents.len()
            invariant
                n <= self.documents@.len(),
                dv == self.documents.deep_view(),
                forall|j: int| 0 <= j < n ==> dv[j].id != id,
            decreases self.documents@.len() - n,
        {
            if self.documents[n].id == id {
                proof {
                    assert(dv[n as int].id == id);
                    let k = doc_i(dv, id);
                    assert(dv[k].id == id);
                    if k != n {
                        if k < n {
                            assert(dv[k].id != dv[n as int].id);
                        } else {
                            assert(dv[n as int].id != dv[k].id);
                        }
                        assert(false);
                    }
                }
                return Some(&self.documents[n]);
            }
            n = n + 1;
        }
        None
    }
}

} // verus!
