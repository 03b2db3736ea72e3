//! Laws of the engine that relate several operations: clean removal,
//! tag-index consistency, and cache coherence.

use vstd::prelude::*;

use crate::cache::{
    cache_lookup, cache_wf, lemma_promote_lookup, lemma_put_then_lookup, promote_spec, put_spec,
    CacheV,
};
use crate::classify::{classify_spec, QueryV};
use crate::doc::{DocumentV, SearchResultV};
use crate::index::{
    add_doc_spec, docs_without, index_wf, lemma_docs_without_absent, remove_doc_spec_index,
    search_post, stored_doc, IndexV,
};
use crate::postings::{group_tokens, lemma_remove_index_doc, remove_doc_spec, tok_seq};
use crate::search::{
    doc_i, doc_of, has_doc, tag_result_of, tag_results_rec, tag_results_spec,
};
use crate::tags::{
    add_tags_spec, ids_of, lemma_add_tags_contains, lemma_remove_add_tags,
    lemma_remove_id_contains, remove_id_spec, tag_has_id, tags_wf, TagsV,
};
use crate::tokenizer::tokens_of;

verus! {

/// Adding a document and then removing it leaves no trace: the postings
/// index, the tag index and the document store return exactly to their
/// previous states, so no entry references the document's identifier and
/// no token or tag the document alone introduced remains.
pub proof fn lemma_add_then_remove_clean(m: IndexV, d: DocumentV)
    requires
        index_wf(m),
        !has_doc(m.docs, d.id),
    ensures
        remove_doc_spec(add_doc_spec(m, d).postings, d.id) == m.postings,
        remove_id_spec(add_doc_spec(m, d).tags, d.id) == m.tags,
        docs_without(add_doc_spec(m, d).docs, d.id) == m.docs,
{
    assert forall|i: int, j: int|
        0 <= i < m.postings.len() && 0 <= j < m.postings[i].1.len() implies (
    #[trigger] m.postings[i].1[j]).0 != d.id by {
        assert(has_doc(m.docs, m.postings[i].1[j].0));
    }
    lemma_remove_index_doc(m.postings, d.id, group_tokens(tokens_of(d.content)));
    assert forall|i: int, j: int|
        0 <= i < m.tags.len() && 0 <= j < m.tags[i].1.len() implies (#[trigger] m.tags[i].1[j])
        != d.id by {
        assert(has_doc(m.docs, m.tags[i].1[j]));
    }
    lemma_remove_add_tags(m.tags, d.tags, d.id);
    let nd = m.docs.push(stored_doc(d));
    assert(nd.last().id == d.id);
    assert(nd.drop_last() =~= m.docs);
    lemma_docs_without_absent(m.docs, d.id);
}

/// Tag-index consistency: a document id stands in a tag's set exactly when
/// that document's tag set holds the tag.
pub open spec fn tags_synced(ts: TagsV, docs: Seq<DocumentV>) -> bool {
    forall|t: Seq<char>, id: u32|
        #[trigger] tag_has_id(ts, t, id) <==> (has_doc(docs, id) && doc_of(docs, id).tags.contains(
            t,
        ))
}

/// A fresh index is consistent: no tags, no documents.
pub proof fn lemma_empty_tags_synced()
    ensures
        tags_synced(Seq::empty(), Seq::empty()),
{
    assert forall|t: Seq<char>, id: u32| !(#[trigger] tag_has_id(
        Seq::<(Seq<char>, Seq<u32>)>::empty(),
        t,
        id,
    )) by {
        if crate::tags::has_tag(Seq::<(Seq<char>, Seq<u32>)>::empty(), t) {
            let i = crate::tags::tag_i(Seq::<(Seq<char>, Seq<u32>)>::empty(), t);
            assert(false);
        }
    }
    assert forall|id: u32| !has_doc(Seq::<DocumentV>::empty(), id) by {}
}

/// Adding a document keeps the tag index consistent with the documents.
pub proof fn lemma_add_preserves_tags_synced(m: IndexV, d: DocumentV)
    requires
        index_wf(m),
        tags_synced(m.tags, m.docs),
        !has_doc(m.docs, d.id),
    ensures
        tags_synced(add_doc_spec(m, d).tags, add_doc_spec(m, d).docs),
{
    let nts = add_doc_spec(m, d).tags;
    let nd = add_doc_spec(m, d).docs;
    assert(nd == m.docs.push(stored_doc(d)));
    assert forall|t: Seq<char>, id: u32| #[trigger] tag_has_id(nts, t, id) <==> (has_doc(nd, id)
        && doc_of(nd, id).tags.contains(t)) by {
        lemma_add_tags_contains(m.tags, d.tags, d.id, t, id);
        if id == d.id {
            assert(has_doc(nd, id)) by {
                assert(nd[nd.len() - 1].id == id);
            }
            assert(doc_of(nd, id) == stored_doc(d)) by {
                let w = doc_i(nd, id);
                assert(nd[w].id == id);
                if w != nd.len() - 1 {
                    assert(m.docs[w].id == id);
                    assert(has_doc(m.docs, id));
                    assert(false);
                }
            }
            assert(!tag_has_id(m.tags, t, id));
        } else {
            assert(has_doc(nd, id) <==> has_doc(m.docs, id)) by {
                if has_doc(nd, id) {
                    let w = doc_i(nd, id);
                    assert(nd[w].id == id);
                    assert(w != nd.len() - 1);
                    assert(m.docs[w].id == id);
                }
                if has_doc(m.docs, id) {
                    let w = doc_i(m.docs, id);
                    assert(nd[w].id == id);
                }
            }
            if has_doc(m.docs, id) {
                assert(doc_of(nd, id) == doc_of(m.docs, id)) by {
                    let w = doc_i(m.docs, id);
                    assert(m.docs[w].id == id);
                    assert(nd[w].id == id);
                    let w2 = doc_i(nd, id);
                    assert(nd[w2].id == id);
                    if w2 != w {
                        if w2 == nd.len() - 1 {
                            assert(false);
                        }
                        assert(m.docs[w2].id == id);
                        if w2 < w {
                            assert(m.docs[w2].id != m.docs[w].id);
                        } else {
                            assert(m.docs[w].id != m.docs[w2].id);
                        }
                        assert(false);
                    }
                }
            }
        }
    }
}

/// Removing a document keeps the tag index consistent with the documents.
pub proof fn lemma_remove_preserves_tags_synced(m: IndexV, id: u32)
    requires
        index_wf(m),
        tags_synced(m.tags, m.docs),
        has_doc(m.docs, id),
    ensures
        tags_synced(remove_doc_spec_index(m, id).tags, remove_doc_spec_index(m, id).docs),
{
    let nts = remove_doc_spec_index(m, id).tags;
    let nd = remove_doc_spec_index(m, id).docs;
    crate::index::lemma_docs_without(m.docs, id);
    assert forall|t: Seq<char>, id2: u32| #[trigger] tag_has_id(nts, t, id2) <==> (has_doc(
        nd,
        id2,
    ) && doc_of(nd, id2).tags.contains(t)) by {
        lemma_remove_id_contains(m.tags, id, t, id2);
    }
}

/// A tag lookup returns exactly the documents whose tag set holds the tag,
/// each exactly once.
pub proof fn lemma_tag_search_exact(m: IndexV, t: Seq<char>)
    requires
        index_wf(m),
        tags_synced(m.tags, m.docs),
    ensures
        forall|id: u32| (exists|j: int|
            0 <= j < tag_results_spec(m.tags, m.docs, t).len() && (#[trigger] tag_results_spec(
                m.tags,
                m.docs,
                t,
            )[j]).doc.id == id) <==> (has_doc(m.docs, id) && doc_of(m.docs, id).tags.contains(t)),
{
    let ids = ids_of(m.tags, t);
    lemma_tag_results_ids(ids, m.docs);
    let rs = tag_results_spec(m.tags, m.docs, t);
    assert forall|id: u32| (exists|j: int| 0 <= j < rs.len() && (#[trigger] rs[j]).doc.id == id)
        implies (has_doc(m.docs, id) && doc_of(m.docs, id).tags.contains(t)) by {
        let j = choose|j: int| 0 <= j < rs.len() && (#[trigger] rs[j]).doc.id == id;
        assert(rs[j] == tag_result_of(m.docs, ids[j]));
        assert(ids.contains(ids[j]));
        assert(tag_has_id(m.tags, t, ids[j]));
        assert(doc_of(m.docs, ids[j]).id == ids[j]) by {
            lemma_tag_refs(m, t, j);
        }
        assert(id == ids[j]);
    }
    assert forall|id: u32| (has_doc(m.docs, id) && doc_of(m.docs, id).tags.contains(t)) implies (
    exists|j: int| 0 <= j < rs.len() && (#[trigger] rs[j]).doc.id == id) by {
        assert(tag_has_id(m.tags, t, id));
        let j = choose|j: int| 0 <= j < ids.len() && ids[j] == id;
        assert(rs[j] == tag_result_of(m.docs, id));
        assert(doc_of(m.docs, id).id == id) by {
            let w = doc_i(m.docs, id);
        }
        assert(rs[j].doc.id == id);
    }
}

proof fn lemma_tag_refs(m: IndexV, t: Seq<char>, j: int)
    requires
        index_wf(m),
        0 <= j < ids_of(m.tags, t).len(),
    ensures
        has_doc(m.docs, ids_of(m.tags, t)[j]),
        doc_of(m.docs, ids_of(m.tags, t)[j]).id == ids_of(m.tags, t)[j],
{
    let ids = ids_of(m.tags, t);
    assert(crate::tags::has_tag(m.tags, t));
    let i = crate::tags::tag_i(m.tags, t);
    assert(m.tags[i].1[j] == ids[j]);
    assert(has_doc(m.docs, m.tags[i].1[j]));
    let w = doc_i(m.docs, ids[j]);
    assert(m.docs[w].id == ids[j]);
}

proof fn lemma_tag_results_ids(ids: Seq<u32>, docs: Seq<DocumentV>)
    ensures
        tag_results_rec(ids, docs).len() == ids.len(),
        forall|j: int| 0 <= j < ids.len() ==> #[trigger] tag_results_rec(ids, docs)[j]
            == tag_result_of(docs, ids[j]),
    decreases ids.len(),
{
    if ids.len() > 0 {
        lemma_tag_results_ids(ids.drop_last(), docs);
        assert forall|j: int| 0 <= j < ids.len() implies #[trigger] tag_results_rec(ids, docs)[j]
            == tag_result_of(docs, ids[j]) by {
            if j < ids.len() - 1 {
                assert(ids.drop_last()[j] == ids[j]);
                assert(tag_results_rec(ids, docs)[j] == tag_results_rec(ids.drop_last(), docs)[j]);
            }
        }
    }
}

/// Cache coherence: issuing the same query twice with no intervening
/// mutation yields the same results; the second call is answered by the
/// cache that the first call filled.
pub proof fn lemma_search_coherent(
    m: IndexV,
    q: Seq<char>,
    rv1: Seq<SearchResultV>,
    cache2: CacheV,
    rv2: Seq<SearchResultV>,
    cache3: CacheV,
)
    requires
        index_wf(m),
        search_post(m, q, rv1, cache2),
        cache_wf(cache2, m.cache_capacity),
        search_post(IndexV { cache: cache2, ..m }, q, rv2, cache3),
    ensures
        rv2 =~= rv1,
{
    let m2 = IndexV { cache: cache2, ..m };
    if q.len() == 0 {
    } else if cache_lookup(m.cache, q) is Some {
        assert(rv1 == cache_lookup(m.cache, q).unwrap());
        assert(cache2 == promote_spec(m.cache, q));
        lemma_promote_lookup(m.cache, q, m.cache_capacity);
        assert(cache_lookup(cache2, q) == cache_lookup(m.cache, q));
        assert(rv2 == cache_lookup(cache2, q).unwrap());
    } else {
        match classify_spec(q, tok_seq(m.postings)) {
            QueryV::Empty => {
                lemma_promote_lookup(m.cache, q, m.cache_capacity);
            },
            QueryV::Tag(t) => {
                if t.len() == 0 {
                    lemma_promote_lookup(m.cache, q, m.cache_capacity);
                } else {
                    assert(cache2 == put_spec(m.cache, q, rv1, m.cache_capacity));
                    lemma_put_then_lookup(m.cache, q, rv1, m.cache_capacity);
                    assert(cache_lookup(cache2, q) == Some(rv1));
                    assert(rv2 == rv1);
                }
            },
            QueryV::Phrase(_p) => {
                assert(cache2 == put_spec(m.cache, q, rv1, m.cache_capacity));
                lemma_put_then_lookup(m.cache, q, rv1, m.cache_capacity);
                assert(rv2 == rv1);
            },
            QueryV::Keyword(ts) => {
                if ts.len() == 0 {
                    lemma_promote_lookup(m.cache, q, m.cache_capacity);
                } else {
                    assert(cache2 == put_spec(m.cache, q, rv1, m.cache_capacity));
                    lemma_put_then_lookup(m.cache, q, rv1, m.cache_capacity);
                    assert(rv2 == rv1);
                }
            },
        }
    }
}

} // verus!
