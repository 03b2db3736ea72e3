//! The search algorithms: tag lookup, positional phrase search, and
//! keyword search with BM25 ranking and fuzzy fallback.

use vstd::prelude::*;

use vstd::seq_lib::seq_to_set_is_finite;
use vstd::set_lib::lemma_len_subset;

use crate::SCORE_SCALE;
use crate::doc::{Document, DocumentV, SearchResult, SearchResultV, DOC_CONTENT_CAP};
use crate::fuzzy::{best_match, find_fuzzy};
use crate::postings::{
    entries_of, df_of, has_id, has_tok, ids_unique, positions_in, postings_wf, tf_of, tok_i,
    tok_seq, PostingEntry, PostingsIndex, PostingsV,
};
use crate::rank::{rank_sorted, sort_ranked};
use crate::score::{term_score, term_score_spec};
use crate::snippet::{dots, make_snippet, snippet_spec};
use crate::tags::{ids_of, tags_wf, TagIndex, TagsV};
use crate::text::chars_of;
use crate::classify::terms_view;
use crate::tokenizer::{tokenize, tokens_of};

verus! {

/// Whether some document carries identifier `id`.
pub open spec fn has_doc(docs: Seq<DocumentV>, id: u32) -> bool {
    exists|i: int| 0 <= i < docs.len() && docs[i].id == id
}

/// The index of the document with identifier `id`.
pub open spec fn doc_i(docs: Seq<DocumentV>, id: u32) -> int {
    choose|i: int| 0 <= i < docs.len() && docs[i].id == id
}

/// The document with identifier `id`.
pub open spec fn doc_of(docs: Seq<DocumentV>, id: u32) -> DocumentV {
    docs[doc_i(docs, id)]
}

/// Whether document identifiers are pairwise distinct.
pub open spec fn docs_unique(docs: Seq<DocumentV>) -> bool {
    forall|i: int, j: int| 0 <= i < j < docs.len() ==> docs[i].id != docs[j].id
}

/// Bounds on a position list: length and values within the content cap.
pub open spec fn pos_bounded(s: Seq<usize>) -> bool {
    s.len() <= DOC_CONTENT_CAP && forall|m: int| 0 <= m < s.len() ==> s[m] <= DOC_CONTENT_CAP
}

/// Well-formedness of the searchable state: a well-formed postings index
/// whose entries reference existing documents with bounded position lists,
/// over documents with distinct ids and bounded sizes.
pub open spec fn engine_wf(ps: PostingsV, docs: Seq<DocumentV>) -> bool {
    &&& postings_wf(ps)
    &&& docs_unique(docs)
    &&& forall|i: int| 0 <= i < docs.len() ==> (#[trigger] docs[i]).content.len()
        <= DOC_CONTENT_CAP && docs[i].num_tokens <= DOC_CONTENT_CAP
    &&& forall|i: int, j: int| 0 <= i < ps.len() && 0 <= j < ps[i].1.len() ==> has_doc(
        docs,
        (#[trigger] ps[i].1[j]).0,
    ) && pos_bounded(ps[i].1[j].1)
}

/// A postings list that only references existing documents is no longer
/// than the document list.
pub proof fn lemma_df_le_docs(es: Seq<(u32, Seq<usize>)>, docs: Seq<DocumentV>)
    requires
        ids_unique(es),
        docs_unique(docs),
        forall|j: int| 0 <= j < es.len() ==> has_doc(docs, (#[trigger] es[j]).0),
    ensures
        es.len() <= docs.len(),
{
    broadcast use vstd::set::group_set_axioms;
    broadcast use seq_to_set_is_finite;

    let ids = es.map_values(|e: (u32, Seq<usize>)| e.0);
    let dids = docs.map_values(|d: DocumentV| d.id);
    assert forall|i: int, j: int| 0 <= i < j < ids.len() implies ids[i] != ids[j] by {
        assert(es[i].0 != es[j].0);
    }
    assert(ids.no_duplicates());
    assert forall|i: int, j: int| 0 <= i < j < dids.len() implies dids[i] != dids[j] by {
        assert(docs[i].id != docs[j].id);
    }
    assert(dids.no_duplicates());
    ids.unique_seq_to_set();
    dids.unique_seq_to_set();
    assert forall|x: u32| ids.to_set().contains(x) implies dids.to_set().contains(x) by {
        let j = choose|j: int| 0 <= j < ids.len() && ids[j] == x;
        assert(es[j].0 == x);
        assert(has_doc(docs, x));
        let m = doc_i(docs, x);
        assert(dids[m] == x);
        assert(dids.contains(x));
    }
    lemma_len_subset(ids.to_set(), dids.to_set());
}

/// The (score, id) pairs of a result list.
pub open spec fn results_pairs(rs: Seq<SearchResultV>) -> Seq<(u128, u32)> {
    rs.map_values(|x: SearchResultV| (x.score, x.doc.id))
}

/// A ranked result with the given score for document `id`, decorated with
/// the snippet computed from the locate and highlight terms.
pub open spec fn built_result(
    docs: Seq<DocumentV>,
    pair: (u128, u32),
    locate: Seq<Seq<char>>,
    highlight: Seq<Seq<char>>,
) -> SearchResultV {
    let d = doc_of(docs, pair.1);
    let sp = snippet_spec(d.content, locate, highlight);
    SearchResultV { doc: d, score: pair.0, snippet: sp.0, highlights: sp.1, tags: d.tags }
}

/// Finds the index of the entry for document `id` in a postings list.
fn find_entry(entries: &Vec<PostingEntry>, id: u32) -> (r: Option<usize>)
    ensures
        match r {
            Some(n) => n < entries@.len() && entries.deep_view()[n as int].0 == id,
            None => !has_id(entries.deep_view(), id),
        },
{
    let ghost ev = entries.deep_view();
    let mut n: usize = 0;
    while n < entries.len()
        invariant
            n <= entries@.len(),
            forall|j: int| 0 <= j < n ==> ev[j].0 != id,
        decreases entries@.len() - n,
    {
        if entries[n].doc_id == id {
            return Some(n);
        }
        n = n + 1;
    }
    None
}

/// Whether `x` occurs in a position list.
fn pos_list_contains(v: &Vec<usize>, x: usize) -> (r: bool)
    ensures
        r == crate::search::pos_contains(v@, x as int),
{
    let mut m: usize = 0;
    while m < v.len()
        invariant
            m <= v@.len(),
            forall|j: int| 0 <= j < m ==> v@[j] != x,
        decreases v@.len() - m,
    {
        if v[m] == x {
            return true;
        }
        m = m + 1;
    }
    false
}

/// Whether value `x` occurs in the position list.
pub open spec fn pos_contains(s: Seq<usize>, x: int) -> bool {
    exists|m: int| 0 <= m < s.len() && s[m] == x
}

/// Finds the index of the document with identifier `id`.
fn doc_lookup(docs: &Vec<Document>, id: u32) -> (r: usize)
    requires
        docs_unique(docs.deep_view()),
        has_doc(docs.deep_view(), id),
    ensures
        r < docs@.len(),
        docs.deep_view()[r as int].id == id,
        doc_i(docs.deep_view(), id) == r,
{
    let ghost dv = docs.deep_view();
    let mut n: usize = 0;
    while n < docs.len()
        invariant
            n <= docs@.len(),
            forall|j: int| 0 <= j < n ==> dv[j].id != id,
        decreases docs@.len() - n,
    {
        if docs[n].id == id {
            proof {
                let k = doc_i(dv, id);
                assert(dv[k].id == id);
                if k != n {
                    assert(dv[k].id != dv[n as int].id || k == n);
                    assert(false);
                }
            }
            return n;
        }
        n = n + 1;
    }
    proof {
        let k = doc_i(dv, id);
        assert(dv[k].id == id);
        assert(false);
    }
    0
}

/// Converts a string list to a list of character lists.
fn strings_to_char_lists(v: &Vec<String>) -> (r: Vec<Vec<char>>)
    ensures
        r.deep_view() == v.deep_view(),
{
    let mut r: Vec<Vec<char>> = Vec::new();
    let mut i: usize = 0;
    while i < v.len()
        invariant
            i <= v@.len(),
            r@.len() == i,
            forall|j: int| 0 <= j < i ==> r@[j]@ == #[trigger] v@[j]@,
        decreases v@.len() - i,
    {
        r.push(chars_of(v[i].as_str()));
        i = i + 1;
    }
    proof {
        assert(r.deep_view() =~~= v.deep_view());
    }
    r
}

/// Builds the decorated results for ranked (score, id) pairs.
fn build_results(
    docs: &Vec<Document>,
    pairs: &Vec<(u128, u32)>,
    locate: &Vec<Vec<char>>,
    highlight: &Vec<Vec<char>>,
) -> (r: Vec<SearchResult>)
    requires
        docs_unique(docs.deep_view()),
        forall|i: int| 0 <= i < docs.deep_view().len() ==> (#[trigger] docs.deep_view()[i]).content.len()
            <= DOC_CONTENT_CAP,
        forall|j: int| 0 <= j < pairs@.len() ==> has_doc(docs.deep_view(), (#[trigger] pairs@[j]).1),
    ensures
        r.deep_view().len() == pairs@.len(),
        forall|j: int| 0 <= j < pairs@.len() ==> r.deep_view()[j] == built_result(
            docs.deep_view(),
            #[trigger] pairs@[j],
            locate.deep_view(),
            highlight.deep_view(),
        ),
{
    let ghost dv = docs.deep_view();
    let mut r: Vec<SearchResult> = Vec::new();
    let mut j: usize = 0;
    while j < pairs.len()
        invariant
            j <= pairs@.len(),
            r@.len() == j,
            forall|m: int| 0 <= m < j ==> r@[m]@ == built_result(
                dv,
                #[trigger] pairs@[m],
                locate.deep_view(),
                highlight.deep_view(),
            ),
        decreases pairs@.len() - j,
    {
        let (score, id) = pairs[j];
        let d = doc_lookup(docs, id);
        let doc = &docs[d];
        let content = chars_of(doc.content.as_str());
        let (snippet, highlights) = make_snippet(&content, locate, highlight);
        let tags = doc.tags.clone();
        proof {
            assert(tags@ =~= doc.tags@);
            assert(tags.deep_view() =~= doc.tags.deep_view());
        }
        r.push(SearchResult { doc: doc.duplicate(), score, snippet, highlights, tags });
        j = j + 1;
    }
    proof {
        assert(r.deep_view().len() == pairs@.len());
    }
    r
}

/// A result of a tag lookup: constant score, placeholder snippet.
pub open spec fn tag_result_of(docs: Seq<DocumentV>, id: u32) -> SearchResultV {
    let d = doc_of(docs, id);
    SearchResultV {
        doc: d,
        score: SCORE_SCALE as u128,
        snippet: dots(),
        highlights: Seq::empty(),
        tags: d.tags,
    }
}

/// The results of a tag lookup: the tag's documents in index order.
pub open spec fn tag_results_rec(ids: Seq<u32>, docs: Seq<DocumentV>) -> Seq<SearchResultV>
    decreases ids.len(),
{
    if ids.len() == 0 {
        Seq::empty()
    } else {
        tag_results_rec(ids.drop_last(), docs).push(tag_result_of(docs, ids.last()))
    }
}

/// The results of looking tag `t` up.
pub open spec fn tag_results_spec(ts: TagsV, docs: Seq<DocumentV>, t: Seq<char>) -> Seq<
    SearchResultV,
> {
    tag_results_rec(ids_of(ts, t), docs)
}

/// Looks tag `t` up: every document carrying the tag becomes a result with
/// score 1.0 and a placeholder snippet, in index order.
pub fn tag_search(tags: &TagIndex, docs: &Vec<Document>, t: &str) -> (r: Vec<SearchResult>)
    requires
        tags_wf(tags@),
        docs_unique(docs.deep_view()),
        forall|i: int, j: int| 0 <= i < tags@.len() && 0 <= j < tags@[i].1.len() ==> has_doc(
            docs.deep_view(),
            #[trigger] tags@[i].1[j],
        ),
    ensures
        r.deep_view() == tag_results_spec(tags@, docs.deep_view(), t@),
{
    let ghost tv = tags@;
    let ghost dv = docs.deep_view();
    let found = tags.find(t);
    match found {
        None => {
            let r: Vec<SearchResult> = Vec::new();
            proof {
                assert(!crate::tags::has_tag(tv, t@));
                assert(r.deep_view() =~= tag_results_spec(tv, dv, t@));
            }
            r
        },
        Some(i) => {
            proof {
                assert(crate::tags::has_tag(tv, t@));
                let k = crate::tags::tag_i(tv, t@);
                assert(tv[k].0 == t@);
                if k != i {
                    assert(tv[k].0 == tv[i as int].0);
                }
                assert(ids_of(tv, t@) == tv[i as int].1);
            }
            let entry = &tags.items[i];
            let ghost ids = entry.ids@;
            let mut r: Vec<SearchResult> = Vec::new();
            let mut m: usize = 0;
            while m < entry.ids.len()
                invariant
                    m <= entry.ids@.len(),
                    ids == entry.ids@,
                    ids == ids_of(tv, t@),
                    r@.len() == m,
                    forall|j: int| 0 <= j < m ==> r@[j]@ == tag_results_rec(
                        ids.subrange(0, m as int),
                        dv,
                    )[j],
                    r.deep_view() == tag_results_rec(ids.subrange(0, m as int), dv),
                decreases entry.ids@.len() - m,
            {
                let ghost pre = ids.subrange(0, m as int);
                let ghost post = ids.subrange(0, m + 1 as int);
                proof {
                    assert(post.drop_last() =~= pre);
                    assert(post.last() == ids[m as int]);
                    assert(tv[i as int].1[m as int] == ids[m as int]);
                    assert(has_doc(dv, ids[m as int]));
                }
                let id = entry.ids[m];
                let d = doc_lookup(docs, id);
                let doc = &docs[d];
                let mut snippet: Vec<char> = Vec::new();
                snippet.push('.');
                snippet.push('.');
                snippet.push('.');
                proof {
                    assert(snippet@ =~= dots());
                }
                let tags_copy = doc.tags.clone();
                proof {
                    assert(tags_copy@ =~= doc.tags@);
                    assert(tags_copy.deep_view() =~= doc.tags.deep_view());
                }
                r.push(
                    SearchResult {
                        doc: doc.duplicate(),
                        score: SCORE_SCALE as u128,
                        snippet: crate::text::chars_to_string(&snippet),
                        highlights: Vec::new(),
                        tags: tags_copy,
                    },
                );
                m = m + 1;
                proof {
                    assert(r.deep_view() =~= tag_results_rec(post, dv));
                }
            }
            proof {
                assert(ids.subrange(0, ids.len() as int) =~= ids);
            }
            r
        },
    }
}

/// Whether every phrase token has a postings entry.
pub open spec fn phrase_tokens_present(ps: PostingsV, toks: Seq<Seq<char>>) -> bool {
    forall|i: int| 0 <= i < toks.len() ==> has_tok(ps, #[trigger] toks[i])
}

/// Whether an occurrence of the first token at position `p` starts a full
/// phrase match: every following token occurs at the following position.
pub open spec fn aligned(ps: PostingsV, toks: Seq<Seq<char>>, id: u32, p: int) -> bool {
    forall|i: int| 1 <= i < toks.len() ==> pos_contains(
        positions_in(entries_of(ps, #[trigger] toks[i]), id),
        p + i,
    )
}

/// How many of the first `upto` occurrences of the first token start a full
/// phrase match in document `id`.
pub open spec fn aligned_count(ps: PostingsV, toks: Seq<Seq<char>>, id: u32, upto: int) -> int
    decreases upto,
{
    if upto <= 0 {
        0
    } else {
        aligned_count(ps, toks, id, upto - 1) + if aligned(
            ps,
            toks,
            id,
            positions_in(entries_of(ps, toks[0]), id)[upto - 1] as int,
        ) {
            1int
        } else {
            0int
        }
    }
}

/// The phrase match count of document `id`.
pub open spec fn phrase_count(ps: PostingsV, toks: Seq<Seq<char>>, id: u32) -> int {
    aligned_count(ps, toks, id, positions_in(entries_of(ps, toks[0]), id).len() as int)
}

/// Whether document `id` is a phrase hit: it holds the first token and at
/// least one occurrence aligns with the whole phrase.
pub open spec fn phrase_hit(ps: PostingsV, toks: Seq<Seq<char>>, id: u32) -> bool {
    &&& toks.len() > 0
    &&& has_id(entries_of(ps, toks[0]), id)
    &&& phrase_count(ps, toks, id) >= 1
}

proof fn lemma_aligned_count_witness(ps: PostingsV, toks: Seq<Seq<char>>, id: u32, upto: int)
    requires
        aligned_count(ps, toks, id, upto) >= 1,
        upto <= positions_in(entries_of(ps, toks[0]), id).len(),
    ensures
        exists|j: int|
            0 <= j < positions_in(entries_of(ps, toks[0]), id).len() && aligned(
                ps,
                toks,
                id,
                #[trigger] positions_in(entries_of(ps, toks[0]), id)[j] as int,
            ),
    decreases upto,
{
    if upto > 0 {
        if aligned(ps, toks, id, positions_in(entries_of(ps, toks[0]), id)[upto - 1] as int) {
        } else {
            lemma_aligned_count_witness(ps, toks, id, upto - 1);
        }
    }
}

/// A phrase hit always rests on a real alignment: some occurrence of the
/// first token is immediately followed, position by position, by the
/// remaining tokens of the phrase.
pub proof fn lemma_phrase_hit_has_alignment(ps: PostingsV, toks: Seq<Seq<char>>, id: u32)
    requires
        phrase_hit(ps, toks, id),
    ensures
        exists|j: int|
            0 <= j < positions_in(entries_of(ps, toks[0]), id).len() && aligned(
                ps,
                toks,
                id,
                #[trigger] positions_in(entries_of(ps, toks[0]), id)[j] as int,
            ),
{
    lemma_aligned_count_witness(
        ps,
        toks,
        id,
        positions_in(entries_of(ps, toks[0]), id).len() as int,
    );
}

/// The result of a phrase hit: the match count as score.
pub open spec fn phrase_result_of(
    ps: PostingsV,
    docs: Seq<DocumentV>,
    toks: Seq<Seq<char>>,
    interior: Seq<char>,
    id: u32,
) -> SearchResultV {
    built_result(
        docs,
        ((phrase_count(ps, toks, id) * (SCORE_SCALE as int)) as u128, id),
        seq![interior],
        toks,
    )
}

/// What phrase search promises of its result list: nothing for an empty or
/// partly unindexed phrase; otherwise the ranked, duplicate-free list of
/// exactly the phrase hits, each with its match count and snippet.
pub open spec fn phrase_results_ok(
    ps: PostingsV,
    docs: Seq<DocumentV>,
    interior: Seq<char>,
    rv: Seq<SearchResultV>,
) -> bool {
    let toks = tokens_of(interior);
    &&& (toks.len() == 0 ==> rv.len() == 0)
    &&& (!phrase_tokens_present(ps, toks) ==> rv.len() == 0)
    &&& (toks.len() > 0 && phrase_tokens_present(ps, toks) ==> {
        &&& rank_sorted(results_pairs(rv))
        &&& (forall|id: u32| phrase_hit(ps, toks, id) <==> exists|j: int|
            0 <= j < rv.len() && (#[trigger] rv[j]).doc.id == id)
        &&& (forall|j: int| 0 <= j < rv.len() ==> (#[trigger] rv[j]) == phrase_result_of(
            ps,
            docs,
            toks,
            interior,
            rv[j].doc.id,
        ))
        &&& (forall|j1: int, j2: int| 0 <= j1 < j2 < rv.len() ==> rv[j1].doc.id != rv[j2].doc.id)
    })
}

/// What keyword search promises of its result list: nothing when no term
/// resolves; otherwise the ranked, duplicate-free list of exactly the
/// documents holding every resolved term, each with its BM25 score.
pub open spec fn keyword_results_ok(
    ps: PostingsV,
    docs: Seq<DocumentV>,
    terms: Seq<(Seq<char>, bool)>,
    n_docs: int,
    tt: int,
    rv: Seq<SearchResultV>,
) -> bool {
    let resolved = resolve_terms(ps, terms);
    &&& (resolved.len() == 0 ==> rv.len() == 0)
    &&& (resolved.len() > 0 ==> {
        &&& rank_sorted(results_pairs(rv))
        &&& (forall|id: u32| kw_hit(ps, resolved, id) <==> exists|j: int|
            0 <= j < rv.len() && (#[trigger] rv[j]).doc.id == id)
        &&& (forall|j: int| 0 <= j < rv.len() ==> (#[trigger] rv[j]) == kw_result_of(
            ps,
            docs,
            resolved,
            n_docs,
            tt,
            rv[j].doc.id,
        ))
        &&& (forall|j1: int, j2: int| 0 <= j1 < j2 < rv.len() ==> rv[j1].doc.id != rv[j2].doc.id)
    })
}

/// Decides whether position `p` of the first token starts a full phrase
/// match of the tokens in document `id`.
fn check_aligned(
    postings: &PostingsIndex,
    toks: &Vec<String>,
    tok_pos: &Vec<usize>,
    id: u32,
    p: usize,
) -> (b: bool)
    requires
        postings_wf(postings@),
        toks.deep_view().len() >= 1,
        tok_pos@.len() == toks.deep_view().len(),
        forall|j: int| 0 <= j < tok_pos@.len() ==> (#[trigger] tok_pos@[j]) < postings@.len()
            && postings@[tok_pos@[j] as int].0 == toks.deep_view()[j],
        forall|i: int, j: int| 0 <= i < postings@.len() && 0 <= j < postings@[i].1.len()
            ==> pos_bounded((#[trigger] postings@[i].1[j]).1),
    ensures
        b == aligned(postings@, toks.deep_view(), id, p as int),
{
    let ghost psv = postings@;
    let ghost tv = toks.deep_view();
    let mut i: usize = 1;
    while i < tok_pos.len()
        invariant
            1 <= i <= tok_pos@.len(),
            forall|w: int| 1 <= w < i ==> pos_contains(
                positions_in(entries_of(psv, #[trigger] tv[w]), id),
                p + w,
            ),
        decreases tok_pos@.len() - i,
    {
        proof {
            assert(psv[tok_pos@[i as int] as int].0 == tv[i as int]);
            assert(has_tok(psv, tv[i as int]));
            let k = tok_i(psv, tv[i as int]);
            assert(psv[k].0 == tv[i as int]);
            if k != tok_pos@[i as int] {
                assert(psv[k].0 == psv[tok_pos@[i as int] as int].0);
            }
            assert(entries_of(psv, tv[i as int]) == psv[tok_pos@[i as int] as int].1);
        }
        let ti = tok_pos[i];
        let entries = &postings.items[ti].entries;
        match p.checked_add(i) {
            None => {
                proof {
                    let pos = positions_in(entries_of(psv, tv[i as int]), id);
                    if has_id(entries.deep_view(), id) {
                        let n = choose|n: int|
                            0 <= n < entries.deep_view().len() && entries.deep_view()[n].0 == id;
                        assert(pos_bounded(psv[ti as int].1[n].1));
                    }
                    assert(forall|m: int| 0 <= m < pos.len() ==> pos[m] <= DOC_CONTENT_CAP);
                    assert(!pos_contains(pos, p + i));
                }
                return false;
            },
            Some(exp) => {
                match find_entry(entries, id) {
                    None => {
                        proof {
                            assert(!has_id(entries_of(psv, tv[i as int]), id));
                            assert(positions_in(entries_of(psv, tv[i as int]), id)
                                =~= Seq::<usize>::empty());
                            assert(!pos_contains(
                                positions_in(entries_of(psv, tv[i as int]), id),
                                p + i,
                            ));
                        }
                        return false;
                    },
                    Some(n) => {
                        proof {
                            let es = entries_of(psv, tv[i as int]);
                            assert(ids_unique(es));
                            assert(has_id(es, id));
                            let c = choose|c: int| 0 <= c < es.len() && es[c].0 == id;
                            if c != n {
                                assert(es[c].0 == es[n as int].0);
                            }
                            assert(positions_in(es, id) == es[n as int].1);
                            assert(es[n as int].1 == entries.deep_view()[n as int].1);
                        }
                        if !pos_list_contains(&entries[n].positions, exp) {
                            return false;
                        }
                    },
                }
            },
        }
        i = i + 1;
    }
    true
}

/// Counts the phrase matches of document `id`, walking the first token's
/// occurrence positions.
fn count_alignments(
    postings: &PostingsIndex,
    toks: &Vec<String>,
    tok_pos: &Vec<usize>,
    id: u32,
    pos0: &Vec<usize>,
) -> (cnt: u64)
    requires
        postings_wf(postings@),
        toks.deep_view().len() >= 1,
        tok_pos@.len() == toks.deep_view().len(),
        forall|j: int| 0 <= j < tok_pos@.len() ==> (#[trigger] tok_pos@[j]) < postings@.len()
            && postings@[tok_pos@[j] as int].0 == toks.deep_view()[j],
        forall|i: int, j: int| 0 <= i < postings@.len() && 0 <= j < postings@[i].1.len()
            ==> pos_bounded((#[trigger] postings@[i].1[j]).1),
        pos0@ == positions_in(entries_of(postings@, toks.deep_view()[0]), id),
        pos0@.len() <= DOC_CONTENT_CAP,
    ensures
        cnt == phrase_count(postings@, toks.deep_view(), id),
        cnt <= pos0@.len(),
{
    let ghost psv = postings@;
    let ghost tv = toks.deep_view();
    let mut cnt: u64 = 0;
    let mut m: usize = 0;
    while m < pos0.len()
        invariant
            m <= pos0@.len(),
            cnt <= m,
            cnt == aligned_count(psv, tv, id, m as int),
        decreases pos0@.len() - m,
    {
        let p = pos0[m];
        if check_aligned(postings, toks, tok_pos, id, p) {
            cnt = cnt + 1;
        }
        m = m + 1;
    }
    cnt
}

/// Phrase search: the quoted text is tokenized; a document matches when the
/// token sequence occurs at consecutive positions; the match count ranks
/// the results.
#[verifier::rlimit(100)]
pub fn phrase_search(postings: &PostingsIndex, docs: &Vec<Document>, interior: &str) -> (r: Vec<
    SearchResult,
>)
    requires
        engine_wf(postings@, docs.deep_view()),
    ensures
        phrase_results_ok(postings@, docs.deep_view(), interior@, r.deep_view()),
{
    let ghost psv = postings@;
    let ghost dv = docs.deep_view();
    let toks = tokenize(interior);
    let ghost tv = toks.deep_view();
    if toks.len() == 0 {
        let r: Vec<SearchResult> = Vec::new();
        return r;
    }
    let mut tok_pos: Vec<usize> = Vec::new();
    let mut i: usize = 0;
    while i < toks.len()
        invariant
            i <= toks@.len(),
            tv.len() == toks@.len(),
            tok_pos@.len() == i,
            forall|j: int| 0 <= j < i ==> (#[trigger] tok_pos@[j]) < psv.len()
                && psv[tok_pos@[j] as int].0 == tv[j],
        decreases toks@.len() - i,
    {
        match postings.find(toks[i].as_str()) {
            None => {
                proof {
                    assert(!has_tok(psv, tv[i as int]));
                    assert(!phrase_tokens_present(psv, tv));
                }
                let r: Vec<SearchResult> = Vec::new();
                return r;
            },
            Some(p) => {
                tok_pos.push(p);
            },
        }
        i = i + 1;
    }
    proof {
        assert forall|w: int| 0 <= w < tv.len() implies has_tok(psv, #[trigger] tv[w]) by {
            assert(psv[tok_pos@[w] as int].0 == tv[w]);
        }
        assert(phrase_tokens_present(psv, tv));
    }
    let e0 = tok_pos[0];
    proof {
        let k = tok_i(psv, tv[0]);
        assert(psv[k].0 == tv[0]);
        if k != e0 {
            assert(psv[k].0 == psv[e0 as int].0);
        }
        assert(entries_of(psv, tv[0]) == psv[e0 as int].1);
    }
    let n_entries = postings.items[e0].entries.len();
    let mut pairs: Vec<(u128, u32)> = Vec::new();
    let mut k: usize = 0;
    while k < n_entries
        invariant
            k <= n_entries,
            n_entries == entries_of(psv, tv[0]).len(),
            entries_of(psv, tv[0]) == psv[e0 as int].1,
            e0 < psv.len(),
            e0 == tok_pos@[0],
            forall|a: int, b: int| 0 <= a < b < pairs@.len() ==> pairs@[a].1 != pairs@[b].1,
            forall|m: int| 0 <= m < pairs@.len() ==> phrase_hit(psv, tv, (#[trigger] pairs@[m]).1)
                && pairs@[m].0 == (phrase_count(psv, tv, pairs@[m].1) * (SCORE_SCALE as int))
                as u128,
            forall|m: int| 0 <= m < pairs@.len() ==> exists|c: int|
                0 <= c < k && entries_of(psv, tv[0])[c].0 == (#[trigger] pairs@[m]).1,
            forall|id: u32| (phrase_hit(psv, tv, id) && exists|c: int|
                0 <= c < k && entries_of(psv, tv[0])[c].0 == id) ==> exists|m: int|
                0 <= m < pairs@.len() && (#[trigger] pairs@[m]).1 == id,
        decreases n_entries - k,
    {
        let e = &postings.items[e0].entries[k];
        let ghost es0 = entries_of(psv, tv[0]);
        proof {
            assert(es0[k as int] == e@);
            if has_id(es0, e.doc_id) {
                let c = choose|c: int| 0 <= c < es0.len() && es0[c].0 == e.doc_id;
                if c != k {
                    assert(es0[c].0 == es0[k as int].0);
                }
                assert(positions_in(es0, e.doc_id) == es0[k as int].1);
            }
            assert(has_id(es0, e.doc_id));
            assert(pos_bounded(psv[e0 as int].1[k as int].1));
        }
        let cnt = count_alignments(postings, &toks, &tok_pos, e.doc_id, &e.positions);
        let ghost prev = pairs@;
        if cnt > 0 {
            proof {
                assert(cnt <= 0x8000_0000u64);
                assert((cnt as int) * (SCORE_SCALE as int) <= 0x8000_0000i128 * 1_000_000i128)
                    by (nonlinear_arith)
                    requires
                        0 <= cnt as int <= 0x8000_0000,
                ;
            }
            pairs.push(((cnt as u128) * (SCORE_SCALE as u128), e.doc_id));
            proof {
                assert forall|a: int, b: int| 0 <= a < b < pairs@.len() implies pairs@[a].1
                    != pairs@[b].1 by {
                    if b == pairs@.len() - 1 {
                        let c = choose|c: int|
                            0 <= c < k && entries_of(psv, tv[0])[c].0 == (#[trigger] prev[a]).1;
                        assert(es0[c].0 != es0[k as int].0);
                    }
                }
            }
        } else {
            proof {
                assert(phrase_count(psv, tv, e.doc_id) == 0);
            }
        }
        k = k + 1;
        proof {
            assert forall|id: u32| (phrase_hit(psv, tv, id) && exists|c: int|
                0 <= c < k && entries_of(psv, tv[0])[c].0 == id) implies (exists|m: int|
                0 <= m < pairs@.len() && (#[trigger] pairs@[m]).1 == id) by {
                let c = choose|c: int| 0 <= c < k && entries_of(psv, tv[0])[c].0 == id;
                if c == k - 1 {
                    assert(id == e.doc_id);
                    assert(cnt == phrase_count(psv, tv, id));
                    assert(cnt > 0);
                    assert(pairs@[pairs@.len() - 1].1 == id);
                } else {
                    let m = choose|m: int| 0 <= m < prev.len() && (#[trigger] prev[m]).1 == id;
                    assert(pairs@[m].1 == id);
                }
            }
        }
    }
    let ghost pre_pairs = pairs@;
    proof {
        assert forall|m: int| 0 <= m < pre_pairs.len() implies phrase_hit(
            psv,
            tv,
            (#[trigger] pre_pairs[m]).1,
        ) && pre_pairs[m].0 == (phrase_count(psv, tv, pre_pairs[m].1) * (SCORE_SCALE as int))
            as u128 by {
            assert(pairs@[m] == pre_pairs[m]);
        }
        assert forall|id: u32| phrase_hit(psv, tv, id) implies (exists|m: int|
            0 <= m < pre_pairs.len() && (#[trigger] pre_pairs[m]).1 == id) by {
            let c2 = choose|c2: int|
                0 <= c2 < entries_of(psv, tv[0]).len() && entries_of(psv, tv[0])[c2].0 == id;
            assert(0 <= c2 < k && entries_of(psv, tv[0])[c2].0 == id);
        }
        assert forall|a: int, b: int|
            0 <= a < pre_pairs.len() && 0 <= b < pre_pairs.len() && a != b implies pre_pairs[a]
            != pre_pairs[b] by {
            if a < b {
                assert(pre_pairs[a].1 != pre_pairs[b].1);
            } else {
                assert(pre_pairs[b].1 != pre_pairs[a].1);
            }
        }
        assert(pre_pairs.no_duplicates());
    }
    sort_ranked(&mut pairs);
    let interior_chars = chars_of(interior);
    let mut locate: Vec<Vec<char>> = Vec::new();
    locate.push(interior_chars);
    proof {
        assert(locate.deep_view() =~~= seq![interior@]);
    }
    let highlight = strings_to_char_lists(&toks);
    proof {
        assert forall|j: int| 0 <= j < pairs@.len() implies {
            &&& has_doc(dv, (#[trigger] pairs@[j]).1)
            &&& phrase_hit(psv, tv, pairs@[j].1)
            &&& pairs@[j].0 == (phrase_count(psv, tv, pairs@[j].1) * (SCORE_SCALE as int)) as u128
        } by {
            assert(pairs@.contains(pairs@[j]));
            assert(pre_pairs.contains(pairs@[j]));
            let m = choose|m: int| 0 <= m < pre_pairs.len() && pre_pairs[m] == pairs@[j];
            assert(phrase_hit(psv, tv, pre_pairs[m].1));
            assert(pre_pairs[m].0 == (phrase_count(psv, tv, pre_pairs[m].1) * (SCORE_SCALE as int))
                as u128);
            assert(pairs@[j].1 == pre_pairs[m].1 && pairs@[j].0 == pre_pairs[m].0);
            let c = choose|c: int|
                0 <= c < entries_of(psv, tv[0]).len() && entries_of(psv, tv[0])[c].0
                    == pairs@[j].1;
            assert(has_doc(dv, psv[e0 as int].1[c].0));
        }
    }
    let r = build_results(docs, &pairs, &locate, &highlight);
    proof {
        let rv = r.deep_view();
        assert forall|j: int| 0 <= j < rv.len() implies (#[trigger] rv[j]) == phrase_result_of(
            psv,
            dv,
            tv,
            interior@,
            rv[j].doc.id,
        ) && phrase_hit(psv, tv, rv[j].doc.id) by {
            assert(rv[j] == built_result(dv, pairs@[j], locate.deep_view(), highlight.deep_view()));
        }
        assert(rank_sorted(results_pairs(rv))) by {
            assert forall|a: int, b: int|
                0 <= a < b < results_pairs(rv).len() implies crate::rank::rank_le(
                results_pairs(rv)[a],
                results_pairs(rv)[b],
            ) by {
                assert(rv[a] == built_result(dv, pairs@[a], locate.deep_view(),
                    highlight.deep_view()));
                assert(rv[b] == built_result(dv, pairs@[b], locate.deep_view(),
                    highlight.deep_view()));
                assert(results_pairs(rv)[a] == (rv[a].score, rv[a].doc.id));
                assert(results_pairs(rv)[b] == (rv[b].score, rv[b].doc.id));
                assert(crate::rank::rank_le(pairs@[a], pairs@[b]));
            }
        }
        assert forall|id: u32| phrase_hit(psv, tv, id) implies exists|j: int|
            0 <= j < rv.len() && (#[trigger] rv[j]).doc.id == id by {
            let m = choose|m: int| 0 <= m < pre_pairs.len() && (#[trigger] pre_pairs[m]).1 == id;
            assert(pre_pairs.contains(pre_pairs[m]));
            assert(pairs@.contains(pre_pairs[m]));
            let w = choose|w: int| 0 <= w < pairs@.len() && pairs@[w] == pre_pairs[m];
            assert(rv[w] == built_result(dv, pairs@[w], locate.deep_view(), highlight.deep_view()));
            assert(rv[w].doc.id == id);
        }
        assert forall|j1: int, j2: int| 0 <= j1 < j2 < rv.len() implies rv[j1].doc.id
            != rv[j2].doc.id by {
            assert(rv[j1] == built_result(dv, pairs@[j1], locate.deep_view(),
                highlight.deep_view()));
            assert(rv[j2] == built_result(dv, pairs@[j2], locate.deep_view(),
                highlight.deep_view()));
            if pairs@[j1].1 == pairs@[j2].1 {
                assert(pairs@[j1].0 == pairs@[j2].0);
                assert(pairs@[j1] == pairs@[j2]);
                assert(pairs@.no_duplicates());
                assert(false);
            }
        }
    }
    r
}

/// The resolved form of a keyword term list: terms with an exact postings
/// entry stay; terms eligible for fuzzy fallback are replaced by their best
/// fuzzy match (marked as fuzzy); unresolved terms are dropped.
pub open spec fn resolve_terms(ps: PostingsV, terms: Seq<(Seq<char>, bool)>) -> Seq<
    (Seq<char>, bool),
>
    decreases terms.len(),
{
    if terms.len() == 0 {
        Seq::empty()
    } else {
        let rest = resolve_terms(ps, terms.drop_last());
        let t = terms.last();
        if has_tok(ps, t.0) {
            rest.push((t.0, false))
        } else if !t.1 {
            match best_match(tok_seq(ps), t.0) {
                Some(p) => rest.push((p.0, true)),
                None => rest,
            }
        } else {
            rest
        }
    }
}

/// The tokens of a resolved term list.
pub open spec fn resolved_tokens(resolved: Seq<(Seq<char>, bool)>) -> Seq<Seq<char>> {
    resolved.map_values(|r: (Seq<char>, bool)| r.0)
}

/// Whether document `id` is a keyword hit: it holds every resolved term.
pub open spec fn kw_hit(ps: PostingsV, resolved: Seq<(Seq<char>, bool)>, id: u32) -> bool {
    &&& resolved.len() > 0
    &&& forall|w: int| 0 <= w < resolved.len() ==> has_id(
        entries_of(ps, (#[trigger] resolved[w]).0),
        id,
    )
}

/// The BM25 score of document `id`: the sum of the term contributions of
/// the resolved terms, fuzzy matches halved.
pub open spec fn doc_score_sum(
    ps: PostingsV,
    resolved: Seq<(Seq<char>, bool)>,
    n_docs: int,
    dl: int,
    tt: int,
    id: u32,
) -> int
    decreases resolved.len(),
{
    if resolved.len() == 0 {
        0
    } else {
        doc_score_sum(ps, resolved.drop_last(), n_docs, dl, tt, id) + term_score_spec(
            tf_of(ps, resolved.last().0, id) as int,
            df_of(ps, resolved.last().0) as int,
            n_docs,
            dl,
            tt,
            n_docs,
            resolved.last().1,
        )
    }
}

/// The result of a keyword hit.
pub open spec fn kw_result_of(
    ps: PostingsV,
    docs: Seq<DocumentV>,
    resolved: Seq<(Seq<char>, bool)>,
    n_docs: int,
    tt: int,
    id: u32,
) -> SearchResultV {
    let d = doc_of(docs, id);
    built_result(
        docs,
        (doc_score_sum(ps, resolved, n_docs, d.num_tokens as int, tt, id) as u128, id),
        resolved_tokens(resolved),
        resolved_tokens(resolved),
    )
}

proof fn lemma_best_match_contains(toks: Seq<Seq<char>>, q: Seq<char>)
    ensures
        match best_match(toks, q) {
            Some(p) => exists|i: int| 0 <= i < toks.len() && toks[i] == p.0,
            None => true,
        },
    decreases toks.len(),
{
    if toks.len() > 0 {
        lemma_best_match_contains(toks.drop_last(), q);
        match best_match(toks, q) {
            Some(p) => {
                if best_match(toks.drop_last(), q) is Some && p == best_match(
                    toks.drop_last(),
                    q,
                ).unwrap() {
                    let i = choose|i: int|
                        0 <= i < toks.drop_last().len() && toks.drop_last()[i] == p.0;
                    assert(toks[i] == p.0);
                } else {
                    assert(toks[toks.len() - 1] == p.0);
                }
            },
            None => {},
        }
    }
}

/// Every resolved term names a token of the postings index.
pub proof fn lemma_resolved_has_tok(ps: PostingsV, ts: Seq<(Seq<char>, bool)>)
    ensures
        forall|w: int| 0 <= w < resolve_terms(ps, ts).len() ==> has_tok(
            ps,
            (#[trigger] resolve_terms(ps, ts)[w]).0,
        ),
    decreases ts.len(),
{
    if ts.len() > 0 {
        lemma_resolved_has_tok(ps, ts.drop_last());
        let rest = resolve_terms(ps, ts.drop_last());
        let t = ts.last();
        if has_tok(ps, t.0) {
        } else if !t.1 {
            match best_match(tok_seq(ps), t.0) {
                Some(p) => {
                    lemma_best_match_contains(tok_seq(ps), t.0);
                    let i = choose|i: int|
                        0 <= i < tok_seq(ps).len() && tok_seq(ps)[i] == p.0;
                    assert(ps[i].0 == p.0);
                    assert(has_tok(ps, p.0));
                },
                None => {},
            }
        }
    }
}

/// Computes the BM25 score of document `id` over the resolved terms, or
/// nothing when the document misses one of them.
fn score_doc(
    postings: &PostingsIndex,
    resolved: &Vec<(String, bool)>,
    id: u32,
    n_docs: u64,
    tt: u64,
    dl: u64,
) -> (r: Option<u128>)
    requires
        postings_wf(postings@),
        terms_view(resolved@).len() >= 1,
        forall|w: int| 0 <= w < terms_view(resolved@).len() ==> has_tok(
            postings@,
            (#[trigger] terms_view(resolved@)[w]).0,
        ),
        forall|i: int, j: int| 0 <= i < postings@.len() && 0 <= j < postings@[i].1.len()
            ==> pos_bounded((#[trigger] postings@[i].1[j]).1),
        forall|i: int| 0 <= i < postings@.len() ==> (#[trigger] postings@[i]).1.len() <= n_docs,
        1 <= n_docs <= 0x1_0000_0000u64,
        dl <= 0x8000_0000u64,
        tt <= 0x8000_0000_0000_0000u64,
    ensures
        ({
            let psv = postings@;
            let res = terms_view(resolved@);
            match r {
                Some(s) => kw_hit(psv, res, id) && s == doc_score_sum(
                    psv,
                    res,
                    n_docs as int,
                    dl as int,
                    tt as int,
                    id,
                ) as u128,
                None => !kw_hit(psv, res, id),
            }
        }),
{
    let ghost psv = postings@;
    let ghost res = terms_view(resolved@);
    let mut sum: u128 = 0;
    let mut w: usize = 0;
    while w < resolved.len()
        invariant
            w <= resolved@.len(),
            res.len() == resolved@.len(),
            forall|v: int| 0 <= v < w ==> has_id(entries_of(psv, (#[trigger] res[v]).0), id),
            sum == doc_score_sum(psv, res.subrange(0, w as int), n_docs as int, dl as int,
                tt as int, id),
            sum <= (w as int) * 200_000_000,
        decreases resolved@.len() - w,
    {
        let ghost pre = res.subrange(0, w as int);
        let ghost post = res.subrange(0, w + 1 as int);
        proof {
            assert(post.drop_last() =~= pre);
            assert(post.last() == res[w as int]);
            assert(res[w as int] == (resolved@[w as int].0@, resolved@[w as int].1));
        }
        let token = &resolved[w].0;
        let is_fuzzy = resolved[w].1;
        let found = postings.find(token.as_str());
        let ti: usize;
        match found {
            Some(x) => {
                ti = x;
            },
            None => {
                proof {
                    assert(has_tok(psv, res[w as int].0));
                    assert(false);
                }
                return None;
            },
        }
        proof {
            let k = tok_i(psv, res[w as int].0);
            assert(psv[k].0 == res[w as int].0);
            if k != ti {
                assert(psv[k].0 == psv[ti as int].0);
            }
            assert(entries_of(psv, res[w as int].0) == psv[ti as int].1);
        }
        let entries = &postings.items[ti].entries;
        match find_entry(entries, id) {
            None => {
                proof {
                    assert(!has_id(entries_of(psv, res[w as int].0), id));
                }
                return None;
            },
            Some(n) => {
                proof {
                    let es = entries_of(psv, res[w as int].0);
                    assert(ids_unique(es));
                    let c = choose|c: int| 0 <= c < es.len() && es[c].0 == id;
                    if c != n {
                        assert(es[c].0 == es[n as int].0);
                    }
                    assert(positions_in(es, id) == es[n as int].1);
                    assert(pos_bounded(psv[ti as int].1[n as int].1));
                }
                let tf = entries[n].positions.len() as u64;
                let df = entries.len() as u64;
                proof {
                    assert(df == df_of(psv, res[w as int].0));
                    assert(1 <= df <= n_docs);
                    assert(tf == tf_of(psv, res[w as int].0, id));
                    assert(tf <= 0x8000_0000u64);
                }
                let ts = term_score(tf, df, n_docs, dl, tt, n_docs, is_fuzzy);
                proof {
                    assert(sum + ts <= (w as int) * 200_000_000 + 200_000_000);
                    assert((w as int) * 200_000_000 + 200_000_000 == (w + 1 as int)
                        * 200_000_000) by (nonlinear_arith);
                }
                sum = sum + (ts as u128);
            },
        }
        w = w + 1;
    }
    proof {
        assert(res.subrange(0, res.len() as int) =~= res);
    }
    Some(sum)
}

/// Keyword search: the terms are resolved (exactly, by wildcard origin, or
/// by fuzzy fallback), a document qualifies when it holds every resolved
/// term, and BM25 ranks the qualifying documents.
#[verifier::rlimit(100)]
pub fn keyword_search(
    postings: &PostingsIndex,
    docs: &Vec<Document>,
    terms: &Vec<(String, bool)>,
    total_docs: u64,
    total_tokens: u64,
) -> (r: Vec<SearchResult>)
    requires
        engine_wf(postings@, docs.deep_view()),
        total_docs == docs.deep_view().len(),
        total_docs <= 0x1_0000_0000u64,
        total_tokens <= 0x8000_0000_0000_0000u64,
    ensures
        keyword_results_ok(
            postings@,
            docs.deep_view(),
            terms_view(terms@),
            total_docs as int,
            total_tokens as int,
            r.deep_view(),
        ),
{
    let ghost psv = postings@;
    let ghost dv = docs.deep_view();
    let ghost tsv = terms_view(terms@);
    let all_tokens = postings.tokens();
    let mut resolved: Vec<(String, bool)> = Vec::new();
    let mut i: usize = 0;
    while i < terms.len()
        invariant
            i <= terms@.len(),
            tsv.len() == terms@.len(),
            terms_view(resolved@) == resolve_terms(psv, tsv.subrange(0, i as int)),
        decreases terms@.len() - i,
    {
        let ghost pre = tsv.subrange(0, i as int);
        let ghost post = tsv.subrange(0, i + 1 as int);
        proof {
            assert(post.drop_last() =~= pre);
            assert(post.last() == tsv[i as int]);
            assert(tsv[i as int] == (terms@[i as int].0@, terms@[i as int].1));
        }
        let t = &terms[i].0;
        let wc = terms[i].1;
        let found = postings.find(t.as_str());
        match found {
            Some(_x) => {
                let ghost prev = resolved@;
                resolved.push((t.clone(), false));
                proof {
                    let x = resolved@.last();
                    assert(resolved@ == prev.push(x));
                    crate::classify::lemma_terms_view_push(prev, x);
                    assert(has_tok(psv, tsv[i as int].0));
                    assert(terms_view(resolved@) =~= resolve_terms(psv, post));
                }
            },
            None => {
                proof {
                    assert(!has_tok(psv, tsv[i as int].0));
                }
                if !wc {
                    match find_fuzzy(&all_tokens, t.as_str()) {
                        Some((m, _d)) => {
                            let ghost prev = resolved@;
                            resolved.push((m, true));
                            proof {
                                let x = resolved@.last();
                                assert(resolved@ == prev.push(x));
                                crate::classify::lemma_terms_view_push(prev, x);
                                assert(all_tokens.deep_view() == tok_seq(psv));
                                assert(terms_view(resolved@) =~= resolve_terms(psv, post));
                            }
                        },
                        None => {
                            proof {
                                assert(all_tokens.deep_view() == tok_seq(psv));
                                assert(terms_view(resolved@) =~= resolve_terms(psv, post));
                            }
                        },
                    }
                } else {
                    proof {
                        assert(terms_view(resolved@) =~= resolve_terms(psv, post));
                    }
                }
            },
        }
        i = i + 1;
    }
    proof {
        assert(tsv.subrange(0, tsv.len() as int) =~= tsv);
    }
    let ghost res = resolve_terms(psv, tsv);
    if resolved.len() == 0 {
        let r: Vec<SearchResult> = Vec::new();
        return r;
    }
    proof {
        lemma_resolved_has_tok(psv, tsv);
        assert forall|i2: int| 0 <= i2 < psv.len() implies (#[trigger] psv[i2]).1.len()
            <= total_docs by {
            lemma_df_le_docs(psv[i2].1, dv);
        }
    }
    let found0 = postings.find(resolved[0].0.as_str());
    let e0: usize;
    match found0 {
        Some(x) => {
            e0 = x;
        },
        None => {
            proof {
                assert(terms_view(resolved@)[0] == res[0]);
                assert(has_tok(psv, res[0].0));
                assert(false);
            }
            let r: Vec<SearchResult> = Vec::new();
            return r;
        },
    }
    proof {
        assert(terms_view(resolved@)[0] == res[0]);
        let k = tok_i(psv, res[0].0);
        assert(psv[k].0 == res[0].0);
        if k != e0 {
            assert(psv[k].0 == psv[e0 as int].0);
        }
        assert(entries_of(psv, res[0].0) == psv[e0 as int].1);
        assert(psv[e0 as int].1.len() > 0);
        assert(has_doc(dv, psv[e0 as int].1[0].0));
        assert(dv.len() >= 1);
    }
    let n_entries = postings.items[e0].entries.len();
    let mut pairs: Vec<(u128, u32)> = Vec::new();
    let mut k: usize = 0;
    while k < n_entries
        invariant
            k <= n_entries,
            terms_view(resolved@) == res,
            res.len() >= 1,
            n_entries == entries_of(psv, res[0].0).len(),
            entries_of(psv, res[0].0) == psv[e0 as int].1,
            e0 < psv.len(),
            forall|a: int, b: int| 0 <= a < b < pairs@.len() ==> pairs@[a].1 != pairs@[b].1,
            forall|m: int| 0 <= m < pairs@.len() ==> kw_hit(psv, res, (#[trigger] pairs@[m]).1)
                && pairs@[m].0 == doc_score_sum(
                psv,
                res,
                total_docs as int,
                doc_of(dv, pairs@[m].1).num_tokens as int,
                total_tokens as int,
                pairs@[m].1,
            ) as u128,
            forall|m: int| 0 <= m < pairs@.len() ==> exists|c: int|
                0 <= c < k && entries_of(psv, res[0].0)[c].0 == (#[trigger] pairs@[m]).1,
            forall|id: u32| (kw_hit(psv, res, id) && exists|c: int|
                0 <= c < k && entries_of(psv, res[0].0)[c].0 == id) ==> exists|m: int|
                0 <= m < pairs@.len() && (#[trigger] pairs@[m]).1 == id,
        decreases n_entries - k,
    {
        let ghost es0 = entries_of(psv, res[0].0);
        let id = postings.items[e0].entries[k].doc_id;
        proof {
            assert(es0[k as int] == psv[e0 as int].1[k as int]);
            assert(es0[k as int].0 == id);
            assert(has_doc(dv, id));
        }
        let d = doc_lookup(docs, id);
        let dl = docs[d].num_tokens as u64;
        proof {
            assert(dv[d as int] == doc_of(dv, id));
            assert(dl <= 0x8000_0000u64);
        }
        let sc = score_doc(postings, &resolved, id, total_docs, total_tokens, dl);
        let ghost prev = pairs@;
        match sc {
            Some(s) => {
                pairs.push((s, id));
                proof {
                    assert forall|a: int, b: int| 0 <= a < b < pairs@.len() implies pairs@[a].1
                        != pairs@[b].1 by {
                        if b == pairs@.len() - 1 {
                            let c = choose|c: int|
                                0 <= c < k && entries_of(psv, res[0].0)[c].0
                                    == (#[trigger] prev[a]).1;
                            assert(es0[c].0 != es0[k as int].0);
                        }
                    }
                }
            },
            None => {},
        }
        k = k + 1;
        proof {
            assert forall|id2: u32| (kw_hit(psv, res, id2) && exists|c: int|
                0 <= c < k && entries_of(psv, res[0].0)[c].0 == id2) implies exists|m: int|
                0 <= m < pairs@.len() && (#[trigger] pairs@[m]).1 == id2 by {
                let c = choose|c: int| 0 <= c < k && entries_of(psv, res[0].0)[c].0 == id2;
                if c == k - 1 {
                    assert(id2 == id);
                    assert(sc is Some);
                    assert(pairs@[pairs@.len() - 1].1 == id2);
                } else {
                    let m = choose|m: int| 0 <= m < prev.len() && (#[trigger] prev[m]).1 == id2;
                    assert(pairs@[m].1 == id2);
                }
            }
        }
    }
    let ghost pre_pairs = pairs@;
    proof {
        assert forall|m: int| 0 <= m < pre_pairs.len() implies kw_hit(
            psv,
            res,
            (#[trigger] pre_pairs[m]).1,
        ) && pre_pairs[m].0 == doc_score_sum(
            psv,
            res,
            total_docs as int,
            doc_of(dv, pre_pairs[m].1).num_tokens as int,
            total_tokens as int,
            pre_pairs[m].1,
        ) as u128 by {
            assert(pairs@[m] == pre_pairs[m]);
        }
        assert forall|id: u32| kw_hit(psv, res, id) implies (exists|m: int|
            0 <= m < pre_pairs.len() && (#[trigger] pre_pairs[m]).1 == id) by {
            assert(has_id(entries_of(psv, res[0].0), id));
            let c2 = choose|c2: int|
                0 <= c2 < entries_of(psv, res[0].0).len() && entries_of(psv, res[0].0)[c2].0
                    == id;
            assert(0 <= c2 < k && entries_of(psv, res[0].0)[c2].0 == id);
        }
        assert forall|a: int, b: int|
            0 <= a < pre_pairs.len() && 0 <= b < pre_pairs.len() && a != b implies pre_pairs[a]
            != pre_pairs[b] by {
            if a < b {
                assert(pre_pairs[a].1 != pre_pairs[b].1);
            } else {
                assert(pre_pairs[b].1 != pre_pairs[a].1);
            }
        }
        assert(pre_pairs.no_duplicates());
    }
    sort_ranked(&mut pairs);
    let mut res_strings: Vec<String> = Vec::new();
    let mut w: usize = 0;
    while w < resolved.len()
        invariant
            w <= resolved@.len(),
            terms_view(resolved@) == res,
            res_strings@.len() == w,
            forall|j: int| 0 <= j < w ==> res_strings@[j]@ == (#[trigger] res[j]).0,
        decreases resolved@.len() - w,
    {
        res_strings.push(resolved[w].0.clone());
        w = w + 1;
    }
    proof {
        assert(res_strings.deep_view() =~= resolved_tokens(res));
    }
    let term_chars = strings_to_char_lists(&res_strings);
    proof {
        assert forall|j: int| 0 <= j < pairs@.len() implies {
            &&& has_doc(dv, (#[trigger] pairs@[j]).1)
            &&& kw_hit(psv, res, pairs@[j].1)
            &&& pairs@[j].0 == doc_score_sum(
                psv,
                res,
                total_docs as int,
                doc_of(dv, pairs@[j].1).num_tokens as int,
                total_tokens as int,
                pairs@[j].1,
            ) as u128
        } by {
            assert(pairs@.contains(pairs@[j]));
            assert(pre_pairs.contains(pairs@[j]));
            let m = choose|m: int| 0 <= m < pre_pairs.len() && pre_pairs[m] == pairs@[j];
            assert(kw_hit(psv, res, pre_pairs[m].1));
            let c = choose|c: int|
                0 <= c < entries_of(psv, res[0].0).len() && entries_of(psv, res[0].0)[c].0
                    == pairs@[j].1;
            assert(has_doc(dv, psv[e0 as int].1[c].0));
        }
    }
    let r = build_results(docs, &pairs, &term_chars, &term_chars);
    proof {
        let rv = r.deep_view();
        assert forall|j: int| 0 <= j < rv.len() implies (#[trigger] rv[j]) == kw_result_of(
            psv,
            dv,
            res,
            total_docs as int,
            total_tokens as int,
            rv[j].doc.id,
        ) && kw_hit(psv, res, rv[j].doc.id) by {
            assert(rv[j] == built_result(dv, pairs@[j], term_chars.deep_view(),
                term_chars.deep_view()));
        }
        assert(rank_sorted(results_pairs(rv))) by {
            assert forall|a: int, b: int|
                0 <= a < b < results_pairs(rv).len() implies crate::rank::rank_le(
                results_pairs(rv)[a],
                results_pairs(rv)[b],
            ) by {
                assert(rv[a] == built_result(dv, pairs@[a], term_chars.deep_view(),
                    term_chars.deep_view()));
                assert(rv[b] == built_result(dv, pairs@[b], term_chars.deep_view(),
                    term_chars.deep_view()));
                assert(results_pairs(rv)[a] == (rv[a].score, rv[a].doc.id));
                assert(results_pairs(rv)[b] == (rv[b].score, rv[b].doc.id));
                assert(crate::rank::rank_le(pairs@[a], pairs@[b]));
            }
        }
        assert forall|id: u32| kw_hit(psv, res, id) implies exists|j: int|
            0 <= j < rv.len() && (#[trigger] rv[j]).doc.id == id by {
            let m = choose|m: int| 0 <= m < pre_pairs.len() && (#[trigger] pre_pairs[m]).1 == id;
            assert(pre_pairs.contains(pre_pairs[m]));
            assert(pairs@.contains(pre_pairs[m]));
            let w2 = choose|w2: int| 0 <= w2 < pairs@.len() && pairs@[w2] == pre_pairs[m];
            assert(rv[w2] == built_result(dv, pairs@[w2], term_chars.deep_view(),
                term_chars.deep_view()));
            assert(rv[w2].doc.id == id);
        }
        assert forall|j1: int, j2: int| 0 <= j1 < j2 < rv.len() implies rv[j1].doc.id
            != rv[j2].doc.id by {
            assert(rv[j1] == built_result(dv, pairs@[j1], term_chars.deep_view(),
                term_chars.deep_view()));
            assert(rv[j2] == built_result(dv, pairs@[j2], term_chars.deep_view(),
                term_chars.deep_view()));
            if pairs@[j1].1 == pairs@[j2].1 {
                assert(pairs@[j1].0 == pairs@[j2].0);
                assert(pairs@[j1] == pairs@[j2]);
                assert(pairs@.no_duplicates());
                assert(false);
            }
        }
    }
    r
}

} // verus!
