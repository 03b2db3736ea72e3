//! The postings index: for each token, the list of documents it occurs in,
//! with the token's positions inside each document.

use vstd::prelude::*;

use crate::text::str_eq;

verus! {

/// One document's occurrences of a token.
pub struct PostingEntry {
    pub doc_id: u32,
    /// Positions of the token in the document's token stream.
    pub positions: Vec<usize>,
}

impl View for PostingEntry {
    type V = (u32, Seq<usize>);

    open spec fn view(&self) -> (u32, Seq<usize>) {
        (self.doc_id, self.positions@)
    }
}

impl DeepView for PostingEntry {
    type V = (u32, Seq<usize>);

    open spec fn deep_view(&self) -> (u32, Seq<usize>) {
        self.view()
    }
}

/// A token with its postings list.
pub struct TokenPostings {
    pub token: String,
    pub entries: Vec<PostingEntry>,
}

impl View for TokenPostings {
    type V = (Seq<char>, Seq<(u32, Seq<usize>)>);

    open spec fn view(&self) -> (Seq<char>, Seq<(u32, Seq<usize>)>) {
        (self.token@, self.entries.deep_view())
    }
}

impl DeepView for TokenPostings {
    type V = (Seq<char>, Seq<(u32, Seq<usize>)>);

    open spec fn deep_view(&self) -> (Seq<char>, Seq<(u32, Seq<usize>)>) {
        self.view()
    }
}

/// The mathematical value of a postings index: tokens in insertion order,
/// each with its postings list.
pub type PostingsV = Seq<(Seq<char>, Seq<(u32, Seq<usize>)>)>;

/// The tokens of a postings index, in order.
pub open spec fn tok_seq(ps: PostingsV) -> Seq<Seq<char>> {
    ps.map_values(|p: (Seq<char>, Seq<(u32, Seq<usize>)>)| p.0)
}

/// Whether the index holds an entry for token `t`.
pub open spec fn has_tok(ps: PostingsV, t: Seq<char>) -> bool {
    exists|i: int| 0 <= i < ps.len() && ps[i].0 == t
}

/// The position of token `t` in the index (meaningful when tokens are
/// unique and `has_tok` holds).
pub open spec fn tok_i(ps: PostingsV, t: Seq<char>) -> int {
    choose|i: int| 0 <= i < ps.len() && ps[i].0 == t
}

/// The postings list of token `t`, empty if the token is absent.
pub open spec fn entries_of(ps: PostingsV, t: Seq<char>) -> Seq<(u32, Seq<usize>)> {
    if has_tok(ps, t) {
        ps[tok_i(ps, t)].1
    } else {
        Seq::empty()
    }
}

/// Whether a postings list holds an entry for document `id`.
pub open spec fn has_id(es: Seq<(u32, Seq<usize>)>, id: u32) -> bool {
    exists|i: int| 0 <= i < es.len() && es[i].0 == id
}

/// The positions of document `id` in a postings list, empty if absent.
pub open spec fn positions_in(es: Seq<(u32, Seq<usize>)>, id: u32) -> Seq<usize> {
    if has_id(es, id) {
        es[choose|i: int| 0 <= i < es.len() && es[i].0 == id].1
    } else {
        Seq::empty()
    }
}

/// Document frequency of token `t`: how many documents it occurs in.
pub open spec fn df_of(ps: PostingsV, t: Seq<char>) -> nat {
    entries_of(ps, t).len()
}

/// Term frequency of token `t` in document `id`.
pub open spec fn tf_of(ps: PostingsV, t: Seq<char>, id: u32) -> nat {
    positions_in(entries_of(ps, t), id).len()
}

/// Whether the document ids of a postings list are pairwise distinct.
pub open spec fn ids_unique(es: Seq<(u32, Seq<usize>)>) -> bool {
    forall|i: int, j: int| 0 <= i < j < es.len() ==> es[i].0 != es[j].0
}

/// Well-formedness of a postings index: tokens pairwise distinct, ids
/// pairwise distinct within each postings list, and no empty postings list.
pub open spec fn postings_wf(ps: PostingsV) -> bool {
    &&& forall|i: int, j: int| 0 <= i < j < ps.len() ==> ps[i].0 != ps[j].0
    &&& forall|i: int| 0 <= i < ps.len() ==> ids_unique(#[trigger] ps[i].1)
    &&& forall|i: int| 0 <= i < ps.len() ==> (#[trigger] ps[i].1).len() > 0
}

/// The index after appending document `id` with `pos` to token `t`'s
/// postings list, creating the token at the end if it is new.
pub open spec fn insert_posting_spec(ps: PostingsV, t: Seq<char>, id: u32, pos: Seq<usize>)
    -> PostingsV {
    if has_tok(ps, t) {
        let i = tok_i(ps, t);
        ps.update(i, (t, ps[i].1.push((id, pos))))
    } else {
        ps.push((t, seq![(id, pos)]))
    }
}

/// A postings list without document `id`.
pub open spec fn entries_without(es: Seq<(u32, Seq<usize>)>, id: u32) -> Seq<(u32, Seq<usize>)>
    decreases es.len(),
{
    if es.len() == 0 {
        Seq::empty()
    } else {
        let rest = entries_without(es.drop_last(), id);
        if es.last().0 == id {
            rest
        } else {
            rest.push(es.last())
        }
    }
}

/// The index after de-indexing document `id`: every postings list loses the
/// document's entry, and tokens whose lists become empty are dropped.
pub open spec fn remove_doc_spec(ps: PostingsV, id: u32) -> PostingsV
    decreases ps.len(),
{
    if ps.len() == 0 {
        Seq::empty()
    } else {
        let rest = remove_doc_spec(ps.drop_last(), id);
        let ew = entries_without(ps.last().1, id);
        if ew.len() == 0 {
            rest
        } else {
            rest.push((ps.last().0, ew))
        }
    }
}

/// Whether a token group list holds token `t`.
pub open spec fn ghas(gs: Seq<(Seq<char>, Seq<usize>)>, t: Seq<char>) -> bool {
    exists|i: int| 0 <= i < gs.len() && gs[i].0 == t
}

/// The position of token `t` in a group list.
pub open spec fn gi(gs: Seq<(Seq<char>, Seq<usize>)>, t: Seq<char>) -> int {
    choose|i: int| 0 <= i < gs.len() && gs[i].0 == t
}

/// A group list after recording one occurrence of token `t` at position `p`.
pub open spec fn add_occ(gs: Seq<(Seq<char>, Seq<usize>)>, t: Seq<char>, p: usize) -> Seq<
    (Seq<char>, Seq<usize>),
> {
    if ghas(gs, t) {
        gs.update(gi(gs, t), (t, gs[gi(gs, t)].1.push(p)))
    } else {
        gs.push((t, seq![p]))
    }
}

/// The tokens of a document grouped with their occurrence positions, in
/// first-occurrence order.
pub open spec fn group_tokens(toks: Seq<Seq<char>>) -> Seq<(Seq<char>, Seq<usize>)>
    decreases toks.len(),
{
    if toks.len() == 0 {
        Seq::empty()
    } else {
        add_occ(group_tokens(toks.drop_last()), toks.last(), (toks.len() - 1) as usize)
    }
}

/// A strictly ascending position list whose values stay below `n`.
pub open spec fn ascending_lt(s: Seq<usize>, n: int) -> bool {
    &&& forall|a: int, b: int| 0 <= a < b < s.len() ==> s[a] < s[b]
    &&& forall|a: int| 0 <= a < s.len() ==> s[a] < n
}

/// Well-formedness of a token group list for a document of `n` tokens.
pub open spec fn groups_wf(gs: Seq<(Seq<char>, Seq<usize>)>, n: int) -> bool {
    &&& forall|i: int, j: int| 0 <= i < j < gs.len() ==> gs[i].0 != gs[j].0
    &&& forall|i: int| 0 <= i < gs.len() ==> (#[trigger] gs[i].1).len() > 0
    &&& forall|i: int| 0 <= i < gs.len() ==> ascending_lt(#[trigger] gs[i].1, n)
}

proof fn lemma_ascending_index(s: Seq<usize>, i: int)
    requires
        forall|a: int, b: int| 0 <= a < b < s.len() ==> s[a] < s[b],
        0 <= i < s.len(),
    ensures
        s[i] >= i,
    decreases i,
{
    if i > 0 {
        lemma_ascending_index(s, i - 1);
    }
}

/// A strictly ascending list of positions below `n` has at most `n`
/// entries.
pub proof fn lemma_ascending_len(s: Seq<usize>, n: int)
    requires
        ascending_lt(s, n),
        0 <= n,
    ensures
        s.len() <= n,
{
    if s.len() > 0 {
        lemma_ascending_index(s, s.len() - 1);
    }
}

/// Grouping the tokens of a document yields a well-formed group list.
pub proof fn lemma_group_tokens_wf(toks: Seq<Seq<char>>)
    requires
        toks.len() <= usize::MAX,
    ensures
        groups_wf(group_tokens(toks), toks.len() as int),
    decreases toks.len(),
{
    if toks.len() > 0 {
        lemma_group_tokens_wf(toks.drop_last());
        let gs = group_tokens(toks.drop_last());
        let t = toks.last();
        let p = (toks.len() - 1) as usize;
        let n0 = toks.drop_last().len() as int;
        assert(groups_wf(gs, n0));
        if ghas(gs, t) {
            let i = gi(gs, t);
            assert(gs[i].0 == t);
            let r = gs.update(i, (t, gs[i].1.push(p)));
            assert forall|w: int| 0 <= w < r.len() implies ascending_lt(
                #[trigger] r[w].1,
                toks.len() as int,
            ) && r[w].1.len() > 0 by {
                if w == i {
                    let s = gs[i].1.push(p);
                    assert(ascending_lt(gs[i].1, n0));
                    assert forall|a: int, b: int| 0 <= a < b < s.len() implies s[a] < s[b] by {
                        if b == s.len() - 1 {
                            assert(s[a] == gs[i].1[a]);
                            assert(gs[i].1[a] < n0);
                        } else {
                            assert(s[a] == gs[i].1[a]);
                            assert(s[b] == gs[i].1[b]);
                        }
                    }
                } else {
                    assert(ascending_lt(gs[w].1, n0));
                }
            }
        } else {
            let r = gs.push((t, seq![p]));
            assert forall|w: int| 0 <= w < r.len() implies ascending_lt(
                #[trigger] r[w].1,
                toks.len() as int,
            ) && r[w].1.len() > 0 by {
                if w < gs.len() {
                    assert(ascending_lt(gs[w].1, n0));
                } else {
                    assert(r[w].1 == seq![p]);
                    assert(seq![p].len() == 1 && seq![p][0] == p);
                }
            }
            assert forall|a: int, b: int| 0 <= a < b < r.len() implies r[a].0 != r[b].0 by {
                if b == r.len() - 1 {
                    if r[a].0 == t {
                        assert(ghas(gs, t)) by {
                            assert(gs[a].0 == t);
                        }
                    }
                }
            }
        }
    }
}

/// The mathematical value of an executable token group list.
pub open spec fn groups_view(v: Seq<(String, Vec<usize>)>) -> Seq<(Seq<char>, Seq<usize>)> {
    v.map_values(|g: (String, Vec<usize>)| (g.0@, g.1@))
}

/// Groups a document's tokens with their occurrence positions, in
/// first-occurrence order.
pub fn group_tokens_exec(tokens: &Vec<String>) -> (r: Vec<(String, Vec<usize>)>)
    ensures
        groups_view(r@) == group_tokens(tokens.deep_view()),
{
    let ghost tv = tokens.deep_view();
    let mut gs: Vec<(String, Vec<usize>)> = Vec::new();
    let mut i: usize = 0;
    while i < tokens.len()
        invariant
            i <= tokens@.len(),
            tv.len() == tokens@.len(),
            groups_view(gs@) == group_tokens(tv.subrange(0, i as int)),
        decreases tokens@.len() - i,
    {
        let ghost pre = tv.subrange(0, i as int);
        let ghost post = tv.subrange(0, i + 1 as int);
        let ghost gv = group_tokens(pre);
        proof {
            assert(post.drop_last() =~= pre);
            assert(post.last() == tv[i as int]);
            assert(tv[i as int] == tokens@[i as int]@);
            assert(pre.len() <= usize::MAX);
            lemma_group_tokens_wf(pre);
        }
        let t = &tokens[i];
        let mut w: usize = 0;
        let mut found: Option<usize> = None;
        while w < gs.len()
            invariant
                w <= gs@.len(),
                groups_view(gs@) == gv,
                gv.len() == gs@.len(),
                t@ == tv[i as int],
                match found {
                    Some(x) => x < gs@.len() && gv[x as int].0 == t@,
                    None => forall|j: int| 0 <= j < w ==> gv[j].0 != t@,
                },
            decreases gs@.len() - w,
        {
            if found.is_none() && str_eq(gs[w].0.as_str(), t.as_str()) {
                proof {
                    assert(gv[w as int].0 == gs@[w as int].0@);
                }
                found = Some(w);
            }
            w = w + 1;
        }
        match found {
            Some(x) => {
                proof {
                    assert(ghas(gv, t@)) by {
                        assert(gv[x as int].0 == t@);
                    }
                    assert(gi(gv, t@) == x) by {
                        let k = gi(gv, t@);
                        assert(gv[k].0 == t@);
                        if k != x {
                            assert(groups_wf(gv, pre.len() as int));
                            if k < x {
                                assert(gv[k].0 != gv[x as int].0);
                            } else {
                                assert(gv[x as int].0 != gv[k].0);
                            }
                            assert(false);
                        }
                    };
                }
                let ghost old_gs = gs@;
                let mut g = gs.remove(x);
                g.1.push(i);
                gs.insert(x, g);
                proof {
                    assert(gs@ =~= old_gs.update(x as int, gs@[x as int]));
                    assert(groups_view(gs@) =~~= add_occ(gv, t@, i));
                    assert(groups_view(gs@) =~~= group_tokens(post));
                }
            },
            None => {
                proof {
                    assert(!ghas(gv, t@)) by {
                        if ghas(gv, t@) {
                            let k = gi(gv, t@);
                            assert(gv[k].0 == t@);
                        }
                    }
                }
                let mut pos: Vec<usize> = Vec::new();
                pos.push(i);
                gs.push((t.clone(), pos));
                proof {
                    assert(pos@ =~= seq![i]);
                    assert(groups_view(gs@) =~~= add_occ(gv, t@, i));
                    assert(groups_view(gs@) =~~= group_tokens(post));
                }
            },
        }
        i = i + 1;
    }
    proof {
        assert(tv.subrange(0, tv.len() as int) =~= tv);
    }
    gs
}

/// The postings index after indexing document `id` with its token groups,
/// one insertion per distinct token.
pub open spec fn index_doc_spec(ps: PostingsV, id: u32, gs: Seq<(Seq<char>, Seq<usize>)>)
    -> PostingsV
    decreases gs.len(),
{
    if gs.len() == 0 {
        ps
    } else {
        insert_posting_spec(index_doc_spec(ps, id, gs.drop_last()), gs.last().0, id, gs.last().1)
    }
}

/// One insertion keeps the index well-formed, extends only the inserted
/// token's postings list, and adds no entry besides `(id, pos)`.
pub proof fn lemma_insert_posting_props(ps: PostingsV, t: Seq<char>, id: u32, pos: Seq<usize>)
    requires
        postings_wf(ps),
        pos.len() > 0,
        !has_id(entries_of(ps, t), id),
    ensures
        postings_wf(insert_posting_spec(ps, t, id, pos)),
        forall|t2: Seq<char>| t2 != t ==> entries_of(insert_posting_spec(ps, t, id, pos), t2)
            == entries_of(ps, t2),
        entries_of(insert_posting_spec(ps, t, id, pos), t) == entries_of(ps, t).push((id, pos)),
        forall|i: int, j: int| 0 <= i < insert_posting_spec(ps, t, id, pos).len() && 0 <= j
            < insert_posting_spec(ps, t, id, pos)[i].1.len() ==> ((#[trigger] insert_posting_spec(
            ps,
            t,
            id,
            pos,
        )[i].1[j]) == (id, pos) || exists|w: int, v: int|
            0 <= w < ps.len() && 0 <= v < ps[w].1.len() && ps[w].1[v] == insert_posting_spec(
                ps,
                t,
                id,
                pos,
            )[i].1[j]),
{
    let r = insert_posting_spec(ps, t, id, pos);
    if has_tok(ps, t) {
        let i = tok_i(ps, t);
        assert(ps[i].0 == t);
        assert(r == ps.update(i, (t, ps[i].1.push((id, pos)))));
        assert(entries_of(ps, t) == ps[i].1);
        assert forall|w: int, a: int, b: int|
            0 <= w < r.len() && 0 <= a < b < r[w].1.len() implies (#[trigger] r[w].1[a]).0
            != (#[trigger] r[w].1[b]).0 by {
            if w == i {
                let es = ps[i].1;
                if b == es.len() {
                    if es[a].0 == id {
                        assert(has_id(es, id));
                    }
                }
            }
        }
        assert(has_tok(r, t)) by {
            assert(r[i].0 == t);
        }
        assert(tok_i(r, t) == i) by {
            let k = tok_i(r, t);
            assert(r[k].0 == t);
            if k != i {
                assert(ps[k].0 == r[k].0);
            }
        }
        assert(entries_of(r, t) == ps[i].1.push((id, pos)));
        assert forall|t2: Seq<char>| t2 != t implies entries_of(r, t2) == entries_of(ps, t2) by {
            if has_tok(ps, t2) {
                let k = tok_i(ps, t2);
                assert(ps[k].0 == t2);
                assert(k != i);
                assert(r[k].0 == t2);
                assert(has_tok(r, t2));
                assert(tok_i(r, t2) == k) by {
                    let k2 = tok_i(r, t2);
                    assert(r[k2].0 == t2);
                    if k2 != k {
                        if k2 == i {
                            assert(r[i].0 == t);
                        } else {
                            assert(ps[k2].0 == t2);
                        }
                    }
                }
                assert(entries_of(r, t2) == r[k].1);
                assert(r[k].1 == ps[k].1);
            } else {
                assert(!has_tok(r, t2)) by {
                    if has_tok(r, t2) {
                        let k = tok_i(r, t2);
                        assert(r[k].0 == t2);
                        if k == i {
                            assert(r[i].0 == t);
                        } else {
                            assert(ps[k].0 == t2);
                        }
                    }
                }
            }
        }
        assert forall|w: int, j: int|
            0 <= w < r.len() && 0 <= j < r[w].1.len() implies ((#[trigger] r[w].1[j]) == (id, pos)
            || exists|w2: int, v: int|
            0 <= w2 < ps.len() && 0 <= v < ps[w2].1.len() && ps[w2].1[v] == r[w].1[j]) by {
            if w == i && j == r[w].1.len() - 1 {
            } else if w == i {
                assert(ps[i].1[j] == r[w].1[j]);
            } else {
                assert(ps[w].1[j] == r[w].1[j]);
            }
        }
    } else {
        assert(r == ps.push((t, seq![(id, pos)])));
        assert(seq![(id, pos)].len() == 1);
        assert(has_tok(r, t)) by {
            assert(r[r.len() - 1].0 == t);
        }
        assert(tok_i(r, t) == r.len() - 1) by {
            let k = tok_i(r, t);
            assert(r[k].0 == t);
            if k != r.len() - 1 {
                assert(ps[k].0 == t);
                assert(has_tok(ps, t));
            }
        }
        assert(entries_of(r, t) == seq![(id, pos)]);
        assert(entries_of(ps, t) =~= Seq::<(u32, Seq<usize>)>::empty());
        assert(entries_of(r, t) =~= entries_of(ps, t).push((id, pos)));
        assert forall|t2: Seq<char>| t2 != t implies entries_of(r, t2) == entries_of(ps, t2) by {
            if has_tok(ps, t2) {
                let k = tok_i(ps, t2);
                assert(ps[k].0 == t2);
                assert(r[k].0 == t2);
                assert(has_tok(r, t2));
                assert(tok_i(r, t2) == k) by {
                    let k2 = tok_i(r, t2);
                    assert(r[k2].0 == t2);
                    if k2 != k {
                        if k2 == r.len() - 1 {
                        } else {
                            assert(ps[k2].0 == t2);
                        }
                    }
                }
            } else {
                assert(!has_tok(r, t2)) by {
                    if has_tok(r, t2) {
                        let k = tok_i(r, t2);
                        assert(r[k].0 == t2);
                        if k < ps.len() {
                            assert(ps[k].0 == t2);
                        }
                    }
                }
            }
        }
        assert forall|a: int, b: int| 0 <= a < b < r.len() implies r[a].0 != r[b].0 by {
            if b == r.len() - 1 {
                if r[a].0 == t {
                    assert(ps[a].0 == t);
                    assert(has_tok(ps, t));
                }
            }
        }
        assert forall|w: int, j: int|
            0 <= w < r.len() && 0 <= j < r[w].1.len() implies ((#[trigger] r[w].1[j]) == (id, pos)
            || exists|w2: int, v: int|
            0 <= w2 < ps.len() && 0 <= v < ps[w2].1.len() && ps[w2].1[v] == r[w].1[j]) by {
            if w == r.len() - 1 {
                assert(r[w].1[j] == (id, pos));
            } else {
                assert(ps[w].1[j] == r[w].1[j]);
            }
        }
    }
}

/// `entries_without` drops exactly the removed document's entry and keeps
/// every other entry, without introducing duplicate ids.
pub proof fn lemma_entries_without_props(es: Seq<(u32, Seq<usize>)>, id: u32)
    ensures
        forall|m: int| 0 <= m < entries_without(es, id).len() ==> (#[trigger] entries_without(
            es,
            id,
        )[m]).0 != id && es.contains(entries_without(es, id)[m]),
        forall|m: int| 0 <= m < es.len() && (#[trigger] es[m]).0 != id ==> entries_without(
            es,
            id,
        ).contains(es[m]),
        ids_unique(es) ==> ids_unique(entries_without(es, id)),
    decreases es.len(),
{
    if es.len() > 0 {
        lemma_entries_without_props(es.drop_last(), id);
        let rest = entries_without(es.drop_last(), id);
        assert forall|m: int| 0 <= m < entries_without(es, id).len() implies
            (#[trigger] entries_without(es, id)[m]).0 != id && es.contains(
            entries_without(es, id)[m],
        ) by {
            if es.last().0 != id && m == entries_without(es, id).len() - 1 {
                assert(es[es.len() - 1] == entries_without(es, id)[m]);
            } else {
                assert(rest[m] == entries_without(es, id)[m]);
                assert(es.drop_last().contains(rest[m]));
                let w = choose|w: int|
                    0 <= w < es.drop_last().len() && es.drop_last()[w] == rest[m];
                assert(es[w] == rest[m]);
            }
        }
        assert forall|m: int| 0 <= m < es.len() && (#[trigger] es[m]).0 != id implies
            entries_without(es, id).contains(es[m]) by {
            if m == es.len() - 1 {
                assert(entries_without(es, id)[entries_without(es, id).len() - 1] == es[m]);
            } else {
                assert(es.drop_last()[m] == es[m]);
                assert(rest.contains(es[m]));
                let w = choose|w: int| 0 <= w < rest.len() && rest[w] == es[m];
                assert(entries_without(es, id)[w] == es[m]);
            }
        }
        if ids_unique(es) {
            assert(ids_unique(es.drop_last())) by {
                assert(forall|i: int| 0 <= i < es.drop_last().len() ==> es.drop_last()[i]
                    == es[i]);
            }
            if es.last().0 != id {
                assert forall|a: int, b: int|
                    0 <= a < b < entries_without(es, id).len() implies entries_without(
                    es,
                    id,
                )[a].0 != entries_without(es, id)[b].0 by {
                    if b == entries_without(es, id).len() - 1 {
                        assert(entries_without(es, id)[b] == es.last());
                        assert(rest[a] == entries_without(es, id)[a]);
                        assert(es.drop_last().contains(rest[a]));
                        let w = choose|w: int|
                            0 <= w < es.drop_last().len() && es.drop_last()[w] == rest[a];
                        assert(es[w].0 != es[es.len() - 1].0);
                    }
                }
            }
        }
    }
}

/// Structure of removal: the remaining postings are the old ones with the
/// document's entries dropped; well-formedness is kept, the document is
/// gone, and every remaining entry already existed.
pub proof fn lemma_remove_doc_structure(ps: PostingsV, id: u32)
    requires
        postings_wf(ps),
    ensures
        postings_wf(remove_doc_spec(ps, id)),
        forall|i: int| 0 <= i < remove_doc_spec(ps, id).len() ==> exists|w: int|
            0 <= w < ps.len() && ps[w].0 == (#[trigger] remove_doc_spec(ps, id)[i]).0
                && remove_doc_spec(ps, id)[i].1 == entries_without(ps[w].1, id),
        forall|i: int, j: int| 0 <= i < remove_doc_spec(ps, id).len() && 0 <= j
            < remove_doc_spec(ps, id)[i].1.len() ==> (#[trigger] remove_doc_spec(
            ps,
            id,
        )[i].1[j]).0 != id && exists|w: int, v: int|
            0 <= w < ps.len() && 0 <= v < ps[w].1.len() && ps[w].1[v] == remove_doc_spec(
                ps,
                id,
            )[i].1[j],
    decreases ps.len(),
{
    if ps.len() > 0 {
        assert(postings_wf(ps.drop_last())) by {
            assert(forall|i: int| 0 <= i < ps.drop_last().len() ==> ps.drop_last()[i] == ps[i]);
        }
        lemma_remove_doc_structure(ps.drop_last(), id);
        lemma_entries_without_props(ps.last().1, id);
        let rest = remove_doc_spec(ps.drop_last(), id);
        let ew = entries_without(ps.last().1, id);
        let r = remove_doc_spec(ps, id);
        assert forall|i: int| 0 <= i < r.len() implies exists|w: int|
            0 <= w < ps.len() && ps[w].0 == (#[trigger] r[i]).0 && r[i].1 == entries_without(
                ps[w].1,
                id,
            ) by {
            if ew.len() > 0 && i == r.len() - 1 {
                assert(ps[ps.len() - 1].0 == r[i].0 && r[i].1 == entries_without(
                    ps[ps.len() - 1].1,
                    id,
                ));
            } else {
                assert(r[i] == rest[i]);
                let w = choose|w: int|
                    0 <= w < ps.drop_last().len() && ps.drop_last()[w].0 == rest[i].0
                        && rest[i].1 == entries_without(ps.drop_last()[w].1, id);
                assert(ps[w].0 == r[i].0 && r[i].1 == entries_without(ps[w].1, id));
            }
        }
        assert forall|i: int, j: int|
            0 <= i < r.len() && 0 <= j < r[i].1.len() implies (#[trigger] r[i].1[j]).0 != id
            && exists|w: int, v: int|
            0 <= w < ps.len() && 0 <= v < ps[w].1.len() && ps[w].1[v] == r[i].1[j] by {
            if ew.len() > 0 && i == r.len() - 1 {
                assert(ps.last().1.contains(r[i].1[j]));
                let v = choose|v: int|
                    0 <= v < ps.last().1.len() && ps.last().1[v] == r[i].1[j];
                assert(ps[ps.len() - 1].1[v] == r[i].1[j]);
            } else {
                assert(r[i] == rest[i]);
                let wv = choose|w: int, v: int|
                    0 <= w < ps.drop_last().len() && 0 <= v < ps.drop_last()[w].1.len()
                        && ps.drop_last()[w].1[v] == rest[i].1[j];
                assert(ps[wv.0].1[wv.1] == r[i].1[j]);
            }
        }
        assert forall|a: int, b: int| 0 <= a < b < r.len() implies r[a].0 != r[b].0 by {
            if ew.len() > 0 && b == r.len() - 1 {
                let w = choose|w: int|
                    0 <= w < ps.drop_last().len() && ps.drop_last()[w].0 == rest[a].0
                        && rest[a].1 == entries_without(ps.drop_last()[w].1, id);
                assert(ps[w].0 != ps[ps.len() - 1].0);
            }
        }
        assert forall|i: int| 0 <= i < r.len() implies ids_unique(#[trigger] r[i].1) && r[i].1.len()
            > 0 by {
            let w = choose|w: int|
                0 <= w < ps.len() && ps[w].0 == r[i].0 && r[i].1 == entries_without(ps[w].1, id);
            lemma_entries_without_props(ps[w].1, id);
            assert(ids_unique(ps[w].1));
        }
    }
}

proof fn lemma_remove_update_push(ps: PostingsV, i: int, id: u32, pos: Seq<usize>)
    requires
        0 <= i < ps.len(),
    ensures
        remove_doc_spec(ps.update(i, (ps[i].0, ps[i].1.push((id, pos)))), id) == remove_doc_spec(
            ps,
            id,
        ),
    decreases ps.len(),
{
    let ps2 = ps.update(i, (ps[i].0, ps[i].1.push((id, pos))));
    if i == ps.len() - 1 {
        assert(ps2.drop_last() =~= ps.drop_last());
        assert(ps2.last() == (ps[i].0, ps[i].1.push((id, pos))));
        assert(ps[i].1.push((id, pos)).drop_last() =~= ps[i].1);
        assert(entries_without(ps[i].1.push((id, pos)), id) == entries_without(ps[i].1, id));
        assert(ps.last() == (ps[i].0, ps[i].1));
    } else {
        assert(ps2.last() == ps.last());
        assert(ps2.drop_last() =~= ps.drop_last().update(i, (
            ps.drop_last()[i].0,
            ps.drop_last()[i].1.push((id, pos)),
        )));
        lemma_remove_update_push(ps.drop_last(), i, id, pos);
    }
}

/// De-indexing a document undoes each of its insertions.
pub proof fn lemma_remove_insert(ps: PostingsV, t: Seq<char>, id: u32, pos: Seq<usize>)
    ensures
        remove_doc_spec(insert_posting_spec(ps, t, id, pos), id) == remove_doc_spec(ps, id),
{
    if has_tok(ps, t) {
        let i = tok_i(ps, t);
        assert(ps[i].0 == t);
        assert(insert_posting_spec(ps, t, id, pos) == ps.update(i, (
            ps[i].0,
            ps[i].1.push((id, pos)),
        )));
        lemma_remove_update_push(ps, i, id, pos);
    } else {
        let r = ps.push((t, seq![(id, pos)]));
        assert(r.drop_last() =~= ps);
        assert(r.last() == (t, seq![(id, pos)]));
        let s1 = seq![(id, pos)];
        assert(s1.len() == 1);
        assert(s1.last() == (id, pos));
        assert(s1.drop_last() =~= Seq::<(u32, Seq<usize>)>::empty());
        assert(entries_without(s1.drop_last(), id) == Seq::<(u32, Seq<usize>)>::empty());
        assert(entries_without(s1, id) =~= Seq::<(u32, Seq<usize>)>::empty());
    }
}

/// De-indexing a document that no postings list mentions changes nothing.
pub proof fn lemma_remove_doc_identity(ps: PostingsV, id: u32)
    requires
        forall|i: int, j: int| 0 <= i < ps.len() && 0 <= j < ps[i].1.len() ==> (
        #[trigger] ps[i].1[j]).0 != id,
        forall|i: int| 0 <= i < ps.len() ==> (#[trigger] ps[i].1).len() > 0,
    ensures
        remove_doc_spec(ps, id) == ps,
    decreases ps.len(),
{
    if ps.len() > 0 {
        assert forall|i: int, j: int|
            0 <= i < ps.drop_last().len() && 0 <= j < ps.drop_last()[i].1.len() implies (
        #[trigger] ps.drop_last()[i].1[j]).0 != id by {
            assert(ps[i].1[j].0 != id);
        }
        assert forall|i: int| 0 <= i < ps.drop_last().len() implies (#[trigger] ps.drop_last()[i].1).len()
            > 0 by {
            assert(ps[i].1.len() > 0);
        }
        lemma_remove_doc_identity(ps.drop_last(), id);
        lemma_entries_without_identity(ps.last().1, id);
        assert(remove_doc_spec(ps, id) =~= ps);
    }
}

proof fn lemma_entries_without_identity(es: Seq<(u32, Seq<usize>)>, id: u32)
    requires
        forall|j: int| 0 <= j < es.len() ==> (#[trigger] es[j]).0 != id,
    ensures
        entries_without(es, id) == es,
    decreases es.len(),
{
    if es.len() > 0 {
        assert forall|j: int| 0 <= j < es.drop_last().len() implies (
        #[trigger] es.drop_last()[j]).0 != id by {
            assert(es[j].0 != id);
        }
        lemma_entries_without_identity(es.drop_last(), id);
        assert(entries_without(es, id) =~= es);
    }
}

/// De-indexing a freshly indexed document restores the postings index: the
/// insertions of `index_doc_spec` are undone exactly.
pub proof fn lemma_remove_index_doc(ps: PostingsV, id: u32, gs: Seq<(Seq<char>, Seq<usize>)>)
    requires
        forall|i: int, j: int| 0 <= i < ps.len() && 0 <= j < ps[i].1.len() ==> (
        #[trigger] ps[i].1[j]).0 != id,
        forall|i: int| 0 <= i < ps.len() ==> (#[trigger] ps[i].1).len() > 0,
    ensures
        remove_doc_spec(index_doc_spec(ps, id, gs), id) == ps,
    decreases gs.len(),
{
    if gs.len() == 0 {
        lemma_remove_doc_identity(ps, id);
    } else {
        lemma_remove_index_doc(ps, id, gs.drop_last());
        lemma_remove_insert(
            index_doc_spec(ps, id, gs.drop_last()),
            gs.last().0,
            id,
            gs.last().1,
        );
    }
}

/// The postings index structure.
pub struct PostingsIndex {
    pub items: Vec<TokenPostings>,
}

impl View for PostingsIndex {
    type V = PostingsV;

    open spec fn view(&self) -> PostingsV {
        self.items.deep_view()
    }
}

impl PostingsIndex {
    /// An empty postings index.
    pub fn new() -> (r: PostingsIndex)
        ensures
            r@ =~= Seq::<(Seq<char>, Seq<(u32, Seq<usize>)>)>::empty(),
    {
        PostingsIndex { items: Vec::new() }
    }

    /// Looks a token up, returning its position in the index.
    pub fn find(&self, t: &str) -> (r: Option<usize>)
        ensures
            match r {
                Some(i) => i < self@.len() && self@[i as int].0 == t@,
                None => !has_tok(self@, t@),
            },
    {
        let mut i: usize = 0;
        while i < self.items.len()
            invariant
                i <= self.items@.len(),
                self@.len() == self.items@.len(),
                forall|j: int| 0 <= j < self.items@.len() ==> self@[j].0 == self.items@[j].token@,
                forall|j: int| 0 <= j < i ==> self@[j].0 != t@,
            decreases self.items@.len() - i,
        {
            if str_eq(self.items[i].token.as_str(), t) {
                return Some(i);
            }
            i = i + 1;
        }
        None
    }

    /// The tokens of the index, in order.
    pub fn tokens(&self) -> (r: Vec<String>)
        ensures
            r.deep_view() == tok_seq(self@),
    {
        let mut r: Vec<String> = Vec::new();
        let mut i: usize = 0;
        while i < self.items.len()
            invariant
                i <= self.items@.len(),
                self@.len() == self.items@.len(),
                forall|j: int| 0 <= j < self.items@.len() ==> self@[j].0 == self.items@[j].token@,
                r@.len() == i,
                forall|j: int| 0 <= j < i ==> r@[j]@ == self@[j].0,
            decreases self.items@.len() - i,
        {
            r.push(self.items[i].token.clone());
            i = i + 1;
        }
        proof {
            assert(r.deep_view() =~= tok_seq(self@));
        }
        r
    }

    /// Appends document `id` with its positions to token `t`'s postings
    /// list, creating the token if it is new.
    pub fn insert_posting(&mut self, t: &str, id: u32, positions: Vec<usize>)
        requires
            postings_wf(old(self)@),
        ensures
            final(self)@ == insert_posting_spec(old(self)@, t@, id, positions@),
    {
        let ghost ops = old(self)@;
        let found = self.find(t);
        match found {
            Some(i) => {
                proof {
                    assert(has_tok(ops, t@));
                    assert(ops[tok_i(ops, t@)].0 == t@);
                    assert(tok_i(ops, t@) == i) by {
                        let k = tok_i(ops, t@);
                        if k != i {
                            assert(ops[k].0 == ops[i as int].0);
                        }
                    };
                }
                let ghost old_items = self.items@;
                let mut tp = self.items.remove(i);
                tp.entries.push(PostingEntry { doc_id: id, positions });
                self.items.insert(i, tp);
                proof {
                    assert(self.items@ =~= old_items.update(i as int, self.items@[i as int]));
                    assert(tp.entries.deep_view() =~= ops[i as int].1.push((id, positions@)));
                    assert(final(self)@ =~~= insert_posting_spec(ops, t@, id, positions@));
                }
            },
            None => {
                let mut entries: Vec<PostingEntry> = Vec::new();
                entries.push(PostingEntry { doc_id: id, positions });
                self.items.push(TokenPostings { token: t.to_owned(), entries });
                proof {
                    assert(entries.deep_view() =~= seq![(id, positions@)]);
                    assert(final(self)@ =~~= insert_posting_spec(ops, t@, id, positions@));
                }
            },
        }
    }

    /// Removes document `id` from every postings list, dropping tokens whose
    /// lists become empty.
    pub fn remove_doc(&mut self, id: u32)
        ensures
            final(self)@ == remove_doc_spec(old(self)@, id),
    {
        let ghost ops = old(self)@;
        let mut out: Vec<TokenPostings> = Vec::new();
        let mut i: usize = 0;
        while i < self.items.len()
            invariant
                i <= self.items@.len(),
                ops == self.items.deep_view(),
                ops.len() == self.items@.len(),
                forall|j: int| 0 <= j < self.items@.len() ==> ops[j] == self.items@[j]@,
                out.deep_view() == remove_doc_spec(ops.subrange(0, i as int), id),
            decreases self.items@.len() - i,
        {
            let ghost pre = ops.subrange(0, i as int);
            let ghost post = ops.subrange(0, i + 1 as int);
            proof {
                assert(post.drop_last() =~= pre);
                assert(post.last() == ops[i as int]);
            }
            let item = &self.items[i];
            let mut kept: Vec<PostingEntry> = Vec::new();
            let mut k: usize = 0;
            while k < item.entries.len()
                invariant
                    k <= item.entries@.len(),
                    kept.deep_view() == entries_without(
                        item.entries.deep_view().subrange(0, k as int),
                        id,
                    ),
                decreases item.entries@.len() - k,
            {
                let ghost epre = item.entries.deep_view().subrange(0, k as int);
                let ghost epost = item.entries.deep_view().subrange(0, k + 1 as int);
                proof {
                    assert(epost.drop_last() =~= epre);
                    assert(epost.last() == item.entries.deep_view()[k as int]);
                }
                let e = &item.entries[k];
                if e.doc_id != id {
                    let mut pos: Vec<usize> = Vec::new();
                    let mut m: usize = 0;
                    while m < e.positions.len()
                        invariant
                            m <= e.positions@.len(),
                            pos@ == e.positions@.subrange(0, m as int),
                        decreases e.positions@.len() - m,
                    {
                        pos.push(e.positions[m]);
                        m = m + 1;
                        proof {
                            assert(pos@ =~= e.positions@.subrange(0, m as int));
                        }
                    }
                    proof {
                        assert(pos@ =~= e.positions@);
                    }
                    kept.push(PostingEntry { doc_id: e.doc_id, positions: pos });
                    proof {
                        assert(kept.deep_view() =~= entries_without(epost, id));
                    }
                }
                k = k + 1;
            }
            proof {
                assert(item.entries.deep_view().subrange(0, item.entries@.len() as int)
                    =~= item.entries.deep_view());
            }
            if kept.len() > 0 {
                out.push(TokenPostings { token: item.token.clone(), entries: kept });
                proof {
                    assert(out.deep_view() =~= remove_doc_spec(post, id));
                }
            }
            i = i + 1;
        }
        proof {
            assert(ops.subrange(0, ops.len() as int) =~= ops);
        }
        self.items = out;
    }
}

} // verus!
