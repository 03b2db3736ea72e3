//! The snippet generator: locates the first match of any locate term in a
//! document (ASCII-case-insensitively), extracts a window of fifty
//! characters on both sides, and marks every word-boundary occurrence of
//! every highlight term inside the window.

use vstd::prelude::*;

use crate::text::{chars_of, chars_to_string, is_word_char, lower_char, lower_chars, word_char};

verus! {

/// Characters that regex word boundaries treat as word characters:
/// alphanumerics and the underscore.
pub open spec fn wb_char(c: char) -> bool {
    word_char(c) || c == '_'
}

/// ASCII-case-insensitive equality of two character sequences.
pub open spec fn ci_eq(a: Seq<char>, b: Seq<char>) -> bool {
    lower_chars(a) == lower_chars(b)
}

/// Whether term `t` matches (case-insensitively) at position `i` of `s`.
pub open spec fn match_at(s: Seq<char>, t: Seq<char>, i: int) -> bool {
    0 <= i && i + t.len() <= s.len() && ci_eq(s.subrange(i, i + t.len()), t)
}

/// A match at `i` that respects word boundaries on both sides.
pub open spec fn boundary_match(s: Seq<char>, t: Seq<char>, i: int) -> bool {
    &&& match_at(s, t, i)
    &&& (i == 0 || !wb_char(s[i - 1]))
    &&& (i + t.len() == s.len() || !wb_char(s[i + t.len()]))
}

/// The first position >= i where `t` matches in `s`, if any.
pub open spec fn first_occ_from(s: Seq<char>, t: Seq<char>, i: int) -> Option<int>
    decreases s.len() - i,
{
    if i < 0 || i + t.len() > s.len() {
        None
    } else if t.len() == 0 || match_at(s, t, i) {
        Some(i)
    } else {
        first_occ_from(s, t, i + 1)
    }
}

/// The first (term index, position) pair, trying the terms in order from
/// index `k` and taking each term's first occurrence.
pub open spec fn first_term_from(s: Seq<char>, terms: Seq<Seq<char>>, k: int) -> Option<(int, int)>
    decreases terms.len() - k,
{
    if k < 0 || k >= terms.len() {
        None
    } else {
        match first_occ_from(s, terms[k], 0) {
            Some(p) => Some((k, p)),
            None => first_term_from(s, terms, k + 1),
        }
    }
}

/// Three dots, used to frame snippets.
pub open spec fn dots() -> Seq<char> {
    seq!['.', '.', '.']
}

/// The boundary-respecting matches of `t` in the window `w` at positions
/// below `upto`, as (start, length) ranges into the framed snippet (the
/// window is preceded by three dots, hence the offset).
pub open spec fn term_marks(w: Seq<char>, t: Seq<char>, upto: int) -> Seq<(usize, usize)>
    decreases upto,
{
    if upto <= 0 {
        Seq::empty()
    } else {
        let rest = term_marks(w, t, upto - 1);
        if boundary_match(w, t, upto - 1) {
            rest.push((((upto - 1) + 3) as usize, t.len() as usize))
        } else {
            rest
        }
    }
}

/// All marks of the first `k` highlight terms in the window.
pub open spec fn window_highlights(w: Seq<char>, terms: Seq<Seq<char>>, k: int) -> Seq<
    (usize, usize),
>
    decreases k,
{
    if k <= 0 {
        Seq::empty()
    } else {
        window_highlights(w, terms, k - 1) + term_marks(
            w,
            terms[k - 1],
            w.len() - terms[k - 1].len() + 1,
        )
    }
}

/// The snippet of a document for the given locate and highlight terms: the
/// window around the first locate-term match, framed with dots, with the
/// highlight marks; or the first 150 characters when nothing matches.
pub open spec fn snippet_spec(c: Seq<char>, locate: Seq<Seq<char>>, highlight: Seq<Seq<char>>)
    -> (Seq<char>, Seq<(usize, usize)>) {
    match first_term_from(c, locate, 0) {
        Some(kp) => {
            let t = locate[kp.0];
            let start = if kp.1 >= 50 {
                kp.1 - 50
            } else {
                0
            };
            let end = if kp.1 + t.len() + 50 <= c.len() {
                kp.1 + t.len() + 50
            } else {
                c.len() as int
            };
            let w = c.subrange(start, end);
            (dots() + w + dots(), window_highlights(w, highlight, highlight.len() as int))
        },
        None => {
            let end = if c.len() <= 150 {
                c.len() as int
            } else {
                150
            };
            (c.subrange(0, end) + dots(), Seq::empty())
        },
    }
}

/// Decides whether `c` is a word-boundary character.
fn is_wb_char(c: char) -> (r: bool)
    ensures
        r == wb_char(c),
{
    is_word_char(c) || c == '_'
}

/// Decides a case-insensitive match of `t` at position `i` of `s`.
fn match_at_exec(s: &Vec<char>, t: &Vec<char>, i: usize) -> (r: bool)
    requires
        i <= s@.len(),
    ensures
        r == match_at(s@, t@, i as int),
{
    if t.len() > s.len() - i {
        return false;
    }
    let mut k: usize = 0;
    while k < t.len()
        invariant
            k <= t@.len(),
            i + t@.len() <= s@.len(),
            forall|m: int| 0 <= m < k ==> lower_char(s@[i + m]) == lower_char(t@[m]),
        decreases t@.len() - k,
    {
        let a = s[i + k];
        let b = t[k];
        if crate::text::to_lower_char(a) != crate::text::to_lower_char(b) {
            proof {
                let sub = s@.subrange(i as int, i + t@.len());
                assert(lower_chars(sub)[k as int] == lower_char(sub[k as int]));
                assert(lower_chars(t@)[k as int] == lower_char(t@[k as int]));
            }
            return false;
        }
        k = k + 1;
    }
    proof {
        let sub = s@.subrange(i as int, i + t@.len());
        assert forall|m: int| 0 <= m < t@.len() implies lower_chars(sub)[m] == lower_chars(t@)[m]
        by {
            assert(lower_chars(sub)[m] == lower_char(sub[m]));
            assert(lower_chars(t@)[m] == lower_char(t@[m]));
        }
        assert(lower_chars(sub) =~= lower_chars(t@));
    }
    true
}

/// Decides a boundary-respecting match of `t` at position `i` of `s`.
fn boundary_match_exec(s: &Vec<char>, t: &Vec<char>, i: usize) -> (r: bool)
    requires
        i <= s@.len(),
    ensures
        r == boundary_match(s@, t@, i as int),
{
    if !match_at_exec(s, t, i) {
        return false;
    }
    if i > 0 && is_wb_char(s[i - 1]) {
        return false;
    }
    let n = s.len();
    proof {
        assert(i + t@.len() <= s@.len());
    }
    if i + t.len() < n && is_wb_char(s[i + t.len()]) {
        return false;
    }
    true
}

/// Finds the first case-insensitive occurrence of `t` in `s`.
fn find_first(s: &Vec<char>, t: &Vec<char>) -> (r: Option<usize>)
    ensures
        match r {
            Some(p) => first_occ_from(s@, t@, 0) == Some(p as int),
            None => first_occ_from(s@, t@, 0) is None,
        },
{
    if t.len() > s.len() {
        return None;
    }
    let mut i: usize = 0;
    let bound: usize = s.len() - t.len();
    while i <= bound
        invariant
            t@.len() <= s@.len(),
            bound == s@.len() - t@.len(),
            i <= bound + 1,
            first_occ_from(s@, t@, 0) == first_occ_from(s@, t@, i as int),
        decreases bound + 1 - i,
    {
        if match_at_exec(s, t, i) {
            return Some(i);
        }
        proof {
            if t@.len() == 0 {
                assert(s@.subrange(i as int, i as int) =~= Seq::<char>::empty());
                assert(lower_chars(s@.subrange(i as int, i as int)) =~= lower_chars(t@));
                assert(false);
            }
        }
        i = i + 1;
    }
    None
}

/// Builds the framed snippet text and the highlight marks for a window.
fn framed(w: &Vec<char>, highlight: &Vec<Vec<char>>) -> (r: (String, Vec<(usize, usize)>))
    requires
        w@.len() <= 0x9000_0000usize,
    ensures
        r.0@ == dots() + w@ + dots(),
        r.1@ == window_highlights(w@, highlight.deep_view(), highlight.deep_view().len() as int),
{
    let mut text: Vec<char> = Vec::new();
    text.push('.');
    text.push('.');
    text.push('.');
    let mut i: usize = 0;
    while i < w.len()
        invariant
            i <= w@.len(),
            text@ == dots() + w@.subrange(0, i as int),
        decreases w@.len() - i,
    {
        text.push(w[i]);
        i = i + 1;
        proof {
            assert(text@ =~= dots() + w@.subrange(0, i as int));
        }
    }
    text.push('.');
    text.push('.');
    text.push('.');
    proof {
        assert(w@.subrange(0, w@.len() as int) =~= w@);
        assert(text@ =~= dots() + w@ + dots());
    }
    let ghost hl = highlight.deep_view();
    let mut marks: Vec<(usize, usize)> = Vec::new();
    let mut k: usize = 0;
    while k < highlight.len()
        invariant
            k <= highlight@.len(),
            hl == highlight.deep_view(),
            hl.len() == highlight@.len(),
            forall|j: int| 0 <= j < highlight@.len() ==> hl[j] == highlight@[j]@,
            marks@ == window_highlights(w@, hl, k as int),
        decreases highlight@.len() - k,
    {
        let t = &highlight[k];
        let ghost upto_spec = w@.len() - t@.len() + 1;
        if t.len() <= w.len() {
            let upto: usize = w.len() - t.len() + 1;
            let mut p: usize = 0;
            while p < upto
                invariant
                    upto == w@.len() - t@.len() + 1,
                    p <= upto,
                    t@.len() <= w@.len(),
                    hl == highlight.deep_view(),
                    hl.len() == highlight@.len(),
                    forall|j: int| 0 <= j < highlight@.len() ==> hl[j] == highlight@[j]@,
                    t@ == hl[k as int],
                    marks@ == window_highlights(w@, hl, k as int) + term_marks(w@, t@, p as int),
                decreases upto - p,
            {
                if boundary_match_exec(w, t, p) {
                    marks.push((p + 3, t.len()));
                    proof {
                        assert(marks@ =~= window_highlights(w@, hl, k as int) + term_marks(
                            w@,
                            t@,
                            p + 1 as int,
                        ));
                    }
                } else {
                    proof {
                        assert(marks@ =~= window_highlights(w@, hl, k as int) + term_marks(
                            w@,
                            t@,
                            p + 1 as int,
                        ));
                    }
                }
                p = p + 1;
            }
            proof {
                assert(marks@ =~= window_highlights(w@, hl, k + 1 as int));
            }
        } else {
            proof {
                assert forall|q: int| q <= upto_spec implies term_marks(w@, t@, q)
                    =~= Seq::<(usize, usize)>::empty() by {
                    assert(upto_spec <= 0);
                    lemma_term_marks_empty(w@, t@, q);
                }
                assert(marks@ =~= window_highlights(w@, hl, k + 1 as int));
            }
        }
        k = k + 1;
    }
    (chars_to_string(&text), marks)
}

proof fn lemma_term_marks_empty(w: Seq<char>, t: Seq<char>, upto: int)
    requires
        upto <= 0,
    ensures
        term_marks(w, t, upto) == Seq::<(usize, usize)>::empty(),
{
}

/// Finds the first locate term (in list order) occurring in the content,
/// with the position of its first occurrence.
fn locate_first(content: &Vec<char>, locate: &Vec<Vec<char>>) -> (r: Option<(usize, usize)>)
    ensures
        match r {
            Some(kp) => {
                &&& kp.0 < locate@.len()
                &&& kp.1 + locate.deep_view()[kp.0 as int].len() <= content@.len()
                &&& first_term_from(content@, locate.deep_view(), 0) == Some(
                    (kp.0 as int, kp.1 as int),
                )
            },
            None => first_term_from(content@, locate.deep_view(), 0) is None,
        },
{
    let ghost lv = locate.deep_view();
    let mut k: usize = 0;
    while k < locate.len()
        invariant
            k <= locate@.len(),
            first_term_from(content@, lv, 0) == first_term_from(content@, lv, k as int),
        decreases locate@.len() - k,
    {
        let t = &locate[k];
        match find_first(content, t) {
            Some(p) => {
                proof {
                    assert(lv[k as int] == locate@[k as int]@);
                    assert(first_occ_from(content@, lv[k as int], 0) == Some(p as int));
                    lemma_first_occ_bound(content@, lv[k as int], 0);
                }
                return Some((k, p));
            },
            None => {
                proof {
                    assert(lv[k as int] == locate@[k as int]@);
                    assert(first_occ_from(content@, lv[k as int], 0) is None);
                }
                k = k + 1;
            },
        }
    }
    None
}

/// Builds the snippet of a document: the window around the first match of
/// any locate term, with word-boundary highlight marks, or the leading 150
/// characters when no locate term occurs.
pub fn make_snippet(content: &Vec<char>, locate: &Vec<Vec<char>>, highlight: &Vec<Vec<char>>)
    -> (r: (String, Vec<(usize, usize)>))
    requires
        content@.len() <= 0x8000_0000usize,
    ensures
        ({
            let sp = snippet_spec(content@, locate.deep_view(), highlight.deep_view());
            r.0@ == sp.0 && r.1@ == sp.1
        }),
{
    let ghost lv = locate.deep_view();
    let found = locate_first(content, locate);
    match found {
        Some((ti, p)) => {
            let t = &locate[ti];
            let start: usize = if p >= 50 {
                p - 50
            } else {
                0
            };
            let end: usize = if p + t.len() + 50 <= content.len() {
                p + t.len() + 50
            } else {
                content.len()
            };
            proof {
                assert(first_term_from(content@, lv, 0) == Some((ti as int, p as int)));
                assert(p + lv[ti as int].len() <= content@.len());
            }
            let mut w: Vec<char> = Vec::new();
            let mut m: usize = start;
            while m < end
                invariant
                    start <= m <= end <= content@.len(),
                    w@ == content@.subrange(start as int, m as int),
                decreases end - m,
            {
                w.push(content[m]);
                m = m + 1;
                proof {
                    assert(w@ =~= content@.subrange(start as int, m as int));
                }
            }
            framed(&w, highlight)
        },
        None => {
            proof {
                assert(first_term_from(content@, lv, 0) is None);
            }
            let end: usize = if content.len() <= 150 {
                content.len()
            } else {
                150
            };
            let mut w: Vec<char> = Vec::new();
            let mut m: usize = 0;
            while m < end
                invariant
                    m <= end <= content@.len(),
                    w@ == content@.subrange(0, m as int),
                decreases end - m,
            {
                w.push(content[m]);
                m = m + 1;
                proof {
                    assert(w@ =~= content@.subrange(0, m as int));
                }
            }
            w.push('.');
            w.push('.');
            w.push('.');
            proof {
                assert(w@ =~= content@.subrange(0, end as int) + dots());
            }
            (chars_to_string(&w), Vec::new())
        },
    }
}

proof fn lemma_first_occ_bound(s: Seq<char>, t: Seq<char>, i: int)
    ensures
        match first_occ_from(s, t, i) {
            Some(p) => i <= p && p + t.len() <= s.len(),
            None => true,
        },
    decreases s.len() - i,
{
    if i < 0 || i + t.len() > s.len() {
    } else if t.len() == 0 || match_at(s, t, i) {
    } else {
        lemma_first_occ_bound(s, t, i + 1);
    }
}

} // verus!
