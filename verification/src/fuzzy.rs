//! Fuzzy term resolution: Levenshtein edit distance against every indexed
//! token, keeping candidates within a fixed threshold and choosing the first
//! token of minimal distance.

use vstd::prelude::*;

use crate::FUZZY_THRESHOLD;
use crate::text::str_eq;

verus! {

/// Levenshtein edit distance between two character sequences: the minimum
/// number of single-character insertions, deletions and substitutions that
/// turn one into the other.
pub open spec fn lev(a: Seq<char>, b: Seq<char>) -> int
    decreases a.len(), b.len(),
{
    if a.len() == 0 {
        b.len() as int
    } else if b.len() == 0 {
        a.len() as int
    } else {
        let del = lev(a.drop_last(), b) + 1;
        let ins = lev(a, b.drop_last()) + 1;
        let sub = lev(a.drop_last(), b.drop_last()) + if a.last() == b.last() {
            0int
        } else {
            1int
        };
        if del <= ins && del <= sub {
            del
        } else if ins <= sub {
            ins
        } else {
            sub
        }
    }
}

/// Relies on `strsim::levenshtein`: the Levenshtein edit distance over the
/// characters of the two strings.
#[verifier::external_body]
pub(crate) fn edit_distance(a: &str, b: &str) -> (r: usize)
    ensures
        r == lev(a@, b@),
{
    strsim::levenshtein(a, b)
}

/// The best fuzzy match for `q` among `toks`: of the tokens within the
/// threshold, the one with minimal distance; among equal distances, the
/// earliest in the list.
pub open spec fn best_match(toks: Seq<Seq<char>>, q: Seq<char>) -> Option<(Seq<char>, int)>
    decreases toks.len(),
{
    if toks.len() == 0 {
        None
    } else {
        let prev = best_match(toks.drop_last(), q);
        let t = toks.last();
        let d = lev(q, t);
        if d <= FUZZY_THRESHOLD {
            match prev {
                None => Some((t, d)),
                Some(p) => if d < p.1 {
                    Some((t, d))
                } else {
                    prev
                },
            }
        } else {
            prev
        }
    }
}

/// Finds the best fuzzy match for `q` among the tokens, with its distance.
pub fn find_fuzzy(tokens: &Vec<String>, q: &str) -> (r: Option<(String, usize)>)
    ensures
        match r {
            Some(p) => best_match(tokens.deep_view(), q@) == Some((p.0@, p.1 as int)),
            None => best_match(tokens.deep_view(), q@) is None,
        },
{
    let ghost toks = tokens.deep_view();
    let mut acc: Option<(String, usize)> = None;
    let mut i: usize = 0;
    while i < tokens.len()
        invariant
            i <= tokens@.len(),
            toks == tokens.deep_view(),
            toks.len() == tokens@.len(),
            forall|j: int| 0 <= j < tokens@.len() ==> toks[j] == tokens@[j]@,
            match acc {
                Some(p) => best_match(toks.subrange(0, i as int), q@) == Some((p.0@, p.1 as int)),
                None => best_match(toks.subrange(0, i as int), q@) is None,
            },
        decreases tokens@.len() - i,
    {
        let ghost pre = toks.subrange(0, i as int);
        let ghost post = toks.subrange(0, i + 1 as int);
        proof {
            assert(post.drop_last() =~= pre);
            assert(post.last() == toks[i as int]);
        }
        let t = &tokens[i];
        let d = edit_distance(q, t.as_str());
        if d <= FUZZY_THRESHOLD {
            match &acc {
                None => {
                    acc = Some((t.clone(), d));
                },
                Some(p) => {
                    if d < p.1 {
                        acc = Some((t.clone(), d));
                    }
                },
            }
        }
        i = i + 1;
    }
    proof {
        assert(toks.subrange(0, toks.len() as int) =~= toks);
    }
    acc
}

} // verus!
