//! Ranking order: results are sorted by descending score; equal scores keep
//! ascending document id, so the ranked order of a candidate set is unique.

use vstd::prelude::*;

verus! {

/// Ranking order on (score, document id) pairs: higher scores first, equal
/// scores ordered by ascending id.
pub open spec fn rank_le(a: (u128, u32), b: (u128, u32)) -> bool {
    a.0 > b.0 || (a.0 == b.0 && a.1 <= b.1)
}

/// Whether a sequence is in ranking order.
pub open spec fn rank_sorted(s: Seq<(u128, u32)>) -> bool {
    forall|a: int, b: int| 0 <= a < b < s.len() ==> rank_le(s[a], s[b])
}

/// Decides the ranking order on two pairs.
fn rank_le_exec(a: (u128, u32), b: (u128, u32)) -> (r: bool)
    ensures
        r == rank_le(a, b),
{
    a.0 > b.0 || (a.0 == b.0 && a.1 <= b.1)
}

/// Moving the element at `i` to position `j <= i` keeps the elements of a
/// sequence.
proof fn lemma_move_elem(s: Seq<(u128, u32)>, i: int, j: int)
    requires
        0 <= j <= i < s.len(),
    ensures
        s.remove(i).insert(j, s[i]).len() == s.len(),
        forall|y: (u128, u32)|
            s.remove(i).insert(j, s[i]).contains(y) <==> s.contains(y),
        s.no_duplicates() ==> s.remove(i).insert(j, s[i]).no_duplicates(),
{
    let t = s.remove(i).insert(j, s[i]);
    s.remove_ensures(i);
    s.remove(i).insert_ensures(j, s[i]);
    if s.no_duplicates() {
        assert forall|a: int, b: int| 0 <= a < t.len() && 0 <= b < t.len() && a != b implies t[a]
            != t[b] by {
            let oa = if a == j {
                i
            } else if a < j {
                a
            } else if a <= i {
                a - 1
            } else {
                a
            };
            let ob = if b == j {
                i
            } else if b < j {
                b
            } else if b <= i {
                b - 1
            } else {
                b
            };
            assert(t[a] == s[oa]);
            assert(t[b] == s[ob]);
            assert(oa != ob);
        }
    }
    assert forall|y: (u128, u32)| s.contains(y) implies t.contains(y) by {
        let k = choose|k: int| 0 <= k < s.len() && s[k] == y;
        if k == i {
            assert(t[j] == y);
        } else if k < j {
            assert(t[k] == y);
        } else if k < i {
            assert(t[k + 1] == y);
        } else {
            assert(t[k] == y);
        }
    }
    assert forall|y: (u128, u32)| t.contains(y) implies s.contains(y) by {
        let k = choose|k: int| 0 <= k < t.len() && t[k] == y;
        if k == j {
            assert(s[i] == y);
        } else if k < j {
            assert(s[k] == y);
        } else if k <= i {
            assert(s[k - 1] == y);
        } else {
            assert(s[k] == y);
        }
    }
}

/// Sorts the pairs into ranking order. The elements are kept: nothing is
/// added, dropped or changed, only reordered.
pub fn sort_ranked(v: &mut Vec<(u128, u32)>)
    ensures
        rank_sorted(final(v)@),
        final(v)@.len() == old(v)@.len(),
        forall|y: (u128, u32)| final(v)@.contains(y) <==> old(v)@.contains(y),
        old(v)@.no_duplicates() ==> final(v)@.no_duplicates(),
{
    if v.len() < 2 {
        return ;
    }
    let mut i: usize = 1;
    while i < v.len()
        invariant
            1 <= i <= v@.len(),
            v@.len() == old(v)@.len(),
            v@.len() >= 2,
            forall|a: int, b: int| 0 <= a < b < i ==> rank_le(v@[a], v@[b]),
            forall|y: (u128, u32)| v@.contains(y) <==> old(v)@.contains(y),
            old(v)@.no_duplicates() ==> v@.no_duplicates(),
        decreases v@.len() - i,
    {
        let x = v[i];
        let mut j: usize = i;
        while j > 0 && !rank_le_exec(v[j - 1], x)
            invariant
                j <= i < v@.len(),
                forall|a: int, b: int| 0 <= a < b < i ==> rank_le(v@[a], v@[b]),
                x == v@[i as int],
                forall|k: int| j <= k < i ==> !rank_le(v@[k], x),
            decreases j,
        {
            j = j - 1;
        }
        let ghost s = v@;
        let y = v.remove(i);
        v.insert(j, y);
        proof {
            assert(v@ == s.remove(i as int).insert(j as int, s[i as int]));
            lemma_move_elem(s, i as int, j as int);
            s.remove_ensures(i as int);
            s.remove(i as int).insert_ensures(j as int, s[i as int]);
            assert forall|a: int, b: int| 0 <= a < b < i + 1 implies rank_le(v@[a], v@[b]) by {
                if b < j {
                    assert(v@[a] == s[a] && v@[b] == s[b]);
                } else if a < j && b == j {
                    assert(v@[a] == s[a] && v@[b] == x);
                    if j > 0 {
                        assert(rank_le(s[j - 1], x));
                        if a < j - 1 {
                            assert(rank_le(s[a], s[j - 1]));
                        }
                    }
                } else if a < j && b > j {
                    assert(v@[a] == s[a] && v@[b] == s[b - 1]);
                } else if a == j {
                    assert(v@[a] == x && v@[b] == s[b - 1]);
                    assert(!rank_le(s[b - 1], x));
                } else {
                    assert(v@[a] == s[a - 1] && v@[b] == s[b - 1]);
                }
            }
        }
        i = i + 1;
    }
}

} // verus!
