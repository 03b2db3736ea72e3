//! The search cache: a bounded least-recently-used map from raw query
//! strings to fully computed result lists. The most recently used entry
//! stands at the front; inserting beyond capacity evicts the last entry.

use vstd::prelude::*;

use crate::doc::{duplicate_results, SearchResult, SearchResultV};
use crate::text::str_eq;

verus! {

/// One cached query with its results.
pub struct CacheEntry {
    pub query: String,
    pub results: Vec<SearchResult>,
}

impl View for CacheEntry {
    type V = (Seq<char>, Seq<SearchResultV>);

    open spec fn view(&self) -> (Seq<char>, Seq<SearchResultV>) {
        (self.query@, self.results.deep_view())
    }
}

impl DeepView for CacheEntry {
    type V = (Seq<char>, Seq<SearchResultV>);

    open spec fn deep_view(&self) -> (Seq<char>, Seq<SearchResultV>) {
        self.view()
    }
}

/// The mathematical value of the cache: entries from most to least
/// recently used.
pub type CacheV = Seq<(Seq<char>, Seq<SearchResultV>)>;

/// Whether the cache holds query `q`.
pub open spec fn cache_has(c: CacheV, q: Seq<char>) -> bool {
    exists|i: int| 0 <= i < c.len() && c[i].0 == q
}

/// The position of query `q` in the cache.
pub open spec fn cache_i(c: CacheV, q: Seq<char>) -> int {
    choose|i: int| 0 <= i < c.len() && c[i].0 == q
}

/// The cached results of query `q`, if any.
pub open spec fn cache_lookup(c: CacheV, q: Seq<char>) -> Option<Seq<SearchResultV>> {
    if cache_has(c, q) {
        Some(c[cache_i(c, q)].1)
    } else {
        None
    }
}

/// The cache after a hit on `q`: the entry moves to the front.
pub open spec fn promote_spec(c: CacheV, q: Seq<char>) -> CacheV {
    if cache_has(c, q) {
        let i = cache_i(c, q);
        seq![c[i]] + c.remove(i)
    } else {
        c
    }
}

/// The cache after inserting `q` with results `rs` at the front, evicting
/// the least recently used entry if the capacity would be exceeded.
pub open spec fn put_spec(c: CacheV, q: Seq<char>, rs: Seq<SearchResultV>, cap: nat) -> CacheV {
    let c2 = seq![(q, rs)] + c;
    if c2.len() > cap {
        c2.drop_last()
    } else {
        c2
    }
}

/// Well-formedness: positive capacity, within capacity, queries unique.
pub open spec fn cache_wf(c: CacheV, cap: nat) -> bool {
    &&& cap >= 1
    &&& c.len() <= cap
    &&& forall|i: int, j: int| 0 <= i < j < c.len() ==> c[i].0 != c[j].0
}

/// A freshly inserted query is found afterwards, with exactly the results
/// that were inserted.
pub proof fn lemma_put_then_lookup(c: CacheV, q: Seq<char>, rs: Seq<SearchResultV>, cap: nat)
    requires
        cache_wf(c, cap),
        !cache_has(c, q),
    ensures
        cache_lookup(put_spec(c, q, rs, cap), q) == Some(rs),
{
    let c2 = seq![(q, rs)] + c;
    let r = put_spec(c, q, rs, cap);
    assert(c2[0] == (q, rs));
    assert(r[0] == (q, rs));
    assert(cache_has(r, q));
    let k = cache_i(r, q);
    assert(r[k].0 == q);
    if k != 0 {
        assert(r[k] == c2[k]);
        assert(c2[k] == c[k - 1]);
        assert(cache_has(c, q)) by {
            assert(c[k - 1].0 == q);
        }
        assert(false);
    }
    assert(cache_lookup(r, q) == Some(rs));
}

/// Promoting an entry does not change what any query maps to.
pub proof fn lemma_promote_lookup(c: CacheV, q: Seq<char>, cap: nat)
    requires
        cache_wf(c, cap),
    ensures
        cache_lookup(promote_spec(c, q), q) == cache_lookup(c, q),
{
    if cache_has(c, q) {
        let i = cache_i(c, q);
        assert(c[i].0 == q);
        let r = seq![c[i]] + c.remove(i);
        assert(r[0] == c[i]);
        assert(cache_has(r, q));
        let k = cache_i(r, q);
        assert(r[k].0 == q);
        if k != 0 {
            c.remove_ensures(i);
            assert(r[k] == c.remove(i)[k - 1]);
            if k - 1 < i {
                assert(c.remove(i)[k - 1] == c[k - 1]);
                assert(c[k - 1].0 == q && c[i].0 == q);
                assert(false);
            } else {
                assert(c.remove(i)[k - 1] == c[k]);
                assert(c[k].0 == q && c[i].0 == q);
                assert(false);
            }
        }
        assert(cache_lookup(promote_spec(c, q), q) == Some(c[i].1));
    }
}

/// The bounded least-recently-used search cache.
pub struct SearchCache {
    pub entries: Vec<CacheEntry>,
    pub capacity: usize,
}

impl View for SearchCache {
    type V = CacheV;

    open spec fn view(&self) -> CacheV {
        self.entries.deep_view()
    }
}

impl SearchCache {
    /// An empty cache with the given capacity.
    pub fn new(capacity: usize) -> (r: SearchCache)
        requires
            capacity >= 1,
        ensures
            r@ =~= Seq::<(Seq<char>, Seq<SearchResultV>)>::empty(),
            r.capacity == capacity,
            cache_wf(r@, capacity as nat),
    {
        SearchCache { entries: Vec::new(), capacity }
    }

    /// Drops every entry; the capacity is kept.
    pub fn clear(&mut self)
        ensures
            final(self)@ =~= Seq::<(Seq<char>, Seq<SearchResultV>)>::empty(),
            final(self).capacity == old(self).capacity,
    {
        self.entries = Vec::new();
    }

    /// Looks `q` up; on a hit the entry becomes the most recently used and
    /// a copy of its results is returned.
    pub fn get(&mut self, q: &str) -> (r: Option<Vec<SearchResult>>)
        requires
            cache_wf(old(self)@, old(self).capacity as nat),
        ensures
            final(self).capacity == old(self).capacity,
            final(self)@ == promote_spec(old(self)@, q@),
            cache_wf(final(self)@, final(self).capacity as nat),
            match r {
                Some(rs) => cache_lookup(old(self)@, q@) == Some(rs.deep_view()),
                None => cache_lookup(old(self)@, q@) is None,
            },
    {
        let ghost c = self@;
        let mut i: usize = 0;
        while i < self.entries.len()
            invariant
                i <= self.entries@.len(),
                self@ == c,
                self.capacity == old(self).capacity,
                c.len() == self.entries@.len(),
                forall|j: int| 0 <= j < c.len() ==> c[j].0 == self.entries@[j].query@,
                forall|j: int| 0 <= j < i ==> c[j].0 != q@,
            decreases self.entries@.len() - i,
        {
            if str_eq(self.entries[i].query.as_str(), q) {
                proof {
                    assert(c[i as int].0 == q@);
                    assert(cache_has(c, q@));
                    assert(cache_i(c, q@) == i) by {
                        let k = cache_i(c, q@);
                        assert(c[k].0 == q@);
                        if k != i {
                            assert(c[k].0 == c[i as int].0);
                        }
                    };
                }
                let e = self.entries.remove(i);
                let copy = duplicate_results(&e.results);
                self.entries.insert(0, e);
                proof {
                    assert(final(self)@ =~~= promote_spec(c, q@));
                    assert(cache_lookup(c, q@) == Some(copy.deep_view()));
                    let f = final(self)@;
                    assert(f.len() == c.len());
                    assert forall|a: int, b: int| 0 <= a < b < f.len() implies f[a].0 != f[b].0
                    by {
                        c.remove_ensures(i as int);
                    }
                }
                return Some(copy);
            }
            i = i + 1;
        }
        proof {
            assert(!cache_has(c, q@));
        }
        None
    }

    /// Inserts results for a query that is not cached; the new entry
    /// becomes the most recently used, evicting the oldest beyond capacity.
    pub fn put(&mut self, q: &str, results: Vec<SearchResult>)
        requires
            cache_wf(old(self)@, old(self).capacity as nat),
            !cache_has(old(self)@, q@),
        ensures
            final(self).capacity == old(self).capacity,
            final(self)@ == put_spec(
                old(self)@,
                q@,
                results.deep_view(),
                old(self).capacity as nat,
            ),
            cache_wf(final(self)@, final(self).capacity as nat),
    {
        let ghost c = self@;
        self.entries.insert(0, CacheEntry { query: q.to_owned(), results });
        if self.entries.len() > self.capacity {
            let _dropped = self.entries.pop();
        }
        proof {
            let f = final(self)@;
            assert(f =~~= put_spec(c, q@, results.deep_view(), old(self).capacity as nat));
            let c2 = seq![(q@, results.deep_view())] + c;
            assert forall|a: int, b: int| 0 <= a < b < f.len() implies f[a].0 != f[b].0 by {
                assert(c2[0].0 == q@);
                assert(forall|j: int| 1 <= j < c2.len() ==> c2[j].0 == c[j - 1].0);
            }
        }
    }
}

} // verus!
