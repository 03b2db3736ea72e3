//! The document-graph computation: documents sharing tags are connected,
//! with the number of shared tags as edge weight. Rendering the graph is
//! the application's business; the edge set is computed and verified here.

use vstd::prelude::*;

use crate::doc::DocumentV;
use crate::index::InvertedIndex;

verus! {

/// How many of `a`'s tags (duplicates counted) occur among `b`'s tags.
pub open spec fn shared_tags(a: Seq<Seq<char>>, b: Seq<Seq<char>>) -> int
    decreases a.len(),
{
    if a.len() == 0 {
        0
    } else {
        shared_tags(a.drop_last(), b) + if b.contains(a.last()) {
            1int
        } else {
            0int
        }
    }
}

/// The edge between the documents at store positions `i < j`, when they
/// share a tag: lower id first, weight = shared tag count.
pub open spec fn edge_of(docs: Seq<DocumentV>, i: int, j: int) -> (u32, u32, u64) {
    let w = shared_tags(docs[i].tags, docs[j].tags) as u64;
    if docs[i].id < docs[j].id {
        (docs[i].id, docs[j].id, w)
    } else {
        (docs[j].id, docs[i].id, w)
    }
}

/// The edges from the document at position `i` to the documents at
/// positions in `(i, j_upto)`.
pub open spec fn row_edges(docs: Seq<DocumentV>, i: int, j_upto: int) -> Seq<(u32, u32, u64)>
    decreases j_upto - i,
{
    if j_upto <= i + 1 {
        Seq::empty()
    } else {
        row_edges(docs, i, j_upto - 1) + if shared_tags(docs[i].tags, docs[j_upto - 1].tags)
            > 0 {
            seq![edge_of(docs, i, j_upto - 1)]
        } else {
            Seq::empty()
        }
    }
}

/// The edges among the documents at positions below `i_upto`.
pub open spec fn edges_upto(docs: Seq<DocumentV>, i_upto: int) -> Seq<(u32, u32, u64)>
    decreases i_upto,
{
    if i_upto <= 0 {
        Seq::empty()
    } else {
        edges_upto(docs, i_upto - 1) + row_edges(docs, i_upto - 1, docs.len() as int)
    }
}

/// All tag-sharing edges of the corpus, every unordered pair once, in
/// store order.
pub open spec fn edges_spec(docs: Seq<DocumentV>) -> Seq<(u32, u32, u64)> {
    edges_upto(docs, docs.len() as int)
}

/// Counts how many of `a`'s tags occur among `b`'s.
fn shared_tag_count(a: &Vec<String>, b: &Vec<String>) -> (r: usize)
    ensures
        r == shared_tags(a.deep_view(), b.deep_view()),
        r <= a@.len(),
{
    let ghost av = a.deep_view();
    let ghost bv = b.deep_view();
    let mut r: usize = 0;
    let mut i: usize = 0;
    while i < a.len()
        invariant
            i <= a@.len(),
            av.len() == a@.len(),
            r <= i,
            r == shared_tags(av.subrange(0, i as int), bv),
        decreases a@.len() - i,
    {
        let ghost pre = av.subrange(0, i as int);
        let ghost post = av.subrange(0, i + 1 as int);
        proof {
            assert(post.drop_last() =~= pre);
            assert(post.last() == av[i as int]);
        }
        let mut found = false;
        let mut j: usize = 0;
        while j < b.len()
            invariant
                j <= b@.len(),
                bv.len() == b@.len(),
                found ==> bv.contains(av[i as int]),
                !found ==> forall|v: int| 0 <= v < j ==> bv[v] != av[i as int],
            decreases b@.len() - j,
        {
            if !found && crate::text::str_eq(b[j].as_str(), a[i].as_str()) {
                proof {
                    assert(bv[j as int] == av[i as int]);
                }
                found = true;
            }
            j = j + 1;
        }
        if found {
            r = r + 1;
        } else {
            proof {
                assert(!bv.contains(av[i as int]));
            }
        }
        i = i + 1;
    }
    proof {
        assert(av.subrange(0, av.len() as int) =~= av);
    }
    r
}

impl InvertedIndex {
    /// The tag-sharing edges among the stored documents, each unordered
    /// pair once, lower id first, weighted by the number of shared tags of
    /// the earlier document.
    pub fn tag_edges(&self) -> (r: Vec<(u32, u32, u64)>)
        requires
            self.wf(),
        ensures
            r@ == edges_spec(self@.docs),
    {
        let ghost dv = self@.docs;
        let n = self.doc_count();
        let mut r: Vec<(u32, u32, u64)> = Vec::new();
        let mut i: usize = 0;
        while i < n
            invariant
                i <= n,
                n == dv.len(),
                self.wf(),
                dv == self@.docs,
                r@ == edges_upto(dv, i as int),
            decreases n - i,
        {
            let mut j: usize = i + 1;
            while j < n
                invariant
                    i < j <= n,
                    i < n,
                    n == dv.len(),
                    self.wf(),
                    dv == self@.docs,
                    r@ == edges_upto(dv, i as int) + row_edges(dv, i as int, j as int),
                decreases n - j,
            {
                let a = self.document_at(i);
                let b = self.document_at(j);
                let w = shared_tag_count(&a.tags, &b.tags);
                if w > 0 {
                    let e = if a.id < b.id {
                        (a.id, b.id, w as u64)
                    } else {
                        (b.id, a.id, w as u64)
                    };
                    r.push(e);
                    proof {
                        assert(r@ =~= edges_upto(dv, i as int) + row_edges(
                            dv,
                            i as int,
                            j + 1 as int,
                        ));
                    }
                } else {
                    proof {
                        assert(r@ =~= edges_upto(dv, i as int) + row_edges(
                            dv,
                            i as int,
                            j + 1 as int,
                        ));
                    }
                }
                j = j + 1;
            }
            proof {
                assert(r@ =~= edges_upto(dv, i + 1 as int));
            }
            i = i + 1;
        }
        r
    }
}

} // verus!
