//! The tag index: for each lowercased tag, the documents carrying it.

use vstd::prelude::*;

use crate::text::str_eq;

verus! {

/// A tag with the ids of the documents carrying it.
pub struct TagEntry {
    pub tag: String,
    pub ids: Vec<u32>,
}

impl View for TagEntry {
    type V = (Seq<char>, Seq<u32>);

    open spec fn view(&self) -> (Seq<char>, Seq<u32>) {
        (self.tag@, self.ids@)
    }
}

impl DeepView for TagEntry {
    type V = (Seq<char>, Seq<u32>);

    open spec fn deep_view(&self) -> (Seq<char>, Seq<u32>) {
        self.view()
    }
}

/// The mathematical value of a tag index.
pub type TagsV = Seq<(Seq<char>, Seq<u32>)>;

/// Whether the index holds an entry for tag `t`.
pub open spec fn has_tag(ts: TagsV, t: Seq<char>) -> bool {
    exists|i: int| 0 <= i < ts.len() && ts[i].0 == t
}

/// The position of tag `t` in the index (meaningful when tags are unique
/// and `has_tag` holds).
pub open spec fn tag_i(ts: TagsV, t: Seq<char>) -> int {
    choose|i: int| 0 <= i < ts.len() && ts[i].0 == t
}

/// The document ids carrying tag `t`, empty if the tag is absent.
pub open spec fn ids_of(ts: TagsV, t: Seq<char>) -> Seq<u32> {
    if has_tag(ts, t) {
        ts[tag_i(ts, t)].1
    } else {
        Seq::empty()
    }
}

/// Whether tag `t` carries document `id`.
pub open spec fn tag_has_id(ts: TagsV, t: Seq<char>, id: u32) -> bool {
    ids_of(ts, t).contains(id)
}

/// Well-formedness of a tag index: tags pairwise distinct, ids pairwise
/// distinct within each entry, no empty entry.
pub open spec fn tags_wf(ts: TagsV) -> bool {
    &&& forall|i: int, j: int| 0 <= i < j < ts.len() ==> ts[i].0 != ts[j].0
    &&& forall|i: int| 0 <= i < ts.len() ==> (forall|a: int, b: int|
        0 <= a < b < (#[trigger] ts[i].1).len() ==> ts[i].1[a] != ts[i].1[b])
    &&& forall|i: int| 0 <= i < ts.len() ==> (#[trigger] ts[i].1).len() > 0
}

/// The index after adding document `id` to tag `t`, creating the tag at the
/// end if it is new.
pub open spec fn insert_tag_spec(ts: TagsV, t: Seq<char>, id: u32) -> TagsV {
    if has_tag(ts, t) {
        let i = tag_i(ts, t);
        ts.update(i, (t, ts[i].1.push(id)))
    } else {
        ts.push((t, seq![id]))
    }
}

/// An id list without `id`.
pub open spec fn ids_without(ids: Seq<u32>, id: u32) -> Seq<u32>
    decreases ids.len(),
{
    if ids.len() == 0 {
        Seq::empty()
    } else {
        let rest = ids_without(ids.drop_last(), id);
        if ids.last() == id {
            rest
        } else {
            rest.push(ids.last())
        }
    }
}

/// The index after removing document `id` from every tag, dropping tags
/// whose id lists become empty.
pub open spec fn remove_id_spec(ts: TagsV, id: u32) -> TagsV
    decreases ts.len(),
{
    if ts.len() == 0 {
        Seq::empty()
    } else {
        let rest = remove_id_spec(ts.drop_last(), id);
        let iw = ids_without(ts.last().1, id);
        if iw.len() == 0 {
            rest
        } else {
            rest.push((ts.last().0, iw))
        }
    }
}

/// The index after adding document `id` to tag `t` unless it already
/// carries it: the tag index keeps set semantics per tag.
pub open spec fn insert_tag_unique_spec(ts: TagsV, t: Seq<char>, id: u32) -> TagsV {
    if tag_has_id(ts, t, id) {
        ts
    } else {
        insert_tag_spec(ts, t, id)
    }
}

/// The index after adding document `id` to every tag of a list, in order.
pub open spec fn add_tags_spec(ts: TagsV, tags: Seq<Seq<char>>, id: u32) -> TagsV
    decreases tags.len(),
{
    if tags.len() == 0 {
        ts
    } else {
        insert_tag_unique_spec(add_tags_spec(ts, tags.drop_last(), id), tags.last(), id)
    }
}

/// Membership after a set-semantics insert: document `id2` carries tag `t2`
/// afterwards exactly when it did before, or it is the inserted pair.
pub proof fn lemma_insert_tag_unique_contains(ts: TagsV, t: Seq<char>, id: u32, t2: Seq<char>, id2: u32)
    requires
        tags_wf(ts),
    ensures
        tag_has_id(insert_tag_unique_spec(ts, t, id), t2, id2) <==> (tag_has_id(ts, t2, id2) || (
        t2 == t && id2 == id)),
{
    if !tag_has_id(ts, t, id) {
        let r = insert_tag_spec(ts, t, id);
        if has_tag(ts, t) {
            let i = tag_i(ts, t);
            assert(ts[i].0 == t);
            assert(r =~= ts.update(i, (t, ts[i].1.push(id))));
            if t2 == t {
                assert(has_tag(r, t2)) by {
                    assert(r[i].0 == t2);
                }
                let k = tag_i(r, t2);
                assert(r[k].0 == t2);
                if k != i {
                    assert(r[k].0 == ts[k].0);
                    assert(ts[k].0 == ts[i].0);
                }
                assert(ids_of(r, t2) == ts[i].1.push(id));
                if tag_has_id(r, t2, id2) {
                    if id2 != id {
                        let m = choose|m: int|
                            0 <= m < ts[i].1.push(id).len() && ts[i].1.push(id)[m] == id2;
                        assert(ts[i].1[m] == id2);
                        assert(has_tag(ts, t2));
                        assert(tag_i(ts, t2) == i) by {
                            let w = tag_i(ts, t2);
                            assert(ts[w].0 == t2);
                            if w != i {
                                assert(ts[w].0 == ts[i].0);
                            }
                        }
                        assert(tag_has_id(ts, t2, id2));
                    }
                } else {
                }
                if tag_has_id(ts, t2, id2) {
                    assert(tag_i(ts, t2) == i) by {
                        let w = tag_i(ts, t2);
                        assert(ts[w].0 == t2);
                        if w != i {
                            assert(ts[w].0 == ts[i].0);
                        }
                    }
                    let m = choose|m: int| 0 <= m < ts[i].1.len() && ts[i].1[m] == id2;
                    assert(ts[i].1.push(id)[m] == id2);
                    assert(tag_has_id(r, t2, id2));
                }
                assert(ts[i].1.push(id)[ts[i].1.len() as int] == id);
            } else {
                assert(forall|w: int| 0 <= w < r.len() ==> r[w].0 == ts[w].0);
                if has_tag(r, t2) {
                    let k = tag_i(r, t2);
                    assert(r[k].0 == t2);
                    assert(has_tag(ts, t2)) by {
                        assert(ts[k].0 == t2);
                    }
                    assert(tag_i(ts, t2) == k) by {
                        let w = tag_i(ts, t2);
                        if w != k {
                            assert(ts[w].0 == ts[k].0);
                        }
                    }
                    assert(k != i);
                    assert(ids_of(r, t2) == ids_of(ts, t2)) by {
                        assert(tag_i(r, t2) == k);
                        assert(r[k].1 == ts[k].1);
                    }
                } else {
                    assert(!has_tag(ts, t2)) by {
                        if has_tag(ts, t2) {
                            let w = tag_i(ts, t2);
                            assert(r[w].0 == ts[w].0);
                        }
                    }
                }
            }
        } else {
            assert(r =~= ts.push((t, seq![id])));
            if t2 == t {
                assert(r[r.len() - 1].0 == t2);
                assert(has_tag(r, t2));
                let k = tag_i(r, t2);
                assert(r[k].0 == t2);
                if k != r.len() - 1 {
                    assert(ts[k].0 == t2);
                    assert(has_tag(ts, t));
                    assert(false);
                }
                assert(ids_of(r, t2) == seq![id]);
                assert(seq![id][0] == id);
                assert(!tag_has_id(ts, t2, id2)) by {
                    if has_tag(ts, t2) {
                        assert(ts[tag_i(ts, t2)].0 == t2);
                    }
                }
                if tag_has_id(r, t2, id2) {
                    let m = choose|m: int| 0 <= m < seq![id].len() && seq![id][m] == id2;
                    assert(id2 == id);
                }
            } else {
                if has_tag(r, t2) {
                    let k = tag_i(r, t2);
                    assert(r[k].0 == t2);
                    assert(k < ts.len());
                    assert(has_tag(ts, t2)) by {
                        assert(ts[k].0 == t2);
                    }
                    assert(tag_i(ts, t2) == k) by {
                        let w = tag_i(ts, t2);
                        if w != k {
                            assert(ts[w].0 == ts[k].0);
                        }
                    }
                    assert(ids_of(r, t2) == ids_of(ts, t2));
                } else {
                    assert(!has_tag(ts, t2)) by {
                        if has_tag(ts, t2) {
                            let w = tag_i(ts, t2);
                            assert(r[w].0 == ts[w].0);
                        }
                    }
                }
            }
        }
    }
}

/// Membership after adding a tag list: document `id2` carries tag `t2`
/// afterwards exactly when it did before, or it is the added document and
/// `t2` is among the added tags.
pub proof fn lemma_add_tags_contains(ts: TagsV, tags: Seq<Seq<char>>, id: u32, t2: Seq<char>, id2: u32)
    requires
        tags_wf(ts),
    ensures
        tags_wf(add_tags_spec(ts, tags, id)),
        tag_has_id(add_tags_spec(ts, tags, id), t2, id2) <==> (tag_has_id(ts, t2, id2) || (id2
            == id && tags.contains(t2))),
    decreases tags.len(),
{
    if tags.len() == 0 {
    } else {
        lemma_add_tags_contains(ts, tags.drop_last(), id, t2, id2);
        let mid = add_tags_spec(ts, tags.drop_last(), id);
        lemma_insert_tag_unique_wf(mid, tags.last(), id);
        lemma_insert_tag_unique_contains(mid, tags.last(), id, t2, id2);
        if tag_has_id(add_tags_spec(ts, tags, id), t2, id2) {
            if !(tag_has_id(ts, t2, id2)) {
                if t2 == tags.last() && id2 == id {
                    assert(tags.contains(t2)) by {
                        assert(tags[tags.len() - 1] == t2);
                    }
                } else {
                    assert(tags.drop_last().contains(t2));
                    let m = choose|m: int|
                        0 <= m < tags.drop_last().len() && tags.drop_last()[m] == t2;
                    assert(tags[m] == t2);
                }
            }
        }
        if tag_has_id(ts, t2, id2) || (id2 == id && tags.contains(t2)) {
            if !tag_has_id(ts, t2, id2) {
                let m = choose|m: int| 0 <= m < tags.len() && tags[m] == t2;
                if m < tags.len() - 1 {
                    assert(tags.drop_last()[m] == t2);
                    assert(tags.drop_last().contains(t2));
                }
            }
        }
    }
}

/// A set-semantics insert preserves well-formedness.
pub proof fn lemma_insert_tag_unique_wf(ts: TagsV, t: Seq<char>, id: u32)
    requires
        tags_wf(ts),
    ensures
        tags_wf(insert_tag_unique_spec(ts, t, id)),
{
    if !tag_has_id(ts, t, id) {
        let r = insert_tag_spec(ts, t, id);
        if has_tag(ts, t) {
            let i = tag_i(ts, t);
            assert(ts[i].0 == t);
            assert(r == ts.update(i, (t, ts[i].1.push(id))));
            assert forall|w: int, a: int, b: int|
                0 <= w < r.len() && 0 <= a < b < r[w].1.len() implies (#[trigger] r[w].1[a])
                != (#[trigger] r[w].1[b]) by {
                if w == i {
                    let es = ts[i].1;
                    if b == es.len() {
                        if es[a] == id {
                            assert(ids_of(ts, t) == ts[i].1);
                            assert(tag_has_id(ts, t, id));
                        }
                    }
                }
            }
        }
    }
}

/// After removing a document from every tag, no tag carries it; any other
/// document keeps exactly its tags.
pub proof fn lemma_remove_id_contains(ts: TagsV, id: u32, t2: Seq<char>, id2: u32)
    requires
        tags_wf(ts),
    ensures
        tags_wf(remove_id_spec(ts, id)),
        tag_has_id(remove_id_spec(ts, id), t2, id2) <==> (tag_has_id(ts, t2, id2) && id2 != id),
    decreases ts.len(),
{
    lemma_remove_id_structure(ts, id);
    let r = remove_id_spec(ts, id);
    if tag_has_id(r, t2, id2) {
        let k = tag_i(r, t2);
        assert(r[k].0 == t2);
        let m = choose|m: int| 0 <= m < r[k].1.len() && r[k].1[m] == id2;
        lemma_remove_id_elem(ts, id, k, m);
    }
    if tag_has_id(ts, t2, id2) && id2 != id {
        let k = tag_i(ts, t2);
        assert(ts[k].0 == t2);
        let m = choose|m: int| 0 <= m < ts[k].1.len() && ts[k].1[m] == id2;
        lemma_remove_id_keeps(ts, id, k, m);
    }
}

/// Structure of `remove_id_spec`: every surviving tag comes from a prior
/// tag with the document removed from its ids; tags stay unique and
/// nonempty; no surviving id equals the removed one.
pub proof fn lemma_remove_id_structure(ts: TagsV, id: u32)
    requires
        tags_wf(ts),
    ensures
        tags_wf(remove_id_spec(ts, id)),
        forall|i: int| 0 <= i < remove_id_spec(ts, id).len() ==> exists|w: int|
            0 <= w < ts.len() && ts[w].0 == (#[trigger] remove_id_spec(ts, id)[i]).0
                && remove_id_spec(ts, id)[i].1 == ids_without(ts[w].1, id),
        forall|i: int, j: int| 0 <= i < remove_id_spec(ts, id).len() && 0 <= j < remove_id_spec(
            ts,
            id,
        )[i].1.len() ==> (#[trigger] remove_id_spec(ts, id)[i].1[j]) != id,
    decreases ts.len(),
{
    if ts.len() > 0 {
        assert(tags_wf(ts.drop_last())) by {
            assert(forall|i: int| 0 <= i < ts.drop_last().len() ==> ts.drop_last()[i] == ts[i]);
        }
        lemma_remove_id_structure(ts.drop_last(), id);
        lemma_ids_without_props(ts.last().1, id);
        let rest = remove_id_spec(ts.drop_last(), id);
        let iw = ids_without(ts.last().1, id);
        if iw.len() > 0 {
            let r = rest.push((ts.last().0, iw));
            assert forall|i: int| 0 <= i < r.len() implies exists|w: int|
                0 <= w < ts.len() && ts[w].0 == (#[trigger] r[i]).0 && r[i].1 == ids_without(
                    ts[w].1,
                    id,
                ) by {
                if i == r.len() - 1 {
                    assert(ts[ts.len() - 1].0 == r[i].0 && r[i].1 == ids_without(
                        ts[ts.len() - 1].1,
                        id,
                    ));
                } else {
                    let w = choose|w: int|
                        0 <= w < ts.drop_last().len() && ts.drop_last()[w].0 == rest[i].0
                            && rest[i].1 == ids_without(ts.drop_last()[w].1, id);
                    assert(ts[w].0 == r[i].0 && r[i].1 == ids_without(ts[w].1, id));
                }
            }
            assert forall|a: int, b: int| 0 <= a < b < r.len() implies r[a].0 != r[b].0 by {
                if b == r.len() - 1 {
                    let w = choose|w: int|
                        0 <= w < ts.drop_last().len() && ts.drop_last()[w].0 == rest[a].0
                            && rest[a].1 == ids_without(ts.drop_last()[w].1, id);
                    assert(ts[w].0 != ts[ts.len() - 1].0);
                }
            }
        } else {
            assert forall|i: int| 0 <= i < rest.len() implies exists|w: int|
                0 <= w < ts.len() && ts[w].0 == (#[trigger] rest[i]).0 && rest[i].1
                    == ids_without(ts[w].1, id) by {
                let w = choose|w: int|
                    0 <= w < ts.drop_last().len() && ts.drop_last()[w].0 == rest[i].0
                        && rest[i].1 == ids_without(ts.drop_last()[w].1, id);
                assert(ts[w].0 == rest[i].0 && rest[i].1 == ids_without(ts[w].1, id));
            }
        }
    }
}

/// `ids_without` drops exactly the removed id and keeps every other id,
/// without introducing duplicates.
pub proof fn lemma_ids_without_props(ids: Seq<u32>, id: u32)
    ensures
        forall|m: int| 0 <= m < ids_without(ids, id).len() ==> (#[trigger] ids_without(
            ids,
            id,
        )[m]) != id && ids.contains(ids_without(ids, id)[m]),
        forall|x: u32| ids.contains(x) && x != id ==> ids_without(ids, id).contains(x),
        (forall|a: int, b: int| 0 <= a < b < ids.len() ==> ids[a] != ids[b]) ==> (forall|
            a: int,
            b: int,
        | 0 <= a < b < ids_without(ids, id).len() ==> ids_without(ids, id)[a] != ids_without(
            ids,
            id,
        )[b]),
    decreases ids.len(),
{
    if ids.len() > 0 {
        lemma_ids_without_props(ids.drop_last(), id);
        let rest = ids_without(ids.drop_last(), id);
        assert forall|m: int| 0 <= m < ids_without(ids, id).len() implies (#[trigger] ids_without(
            ids,
            id,
        )[m]) != id && ids.contains(ids_without(ids, id)[m]) by {
            if ids.last() != id && m == ids_without(ids, id).len() - 1 {
                assert(ids[ids.len() - 1] == ids_without(ids, id)[m]);
            } else {
                assert(rest[m] == ids_without(ids, id)[m]);
                assert(ids.drop_last().contains(rest[m]));
                let w = choose|w: int|
                    0 <= w < ids.drop_last().len() && ids.drop_last()[w] == rest[m];
                assert(ids[w] == rest[m]);
            }
        }
        assert forall|x: u32| ids.contains(x) && x != id implies ids_without(ids, id).contains(x)
        by {
            let w = choose|w: int| 0 <= w < ids.len() && ids[w] == x;
            if w == ids.len() - 1 {
                assert(ids_without(ids, id)[ids_without(ids, id).len() - 1] == x);
            } else {
                assert(ids.drop_last()[w] == x);
                assert(ids.drop_last().contains(x));
                assert(rest.contains(x));
                let m = choose|m: int| 0 <= m < rest.len() && rest[m] == x;
                if ids.last() != id {
                    assert(ids_without(ids, id)[m] == x);
                } else {
                    assert(ids_without(ids, id)[m] == x);
                }
            }
        }
        if forall|a: int, b: int| 0 <= a < b < ids.len() ==> ids[a] != ids[b] {
            assert(forall|a: int, b: int|
                0 <= a < b < ids.drop_last().len() ==> ids.drop_last()[a] != ids.drop_last()[b]);
            if ids.last() != id {
                assert forall|a: int, b: int|
                    0 <= a < b < ids_without(ids, id).len() implies ids_without(ids, id)[a]
                    != ids_without(ids, id)[b] by {
                    if b == ids_without(ids, id).len() - 1 {
                        assert(ids_without(ids, id)[b] == ids.last());
                        assert(rest[a] == ids_without(ids, id)[a]);
                        assert(ids.drop_last().contains(rest[a]));
                        let w = choose|w: int|
                            0 <= w < ids.drop_last().len() && ids.drop_last()[w] == rest[a];
                        assert(ids[w] != ids[ids.len() - 1]);
                    }
                }
            }
        }
    }
}

proof fn lemma_remove_id_elem(ts: TagsV, id: u32, k: int, m: int)
    requires
        tags_wf(ts),
        0 <= k < remove_id_spec(ts, id).len(),
        0 <= m < remove_id_spec(ts, id)[k].1.len(),
    ensures
        tag_has_id(ts, remove_id_spec(ts, id)[k].0, remove_id_spec(ts, id)[k].1[m]),
        remove_id_spec(ts, id)[k].1[m] != id,
{
    lemma_remove_id_structure(ts, id);
    let r = remove_id_spec(ts, id);
    let w = choose|w: int|
        0 <= w < ts.len() && ts[w].0 == r[k].0 && r[k].1 == ids_without(ts[w].1, id);
    lemma_ids_without_props(ts[w].1, id);
    assert(ts[w].1.contains(r[k].1[m]));
    assert(has_tag(ts, r[k].0)) by {
        assert(ts[w].0 == r[k].0);
    }
    let i = tag_i(ts, r[k].0);
    assert(ts[i].0 == r[k].0);
    if i != w {
        assert(ts[i].0 == ts[w].0 || i == w);
        if i < w {
            assert(ts[i].0 != ts[w].0);
        } else {
            assert(ts[w].0 != ts[i].0);
        }
        assert(false);
    }
    assert(ids_of(ts, r[k].0) == ts[w].1);
}

proof fn lemma_remove_id_keeps(ts: TagsV, id: u32, k: int, m: int)
    requires
        tags_wf(ts),
        0 <= k < ts.len(),
        0 <= m < ts[k].1.len(),
        ts[k].1[m] != id,
    ensures
        tag_has_id(remove_id_spec(ts, id), ts[k].0, ts[k].1[m]),
    decreases ts.len(),
{
    if ts.len() > 0 {
        assert(tags_wf(ts.drop_last())) by {
            assert(forall|i: int| 0 <= i < ts.drop_last().len() ==> ts.drop_last()[i] == ts[i]);
        }
        let rest = remove_id_spec(ts.drop_last(), id);
        let iw = ids_without(ts.last().1, id);
        lemma_ids_without_props(ts.last().1, id);
        if k == ts.len() - 1 {
            assert(ts.last().1.contains(ts[k].1[m])) by {
                assert(ts.last().1[m] == ts[k].1[m]);
            }
            assert(iw.contains(ts[k].1[m]));
            assert(iw.len() > 0);
            let r = rest.push((ts.last().0, iw));
            assert(r[r.len() - 1].0 == ts[k].0);
            assert(has_tag(r, ts[k].0));
            let i = tag_i(r, ts[k].0);
            assert(r[i].0 == ts[k].0);
            if i != r.len() - 1 {
                lemma_remove_id_structure(ts.drop_last(), id);
                let w = choose|w: int|
                    0 <= w < ts.drop_last().len() && ts.drop_last()[w].0 == rest[i].0 && rest[i].1
                        == ids_without(ts.drop_last()[w].1, id);
                assert(ts[w].0 == ts[ts.len() - 1].0);
                assert(false);
            }
            assert(ids_of(r, ts[k].0) == iw);
        } else {
            assert(ts.drop_last()[k] == ts[k]);
            lemma_remove_id_keeps(ts.drop_last(), id, k, m);
            if iw.len() > 0 {
                let r = rest.push((ts.last().0, iw));
                assert(has_tag(rest, ts[k].0));
                let i = tag_i(rest, ts[k].0);
                assert(rest[i].0 == ts[k].0);
                assert(r[i] == rest[i]);
                assert(has_tag(r, ts[k].0));
                let i2 = tag_i(r, ts[k].0);
                assert(r[i2].0 == ts[k].0);
                if i2 == r.len() - 1 {
                    assert(ts.last().0 == ts[k].0);
                    assert(false);
                }
                assert(rest[i2].0 == ts[k].0);
                lemma_remove_id_structure(ts.drop_last(), id);
                assert(tags_wf(rest));
                if i2 != i {
                    assert(rest[i].0 != rest[i2].0 || i == i2);
                    if i < i2 {
                        assert(rest[i].0 != rest[i2].0);
                    } else {
                        assert(rest[i2].0 != rest[i].0);
                    }
                    assert(false);
                }
                assert(ids_of(r, ts[k].0) == ids_of(rest, ts[k].0));
            }
        }
    }
}

proof fn lemma_ids_without_identity(ids: Seq<u32>, id: u32)
    requires
        forall|j: int| 0 <= j < ids.len() ==> ids[j] != id,
    ensures
        ids_without(ids, id) == ids,
    decreases ids.len(),
{
    if ids.len() > 0 {
        assert(forall|j: int| 0 <= j < ids.drop_last().len() ==> ids.drop_last()[j] == ids[j]);
        lemma_ids_without_identity(ids.drop_last(), id);
        assert(ids_without(ids, id) =~= ids);
    }
}

/// Removing a document that no tag carries changes nothing.
pub proof fn lemma_remove_id_identity(ts: TagsV, id: u32)
    requires
        forall|i: int, j: int| 0 <= i < ts.len() && 0 <= j < ts[i].1.len() ==> (
        #[trigger] ts[i].1[j]) != id,
        forall|i: int| 0 <= i < ts.len() ==> (#[trigger] ts[i].1).len() > 0,
    ensures
        remove_id_spec(ts, id) == ts,
    decreases ts.len(),
{
    if ts.len() > 0 {
        assert forall|i: int, j: int|
            0 <= i < ts.drop_last().len() && 0 <= j < ts.drop_last()[i].1.len() implies (
        #[trigger] ts.drop_last()[i].1[j]) != id by {
            assert(ts[i].1[j] != id);
        }
        assert forall|i: int| 0 <= i < ts.drop_last().len() implies (
        #[trigger] ts.drop_last()[i].1).len() > 0 by {
            assert(ts[i].1.len() > 0);
        }
        lemma_remove_id_identity(ts.drop_last(), id);
        lemma_ids_without_identity(ts.last().1, id);
        assert(remove_id_spec(ts, id) =~= ts);
    }
}

proof fn lemma_remove_update_push_ids(ts: TagsV, i: int, id: u32)
    requires
        0 <= i < ts.len(),
    ensures
        remove_id_spec(ts.update(i, (ts[i].0, ts[i].1.push(id))), id) == remove_id_spec(ts, id),
    decreases ts.len(),
{
    let ts2 = ts.update(i, (ts[i].0, ts[i].1.push(id)));
    if i == ts.len() - 1 {
        assert(ts2.drop_last() =~= ts.drop_last());
        assert(ts2.last() == (ts[i].0, ts[i].1.push(id)));
        assert(ts[i].1.push(id).drop_last() =~= ts[i].1);
        assert(ids_without(ts[i].1.push(id), id) == ids_without(ts[i].1, id));
        assert(ts.last() == (ts[i].0, ts[i].1));
    } else {
        assert(ts2.last() == ts.last());
        assert(ts2.drop_last() =~= ts.drop_last().update(i, (
            ts.drop_last()[i].0,
            ts.drop_last()[i].1.push(id),
        )));
        lemma_remove_update_push_ids(ts.drop_last(), i, id);
    }
}

/// Removing a document undoes each of its tag insertions.
pub proof fn lemma_remove_insert_tag(ts: TagsV, t: Seq<char>, id: u32)
    ensures
        remove_id_spec(insert_tag_unique_spec(ts, t, id), id) == remove_id_spec(ts, id),
{
    if !tag_has_id(ts, t, id) {
        if has_tag(ts, t) {
            let i = tag_i(ts, t);
            assert(ts[i].0 == t);
            assert(insert_tag_spec(ts, t, id) == ts.update(i, (ts[i].0, ts[i].1.push(id))));
            lemma_remove_update_push_ids(ts, i, id);
        } else {
            let r = ts.push((t, seq![id]));
            assert(r.drop_last() =~= ts);
            assert(r.last() == (t, seq![id]));
            let s1 = seq![id];
            assert(s1.len() == 1);
            assert(s1.last() == id);
            assert(s1.drop_last() =~= Seq::<u32>::empty());
            assert(ids_without(s1.drop_last(), id) == Seq::<u32>::empty());
            assert(ids_without(s1, id) =~= Seq::<u32>::empty());
        }
    }
}

/// Removing a freshly tagged document restores the tag index exactly.
pub proof fn lemma_remove_add_tags(ts: TagsV, tags: Seq<Seq<char>>, id: u32)
    requires
        forall|i: int, j: int| 0 <= i < ts.len() && 0 <= j < ts[i].1.len() ==> (
        #[trigger] ts[i].1[j]) != id,
        forall|i: int| 0 <= i < ts.len() ==> (#[trigger] ts[i].1).len() > 0,
    ensures
        remove_id_spec(add_tags_spec(ts, tags, id), id) == ts,
    decreases tags.len(),
{
    if tags.len() == 0 {
        lemma_remove_id_identity(ts, id);
    } else {
        lemma_remove_add_tags(ts, tags.drop_last(), id);
        lemma_remove_insert_tag(add_tags_spec(ts, tags.drop_last(), id), tags.last(), id);
    }
}

/// The tag index structure.
pub struct TagIndex {
    pub items: Vec<TagEntry>,
}

impl View for TagIndex {
    type V = TagsV;

    open spec fn view(&self) -> TagsV {
        self.items.deep_view()
    }
}

impl TagIndex {
    /// An empty tag index.
    pub fn new() -> (r: TagIndex)
        ensures
            r@ =~= Seq::<(Seq<char>, Seq<u32>)>::empty(),
    {
        TagIndex { items: Vec::new() }
    }

    /// Looks a tag up, returning its position in the index.
    pub fn find(&self, t: &str) -> (r: Option<usize>)
        ensures
            match r {
                Some(i) => i < self@.len() && self@[i as int].0 == t@,
                None => !has_tag(self@, t@),
            },
    {
        let mut i: usize = 0;
        while i < self.items.len()
            invariant
                i <= self.items@.len(),
                self@.len() == self.items@.len(),
                forall|j: int| 0 <= j < self.items@.len() ==> self@[j].0 == self.items@[j].tag@,
                forall|j: int| 0 <= j < i ==> self@[j].0 != t@,
            decreases self.items@.len() - i,
        {
            if str_eq(self.items[i].tag.as_str(), t) {
                return Some(i);
            }
            i = i + 1;
        }
        None
    }

    /// Adds document `id` to tag `t`, creating the tag if it is new.
    pub fn insert_tag(&mut self, t: &str, id: u32)
        requires
            tags_wf(old(self)@),
        ensures
            final(self)@ == insert_tag_spec(old(self)@, t@, id),
    {
        let ghost ots = old(self)@;
        let found = self.find(t);
        match found {
            Some(i) => {
                proof {
                    assert(has_tag(ots, t@));
                    assert(tag_i(ots, t@) == i) by {
                        let k = tag_i(ots, t@);
                        assert(ots[k].0 == t@);
                        if k != i {
                            assert(ots[k].0 == ots[i as int].0);
                        }
                    };
                }
                let ghost old_items = self.items@;
                let mut te = self.items.remove(i);
                te.ids.push(id);
                self.items.insert(i, te);
                proof {
                    assert(self.items@ =~= old_items.update(i as int, self.items@[i as int]));
                    assert(final(self)@ =~~= insert_tag_spec(ots, t@, id));
                }
            },
            None => {
                let mut ids: Vec<u32> = Vec::new();
                ids.push(id);
                self.items.push(TagEntry { tag: t.to_owned(), ids });
                proof {
                    assert(ids@ =~= seq![id]);
                    assert(final(self)@ =~~= insert_tag_spec(ots, t@, id));
                }
            },
        }
    }

    /// Adds document `id` to tag `t` unless it already carries it.
    pub fn insert_tag_unique(&mut self, t: &str, id: u32)
        requires
            tags_wf(old(self)@),
        ensures
            final(self)@ == insert_tag_unique_spec(old(self)@, t@, id),
    {
        let ghost ots = old(self)@;
        let found = self.find(t);
        match found {
            Some(i) => {
                proof {
                    assert(has_tag(ots, t@));
                    assert(tag_i(ots, t@) == i) by {
                        let k = tag_i(ots, t@);
                        assert(ots[k].0 == t@);
                        if k != i {
                            assert(ots[k].0 == ots[i as int].0);
                        }
                    };
                    assert(ids_of(ots, t@) == ots[i as int].1);
                }
                let entry = &self.items[i];
                let mut m: usize = 0;
                let mut present = false;
                while m < entry.ids.len()
                    invariant
                        m <= entry.ids@.len(),
                        ots[i as int].1 == entry.ids@,
                        present ==> tag_has_id(ots, t@, id),
                        !present ==> forall|j: int| 0 <= j < m ==> entry.ids@[j] != id,
                    decreases entry.ids@.len() - m,
                {
                    if entry.ids[m] == id {
                        present = true;
                        proof {
                            assert(ids_of(ots, t@).contains(id)) by {
                                assert(ids_of(ots, t@)[m as int] == id);
                            }
                        }
                    }
                    m = m + 1;
                }
                if present {
                    return ;
                }
                proof {
                    assert(!tag_has_id(ots, t@, id)) by {
                        if ids_of(ots, t@).contains(id) {
                            let w = choose|w: int|
                                0 <= w < ids_of(ots, t@).len() && ids_of(ots, t@)[w] == id;
                            assert(entry.ids@[w] == id);
                        }
                    }
                }
                self.insert_tag(t, id);
            },
            None => {
                proof {
                    assert(!tag_has_id(ots, t@, id));
                }
                self.insert_tag(t, id);
            },
        }
    }

    /// Removes document `id` from every tag, dropping tags whose id lists
    /// become empty.
    pub fn remove_id(&mut self, id: u32)
        ensures
            final(self)@ == remove_id_spec(old(self)@, id),
    {
        let ghost ots = old(self)@;
        let mut out: Vec<TagEntry> = Vec::new();
        let mut i: usize = 0;
        while i < self.items.len()
            invariant
                i <= self.items@.len(),
                ots == self.items.deep_view(),
                ots.len() == self.items@.len(),
                forall|j: int| 0 <= j < self.items@.len() ==> ots[j] == self.items@[j]@,
                out.deep_view() == remove_id_spec(ots.subrange(0, i as int), id),
            decreases self.items@.len() - i,
        {
            let ghost pre = ots.subrange(0, i as int);
            let ghost post = ots.subrange(0, i + 1 as int);
            proof {
                assert(post.drop_last() =~= pre);
                assert(post.last() == ots[i as int]);
            }
            let item = &self.items[i];
            let mut kept: Vec<u32> = Vec::new();
            let mut k: usize = 0;
            while k < item.ids.len()
                invariant
                    k <= item.ids@.len(),
                    kept@ == ids_without(item.ids@.subrange(0, k as int), id),
                decreases item.ids@.len() - k,
            {
                let ghost ipre = item.ids@.subrange(0, k as int);
                let ghost ipost = item.ids@.subrange(0, k + 1 as int);
                proof {
                    assert(ipost.drop_last() =~= ipre);
                    assert(ipost.last() == item.ids@[k as int]);
                }
                if item.ids[k] != id {
                    kept.push(item.ids[k]);
                }
                k = k + 1;
            }
            proof {
                assert(item.ids@.subrange(0, item.ids@.len() as int) =~= item.ids@);
            }
            if kept.len() > 0 {
                out.push(TagEntry { tag: item.tag.clone(), ids: kept });
                proof {
                    assert(out.deep_view() =~= remove_id_spec(post, id));
                }
            }
            i = i + 1;
        }
        proof {
            assert(ots.subrange(0, ots.len() as int) =~= ots);
        }
        self.items = out;
    }
}

} // verus!
