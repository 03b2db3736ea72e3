//! The corpus synchronizer: reconciles the document store with a
//! directory's current file set, by path and modification time. Documents
//! whose file disappeared are removed; changed files are removed and
//! re-added under the same identifier with freshly derived content, tags
//! and title; new files are added under fresh identifiers. Removals are
//! applied first, then additions, then the cache is cleared. An addition
//! is skipped if its identifier is unexpectedly taken or a capacity bound
//! would be exceeded, so the index stays well-formed whatever the input.

use vstd::prelude::*;

use crate::doc::{Document, DocumentV, DOC_CONTENT_CAP};
use crate::extract::{extract_tags, derive_title, tags_of, title_of};
use crate::index::{
    add_doc_spec, remove_doc_spec_index, IndexV, InvertedIndex, DOC_COUNT_CAP, TOKEN_TOTAL_CAP,
};
use crate::search::has_doc;
use crate::text::str_eq;

verus! {

/// A file of the corpus directory, as the scan saw it, with its extracted
/// plain-text content.
pub struct ScannedFile {
    pub path: String,
    pub modified_time: u64,
    pub content: String,
}

/// The mathematical value of a scanned file.
#[verifier::ext_equal]
pub ghost struct ScannedFileV {
    pub path: Seq<char>,
    pub modified_time: u64,
    pub content: Seq<char>,
}

impl View for ScannedFile {
    type V = ScannedFileV;

    open spec fn view(&self) -> ScannedFileV {
        ScannedFileV { path: self.path@, modified_time: self.modified_time, content: self.content@ }
    }
}

impl DeepView for ScannedFile {
    type V = ScannedFileV;

    open spec fn deep_view(&self) -> ScannedFileV {
        self.view()
    }
}

/// One scheduled addition: the file with the identifier to reuse when it
/// replaces a changed document.
pub struct PlannedAdd {
    pub path: String,
    pub modified_time: u64,
    pub content: String,
    pub reuse: Option<u32>,
}

impl View for PlannedAdd {
    type V = (ScannedFileV, Option<u32>);

    open spec fn view(&self) -> (ScannedFileV, Option<u32>) {
        (
            ScannedFileV {
                path: self.path@,
                modified_time: self.modified_time,
                content: self.content@,
            },
            self.reuse,
        )
    }
}

impl DeepView for PlannedAdd {
    type V = (ScannedFileV, Option<u32>);

    open spec fn deep_view(&self) -> (ScannedFileV, Option<u32>) {
        self.view()
    }
}

/// Whether the listing holds a file with this path.
pub open spec fn has_fpath(files: Seq<ScannedFileV>, p: Seq<char>) -> bool {
    exists|i: int| 0 <= i < files.len() && files[i].path == p
}

/// The index of the file with this path.
pub open spec fn fpath_i(files: Seq<ScannedFileV>, p: Seq<char>) -> int {
    choose|i: int| 0 <= i < files.len() && files[i].path == p
}

/// Whether the store holds a document with this path.
pub open spec fn has_dpath(docs: Seq<DocumentV>, p: Seq<char>) -> bool {
    exists|i: int| 0 <= i < docs.len() && docs[i].path == p
}

/// The index of the document with this path.
pub open spec fn dpath_i(docs: Seq<DocumentV>, p: Seq<char>) -> int {
    choose|i: int| 0 <= i < docs.len() && docs[i].path == p
}

/// Whether a stored document must leave: its file is gone, or its
/// modification time changed.
pub open spec fn must_remove(d: DocumentV, files: Seq<ScannedFileV>) -> bool {
    !has_fpath(files, d.path) || files[fpath_i(files, d.path)].modified_time != d.modified_time
}

/// The identifiers scheduled for removal, in store order.
pub open spec fn removal_ids(docs: Seq<DocumentV>, files: Seq<ScannedFileV>) -> Seq<u32>
    decreases docs.len(),
{
    if docs.len() == 0 {
        Seq::empty()
    } else {
        let rest = removal_ids(docs.drop_last(), files);
        if must_remove(docs.last(), files) {
            rest.push(docs.last().id)
        } else {
            rest
        }
    }
}

/// The files scheduled for addition, in listing order, each with the
/// identifier to reuse when it replaces a changed document.
pub open spec fn additions(files: Seq<ScannedFileV>, docs: Seq<DocumentV>) -> Seq<
    (ScannedFileV, Option<u32>),
>
    decreases files.len(),
{
    if files.len() == 0 {
        Seq::empty()
    } else {
        let rest = additions(files.drop_last(), docs);
        let f = files.last();
        if has_dpath(docs, f.path) {
            if docs[dpath_i(docs, f.path)].modified_time != f.modified_time {
                rest.push((f, Some(docs[dpath_i(docs, f.path)].id)))
            } else {
                rest
            }
        } else {
            rest.push((f, None))
        }
    }
}

/// The document a scheduled file becomes; the token count is derived when
/// it is indexed.
pub open spec fn planned_doc(f: ScannedFileV, id: u32) -> DocumentV {
    DocumentV {
        id,
        path: f.path,
        content: f.content,
        title: title_of(f.path),
        tags: tags_of(f.content),
        num_tokens: 0,
        modified_time: f.modified_time,
    }
}

/// One removal: absent identifiers change nothing.
pub open spec fn remove_one(m: IndexV, id: u32) -> IndexV {
    if has_doc(m.docs, id) {
        remove_doc_spec_index(m, id)
    } else {
        m
    }
}

/// The index after the scheduled removals, in order.
pub open spec fn remove_fold(m: IndexV, ids: Seq<u32>) -> IndexV
    decreases ids.len(),
{
    if ids.len() == 0 {
        m
    } else {
        remove_one(remove_fold(m, ids.drop_last()), ids.last())
    }
}

/// Whether a document can enter the index: a free identifier below the
/// ceiling, bounded content, and room in the corpus.
pub open spec fn can_add(m: IndexV, d: DocumentV) -> bool {
    &&& !has_doc(m.docs, d.id)
    &&& d.id < 0xFFFF_FFFFu32
    &&& d.content.len() <= DOC_CONTENT_CAP
    &&& m.total_tokens + d.content.len() <= TOKEN_TOTAL_CAP
    &&& m.total_docs < DOC_COUNT_CAP
}

/// One addition: a file without a reused identifier takes the next fresh
/// one; an addition that cannot enter is skipped.
pub open spec fn add_one(m: IndexV, a: (ScannedFileV, Option<u32>)) -> IndexV {
    let id = match a.1 {
        Some(i) => i,
        None => m.next_doc_id,
    };
    let d = planned_doc(a.0, id);
    if can_add(m, d) {
        add_doc_spec(m, d)
    } else {
        m
    }
}

/// The index after the scheduled additions, in order.
pub open spec fn add_fold(m: IndexV, adds: Seq<(ScannedFileV, Option<u32>)>) -> IndexV
    decreases adds.len(),
{
    if adds.len() == 0 {
        m
    } else {
        add_one(add_fold(m, adds.drop_last()), adds.last())
    }
}

/// The index after a full synchronization against a listing.
pub open spec fn sync_spec(m: IndexV, files: Seq<ScannedFileV>) -> IndexV {
    let m1 = remove_fold(m, removal_ids(m.docs, files));
    let m2 = add_fold(m1, additions(files, m.docs));
    IndexV { cache: Seq::empty(), ..m2 }
}

/// Whether the store already reflects the listing exactly: every stored
/// document matches its listed file, and every listed file is stored.
pub open spec fn matches_listing(docs: Seq<DocumentV>, files: Seq<ScannedFileV>) -> bool {
    &&& forall|i: int| 0 <= i < docs.len() ==> !must_remove(#[trigger] docs[i], files)
    &&& forall|w: int| 0 <= w < files.len() ==> has_dpath(docs, (#[trigger] files[w]).path)
        && docs[dpath_i(docs, files[w].path)].modified_time == files[w].modified_time
}

proof fn lemma_no_removals(docs: Seq<DocumentV>, files: Seq<ScannedFileV>)
    requires
        forall|i: int| 0 <= i < docs.len() ==> !must_remove(#[trigger] docs[i], files),
    ensures
        removal_ids(docs, files).len() == 0,
    decreases docs.len(),
{
    if docs.len() > 0 {
        assert forall|i: int| 0 <= i < docs.drop_last().len() implies !must_remove(
            #[trigger] docs.drop_last()[i],
            files,
        ) by {
            assert(docs[i] == docs.drop_last()[i]);
        }
        lemma_no_removals(docs.drop_last(), files);
        assert(!must_remove(docs[docs.len() - 1], files));
    }
}

proof fn lemma_no_additions(files: Seq<ScannedFileV>, docs: Seq<DocumentV>)
    requires
        forall|w: int| 0 <= w < files.len() ==> has_dpath(docs, (#[trigger] files[w]).path)
            && docs[dpath_i(docs, files[w].path)].modified_time == files[w].modified_time,
    ensures
        additions(files, docs).len() == 0,
    decreases files.len(),
{
    if files.len() > 0 {
        assert forall|w: int| 0 <= w < files.drop_last().len() implies has_dpath(
            docs,
            (#[trigger] files.drop_last()[w]).path,
        ) && docs[dpath_i(docs, files.drop_last()[w].path)].modified_time
            == files.drop_last()[w].modified_time by {
            assert(files[w] == files.drop_last()[w]);
        }
        lemma_no_additions(files.drop_last(), docs);
        assert(has_dpath(docs, files[files.len() - 1].path));
    }
}

/// Synchronizing an index that already reflects the listing changes
/// nothing but the cache, which is cleared: a second synchronization with
/// no filesystem change leaves the index identical.
pub proof fn lemma_sync_matched_identity(m: IndexV, files: Seq<ScannedFileV>)
    requires
        matches_listing(m.docs, files),
    ensures
        sync_spec(m, files) == (IndexV { cache: Seq::empty(), ..m }),
{
    lemma_no_removals(m.docs, files);
    lemma_no_additions(files, m.docs);
    assert(remove_fold(m, removal_ids(m.docs, files)) == m);
    assert(add_fold(m, additions(files, m.docs)) == m);
}

/// The total content length of a scheduled addition list.
pub open spec fn plan_content_sum(plan: Seq<(ScannedFileV, Option<u32>)>) -> int
    decreases plan.len(),
{
    if plan.len() == 0 {
        0
    } else {
        plan_content_sum(plan.drop_last()) + plan.last().0.content.len()
    }
}

/// Against an empty store, every listed file is scheduled fresh.
proof fn lemma_additions_on_empty(files: Seq<ScannedFileV>, docs: Seq<DocumentV>)
    requires
        docs.len() == 0,
    ensures
        additions(files, docs).len() == files.len(),
        forall|a: int| 0 <= a < files.len() ==> #[trigger] additions(files, docs)[a] == (
        files[a], Option::<u32>::None),
    decreases files.len(),
{
    if files.len() > 0 {
        lemma_additions_on_empty(files.drop_last(), docs);
        assert(!has_dpath(docs, files.last().path)) by {
            if has_dpath(docs, files.last().path) {
                let i = dpath_i(docs, files.last().path);
                assert(false);
            }
        }
        assert forall|a: int| 0 <= a < files.len() implies #[trigger] additions(files, docs)[a]
            == (files[a], Option::<u32>::None) by {
            if a < files.len() - 1 {
                assert(additions(files, docs)[a] == additions(files.drop_last(), docs)[a]);
                assert(files.drop_last()[a] == files[a]);
            }
        }
    }
}

/// Filling an empty index with fresh additions indexes every scheduled
/// file: nothing is skipped, identifiers are assigned in order, and the
/// stored paths and modification times are the files' own.
proof fn lemma_add_fold_fresh(m: IndexV, plan: Seq<(ScannedFileV, Option<u32>)>)
    requires
        m.docs.len() == 0,
        m.total_docs == 0,
        m.total_tokens == 0,
        forall|a: int| 0 <= a < plan.len() ==> (#[trigger] plan[a]).1 is None,
        forall|a: int| 0 <= a < plan.len() ==> (#[trigger] plan[a]).0.content.len()
            <= DOC_CONTENT_CAP,
        plan_content_sum(plan) <= TOKEN_TOTAL_CAP,
        plan.len() <= DOC_COUNT_CAP,
        m.next_doc_id + plan.len() <= 0xFFFF_FFFFu32,
    ensures
        ({
            let r = add_fold(m, plan);
            &&& r.docs.len() == plan.len()
            &&& (forall|a: int| 0 <= a < plan.len() ==> (#[trigger] r.docs[a]).path
                == plan[a].0.path && r.docs[a].modified_time == plan[a].0.modified_time
                && r.docs[a].id == m.next_doc_id + a)
            &&& r.next_doc_id == m.next_doc_id + plan.len()
            &&& r.total_docs == plan.len()
            &&& 0 <= r.total_tokens <= plan_content_sum(plan)
        }),
    decreases plan.len(),
{
    if plan.len() > 0 {
        assert(plan_content_sum(plan.drop_last()) <= plan_content_sum(plan)) by {
            assert(plan.last().0.content.len() >= 0);
        }
        lemma_add_fold_fresh(m, plan.drop_last());
        let m1 = add_fold(m, plan.drop_last());
        let f = plan.last().0;
        let d = planned_doc(f, m1.next_doc_id);
        assert(can_add(m1, d)) by {
            assert(!has_doc(m1.docs, d.id)) by {
                if has_doc(m1.docs, d.id) {
                    let w = crate::search::doc_i(m1.docs, d.id);
                    assert(m1.docs[w].id == m.next_doc_id + w);
                }
            }
            assert(d.content.len() <= DOC_CONTENT_CAP) by {
                assert(plan[plan.len() - 1].0.content.len() <= DOC_CONTENT_CAP);
            }
            assert(m1.total_tokens + d.content.len() <= TOKEN_TOTAL_CAP);
            assert(m1.total_docs < DOC_COUNT_CAP);
        }
        let r = add_fold(m, plan);
        assert(r == add_doc_spec(m1, d));
        crate::tokenizer::lemma_tokens_len(f.content);
        assert(r.docs == m1.docs.push(crate::index::stored_doc(d)));
        assert forall|a: int| 0 <= a < plan.len() implies (#[trigger] r.docs[a]).path
            == plan[a].0.path && r.docs[a].modified_time == plan[a].0.modified_time
            && r.docs[a].id == m.next_doc_id + a by {
            if a < plan.len() - 1 {
                assert(r.docs[a] == m1.docs[a]);
                assert(plan.drop_last()[a] == plan[a]);
            } else {
                assert(r.docs[a] == crate::index::stored_doc(d));
            }
        }
    }
}

/// Synchronizing an empty index against a listing with distinct paths
/// leaves the store matching the listing exactly; with the identity law
/// this makes a second synchronization against the same listing a no-op:
/// corpus synchronization is idempotent from a fresh index.
pub proof fn lemma_first_sync_idempotent(m: IndexV, files: Seq<ScannedFileV>)
    requires
        m.docs.len() == 0,
        m.total_docs == 0,
        m.total_tokens == 0,
        forall|a: int, b: int| 0 <= a < b < files.len() ==> files[a].path != files[b].path,
        forall|a: int| 0 <= a < files.len() ==> (#[trigger] files[a]).content.len()
            <= DOC_CONTENT_CAP,
        plan_content_sum(additions(files, m.docs)) <= TOKEN_TOTAL_CAP,
        files.len() <= DOC_COUNT_CAP,
        m.next_doc_id + files.len() <= 0xFFFF_FFFFu32,
    ensures
        matches_listing(sync_spec(m, files).docs, files),
        sync_spec(sync_spec(m, files), files) == sync_spec(m, files),
{
    lemma_additions_on_empty(files, m.docs);
    let plan = additions(files, m.docs);
    assert(removal_ids(m.docs, files).len() == 0);
    assert(remove_fold(m, removal_ids(m.docs, files)) == m);
    assert forall|a: int| 0 <= a < plan.len() implies (#[trigger] plan[a]).1 is None && plan[
    a].0.content.len() <= DOC_CONTENT_CAP by {
        assert(plan[a] == (files[a], Option::<u32>::None));
    }
    lemma_add_fold_fresh(m, plan);
    let m2 = add_fold(m, plan);
    let mstar = sync_spec(m, files);
    assert(mstar.docs == m2.docs);
    assert forall|i: int| 0 <= i < mstar.docs.len() implies !must_remove(
        #[trigger] mstar.docs[i],
        files,
    ) by {
        assert(mstar.docs[i].path == files[i].path);
        assert(has_fpath(files, mstar.docs[i].path)) by {
            assert(files[i].path == mstar.docs[i].path);
        }
        let w = fpath_i(files, mstar.docs[i].path);
        assert(files[w].path == mstar.docs[i].path);
        if w != i {
            if w < i {
                assert(files[w].path != files[i].path);
            } else {
                assert(files[i].path != files[w].path);
            }
            assert(false);
        }
    }
    assert forall|w: int| 0 <= w < files.len() implies has_dpath(
        mstar.docs,
        (#[trigger] files[w]).path,
    ) && mstar.docs[dpath_i(mstar.docs, files[w].path)].modified_time
        == files[w].modified_time by {
        assert(mstar.docs[w].path == files[w].path);
        assert(has_dpath(mstar.docs, files[w].path));
        let k = dpath_i(mstar.docs, files[w].path);
        assert(mstar.docs[k].path == files[w].path);
        if k != w {
            assert(mstar.docs[k].path == files[k].path);
            if k < w {
                assert(files[k].path != files[w].path);
            } else {
                assert(files[w].path != files[k].path);
            }
            assert(false);
        }
    }
    lemma_sync_matched_identity(mstar, files);
    assert(sync_spec(mstar, files) =~~= mstar);
}

/// Finds the listed file with this path.
fn find_file(files: &Vec<ScannedFile>, p: &str) -> (r: Option<usize>)
    ensures
        match r {
            Some(w) => w < files.deep_view().len() && files.deep_view()[w as int].path == p@,
            None => !has_fpath(files.deep_view(), p@),
        },
{
    let ghost fv = files.deep_view();
    let mut w: usize = 0;
    while w < files.len()
        invariant
            w <= files@.len(),
            fv.len() == files@.len(),
            forall|j: int| 0 <= j < w ==> fv[j].path != p@,
        decreases files@.len() - w,
    {
        if str_eq(files[w].path.as_str(), p) {
            proof {
                assert(fv[w as int].path == p@);
            }
            return Some(w);
        }
        w = w + 1;
    }
    None
}

impl InvertedIndex {
    /// Finds the stored document with this path, returning its identifier
    /// and modification time.
    fn find_doc_by_path(&self, p: &str) -> (r: Option<(u32, u64)>)
        requires
            self.wf(),
        ensures
            match r {
                Some(x) => has_dpath(self@.docs, p@) && exists|i: int|
                    0 <= i < self@.docs.len() && (#[trigger] self@.docs[i]).path == p@
                        && self@.docs[i].id == x.0 && self@.docs[i].modified_time == x.1,
                None => !has_dpath(self@.docs, p@),
            },
    {
        let ghost dv = self@.docs;
        let n = self.doc_count();
        let mut i: usize = 0;
        while i < n
            invariant
                i <= n,
                n == dv.len(),
                self.wf(),
                dv == self@.docs,
                forall|j: int| 0 <= j < i ==> dv[j].path != p@,
            decreases n - i,
        {
            let d = self.document_at(i);
            if str_eq(d.path.as_str(), p) {
                proof {
                    assert(dv[i as int].path == p@);
                }
                return Some((d.id, d.modified_time));
            }
            i = i + 1;
        }
        None
    }

    /// Synchronizes the index against a directory listing with extracted
    /// contents: stale documents leave, changed files are re-added under
    /// their old identifiers, new files enter under fresh ones, and the
    /// cache is cleared.
    pub fn synchronize(&mut self, files: &Vec<ScannedFile>)
        requires
            old(self).wf(),
            forall|a: int, b: int| 0 <= a < b < files.deep_view().len()
                ==> files.deep_view()[a].path != files.deep_view()[b].path,
            forall|a: int, b: int| 0 <= a < b < old(self)@.docs.len() ==> old(self)@.docs[a].path
                != old(self)@.docs[b].path,
        ensures
            final(self).wf(),
            final(self)@ == sync_spec(old(self)@, files.deep_view()),
    {
        let ghost m = old(self)@;
        let ghost fv = files.deep_view();
        let ghost dv = m.docs;
        let mut removals: Vec<u32> = Vec::new();
        let n = self.doc_count();
        let mut i: usize = 0;
        while i < n
            invariant
                i <= n,
                n == dv.len(),
                self == old(self),
                dv == self@.docs,
                self.wf(),
                fv == files.deep_view(),
                forall|a: int, b: int| 0 <= a < b < fv.len() ==> fv[a].path != fv[b].path,
                removals@ == removal_ids(dv.subrange(0, i as int), fv),
            decreases n - i,
        {
            let ghost pre = dv.subrange(0, i as int);
            let ghost post = dv.subrange(0, i + 1 as int);
            proof {
                assert(post.drop_last() =~= pre);
                assert(post.last() == dv[i as int]);
            }
            let d = self.document_at(i);
            let gone = match find_file(files, d.path.as_str()) {
                None => {
                    proof {
                        assert(!has_fpath(fv, dv[i as int].path));
                        assert(must_remove(dv[i as int], fv));
                    }
                    true
                },
                Some(w) => {
                    proof {
                        assert(has_fpath(fv, dv[i as int].path)) by {
                            assert(fv[w as int].path == dv[i as int].path);
                        }
                        let k = fpath_i(fv, dv[i as int].path);
                        assert(fv[k].path == dv[i as int].path);
                        if k != w {
                            if k < w {
                                assert(fv[k].path != fv[w as int].path);
                            } else {
                                assert(fv[w as int].path != fv[k].path);
                            }
                            assert(false);
                        }
                    }
                    files[w].modified_time != d.modified_time
                },
            };
            if gone {
                removals.push(d.id);
                proof {
                    assert(removals@ =~= removal_ids(post, fv));
                }
            } else {
                proof {
                    assert(!must_remove(dv[i as int], fv));
                    assert(removals@ =~= removal_ids(post, fv));
                }
            }
            i = i + 1;
        }
        proof {
            assert(dv.subrange(0, dv.len() as int) =~= dv);
        }
        let mut plan: Vec<PlannedAdd> = Vec::new();
        let mut w: usize = 0;
        while w < files.len()
            invariant
                w <= files@.len(),
                self == old(self),
                self.wf(),
                dv == self@.docs,
                fv == files.deep_view(),
                fv.len() == files@.len(),
                forall|a: int, b: int| 0 <= a < b < dv.len() ==> dv[a].path != dv[b].path,
                plan.deep_view() == additions(fv.subrange(0, w as int), dv),
            decreases files@.len() - w,
        {
            let ghost pre = fv.subrange(0, w as int);
            let ghost post = fv.subrange(0, w + 1 as int);
            proof {
                assert(post.drop_last() =~= pre);
                assert(post.last() == fv[w as int]);
                assert(fv[w as int] == files@[w as int]@);
            }
            let f = &files[w];
            match self.find_doc_by_path(f.path.as_str()) {
                Some((id, mtime)) => {
                    proof {
                        let e = choose|e: int|
                            0 <= e < dv.len() && (#[trigger] dv[e]).path == f.path@ && dv[e].id
                                == id && dv[e].modified_time == mtime;
                        let k = dpath_i(dv, fv[w as int].path);
                        assert(dv[k].path == fv[w as int].path);
                        if k != e {
                            if k < e {
                                assert(dv[k].path != dv[e].path);
                            } else {
                                assert(dv[e].path != dv[k].path);
                            }
                            assert(false);
                        }
                    }
                    if mtime != f.modified_time {
                        plan.push(
                            PlannedAdd {
                                path: f.path.clone(),
                                modified_time: f.modified_time,
                                content: f.content.clone(),
                                reuse: Some(id),
                            },
                        );
                        proof {
                            assert(plan.deep_view() =~~= additions(post, dv));
                        }
                    } else {
                        proof {
                            assert(plan.deep_view() =~~= additions(post, dv));
                        }
                    }
                },
                None => {
                    plan.push(
                        PlannedAdd {
                            path: f.path.clone(),
                            modified_time: f.modified_time,
                            content: f.content.clone(),
                            reuse: None,
                        },
                    );
                    proof {
                        assert(plan.deep_view() =~~= additions(post, dv));
                    }
                },
            }
            w = w + 1;
        }
        proof {
            assert(fv.subrange(0, fv.len() as int) =~= fv);
        }
        let ghost rv = removals@;
        let mut k: usize = 0;
        while k < removals.len()
            invariant
                k <= removals@.len(),
                rv == removals@,
                self.wf(),
                self@ == remove_fold(m, rv.subrange(0, k as int)),
            decreases removals@.len() - k,
        {
            let ghost pre = rv.subrange(0, k as int);
            let ghost post = rv.subrange(0, k + 1 as int);
            proof {
                assert(post.drop_last() =~= pre);
                assert(post.last() == rv[k as int]);
            }
            let _removed = self.remove_document(removals[k]);
            k = k + 1;
        }
        proof {
            assert(rv.subrange(0, rv.len() as int) =~= rv);
        }
        let ghost mr = remove_fold(m, rv);
        let ghost pv = plan.deep_view();
        let mut k2: usize = 0;
        while k2 < plan.len()
            invariant
                k2 <= plan@.len(),
                pv == plan.deep_view(),
                pv.len() == plan@.len(),
                self.wf(),
                self@ == add_fold(mr, pv.subrange(0, k2 as int)),
            decreases plan@.len() - k2,
        {
            let ghost pre = pv.subrange(0, k2 as int);
            let ghost post = pv.subrange(0, k2 + 1 as int);
            proof {
                assert(post.drop_last() =~= pre);
                assert(post.last() == pv[k2 as int]);
                assert(pv[k2 as int] == plan@[k2 as int]@);
            }
            let a = &plan[k2];
            let id = match a.reuse {
                Some(i) => i,
                None => self.next_id(),
            };
            let clen = a.content.as_str().unicode_len();
            if !self.has_document(id) && id < 0xFFFF_FFFFu32 && clen <= 0x8000_0000usize
                && self.token_total() + (clen as u64) <= TOKEN_TOTAL_CAP && (
            self.total_documents() as u64) < DOC_COUNT_CAP {
                let doc = Document {
                    id,
                    path: a.path.clone(),
                    content: a.content.clone(),
                    title: derive_title(a.path.as_str()),
                    tags: extract_tags(a.content.as_str()),
                    num_tokens: 0,
                    modified_time: a.modified_time,
                };
                proof {
                    assert(doc@ =~~= planned_doc(pv[k2 as int].0, id));
                    assert(can_add(self@, doc@));
                }
                self.add_document(doc);
                proof {
                    assert(self@ == add_fold(mr, post));
                }
            } else {
                proof {
                    assert(!can_add(self@, planned_doc(pv[k2 as int].0, id)));
                    assert(self@ == add_fold(mr, post));
                }
            }
            k2 = k2 + 1;
        }
        proof {
            assert(pv.subrange(0, pv.len() as int) =~= pv);
        }
        self.clear_cache();
        proof {
            assert(final(self)@ =~~= sync_spec(m, fv));
        }
    }
}

} // verus!
