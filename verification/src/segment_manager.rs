use vstd::prelude::*;

use crate::segment::{
    default_file_suffixes, IndexFile, SegmentEntry, SegmentEntryView, SegmentId, SegmentMeta,
    SegmentState,
};
use crate::segment_register::{
    all_ids_in, entry_for, has_id, lemma_reg_index, lemma_remove_id, reg_index_of, unique_ids,
    SegmentRegister,
};

verus! {

broadcast use vstd::seq_lib::lemma_seq_contains_after_push;

/// Spec-level value of a `SegmentManager`: both registers and the set of
/// identifiers currently being written.
#[verifier::ext_equal]
pub ghost struct SegmentManagerView {
    pub committed: Seq<SegmentEntryView>,
    pub uncommitted: Seq<SegmentEntryView>,
    pub writing: Seq<SegmentId>,
}

/// The manager's exclusivity invariant: a segment identifier is a member of
/// at most one of the committed register, the uncommitted register and the
/// writing set, and appears at most once there.
pub open spec fn manager_inv(m: SegmentManagerView) -> bool {
    &&& unique_ids(m.committed)
    &&& unique_ids(m.uncommitted)
    &&& m.writing.no_duplicates()
    &&& forall|id: SegmentId| has_id(m.committed, id) ==> !has_id(m.uncommitted, id)
    &&& forall|id: SegmentId| has_id(m.committed, id) ==> !m.writing.contains(id)
    &&& forall|id: SegmentId| has_id(m.uncommitted, id) ==> !m.writing.contains(id)
}

/// Whether either register tracks `id`.
pub open spec fn known(m: SegmentManagerView, id: SegmentId) -> bool {
    has_id(m.committed, id) || has_id(m.uncommitted, id)
}

/// The entry either register holds for `id`, the committed one first.
pub open spec fn manager_entry_for(m: SegmentManagerView, id: SegmentId) -> SegmentEntryView {
    if has_id(m.committed, id) {
        entry_for(m.committed, id)
    } else {
        entry_for(m.uncommitted, id)
    }
}

/// The state either register records for `id`.
pub open spec fn state_of(m: SegmentManagerView, id: SegmentId) -> SegmentState {
    manager_entry_for(m, id).state
}

/// The state a committed entry for `id` receives: the previously recorded
/// state where one is known, `Ready` otherwise.
pub open spec fn commit_state(m: SegmentManagerView, id: SegmentId) -> SegmentState {
    if known(m, id) {
        state_of(m, id)
    } else {
        SegmentState::Ready
    }
}

/// A commit never interrupts an in-progress merge: a segment recorded as
/// `InMerge` in either register before a commit is given the `InMerge` state
/// again by the commit, not reset to `Ready`.
pub proof fn lemma_commit_preserves_merge_state(m: SegmentManagerView, id: SegmentId)
    requires
        known(m, id),
        state_of(m, id) == SegmentState::InMerge,
    ensures
        commit_state(m, id) == SegmentState::InMerge,
{
}

/// The identifiers of a sequence of metadata records, in order.
pub open spec fn meta_ids(metas: Seq<SegmentMeta>) -> Seq<SegmentId> {
    metas.map_values(|m: SegmentMeta| m.segment_id)
}

/// `after` is `before` with every identifier of `ids` marked `InMerge` and
/// everything else unchanged.
pub open spec fn marked_in_merge(
    before: Seq<SegmentEntryView>,
    ids: Seq<SegmentId>,
    after: Seq<SegmentEntryView>,
) -> bool {
    &&& after.len() == before.len()
    &&& forall|k: int| 0 <= k < before.len() ==> after[k].meta == before[k].meta
    &&& forall|k: int|
        0 <= k < before.len() ==> after[k].state == (if ids.contains(before[k].meta.segment_id) {
            SegmentState::InMerge
        } else {
            before[k].state
        })
}

/// `after` is `before` with every entry whose identifier is in `ids`
/// removed and the merge output `out` inserted; all other entries are kept.
pub open spec fn merged_out(
    before: Seq<SegmentEntryView>,
    ids: Seq<SegmentId>,
    out: SegmentEntryView,
    after: Seq<SegmentEntryView>,
) -> bool {
    &&& unique_ids(after)
    &&& has_id(after, out.meta.segment_id)
    &&& entry_for(after, out.meta.segment_id) == out
    &&& forall|id: SegmentId|
        ids.contains(id) && id != out.meta.segment_id ==> !has_id(after, id)
    &&& forall|id: SegmentId|
        !ids.contains(id) && id != out.meta.segment_id ==> (has_id(after, id) <==> has_id(
            before,
            id,
        ))
    &&& forall|id: SegmentId|
        !ids.contains(id) && id != out.meta.segment_id && has_id(before, id) ==> entry_for(
            after,
            id,
        ) == entry_for(before, id)
}

/// The set of files one segment's metadata accounts for.
pub open spec fn files_of(segment_id: SegmentId, suffixes: Seq<u64>) -> Set<IndexFile> {
    Set::new(
        |f: IndexFile|
            exists|k: int|
                0 <= k < suffixes.len() && f == (IndexFile::SegmentFile {
                    segment_id,
                    suffix: suffixes[k],
                }),
    )
}

/// The files of every entry of a register.
pub open spec fn register_files(s: Seq<SegmentEntryView>) -> Set<IndexFile> {
    Set::new(
        |f: IndexFile|
            exists|i: int|
                0 <= i < s.len() && files_of(s[i].meta.segment_id, s[i].meta.file_suffixes)
                    .contains(f),
    )
}

/// The files of every segment still being written: such a segment may
/// produce its full component footprint.
pub open spec fn writing_files(w: Seq<SegmentId>) -> Set<IndexFile> {
    Set::new(
        |f: IndexFile|
            exists|i: int| 0 <= i < w.len() && files_of(w[i], default_file_suffixes()).contains(f),
    )
}

/// Every file garbage collection must keep: the root metadata descriptor
/// plus the files of committed, uncommitted and in-flight segments.
pub open spec fn all_files(m: SegmentManagerView) -> Set<IndexFile> {
    Set::new(
        |f: IndexFile|
            f == IndexFile::MetaFile || register_files(m.committed).contains(f) || register_files(
                m.uncommitted,
            ).contains(f) || writing_files(m.writing).contains(f),
    )
}

/// The segment manager stores the list of segments as well as their state,
/// split into the committed register, the uncommitted register and the set
/// of identifiers still being written. It guarantees the atomicity of the
/// changes, merges especially.
pub struct SegmentManager {
    committed: SegmentRegister,
    uncommitted: SegmentRegister,
    writing: Vec<SegmentId>,
}

impl View for SegmentManager {
    type V = SegmentManagerView;

    closed spec fn view(&self) -> SegmentManagerView {
        SegmentManagerView {
            committed: self.committed@,
            uncommitted: self.uncommitted@,
            writing: self.writing@,
        }
    }
}

/// Returns the `SegmentMeta`s for (committed segments, uncommitted
/// segments). A segment never appears on both sides at once.
pub fn get_segments(segment_manager: &SegmentManager) -> (r: (Vec<SegmentMeta>, Vec<SegmentMeta>))
    ensures
        r.0@.len() == segment_manager@.committed.len(),
        forall|i: int|
            0 <= i < r.0@.len() ==> r.0@[i]@ == segment_manager@.committed[i].meta,
        r.1@.len() == segment_manager@.uncommitted.len(),
        forall|i: int|
            0 <= i < r.1@.len() ==> r.1@[i]@ == segment_manager@.uncommitted[i].meta,
{
    (segment_manager.committed.get_segments(), segment_manager.uncommitted.get_segments())
}

impl Default for SegmentManager {
    fn default() -> (r: SegmentManager)
        ensures
            r.wf(),
            r@.committed == Seq::<SegmentEntryView>::empty(),
            r@.uncommitted == Seq::<SegmentEntryView>::empty(),
            r@.writing == Seq::<SegmentId>::empty(),
    {
        SegmentManager {
            committed: SegmentRegister::default(),
            uncommitted: SegmentRegister::default(),
            writing: Vec::new(),
        }
    }
}

impl SegmentManager {
    /// The exclusivity invariant, as a property of the manager itself.
    pub open spec fn wf(&self) -> bool {
        manager_inv(self@)
    }

    /// A manager whose committed register holds one `Ready` entry per given
    /// metadata; nothing is uncommitted and nothing is being written.
    pub fn from_segments(segment_metas: Vec<SegmentMeta>) -> (r: SegmentManager)
        requires
            forall|i: int, j: int|
                0 <= i < j < segment_metas@.len() ==> segment_metas@[i].segment_id
                    != segment_metas@[j].segment_id,
        ensures
            r.wf(),
            r@.uncommitted == Seq::<SegmentEntryView>::empty(),
            r@.writing == Seq::<SegmentId>::empty(),
            r@.committed.len() == segment_metas@.len(),
            forall|i: int|
                0 <= i < segment_metas@.len() ==> r@.committed[i].meta == segment_metas@[i]@
                    && r@.committed[i].state == SegmentState::Ready,
    {
        SegmentManager {
            committed: SegmentRegister::new(segment_metas),
            uncommitted: SegmentRegister::default(),
            writing: Vec::new(),
        }
    }

    /// All entries, uncommitted first, then committed.
    pub fn segment_entries(&self) -> (r: Vec<SegmentEntry>)
        ensures
            r@.len() == self@.uncommitted.len() + self@.committed.len(),
            forall|i: int| 0 <= i < self@.uncommitted.len() ==> r@[i]@ == self@.uncommitted[i],
            forall|i: int|
                0 <= i < self@.committed.len() ==> r@[self@.uncommitted.len() + i]@
                    == self@.committed[i],
    {
        let mut r = self.uncommitted.segment_entries();
        let mut c = self.committed.segment_entries();
        r.append(&mut c);
        r
    }

    /// Every file path garbage collection must keep: the root metadata
    /// descriptor plus every file of a committed, uncommitted or in-flight
    /// segment, without duplicates.
    pub fn list_files(&self) -> (r: Vec<IndexFile>)
        ensures
            r@.no_duplicates(),
            forall|f: IndexFile| r@.contains(f) <==> all_files(self@).contains(f),
    {
        let mut r: Vec<IndexFile> = Vec::new();
        r.push(IndexFile::MetaFile);
        let committed_metas = self.committed.segment_metas();
        let uncommitted_metas = self.uncommitted.segment_metas();
        let mut i: usize = 0;
        while i < committed_metas.len()
            invariant
                i <= committed_metas@.len(),
                committed_metas@.len() == self@.committed.len(),
                forall|k: int|
                    0 <= k < self@.committed.len() ==> committed_metas@[k]@
                        == self@.committed[k].meta,
                r@.no_duplicates(),
                forall|f: IndexFile|
                    r@.contains(f) <==> (f == IndexFile::MetaFile || register_files(
                        self@.committed.take(i as int),
                    ).contains(f)),
            decreases committed_metas@.len() - i,
        {
            let meta = committed_metas[i].clone();
            push_segment_files(&mut r, &meta);
            proof {
                lemma_register_files_take(self@.committed, i as int);
                assert(meta@ == self@.committed[i as int].meta);
            }
            i = i + 1;
        }
        proof {
            assert(self@.committed.take(self@.committed.len() as int) =~= self@.committed);
        }
        let mut j: usize = 0;
        while j < uncommitted_metas.len()
            invariant
                j <= uncommitted_metas@.len(),
                uncommitted_metas@.len() == self@.uncommitted.len(),
                forall|k: int|
                    0 <= k < self@.uncommitted.len() ==> uncommitted_metas@[k]@
                        == self@.uncommitted[k].meta,
                r@.no_duplicates(),
                forall|f: IndexFile|
                    r@.contains(f) <==> (f == IndexFile::MetaFile || register_files(
                        self@.committed,
                    ).contains(f) || register_files(self@.uncommitted.take(j as int)).contains(f)),
            decreases uncommitted_metas@.len() - j,
        {
            let meta = uncommitted_metas[j].clone();
            push_segment_files(&mut r, &meta);
            proof {
                lemma_register_files_take(self@.uncommitted, j as int);
                assert(meta@ == self@.uncommitted[j as int].meta);
            }
            j = j + 1;
        }
        proof {
            assert(self@.uncommitted.take(self@.uncommitted.len() as int) =~= self@.uncommitted);
        }
        let mut w: usize = 0;
        while w < self.writing.len()
            invariant
                w <= self@.writing.len(),
                self@.writing.len() == self.writing@.len(),
                r@.no_duplicates(),
                forall|f: IndexFile|
                    r@.contains(f) <==> (f == IndexFile::MetaFile || register_files(
                        self@.committed,
                    ).contains(f) || register_files(self@.uncommitted).contains(f)
                        || writing_files(self@.writing.take(w as int)).contains(f)),
            decreases self@.writing.len() - w,
        {
            let meta = SegmentMeta::new(self.writing[w]);
            push_segment_files(&mut r, &meta);
            proof {
                lemma_writing_files_take(self@.writing, w as int);
            }
            w = w + 1;
        }
        proof {
            assert(self@.writing.take(self@.writing.len() as int) =~= self@.writing);
        }
        r
    }

    /// The state recorded for `segment_id`, the committed register first.
    pub fn segment_state(&self, segment_id: &SegmentId) -> (r: Option<SegmentState>)
        requires
            self.wf(),
        ensures
            r == (if known(self@, *segment_id) {
                Some(state_of(self@, *segment_id))
            } else {
                None::<SegmentState>
            }),
    {
        match self.segment_entry(segment_id) {
            Some(e) => Some(e.state()),
            None => None,
        }
    }

    /// The entry recorded for `segment_id`, the committed register first.
    pub fn segment_entry(&self, segment_id: &SegmentId) -> (r: Option<SegmentEntry>)
        requires
            self.wf(),
        ensures
            match r {
                Some(e) => known(self@, *segment_id) && e@ == manager_entry_for(
                    self@,
                    *segment_id,
                ),
                None => !known(self@, *segment_id),
            },
    {
        match self.committed.segment_entry(segment_id) {
            Some(e) => Some(e),
            None => self.uncommitted.segment_entry(segment_id),
        }
    }

    /// Whether `segment_id` is in the writing set.
    pub fn is_writing(&self, segment_id: &SegmentId) -> (r: bool)
        ensures
            r == self@.writing.contains(*segment_id),
    {
        let mut i: usize = 0;
        while i < self.writing.len()
            invariant
                i <= self@.writing.len(),
                self@.writing.len() == self.writing@.len(),
                forall|j: int| 0 <= j < i ==> self@.writing[j] != *segment_id,
            decreases self@.writing.len() - i,
        {
            if self.writing[i] == *segment_id {
                return true;
            }
            i = i + 1;
        }
        false
    }

    /// Removes all of the uncommitted segments and returns their
    /// identifiers; the committed register and the writing set are untouched.
    pub fn rollback(&mut self) -> (r: Vec<SegmentId>)
        requires
            old(self).wf(),
        ensures
            final(self).wf(),
            r@.len() == old(self)@.uncommitted.len(),
            forall|i: int|
                0 <= i < r@.len() ==> r@[i] == old(self)@.uncommitted[i].meta.segment_id,
            final(self)@.uncommitted == Seq::<SegmentEntryView>::empty(),
            final(self)@.committed == old(self)@.committed,
            final(self)@.writing == old(self)@.writing,
    {
        let r = self.uncommitted.segment_ids();
        self.uncommitted.clear();
        r
    }

    /// Records `segment_id` as being written; it gains no visibility yet.
    pub fn write_segment(&mut self, segment_id: SegmentId)
        requires
            old(self).wf(),
            !has_id(old(self)@.committed, segment_id),
            !has_id(old(self)@.uncommitted, segment_id),
        ensures
            final(self).wf(),
            final(self)@.committed == old(self)@.committed,
            final(self)@.uncommitted == old(self)@.uncommitted,
            final(self)@.writing == (if old(self)@.writing.contains(segment_id) {
                old(self)@.writing
            } else {
                old(self)@.writing.push(segment_id)
            }),
    {
        if !self.is_writing(&segment_id) {
            self.writing.push(segment_id);
            proof {
                assert forall|a: int, b: int|
                    0 <= a < b < self@.writing.len() implies self@.writing[a]
                    != self@.writing[b] by {
                    if b < self@.writing.len() - 1 {
                        assert(self@.writing[a] == old(self)@.writing[a]);
                        assert(self@.writing[b] == old(self)@.writing[b]);
                    } else {
                        assert(self@.writing[a] == old(self)@.writing[a]);
                        assert(old(self)@.writing.contains(old(self)@.writing[a]));
                    }
                }
            }
        }
    }

    /// Moves a freshly finished segment out of the writing set and into the
    /// uncommitted register, where it becomes visible.
    pub fn add_segment(&mut self, segment_entry: SegmentEntry)
        requires
            old(self).wf(),
            !has_id(old(self)@.committed, segment_entry@.meta.segment_id),
        ensures
            final(self).wf(),
            final(self)@.committed == old(self)@.committed,
            !final(self)@.writing.contains(segment_entry@.meta.segment_id),
            forall|x: SegmentId|
                x != segment_entry@.meta.segment_id ==> (final(self)@.writing.contains(x)
                    <==> old(self)@.writing.contains(x)),
            final(self)@.uncommitted == (if has_id(
                old(self)@.uncommitted,
                segment_entry@.meta.segment_id,
            ) {
                old(self)@.uncommitted.update(
                    reg_index_of(old(self)@.uncommitted, segment_entry@.meta.segment_id),
                    segment_entry@,
                )
            } else {
                old(self)@.uncommitted.push(segment_entry@)
            }),
    {
        let id = segment_entry.segment_id();
        self.remove_writing(&id);
        self.uncommitted.add_segment_entry(segment_entry);
        proof {
            if has_id(old(self)@.uncommitted, id) {
                let k = reg_index_of(old(self)@.uncommitted, id);
                assert(0 <= k < old(self)@.uncommitted.len()
                    && old(self)@.uncommitted[k].meta.segment_id == id);
            }
            assert forall|x: SegmentId| has_id(self@.uncommitted, x) implies (has_id(
                old(self)@.uncommitted,
                x,
            ) || x == id) by {
                let k = choose|k: int|
                    0 <= k < self@.uncommitted.len() && self@.uncommitted[k].meta.segment_id == x;
                if has_id(old(self)@.uncommitted, id) {
                    let u = reg_index_of(old(self)@.uncommitted, id);
                    if k != u {
                        assert(self@.uncommitted[k] == old(self)@.uncommitted[k]);
                    }
                } else {
                    if k < self@.uncommitted.len() - 1 {
                        assert(self@.uncommitted[k] == old(self)@.uncommitted[k]);
                    }
                }
            }
        }
    }

    /// Removes `segment_id` from the writing set, if present.
    fn remove_writing(&mut self, segment_id: &SegmentId)
        requires
            old(self).wf(),
        ensures
            final(self).wf(),
            final(self)@.committed == old(self)@.committed,
            final(self)@.uncommitted == old(self)@.uncommitted,
            !final(self)@.writing.contains(*segment_id),
            forall|x: SegmentId|
                x != *segment_id ==> (final(self)@.writing.contains(x) <==> old(
                    self,
                )@.writing.contains(x)),
            final(self)@.writing.no_duplicates(),
    {
        let mut i: usize = 0;
        while i < self.writing.len()
            invariant
                self.wf(),
                i <= self@.writing.len(),
                self@.writing.len() == self.writing@.len(),
                self@.committed == old(self)@.committed,
                self@.uncommitted == old(self)@.uncommitted,
                self@.writing == old(self)@.writing,
                forall|j: int| 0 <= j < i ==> self@.writing[j] != *segment_id,
            decreases self@.writing.len() - i,
        {
            if self.writing[i] == *segment_id {
                let ghost w = self@.writing;
                self.writing.remove(i);
                proof {
                    w.remove_ensures(i as int);
                    let r = self@.writing;
                    assert forall|a: int, b: int| 0 <= a < b < r.len() implies r[a] != r[b] by {
                        let ma: int = if a < i { a } else { a + 1 };
                        let mb: int = if b < i { b } else { b + 1 };
                        assert(r[a] == w[ma]);
                        assert(r[b] == w[mb]);
                    }
                    assert forall|x: SegmentId| r.contains(x) implies x != *segment_id && w
                        .contains(x) by {
                        let k = choose|k: int| 0 <= k < r.len() && r[k] == x;
                        let m: int = if k < i { k } else { k + 1 };
                        assert(r[k] == w[m]);
                        if m != i {
                            assert(w[m] != w[i as int]);
                        }
                    }
                    assert forall|x: SegmentId| x != *segment_id && w.contains(x) implies r
                        .contains(x) by {
                        let m = choose|m: int| 0 <= m < w.len() && w[m] == x;
                        let k: int = if m < i { m } else { m - 1 };
                        assert(m != i);
                        assert(r[k] == w[m]);
                    }
                    assert forall|x: SegmentId| has_id(self@.committed, x) implies !self@
                        .writing
                        .contains(x) by {}
                    assert forall|x: SegmentId| has_id(self@.uncommitted, x) implies !self@
                        .writing
                        .contains(x) by {}
                }
                return ;
            }
            i = i + 1;
        }
    }

    /// Replaces the whole visible segment set: both registers are cleared
    /// and the committed register is repopulated with one entry per given
    /// metadata, keeping the previously recorded state of segments that were
    /// already known.
    pub fn commit(&mut self, segment_metas: Vec<SegmentMeta>)
        requires
            old(self).wf(),
            forall|i: int, j: int|
                0 <= i < j < segment_metas@.len() ==> segment_metas@[i].segment_id
                    != segment_metas@[j].segment_id,
            forall|i: int|
                0 <= i < segment_metas@.len() ==> !old(self)@.writing.contains(
                    segment_metas@[i].segment_id,
                ),
        ensures
            final(self).wf(),
            final(self)@.uncommitted == Seq::<SegmentEntryView>::empty(),
            final(self)@.writing == old(self)@.writing,
            final(self)@.committed.len() == segment_metas@.len(),
            forall|i: int|
                0 <= i < segment_metas@.len() ==> final(self)@.committed[i].meta
                    == segment_metas@[i]@ && final(self)@.committed[i].state == commit_state(
                    old(self)@,
                    segment_metas@[i].segment_id,
                ),
    {
        let mut committed_segment_entries: Vec<SegmentEntry> = Vec::new();
        let mut i: usize = 0;
        while i < segment_metas.len()
            invariant
                self.wf(),
                self@ == old(self)@,
                i <= segment_metas@.len(),
                committed_segment_entries@.len() == i,
                forall|k: int|
                    0 <= k < i ==> (#[trigger] committed_segment_entries@[k])@.meta
                        == segment_metas@[k]@,
                forall|k: int|
                    0 <= k < i ==> (#[trigger] committed_segment_entries@[k])@.state
                        == commit_state(old(self)@, segment_metas@[k].segment_id),
            decreases segment_metas@.len() - i,
        {
            let segment_meta = segment_metas[i].clone();
            let segment_id = segment_meta.id();
            let mut segment_entry = SegmentEntry::new(segment_meta);
            match self.segment_state(&segment_id) {
                Some(state) => segment_entry.set_state(state),
                None => {},
            }
            committed_segment_entries.push(segment_entry);
            proof {
                assert(committed_segment_entries@[i as int]@.meta == segment_metas@[i as int]@);
                assert(committed_segment_entries@[i as int]@.state == commit_state(
                    old(self)@,
                    segment_metas@[i as int].segment_id,
                ));
            }
            i = i + 1;
        }
        self.committed.clear();
        self.uncommitted.clear();
        let mut j: usize = 0;
        while j < committed_segment_entries.len()
            invariant
                committed_segment_entries@.len() == segment_metas@.len(),
                forall|k: int|
                    0 <= k < segment_metas@.len() ==> (#[trigger] committed_segment_entries@[k])@
                        .meta == segment_metas@[k]@,
                forall|k: int|
                    0 <= k < segment_metas@.len() ==> (#[trigger] committed_segment_entries@[k])@
                        .state == commit_state(old(self)@, segment_metas@[k].segment_id),
                forall|a: int, b: int|
                    0 <= a < b < segment_metas@.len() ==> segment_metas@[a].segment_id
                        != segment_metas@[b].segment_id,
                j <= segment_metas@.len(),
                unique_ids(self@.committed),
                self@.uncommitted == Seq::<SegmentEntryView>::empty(),
                self@.writing == old(self)@.writing,
                self@.committed.len() == j,
                forall|k: int|
                    0 <= k < j ==> self@.committed[k] == committed_segment_entries@[k]@,
            decreases committed_segment_entries@.len() - j,
        {
            let entry = committed_segment_entries[j].clone();
            proof {
                assert forall|k: int|
                    0 <= k < self@.committed.len() implies self@.committed[k].meta.segment_id
                    != entry@.meta.segment_id by {
                    assert(self@.committed[k].meta == segment_metas@[k]@);
                    assert(entry@.meta == segment_metas@[j as int]@);
                    assert(segment_metas@[k].segment_id != segment_metas@[j as int].segment_id);
                }
                assert(!has_id(self@.committed, entry@.meta.segment_id));
            }
            self.committed.add_segment_entry(entry);
            j = j + 1;
        }
        proof {
            assert forall|x: SegmentId| has_id(self@.committed, x) implies !self@
                .writing
                .contains(x) by {
                let k = choose|k: int|
                    0 <= k < self@.committed.len() && self@.committed[k].meta.segment_id == x;
                assert(self@.committed[k].meta == segment_metas@[k]@);
            }
        }
    }

    /// Marks every one of the given segments `InMerge`, in whichever single
    /// register contains them all; a merge set spanning both registers, or
    /// referring to unknown segments, changes nothing.
    pub fn start_merge(&mut self, segment_ids: &[SegmentId])
        requires
            old(self).wf(),
        ensures
            final(self).wf(),
            final(self)@.writing == old(self)@.writing,
            (forall|i: int|
                0 <= i < segment_ids@.len() ==> has_id(
                    old(self)@.uncommitted,
                    segment_ids@[i],
                )) ==> final(self)@.committed == old(self)@.committed && marked_in_merge(
                old(self)@.uncommitted,
                segment_ids@,
                final(self)@.uncommitted,
            ),
            (!(forall|i: int|
                0 <= i < segment_ids@.len() ==> has_id(old(self)@.uncommitted, segment_ids@[i]))
                && (forall|i: int|
                0 <= i < segment_ids@.len() ==> has_id(
                    old(self)@.committed,
                    segment_ids@[i],
                ))) ==> final(self)@.uncommitted == old(self)@.uncommitted && marked_in_merge(
                old(self)@.committed,
                segment_ids@,
                final(self)@.committed,
            ),
            (!(forall|i: int|
                0 <= i < segment_ids@.len() ==> has_id(old(self)@.uncommitted, segment_ids@[i]))
                && !(forall|i: int|
                0 <= i < segment_ids@.len() ==> has_id(
                    old(self)@.committed,
                    segment_ids@[i],
                ))) ==> final(self)@ == old(self)@,
    {
        if self.uncommitted.contains_all(segment_ids) {
            let mut i: usize = 0;
            while i < segment_ids.len()
                invariant
                    i <= segment_ids@.len(),
                    forall|k: int|
                        0 <= k < segment_ids@.len() ==> has_id(
                            old(self)@.uncommitted,
                            segment_ids@[k],
                        ),
                    manager_inv(old(self)@),
                    self@.committed == old(self)@.committed,
                    self@.writing == old(self)@.writing,
                    self@.uncommitted.len() == old(self)@.uncommitted.len(),
                    forall|k: int|
                        0 <= k < old(self)@.uncommitted.len() ==> self@.uncommitted[k].meta == old(
                            self,
                        )@.uncommitted[k].meta,
                    forall|k: int|
                        0 <= k < old(self)@.uncommitted.len() ==> self@.uncommitted[k].state == (
                        if segment_ids@.take(i as int).contains(
                            old(self)@.uncommitted[k].meta.segment_id,
                        ) {
                            SegmentState::InMerge
                        } else {
                            old(self)@.uncommitted[k].state
                        }),
                    unique_ids(self@.uncommitted),
                decreases segment_ids@.len() - i,
            {
                proof {
                    let u = choose|u: int|
                        0 <= u < old(self)@.uncommitted.len() && old(
                            self,
                        )@.uncommitted[u].meta.segment_id == segment_ids@[i as int];
                    assert(self@.uncommitted[u].meta == old(self)@.uncommitted[u].meta);
                    assert(has_id(self@.uncommitted, segment_ids@[i as int]));
                }
                let ghost prev = self@.uncommitted;
                self.uncommitted.start_merge(&segment_ids[i]);
                proof {
                    assert forall|k: int|
                        0 <= k < old(self)@.uncommitted.len() implies self@.uncommitted[k].state
                        == (if segment_ids@.take(i + 1).contains(
                        old(self)@.uncommitted[k].meta.segment_id,
                    ) {
                        SegmentState::InMerge
                    } else {
                        old(self)@.uncommitted[k].state
                    }) by {
                        let id_k = old(self)@.uncommitted[k].meta.segment_id;
                        assert(segment_ids@.take(i + 1) =~= segment_ids@.take(i as int).push(
                            segment_ids@[i as int],
                        ));
                        assert(prev[k].meta == old(self)@.uncommitted[k].meta);
                    }
                }
                i = i + 1;
            }
            proof {
                assert(segment_ids@.take(segment_ids@.len() as int) =~= segment_ids@);
                assert forall|x: SegmentId| has_id(self@.uncommitted, x) implies has_id(
                    old(self)@.uncommitted,
                    x,
                ) by {
                    let k = choose|k: int|
                        0 <= k < self@.uncommitted.len() && self@.uncommitted[k].meta.segment_id
                            == x;
                    assert(self@.uncommitted[k].meta == old(self)@.uncommitted[k].meta);
                }
            }
        } else if self.committed.contains_all(segment_ids) {
            let mut i: usize = 0;
            while i < segment_ids.len()
                invariant
                    i <= segment_ids@.len(),
                    forall|k: int|
                        0 <= k < segment_ids@.len() ==> has_id(
                            old(self)@.committed,
                            segment_ids@[k],
                        ),
                    manager_inv(old(self)@),
                    self@.uncommitted == old(self)@.uncommitted,
                    self@.writing == old(self)@.writing,
                    self@.committed.len() == old(self)@.committed.len(),
                    forall|k: int|
                        0 <= k < old(self)@.committed.len() ==> self@.committed[k].meta == old(
                            self,
                        )@.committed[k].meta,
                    forall|k: int|
                        0 <= k < old(self)@.committed.len() ==> self@.committed[k].state == (
                        if segment_ids@.take(i as int).contains(
                            old(self)@.committed[k].meta.segment_id,
                        ) {
                            SegmentState::InMerge
                        } else {
                            old(self)@.committed[k].state
                        }),
                    unique_ids(self@.committed),
                decreases segment_ids@.len() - i,
            {
                proof {
                    let u = choose|u: int|
                        0 <= u < old(self)@.committed.len() && old(
                            self,
                        )@.committed[u].meta.segment_id == segment_ids@[i as int];
                    assert(self@.committed[u].meta == old(self)@.committed[u].meta);
                    assert(has_id(self@.committed, segment_ids@[i as int]));
                }
                let ghost prev = self@.committed;
                self.committed.start_merge(&segment_ids[i]);
                proof {
                    assert forall|k: int|
                        0 <= k < old(self)@.committed.len() implies self@.committed[k].state == (
                        if segment_ids@.take(i + 1).contains(
                        old(self)@.committed[k].meta.segment_id,
                    ) {
                        SegmentState::InMerge
                    } else {
                        old(self)@.committed[k].state
                    }) by {
                        let id_k = old(self)@.committed[k].meta.segment_id;
                        assert(segment_ids@.take(i + 1) =~= segment_ids@.take(i as int).push(
                            segment_ids@[i as int],
                        ));
                        assert(prev[k].meta == old(self)@.committed[k].meta);
                    }
                }
                i = i + 1;
            }
            proof {
                assert(segment_ids@.take(segment_ids@.len() as int) =~= segment_ids@);
                assert forall|x: SegmentId| has_id(self@.committed, x) implies has_id(
                    old(self)@.committed,
                    x,
                ) by {
                    let k = choose|k: int|
                        0 <= k < self@.committed.len() && self@.committed[k].meta.segment_id == x;
                    assert(self@.committed[k].meta == old(self)@.committed[k].meta);
                }
            }
        }
    }

    /// Atomically replaces the merge's input segments with its output, in
    /// whichever single register contains every input; if the inputs straddle
    /// the registers or are partly missing, nothing changes and the merge
    /// output is dropped.
    pub fn end_merge(
        &mut self,
        merged_segment_metas: &[SegmentMeta],
        merged_segment_entry: SegmentEntry,
    )
        requires
            old(self).wf(),
            !has_id(old(self)@.committed, merged_segment_entry@.meta.segment_id),
            !has_id(old(self)@.uncommitted, merged_segment_entry@.meta.segment_id),
            !old(self)@.writing.contains(merged_segment_entry@.meta.segment_id),
        ensures
            final(self).wf(),
            final(self)@.writing == old(self)@.writing,
            all_ids_in(old(self)@.uncommitted, meta_ids(merged_segment_metas@))
                ==> final(self)@.committed == old(self)@.committed && merged_out(
                old(self)@.uncommitted,
                meta_ids(merged_segment_metas@),
                merged_segment_entry@,
                final(self)@.uncommitted,
            ),
            (!all_ids_in(old(self)@.uncommitted, meta_ids(merged_segment_metas@)) && all_ids_in(
                old(self)@.committed,
                meta_ids(merged_segment_metas@),
            )) ==> final(self)@.uncommitted == old(self)@.uncommitted && merged_out(
                old(self)@.committed,
                meta_ids(merged_segment_metas@),
                merged_segment_entry@,
                final(self)@.committed,
            ),
            (!all_ids_in(old(self)@.uncommitted, meta_ids(merged_segment_metas@)) && !all_ids_in(
                old(self)@.committed,
                meta_ids(merged_segment_metas@),
            )) ==> final(self)@ == old(self)@,
    {
        let mut merged_segment_ids: Vec<SegmentId> = Vec::new();
        let mut i: usize = 0;
        while i < merged_segment_metas.len()
            invariant
                self@ == old(self)@,
                i <= merged_segment_metas@.len(),
                merged_segment_ids@.len() == i,
                forall|k: int|
                    0 <= k < i ==> merged_segment_ids@[k]
                        == merged_segment_metas@[k].segment_id,
            decreases merged_segment_metas@.len() - i,
        {
            merged_segment_ids.push(merged_segment_metas[i].id());
            i = i + 1;
        }
        proof {
            assert(merged_segment_ids@ =~= meta_ids(merged_segment_metas@));
        }
        let ghost out = merged_segment_entry@;
        if self.uncommitted.contains_all(merged_segment_ids.as_slice()) {
            self.remove_all(merged_segment_ids.as_slice(), false);
            proof {
                assert(!has_id(self@.uncommitted, out.meta.segment_id));
            }
            let ghost mid = self@.uncommitted;
            self.uncommitted.add_segment_entry(merged_segment_entry);
            proof {
                lemma_push_entry(mid, out);
                assert forall|x: SegmentId| has_id(self@.uncommitted, x) implies !self@
                    .writing
                    .contains(x) by {}
            }
        } else if self.committed.contains_all(merged_segment_ids.as_slice()) {
            self.remove_all(merged_segment_ids.as_slice(), true);
            proof {
                assert(!has_id(self@.committed, out.meta.segment_id));
            }
            let ghost mid = self@.committed;
            self.committed.add_segment_entry(merged_segment_entry);
            proof {
                lemma_push_entry(mid, out);
            }
        }
    }

    /// Removes every entry whose identifier is listed, from the committed
    /// register when `from_committed` holds, else from the uncommitted one.
    fn remove_all(&mut self, segment_ids: &[SegmentId], from_committed: bool)
        requires
            old(self).wf(),
        ensures
            final(self).wf(),
            final(self)@.writing == old(self)@.writing,
            from_committed ==> final(self)@.uncommitted == old(self)@.uncommitted,
            !from_committed ==> final(self)@.committed == old(self)@.committed,
            removed_ids(
                if from_committed {
                    old(self)@.committed
                } else {
                    old(self)@.uncommitted
                },
                segment_ids@,
                if from_committed {
                    final(self)@.committed
                } else {
                    final(self)@.uncommitted
                },
            ),
    {
        let mut i: usize = 0;
        while i < segment_ids.len()
            invariant
                i <= segment_ids@.len(),
                self.wf(),
                self@.writing == old(self)@.writing,
                from_committed ==> self@.uncommitted == old(self)@.uncommitted,
                !from_committed ==> self@.committed == old(self)@.committed,
                removed_ids(
                    if from_committed {
                        old(self)@.committed
                    } else {
                        old(self)@.uncommitted
                    },
                    segment_ids@.take(i as int),
                    if from_committed {
                        self@.committed
                    } else {
                        self@.uncommitted
                    },
                ),
            decreases segment_ids@.len() - i,
        {
            let ghost before = if from_committed {
                self@.committed
            } else {
                self@.uncommitted
            };
            let ghost orig = if from_committed {
                old(self)@.committed
            } else {
                old(self)@.uncommitted
            };
            if from_committed {
                self.committed.remove_segment(&segment_ids[i]);
            } else {
                self.uncommitted.remove_segment(&segment_ids[i]);
            }
            proof {
                let after = if from_committed {
                    self@.committed
                } else {
                    self@.uncommitted
                };
                let id = segment_ids@[i as int];
                if has_id(before, id) {
                    lemma_reg_index(before, reg_index_of(before, id));
                    lemma_remove_id(before, reg_index_of(before, id));
                }
                assert(segment_ids@.take(i + 1) =~= segment_ids@.take(i as int).push(id));
                assert forall|x: SegmentId|
                    !segment_ids@.take(i + 1).contains(x) implies (has_id(after, x) <==> has_id(
                    orig,
                    x,
                )) && (has_id(orig, x) ==> entry_for(after, x) == entry_for(orig, x)) by {
                    assert(!segment_ids@.take(i as int).contains(x));
                }
                assert forall|x: SegmentId| segment_ids@.take(i + 1).contains(x) implies !has_id(
                    after,
                    x,
                ) by {
                    if x != id {
                        assert(segment_ids@.take(i as int).contains(x));
                    }
                }
            }
            i = i + 1;
        }
        proof {
            assert(segment_ids@.take(segment_ids@.len() as int) =~= segment_ids@);
        }
    }

    /// The committed metadata records, in register order.
    pub fn committed_segment_metas(&self) -> (r: Vec<SegmentMeta>)
        ensures
            r@.len() == self@.committed.len(),
            forall|i: int| 0 <= i < self@.committed.len() ==> r@[i]@ == self@.committed[i].meta,
    {
        self.committed.segment_metas()
    }
}

/// True iff `v` already lists `f`.
fn vec_contains_file(v: &Vec<IndexFile>, f: &IndexFile) -> (r: bool)
    ensures
        r == v@.contains(*f),
{
    let mut i: usize = 0;
    while i < v.len()
        invariant
            i <= v@.len(),
            forall|j: int| 0 <= j < i ==> v@[j] != *f,
        decreases v@.len() - i,
    {
        if v[i] == *f {
            return true;
        }
        i = i + 1;
    }
    false
}

/// One more suffix extends a segment's file set by exactly one file.
proof fn lemma_files_of_take(segment_id: SegmentId, suffixes: Seq<u64>, k: int)
    requires
        0 <= k < suffixes.len(),
    ensures
        forall|g: IndexFile|
            files_of(segment_id, suffixes.take(k + 1)).contains(g) <==> (files_of(
                segment_id,
                suffixes.take(k),
            ).contains(g) || g == (IndexFile::SegmentFile { segment_id, suffix: suffixes[k] })),
{
    let t1 = suffixes.take(k + 1);
    let t0 = suffixes.take(k);
    assert forall|g: IndexFile| files_of(segment_id, t1).contains(g) implies (files_of(
        segment_id,
        t0,
    ).contains(g) || g == (IndexFile::SegmentFile { segment_id, suffix: suffixes[k] })) by {
        let j = choose|j: int|
            0 <= j < t1.len() && g == (IndexFile::SegmentFile { segment_id, suffix: t1[j] });
        if j < k {
            assert(t0[j] == t1[j]);
            assert(files_of(segment_id, t0).contains(g));
        }
    }
    assert forall|g: IndexFile| files_of(segment_id, t0).contains(g) implies files_of(
        segment_id,
        t1,
    ).contains(g) by {
        let j = choose|j: int|
            0 <= j < t0.len() && g == (IndexFile::SegmentFile { segment_id, suffix: t0[j] });
        assert(t1[j] == t0[j]);
    }
    assert(t1[k] == suffixes[k]);
    assert(files_of(segment_id, t1).contains(
        IndexFile::SegmentFile { segment_id, suffix: suffixes[k] },
    ));
}

/// One more entry extends a register's file set by exactly that entry's files.
proof fn lemma_register_files_take(s: Seq<SegmentEntryView>, i: int)
    requires
        0 <= i < s.len(),
    ensures
        forall|g: IndexFile|
            register_files(s.take(i + 1)).contains(g) <==> (register_files(s.take(i)).contains(g)
                || files_of(s[i].meta.segment_id, s[i].meta.file_suffixes).contains(g)),
{
    let t1 = s.take(i + 1);
    let t0 = s.take(i);
    assert forall|g: IndexFile| register_files(t1).contains(g) implies (register_files(
        t0,
    ).contains(g) || files_of(s[i].meta.segment_id, s[i].meta.file_suffixes).contains(g)) by {
        let j = choose|j: int|
            0 <= j < t1.len() && files_of(t1[j].meta.segment_id, t1[j].meta.file_suffixes)
                .contains(g);
        if j < i {
            assert(t0[j] == t1[j]);
            assert(register_files(t0).contains(g));
        } else {
            assert(t1[j] == s[i]);
        }
    }
    assert forall|g: IndexFile| register_files(t0).contains(g) implies register_files(
        t1,
    ).contains(g) by {
        let j = choose|j: int|
            0 <= j < t0.len() && files_of(t0[j].meta.segment_id, t0[j].meta.file_suffixes)
                .contains(g);
        assert(t1[j] == t0[j]);
    }
    assert forall|g: IndexFile|
        files_of(s[i].meta.segment_id, s[i].meta.file_suffixes).contains(g) implies register_files(
        t1,
    ).contains(g) by {
        assert(t1[i] == s[i]);
    }
}

/// One more writing identifier extends the writing file set by exactly that
/// segment's full footprint.
proof fn lemma_writing_files_take(w: Seq<SegmentId>, i: int)
    requires
        0 <= i < w.len(),
    ensures
        forall|g: IndexFile|
            writing_files(w.take(i + 1)).contains(g) <==> (writing_files(w.take(i)).contains(g)
                || files_of(w[i], default_file_suffixes()).contains(g)),
{
    let t1 = w.take(i + 1);
    let t0 = w.take(i);
    assert forall|g: IndexFile| writing_files(t1).contains(g) implies (writing_files(t0).contains(
        g,
    ) || files_of(w[i], default_file_suffixes()).contains(g)) by {
        let j = choose|j: int|
            0 <= j < t1.len() && files_of(t1[j], default_file_suffixes()).contains(g);
        if j < i {
            assert(t0[j] == t1[j]);
            assert(writing_files(t0).contains(g));
        } else {
            assert(t1[j] == w[i]);
        }
    }
    assert forall|g: IndexFile| writing_files(t0).contains(g) implies writing_files(t1).contains(
        g,
    ) by {
        let j = choose|j: int|
            0 <= j < t0.len() && files_of(t0[j], default_file_suffixes()).contains(g);
        assert(t1[j] == t0[j]);
    }
    assert forall|g: IndexFile|
        files_of(w[i], default_file_suffixes()).contains(g) implies writing_files(t1).contains(
        g,
    ) by {
        assert(t1[i] == w[i]);
    }
}

/// Appends the files of one segment to `r`, skipping files already listed.
fn push_segment_files(r: &mut Vec<IndexFile>, meta: &SegmentMeta)
    requires
        old(r)@.no_duplicates(),
    ensures
        final(r)@.no_duplicates(),
        forall|f: IndexFile|
            final(r)@.contains(f) <==> (old(r)@.contains(f) || files_of(
                meta@.segment_id,
                meta@.file_suffixes,
            ).contains(f)),
{
    let segment_id = meta.id();
    let mut k: usize = 0;
    while k < meta.file_suffixes.len()
        invariant
            k <= meta@.file_suffixes.len(),
            segment_id == meta@.segment_id,
            r@.no_duplicates(),
            forall|f: IndexFile|
                r@.contains(f) <==> (old(r)@.contains(f) || files_of(
                    meta@.segment_id,
                    meta@.file_suffixes.take(k as int),
                ).contains(f)),
        decreases meta@.file_suffixes.len() - k,
    {
        let f = IndexFile::SegmentFile { segment_id, suffix: meta.file_suffixes[k] };
        let ghost prev = r@;
        if !vec_contains_file(r, &f) {
            r.push(f);
            proof {
                assert forall|a: int, b: int| 0 <= a < b < r@.len() implies r@[a] != r@[b] by {
                    if b < r@.len() - 1 {
                        assert(r@[a] == prev[a]);
                        assert(r@[b] == prev[b]);
                    } else {
                        assert(r@[a] == prev[a]);
                        assert(prev.contains(prev[a]));
                    }
                }
            }
        }
        proof {
            lemma_files_of_take(meta@.segment_id, meta@.file_suffixes, k as int);
            let t = meta@.file_suffixes.take(k as int + 1);
            assert(t[k as int] == meta@.file_suffixes[k as int]);
            assert(f == (IndexFile::SegmentFile {
                segment_id: meta@.segment_id,
                suffix: t[k as int],
            }));
            assert(files_of(meta@.segment_id, t).contains(f));
        }
        k = k + 1;
    }
    proof {
        assert(meta@.file_suffixes.take(meta@.file_suffixes.len() as int)
            =~= meta@.file_suffixes);
    }
}

/// `after` is `before` with exactly the listed identifiers removed.
pub open spec fn removed_ids(
    before: Seq<SegmentEntryView>,
    ids: Seq<SegmentId>,
    after: Seq<SegmentEntryView>,
) -> bool {
    &&& unique_ids(after)
    &&& forall|x: SegmentId| ids.contains(x) ==> !has_id(after, x)
    &&& forall|x: SegmentId| !ids.contains(x) ==> (has_id(after, x) <==> has_id(before, x))
    &&& forall|x: SegmentId|
        !ids.contains(x) && has_id(before, x) ==> entry_for(after, x) == entry_for(before, x)
}

/// Pushing an entry with a fresh identifier keeps every present entry and
/// adds exactly the new one.
proof fn lemma_push_entry(s: Seq<SegmentEntryView>, e: SegmentEntryView)
    requires
        unique_ids(s),
        !has_id(s, e.meta.segment_id),
    ensures
        unique_ids(s.push(e)),
        has_id(s.push(e), e.meta.segment_id),
        entry_for(s.push(e), e.meta.segment_id) == e,
        forall|x: SegmentId|
            x != e.meta.segment_id ==> (has_id(s.push(e), x) <==> has_id(s, x)),
        forall|x: SegmentId|
            x != e.meta.segment_id && has_id(s, x) ==> entry_for(s.push(e), x) == entry_for(s, x),
{
    let t = s.push(e);
    assert(t[s.len() as int] == e);
    assert forall|a: int, b: int| 0 <= a < b < t.len() implies t[a].meta.segment_id
        != t[b].meta.segment_id by {
        if b < t.len() - 1 {
            assert(t[a] == s[a]);
            assert(t[b] == s[b]);
        } else {
            assert(t[a] == s[a]);
            assert(has_id(s, s[a].meta.segment_id));
        }
    }
    lemma_reg_index(t, s.len() as int);
    assert forall|x: SegmentId| x != e.meta.segment_id implies (has_id(t, x) <==> has_id(
        s,
        x,
    )) by {
        if has_id(t, x) {
            let k = choose|k: int| 0 <= k < t.len() && t[k].meta.segment_id == x;
            assert(k < s.len());
            assert(t[k] == s[k]);
        }
        if has_id(s, x) {
            let k = choose|k: int| 0 <= k < s.len() && s[k].meta.segment_id == x;
            assert(t[k] == s[k]);
        }
    }
    assert forall|x: SegmentId| x != e.meta.segment_id && has_id(s, x) implies entry_for(t, x)
        == entry_for(s, x) by {
        let k = reg_index_of(s, x);
        assert(0 <= k < s.len() && s[k].meta.segment_id == x);
        assert(t[k] == s[k]);
        lemma_reg_index(t, k);
    }
}

} // verus!
