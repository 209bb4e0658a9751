use vstd::prelude::*;

verus! {

/// Identifier of one segment. Identifiers are opaque unique values handed in
/// by the storage layer; they are never reused.
#[derive(Clone, Copy, PartialEq, Eq, Structural, Hash, Debug)]
pub struct SegmentId(pub u64);

/// Lifecycle state of a live segment.
#[derive(Clone, Copy, PartialEq, Eq, Structural, Debug)]
pub enum SegmentState {
    /// Available for search and for merge selection.
    Ready,
    /// Selected as input of an in-progress merge; still searchable, but
    /// excluded from further merge selection.
    InMerge,
}

/// Number of component file suffixes a segment under construction may produce.
pub const NUM_SEGMENT_COMPONENTS: u64 = 6;

/// The file suffixes of a segment whose metadata is not finalized yet: the
/// full component footprint, so that none of its files are collected early.
pub open spec fn default_file_suffixes() -> Seq<u64> {
    Seq::new(NUM_SEGMENT_COMPONENTS as nat, |i: int| i as u64)
}

/// Immutable metadata of one segment: its identifier, its document count, and
/// the file suffixes that make up its on-disk footprint.
#[derive(Debug)]
pub struct SegmentMeta {
    pub segment_id: SegmentId,
    pub num_docs: u32,
    pub file_suffixes: Vec<u64>,
}

/// Spec-level value of a `SegmentMeta`.
#[verifier::ext_equal]
pub ghost struct SegmentMetaView {
    pub segment_id: SegmentId,
    pub num_docs: u32,
    pub file_suffixes: Seq<u64>,
}

impl View for SegmentMeta {
    type V = SegmentMetaView;

    open spec fn view(&self) -> SegmentMetaView {
        SegmentMetaView {
            segment_id: self.segment_id,
            num_docs: self.num_docs,
            file_suffixes: self.file_suffixes@,
        }
    }
}

/// Copies a vector of suffix codes element by element.
fn copy_suffixes(v: &Vec<u64>) -> (r: Vec<u64>)
    ensures
        r@ == v@,
{
    let mut r: Vec<u64> = Vec::new();
    let mut i: usize = 0;
    while i < v.len()
        invariant
            i <= v@.len(),
            r@ == v@.take(i as int),
        decreases v@.len() - i,
    {
        r.push(v[i]);
        proof {
            assert(r@ =~= v@.take(i + 1));
        }
        i = i + 1;
    }
    proof {
        assert(r@ =~= v@);
    }
    r
}

impl SegmentMeta {
    /// Metadata standing for a segment that is still being written: no
    /// documents yet, and the full component footprint.
    pub fn new(segment_id: SegmentId) -> (r: SegmentMeta)
        ensures
            r@.segment_id == segment_id,
            r@.num_docs == 0,
            r@.file_suffixes == default_file_suffixes(),
    {
        let mut file_suffixes: Vec<u64> = Vec::new();
        let mut k: u64 = 0;
        while k < NUM_SEGMENT_COMPONENTS
            invariant
                k <= NUM_SEGMENT_COMPONENTS,
                file_suffixes@.len() == k,
                forall|i: int| 0 <= i < k ==> file_suffixes@[i] == i as u64,
            decreases NUM_SEGMENT_COMPONENTS - k,
        {
            file_suffixes.push(k);
            k = k + 1;
        }
        proof {
            assert(file_suffixes@ =~= default_file_suffixes());
        }
        SegmentMeta { segment_id, num_docs: 0, file_suffixes }
    }

    /// The segment this metadata belongs to.
    pub fn id(&self) -> (r: SegmentId)
        ensures
            r == self@.segment_id,
    {
        self.segment_id
    }
}

impl Clone for SegmentMeta {
    fn clone(&self) -> (r: SegmentMeta)
        ensures
            r@ == self@,
    {
        SegmentMeta {
            segment_id: self.segment_id,
            num_docs: self.num_docs,
            file_suffixes: copy_suffixes(&self.file_suffixes),
        }
    }
}

/// One live segment of a register: its metadata and its current state.
#[derive(Debug)]
pub struct SegmentEntry {
    pub meta: SegmentMeta,
    pub state: SegmentState,
}

/// Spec-level value of a `SegmentEntry`.
#[verifier::ext_equal]
pub ghost struct SegmentEntryView {
    pub meta: SegmentMetaView,
    pub state: SegmentState,
}

impl View for SegmentEntry {
    type V = SegmentEntryView;

    open spec fn view(&self) -> SegmentEntryView {
        SegmentEntryView { meta: self.meta@, state: self.state }
    }
}

impl SegmentEntry {
    /// A fresh entry for a finalized segment; its state starts as `Ready`.
    pub fn new(meta: SegmentMeta) -> (r: SegmentEntry)
        ensures
            r@.meta == meta@,
            r@.state == SegmentState::Ready,
    {
        SegmentEntry { meta, state: SegmentState::Ready }
    }

    /// The identifier of the segment this entry tracks.
    pub fn segment_id(&self) -> (r: SegmentId)
        ensures
            r == self@.meta.segment_id,
    {
        self.meta.segment_id
    }

    /// The entry's current lifecycle state.
    pub fn state(&self) -> (r: SegmentState)
        ensures
            r == self@.state,
    {
        self.state
    }

    /// Overwrites the entry's lifecycle state.
    pub fn set_state(&mut self, state: SegmentState)
        ensures
            final(self)@.meta == old(self)@.meta,
            final(self)@.state == state,
    {
        self.state = state;
    }
}

impl Clone for SegmentEntry {
    fn clone(&self) -> (r: SegmentEntry)
        ensures
            r@ == self@,
    {
        SegmentEntry { meta: self.meta.clone(), state: self.state }
    }
}

/// One file of the index directory, as garbage collection sees it.
#[derive(Clone, Copy, PartialEq, Eq, Structural, Debug)]
pub enum IndexFile {
    /// The index's root metadata descriptor; always present.
    MetaFile,
    /// One component file of a segment: the segment's identifier plus the
    /// component's file suffix.
    SegmentFile { segment_id: SegmentId, suffix: u64 },
}

} // verus!
