use vstd::prelude::*;

use crate::segment::{SegmentEntry, SegmentEntryView, SegmentId, SegmentMeta, SegmentState};

verus! {

/// Whether some entry of `s` tracks the segment `id`.
pub open spec fn has_id(s: Seq<SegmentEntryView>, id: SegmentId) -> bool {
    exists|i: int| 0 <= i < s.len() && s[i].meta.segment_id == id
}

/// The index of the entry tracking `id`; meaningful only when `has_id` holds
/// and the identifiers of `s` are unique.
pub open spec fn reg_index_of(s: Seq<SegmentEntryView>, id: SegmentId) -> int {
    choose|i: int| 0 <= i < s.len() && s[i].meta.segment_id == id
}

/// The entry of `s` tracking `id`.
pub open spec fn entry_for(s: Seq<SegmentEntryView>, id: SegmentId) -> SegmentEntryView {
    s[reg_index_of(s, id)]
}

/// Whether every one of `ids` is tracked by some entry of `s`.
pub open spec fn all_ids_in(s: Seq<SegmentEntryView>, ids: Seq<SegmentId>) -> bool {
    forall|i: int| 0 <= i < ids.len() ==> has_id(s, ids[i])
}

/// No two entries of `s` track the same segment.
pub open spec fn unique_ids(s: Seq<SegmentEntryView>) -> bool {
    forall|i: int, j: int|
        0 <= i < j < s.len() ==> s[i].meta.segment_id != s[j].meta.segment_id
}

/// With unique identifiers, the entry found at an index is the entry looked
/// up by its identifier.
pub proof fn lemma_reg_index(s: Seq<SegmentEntryView>, i: int)
    requires
        unique_ids(s),
        0 <= i < s.len(),
    ensures
        has_id(s, s[i].meta.segment_id),
        reg_index_of(s, s[i].meta.segment_id) == i,
        entry_for(s, s[i].meta.segment_id) == s[i],
{
    let id = s[i].meta.segment_id;
    assert(has_id(s, id));
    let j = reg_index_of(s, id);
    assert(0 <= j < s.len() && s[j].meta.segment_id == id);
    if i < j {
        assert(s[i].meta.segment_id != s[j].meta.segment_id);
    } else if j < i {
        assert(s[j].meta.segment_id != s[i].meta.segment_id);
    }
}

/// Removing the entry at index `i` removes exactly its identifier: all other
/// identifiers keep their entries.
pub proof fn lemma_remove_id(s: Seq<SegmentEntryView>, i: int)
    requires
        unique_ids(s),
        0 <= i < s.len(),
    ensures
        unique_ids(s.remove(i)),
        !has_id(s.remove(i), s[i].meta.segment_id),
        forall|id: SegmentId|
            id != s[i].meta.segment_id ==> (has_id(s.remove(i), id) <==> has_id(s, id)),
        forall|id: SegmentId|
            id != s[i].meta.segment_id && has_id(s, id) ==> entry_for(s.remove(i), id)
                == entry_for(s, id),
{
    let r = s.remove(i);
    s.remove_ensures(i);
    assert forall|k1: int, k2: int| 0 <= k1 < k2 < r.len() implies r[k1].meta.segment_id
        != r[k2].meta.segment_id by {
        let m1: int = if k1 < i { k1 } else { k1 + 1 };
        let m2: int = if k2 < i { k2 } else { k2 + 1 };
        assert(r[k1] == s[m1]);
        assert(r[k2] == s[m2]);
    }
    assert forall|k: int| 0 <= k < r.len() implies r[k].meta.segment_id
        != s[i].meta.segment_id by {
        let m: int = if k < i { k } else { k + 1 };
        assert(r[k] == s[m]);
    }
    assert forall|id: SegmentId| id != s[i].meta.segment_id implies (has_id(r, id) <==> has_id(
        s,
        id,
    )) by {
        if has_id(s, id) {
            let j = choose|j: int| 0 <= j < s.len() && s[j].meta.segment_id == id;
            let k: int = if j < i { j } else { j - 1 };
            assert(r[k] == s[j]);
            assert(has_id(r, id));
        }
        if has_id(r, id) {
            let k = choose|k: int| 0 <= k < r.len() && r[k].meta.segment_id == id;
            let m: int = if k < i { k } else { k + 1 };
            assert(r[k] == s[m]);
            assert(has_id(s, id));
        }
    }
    assert forall|id: SegmentId| id != s[i].meta.segment_id && has_id(s, id) implies entry_for(
        r,
        id,
    ) == entry_for(s, id) by {
        let j = reg_index_of(s, id);
        assert(0 <= j < s.len() && s[j].meta.segment_id == id);
        let k = reg_index_of(r, id);
        assert(0 <= k < r.len() && r[k].meta.segment_id == id);
        let m: int = if k < i { k } else { k + 1 };
        assert(r[k] == s[m]);
        lemma_reg_index(s, m);
    }
}

/// An ordered collection of segment entries, keyed by segment identifier.
/// Its view is the sequence of entries in insertion order; well-formedness
/// says that no identifier appears twice.
pub struct SegmentRegister {
    entries: Vec<SegmentEntry>,
}

impl View for SegmentRegister {
    type V = Seq<SegmentEntryView>;

    closed spec fn view(&self) -> Seq<SegmentEntryView> {
        self.entries@.map_values(|e: SegmentEntry| e@)
    }
}

impl Default for SegmentRegister {
    fn default() -> (r: SegmentRegister)
        ensures
            r.wf(),
            r@ == Seq::<SegmentEntryView>::empty(),
    {
        let r = SegmentRegister { entries: Vec::new() };
        proof {
            assert(r@ =~= Seq::<SegmentEntryView>::empty());
        }
        r
    }
}

impl SegmentRegister {
    /// The register keeps at most one entry per segment identifier.
    pub open spec fn wf(&self) -> bool {
        unique_ids(self@)
    }

    /// Bulk construction: one `Ready` entry per given metadata, in order.
    pub fn new(segment_metas: Vec<SegmentMeta>) -> (r: SegmentRegister)
        requires
            forall|i: int, j: int|
                0 <= i < j < segment_metas@.len() ==> segment_metas@[i].segment_id
                    != segment_metas@[j].segment_id,
        ensures
            r.wf(),
            r@.len() == segment_metas@.len(),
            forall|i: int|
                0 <= i < segment_metas@.len() ==> r@[i].meta == segment_metas@[i]@
                    && r@[i].state == SegmentState::Ready,
    {
        let mut entries: Vec<SegmentEntry> = Vec::new();
        let mut i: usize = 0;
        while i < segment_metas.len()
            invariant
                i <= segment_metas@.len(),
                entries@.len() == i,
                forall|k: int| 0 <= k < i ==> (#[trigger] entries@[k])@.meta == segment_metas@[k]@,
                forall|k: int|
                    0 <= k < i ==> (#[trigger] entries@[k])@.state == SegmentState::Ready,
            decreases segment_metas@.len() - i,
        {
            let meta = segment_metas[i].clone();
            entries.push(SegmentEntry::new(meta));
            proof {
                assert(entries@[i as int]@.meta == segment_metas@[i as int]@);
                assert(entries@[i as int]@.state == SegmentState::Ready);
            }
            i = i + 1;
        }
        let r = SegmentRegister { entries };
        proof {
            assert forall|a: int, b: int| 0 <= a < b < r@.len() implies r@[a].meta.segment_id
                != r@[b].meta.segment_id by {
                assert(r@[a].meta == segment_metas@[a]@);
                assert(r@[b].meta == segment_metas@[b]@);
                assert(segment_metas@[a].segment_id != segment_metas@[b].segment_id);
            }
        }
        r
    }

    /// Index of the entry tracking `segment_id`, if any.
    fn position_of(&self, segment_id: &SegmentId) -> (r: Option<usize>)
        ensures
            match r {
                Some(i) => i < self@.len() && self@[i as int].meta.segment_id == *segment_id,
                None => !has_id(self@, *segment_id),
            },
    {
        let mut i: usize = 0;
        while i < self.entries.len()
            invariant
                i <= self@.len(),
                self@.len() == self.entries@.len(),
                forall|j: int| 0 <= j < i ==> self@[j].meta.segment_id != *segment_id,
            decreases self@.len() - i,
        {
            if self.entries[i].meta.segment_id == *segment_id {
                return Some(i);
            }
            i = i + 1;
        }
        None
    }

    /// True iff the register tracks `segment_id`.
    pub fn contains(&self, segment_id: &SegmentId) -> (r: bool)
        ensures
            r == has_id(self@, *segment_id),
    {
        self.position_of(segment_id).is_some()
    }

    /// True iff every one of the given identifiers is present.
    pub fn contains_all(&self, segment_ids: &[SegmentId]) -> (r: bool)
        ensures
            r == all_ids_in(self@, segment_ids@),
    {
        let mut i: usize = 0;
        while i < segment_ids.len()
            invariant
                i <= segment_ids@.len(),
                forall|j: int| 0 <= j < i ==> has_id(self@, segment_ids@[j]),
            decreases segment_ids@.len() - i,
        {
            if !self.contains(&segment_ids[i]) {
                return false;
            }
            i = i + 1;
        }
        true
    }

    /// Inserts the entry, replacing in place any entry with the same
    /// identifier; a new identifier goes to the end.
    pub fn add_segment_entry(&mut self, entry: SegmentEntry)
        requires
            old(self).wf(),
        ensures
            final(self).wf(),
            final(self)@ == (if has_id(old(self)@, entry@.meta.segment_id) {
                old(self)@.update(reg_index_of(old(self)@, entry@.meta.segment_id), entry@)
            } else {
                old(self)@.push(entry@)
            }),
    {
        let id = entry.segment_id();
        match self.position_of(&id) {
            Some(i) => {
                proof {
                    lemma_reg_index(old(self)@, i as int);
                }
                self.entries.set(i, entry);
                proof {
                    let s = old(self)@.update(i as int, entry@);
                    assert(self@ =~= s);
                    assert forall|k1: int, k2: int| 0 <= k1 < k2 < s.len() implies s[k1]
                        .meta
                        .segment_id != s[k2].meta.segment_id by {
                        assert(s[k1].meta.segment_id == old(self)@[k1].meta.segment_id);
                        assert(s[k2].meta.segment_id == old(self)@[k2].meta.segment_id);
                    }
                }
            },
            None => {
                self.entries.push(entry);
                proof {
                    let s = old(self)@.push(entry@);
                    assert(self@ =~= s);
                    assert forall|k1: int, k2: int| 0 <= k1 < k2 < s.len() implies s[k1]
                        .meta
                        .segment_id != s[k2].meta.segment_id by {
                        if k2 < s.len() - 1 {
                            assert(s[k1] == old(self)@[k1]);
                            assert(s[k2] == old(self)@[k2]);
                        } else {
                            assert(s[k1] == old(self)@[k1]);
                            assert(!has_id(old(self)@, entry@.meta.segment_id));
                        }
                    }
                }
            },
        }
    }

    /// Deletes the entry tracking `segment_id`; a no-op if it is absent.
    pub fn remove_segment(&mut self, segment_id: &SegmentId)
        requires
            old(self).wf(),
        ensures
            final(self).wf(),
            final(self)@ == (if has_id(old(self)@, *segment_id) {
                old(self)@.remove(reg_index_of(old(self)@, *segment_id))
            } else {
                old(self)@
            }),
    {
        match self.position_of(segment_id) {
            Some(i) => {
                proof {
                    lemma_reg_index(old(self)@, i as int);
                    lemma_remove_id(old(self)@, i as int);
                }
                self.entries.remove(i);
                proof {
                    assert(self@ =~= old(self)@.remove(i as int));
                }
            },
            None => {},
        }
    }

    /// Marks the entry tracking `segment_id` as being merged. The caller has
    /// already checked presence.
    pub fn start_merge(&mut self, segment_id: &SegmentId)
        requires
            old(self).wf(),
            has_id(old(self)@, *segment_id),
        ensures
            final(self).wf(),
            final(self)@.len() == old(self)@.len(),
            forall|k: int| 0 <= k < old(self)@.len() ==> final(self)@[k].meta == old(self)@[k].meta,
            forall|k: int|
                0 <= k < old(self)@.len() ==> final(self)@[k].state == (
                if old(self)@[k].meta.segment_id == *segment_id {
                    SegmentState::InMerge
                } else {
                    old(self)@[k].state
                }),
    {
        if let Some(i) = self.position_of(segment_id) {
            let meta = self.entries[i].meta.clone();
            self.entries.set(i, SegmentEntry { meta, state: SegmentState::InMerge });
            proof {
                assert forall|k: int|
                    0 <= k < old(self)@.len() && k != i as int implies old(self)@[k]
                    .meta
                    .segment_id != *segment_id by {
                    if k < i as int {
                        assert(old(self)@[k].meta.segment_id != old(self)@[i as int].meta.segment_id);
                    } else {
                        assert(old(self)@[i as int].meta.segment_id != old(self)@[k].meta.segment_id);
                    }
                }
                assert forall|k1: int, k2: int| 0 <= k1 < k2 < self@.len() implies self@[k1]
                    .meta
                    .segment_id != self@[k2].meta.segment_id by {
                    assert(self@[k1].meta.segment_id == old(self)@[k1].meta.segment_id);
                    assert(self@[k2].meta.segment_id == old(self)@[k2].meta.segment_id);
                }
            }
        }
    }

    /// The entry tracking `segment_id`, cloned, if present.
    pub fn segment_entry(&self, segment_id: &SegmentId) -> (r: Option<SegmentEntry>)
        requires
            self.wf(),
        ensures
            match r {
                Some(e) => has_id(self@, *segment_id) && e@ == entry_for(self@, *segment_id),
                None => !has_id(self@, *segment_id),
            },
    {
        match self.position_of(segment_id) {
            Some(i) => {
                proof {
                    lemma_reg_index(self@, i as int);
                }
                Some(self.entries[i].clone())
            },
            None => None,
        }
    }

    /// All entries, cloned, in insertion order.
    pub fn segment_entries(&self) -> (r: Vec<SegmentEntry>)
        ensures
            r@.len() == self@.len(),
            forall|i: int| 0 <= i < self@.len() ==> r@[i]@ == self@[i],
    {
        let mut r: Vec<SegmentEntry> = Vec::new();
        let mut i: usize = 0;
        while i < self.entries.len()
            invariant
                i <= self@.len(),
                self@.len() == self.entries@.len(),
                r@.len() == i,
                forall|j: int| 0 <= j < i ==> r@[j]@ == self@[j],
            decreases self@.len() - i,
        {
            r.push(self.entries[i].clone());
            i = i + 1;
        }
        r
    }

    /// All tracked identifiers, in insertion order.
    pub fn segment_ids(&self) -> (r: Vec<SegmentId>)
        ensures
            r@.len() == self@.len(),
            forall|i: int| 0 <= i < self@.len() ==> r@[i] == self@[i].meta.segment_id,
    {
        let mut r: Vec<SegmentId> = Vec::new();
        let mut i: usize = 0;
        while i < self.entries.len()
            invariant
                i <= self@.len(),
                self@.len() == self.entries@.len(),
                r@.len() == i,
                forall|j: int| 0 <= j < i ==> r@[j] == self@[j].meta.segment_id,
            decreases self@.len() - i,
        {
            r.push(self.entries[i].segment_id());
            i = i + 1;
        }
        r
    }

    /// All metadata records, cloned, in insertion order.
    pub fn segment_metas(&self) -> (r: Vec<SegmentMeta>)
        ensures
            r@.len() == self@.len(),
            forall|i: int| 0 <= i < self@.len() ==> r@[i]@ == self@[i].meta,
    {
        let mut r: Vec<SegmentMeta> = Vec::new();
        let mut i: usize = 0;
        while i < self.entries.len()
            invariant
                i <= self@.len(),
                self@.len() == self.entries@.len(),
                r@.len() == i,
                forall|j: int| 0 <= j < i ==> r@[j]@ == self@[j].meta,
            decreases self@.len() - i,
        {
            r.push(self.entries[i].meta.clone());
            i = i + 1;
        }
        r
    }

    /// Same listing as `segment_metas`, under the name historical callers use.
    pub fn get_segments(&self) -> (r: Vec<SegmentMeta>)
        ensures
            r@.len() == self@.len(),
            forall|i: int| 0 <= i < self@.len() ==> r@[i]@ == self@[i].meta,
    {
        self.segment_metas()
    }

    /// Empties the register.
    pub fn clear(&mut self)
        ensures
            final(self).wf(),
            final(self)@ == Seq::<SegmentEntryView>::empty(),
    {
        self.entries.clear();
        proof {
            assert(self@ =~= Seq::<SegmentEntryView>::empty());
        }
    }
}

} // verus!
