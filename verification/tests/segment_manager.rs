use indexer::segment::{IndexFile, SegmentEntry, SegmentId, SegmentMeta, SegmentState};
use indexer::segment_manager::{get_segments, SegmentManager};

fn meta(id: u64) -> SegmentMeta {
    SegmentMeta { segment_id: SegmentId(id), num_docs: 10, file_suffixes: vec![0, 1, 2] }
}

fn entry(id: u64) -> SegmentEntry {
    SegmentEntry::new(meta(id))
}

#[test]
fn write_then_add_then_commit_then_merge() {
    let mut manager = SegmentManager::default();
    let a = SegmentId(1);

    manager.write_segment(a);
    assert!(manager.is_writing(&a));
    assert!(manager.segment_entry(&a).is_none());

    manager.add_segment(entry(1));
    assert!(!manager.is_writing(&a));
    let (committed, uncommitted) = get_segments(&manager);
    assert_eq!(committed.len(), 0);
    assert_eq!(uncommitted.len(), 1);
    assert_eq!(uncommitted[0].segment_id, a);
    assert!(matches!(manager.segment_state(&a), Some(SegmentState::Ready)));

    manager.commit(vec![meta(1)]);
    let (committed, uncommitted) = get_segments(&manager);
    assert_eq!(committed.len(), 1);
    assert_eq!(committed[0].segment_id, a);
    assert_eq!(uncommitted.len(), 0);
    assert!(matches!(manager.segment_state(&a), Some(SegmentState::Ready)));

    manager.start_merge(&[a]);
    assert!(matches!(manager.segment_state(&a), Some(SegmentState::InMerge)));

    manager.end_merge(&[meta(1)], entry(2));
    let b = SegmentId(2);
    let (committed, _) = get_segments(&manager);
    assert_eq!(committed.len(), 1);
    assert_eq!(committed[0].segment_id, b);
    assert!(manager.segment_entry(&a).is_none());
    assert!(matches!(manager.segment_state(&b), Some(SegmentState::Ready)));
}

#[test]
fn rollback_returns_uncommitted_and_keeps_committed() {
    let mut manager = SegmentManager::from_segments(vec![meta(7)]);
    manager.add_segment(entry(1));
    manager.add_segment(entry(2));

    let discarded = manager.rollback();
    assert_eq!(discarded.len(), 2);
    assert!(discarded.contains(&SegmentId(1)));
    assert!(discarded.contains(&SegmentId(2)));

    let (committed, uncommitted) = get_segments(&manager);
    assert_eq!(uncommitted.len(), 0);
    assert_eq!(committed.len(), 1);
    assert_eq!(committed[0].segment_id, SegmentId(7));
}

#[test]
fn commit_preserves_merge_state() {
    let mut manager = SegmentManager::default();
    manager.add_segment(entry(1));
    manager.start_merge(&[SegmentId(1)]);
    assert!(matches!(manager.segment_state(&SegmentId(1)), Some(SegmentState::InMerge)));

    manager.commit(vec![meta(1), meta(2)]);
    // the segment moved to the committed register without losing InMerge
    assert!(matches!(manager.segment_state(&SegmentId(1)), Some(SegmentState::InMerge)));
    assert!(matches!(manager.segment_state(&SegmentId(2)), Some(SegmentState::Ready)));
    let (committed, uncommitted) = get_segments(&manager);
    assert_eq!(committed.len(), 2);
    assert_eq!(uncommitted.len(), 0);
}

#[test]
fn commit_drops_absent_uncommitted_segments() {
    let mut manager = SegmentManager::default();
    manager.add_segment(entry(1));
    manager.add_segment(entry(2));
    manager.commit(vec![meta(2)]);
    assert!(manager.segment_entry(&SegmentId(1)).is_none());
    assert!(manager.segment_entry(&SegmentId(2)).is_some());
}

#[test]
fn end_merge_with_partly_missing_inputs_changes_nothing() {
    let mut manager = SegmentManager::from_segments(vec![meta(1), meta(2)]);
    manager.start_merge(&[SegmentId(1), SegmentId(2)]);

    // one input was never present: the whole merge result must be dropped
    manager.end_merge(&[meta(1), meta(3)], entry(9));
    assert!(manager.segment_entry(&SegmentId(9)).is_none());
    assert!(matches!(manager.segment_state(&SegmentId(1)), Some(SegmentState::InMerge)));
    assert!(matches!(manager.segment_state(&SegmentId(2)), Some(SegmentState::InMerge)));
    let (committed, _) = get_segments(&manager);
    assert_eq!(committed.len(), 2);
}

#[test]
fn end_merge_spanning_registers_changes_nothing() {
    let mut manager = SegmentManager::from_segments(vec![meta(1)]);
    manager.add_segment(entry(2));

    manager.end_merge(&[meta(1), meta(2)], entry(9));
    assert!(manager.segment_entry(&SegmentId(9)).is_none());
    assert!(manager.segment_entry(&SegmentId(1)).is_some());
    assert!(manager.segment_entry(&SegmentId(2)).is_some());
}

#[test]
fn start_merge_spanning_registers_changes_nothing() {
    let mut manager = SegmentManager::from_segments(vec![meta(1)]);
    manager.add_segment(entry(2));

    manager.start_merge(&[SegmentId(1), SegmentId(2)]);
    assert!(matches!(manager.segment_state(&SegmentId(1)), Some(SegmentState::Ready)));
    assert!(matches!(manager.segment_state(&SegmentId(2)), Some(SegmentState::Ready)));
}

#[test]
fn end_merge_in_uncommitted_register() {
    let mut manager = SegmentManager::default();
    manager.add_segment(entry(1));
    manager.add_segment(entry(2));
    manager.start_merge(&[SegmentId(1), SegmentId(2)]);
    manager.end_merge(&[meta(1), meta(2)], entry(3));

    let (committed, uncommitted) = get_segments(&manager);
    assert_eq!(committed.len(), 0);
    assert_eq!(uncommitted.len(), 1);
    assert_eq!(uncommitted[0].segment_id, SegmentId(3));
    assert!(matches!(manager.segment_state(&SegmentId(3)), Some(SegmentState::Ready)));
}

#[test]
fn segment_entries_lists_uncommitted_before_committed() {
    let mut manager = SegmentManager::from_segments(vec![meta(1)]);
    manager.add_segment(entry(2));
    let entries = manager.segment_entries();
    assert_eq!(entries.len(), 2);
    assert_eq!(entries[0].segment_id(), SegmentId(2));
    assert_eq!(entries[1].segment_id(), SegmentId(1));
}

#[test]
fn committed_segment_metas_lists_only_committed() {
    let mut manager = SegmentManager::from_segments(vec![meta(1), meta(2)]);
    manager.add_segment(entry(3));
    let metas = manager.committed_segment_metas();
    assert_eq!(metas.len(), 2);
    assert_eq!(metas[0].segment_id, SegmentId(1));
    assert_eq!(metas[1].segment_id, SegmentId(2));
}

#[test]
fn list_files_covers_all_segments_without_duplicates() {
    let mut manager = SegmentManager::from_segments(vec![meta(1)]);
    manager.add_segment(entry(2));
    manager.write_segment(SegmentId(3));

    let files = manager.list_files();
    assert!(files.contains(&IndexFile::MetaFile));
    // committed and uncommitted segments list their own suffixes
    for suffix in [0u64, 1, 2] {
        assert!(files.contains(&IndexFile::SegmentFile { segment_id: SegmentId(1), suffix }));
        assert!(files.contains(&IndexFile::SegmentFile { segment_id: SegmentId(2), suffix }));
    }
    // a segment still being written is covered with its full footprint
    for suffix in 0u64..6 {
        assert!(files.contains(&IndexFile::SegmentFile { segment_id: SegmentId(3), suffix }));
    }
    for (i, f) in files.iter().enumerate() {
        for g in &files[i + 1..] {
            assert_ne!(f, g);
        }
    }
    assert_eq!(files.len(), 1 + 3 + 3 + 6);
}

#[test]
fn segment_entry_prefers_the_committed_register() {
    let manager = SegmentManager::from_segments(vec![meta(5)]);
    let found = manager.segment_entry(&SegmentId(5)).unwrap();
    assert_eq!(found.segment_id(), SegmentId(5));
    assert!(matches!(found.state(), SegmentState::Ready));
    assert!(manager.segment_state(&SegmentId(6)).is_none());
}

#[test]
fn write_segment_is_idempotent() {
    let mut manager = SegmentManager::default();
    manager.write_segment(SegmentId(1));
    manager.write_segment(SegmentId(1));
    assert!(manager.is_writing(&SegmentId(1)));
    let files = manager.list_files();
    assert_eq!(files.len(), 1 + 6);
}

#[test]
fn segment_meta_new_has_full_footprint() {
    let m = SegmentMeta::new(SegmentId(4));
    assert_eq!(m.segment_id, SegmentId(4));
    assert_eq!(m.num_docs, 0);
    assert_eq!(m.file_suffixes, vec![0, 1, 2, 3, 4, 5]);
}
