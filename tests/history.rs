use editor_core::history::{VersionHistory, HISTORY_CAPACITY};

#[test]
fn undo_and_redo_walk_the_timeline() {
    let mut h = VersionHistory::new("a".to_string());
    h.add_content("b".to_string());
    h.add_content("c".to_string());
    assert_eq!(h.undo(), Some("b".to_string()));
    assert_eq!(h.undo(), Some("a".to_string()));
    assert_eq!(h.undo(), None);
    assert_eq!(h.cursor(), 0);
    assert_eq!(h.redo(), Some("b".to_string()));
}

#[test]
fn fresh_history_has_nothing_to_undo_or_redo() {
    let mut h = VersionHistory::new("start".to_string());
    assert_eq!(h.snapshot_count(), 1);
    assert_eq!(h.undo(), None);
    assert_eq!(h.redo(), None);
    assert_eq!(h.snapshot(0), Some("start".to_string()));
    assert_eq!(h.snapshot(1), None);
}

#[test]
fn redo_at_latest_is_none() {
    let mut h = VersionHistory::new("a".to_string());
    h.add_content("b".to_string());
    assert_eq!(h.redo(), None);
    assert_eq!(h.cursor(), 1);
    assert_eq!(h.undo(), Some("a".to_string()));
    assert_eq!(h.redo(), Some("b".to_string()));
    assert_eq!(h.redo(), None);
}

#[test]
fn capacity_evicts_oldest_first() {
    let mut h = VersionHistory::new("v0".to_string());
    for i in 1..=25 {
        h.add_content(format!("v{}", i));
    }
    assert_eq!(HISTORY_CAPACITY, 20);
    assert_eq!(h.snapshot_count(), 20);
    for k in 0..20 {
        assert_eq!(h.snapshot(k), Some(format!("v{}", k + 6)));
    }
    assert_eq!(h.cursor(), 19);
    for k in (0..19).rev() {
        assert_eq!(h.undo(), Some(format!("v{}", k + 6)));
    }
    assert_eq!(h.undo(), None);
}

#[test]
fn full_history_keeps_twenty_after_exactly_nineteen_adds() {
    let mut h = VersionHistory::new("v0".to_string());
    for i in 1..=19 {
        h.add_content(format!("v{}", i));
    }
    assert_eq!(h.snapshot_count(), 20);
    assert_eq!(h.snapshot(0), Some("v0".to_string()));
    h.add_content("v20".to_string());
    assert_eq!(h.snapshot_count(), 20);
    assert_eq!(h.snapshot(0), Some("v1".to_string()));
    assert_eq!(h.snapshot(19), Some("v20".to_string()));
}

#[test]
fn checkpoint_after_undo_discards_forward_snapshots() {
    let mut h = VersionHistory::new("a".to_string());
    h.add_content("b".to_string());
    h.add_content("c".to_string());
    assert_eq!(h.undo(), Some("b".to_string()));
    h.add_content("d".to_string());
    assert_eq!(h.snapshot_count(), 3);
    assert_eq!(h.snapshot(2), Some("d".to_string()));
    assert_eq!(h.redo(), None);
    assert_eq!(h.undo(), Some("b".to_string()));
    assert_eq!(h.undo(), Some("a".to_string()));
}

#[test]
fn checkpoint_after_undo_in_a_full_ring() {
    let mut h = VersionHistory::new("v0".to_string());
    for i in 1..=30 {
        h.add_content(format!("v{}", i));
    }
    for _ in 0..5 {
        h.undo();
    }
    assert_eq!(h.cursor(), 14);
    h.add_content("new".to_string());
    assert_eq!(h.snapshot_count(), 16);
    assert_eq!(h.snapshot(0), Some("v11".to_string()));
    assert_eq!(h.snapshot(15), Some("new".to_string()));
    for i in 0..10 {
        h.add_content(format!("w{}", i));
    }
    assert_eq!(h.snapshot_count(), 20);
    assert_eq!(h.snapshot(0), Some("v17".to_string()));
    assert_eq!(h.snapshot(19), Some("w9".to_string()));
}
