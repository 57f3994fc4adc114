use memwatch::engine::{EngineState, MemWatch};
use memwatch::ErrorCode;

const BASE: u64 = 0x10000;

fn running_engine() -> MemWatch {
    let mut m = MemWatch::new();
    m.init().unwrap();
    m
}

#[test]
fn init_transitions_once() {
    let mut m = MemWatch::new();
    assert!(m.init().is_ok());
    assert_eq!(m.init(), Err(ErrorCode::AlreadyInitialized));
    m.shutdown();
    assert_eq!(m.init(), Err(ErrorCode::AlreadyInitialized));
}

#[test]
fn operations_need_init() {
    let mut m = MemWatch::new();
    assert_eq!(m.watch(BASE, &[1, 2, 3], None, 0), Err(ErrorCode::NotInitialized));
    assert!(!m.unwatch(1));
    assert!(m.check_changes(8).is_err());
    assert!(m.get_stats().is_err());
    assert!(m.set_callback(true).is_err());
    assert!(m.worker_cycle(7, 8).is_err());
    assert_eq!(m.handle_write(BASE, &[9], 1), 0);
}

#[test]
fn shutdown_is_idempotent_and_final() {
    let mut m = running_engine();
    m.watch(BASE, &[0u8; 5], None, 0).unwrap();
    m.shutdown();
    m.shutdown();
    assert!(m.get_stats().is_err());
    assert_eq!(m.watch(BASE, &[1], None, 0), Err(ErrorCode::NotInitialized));
}

#[test]
fn watch_rejects_malformed_ranges() {
    let mut m = running_engine();
    assert_eq!(m.watch(BASE, &[], None, 0), Err(ErrorCode::InvalidRange));
    assert_eq!(m.watch(u64::MAX - 1, &[0u8; 4], None, 0), Err(ErrorCode::InvalidRange));
    assert_eq!(m.watch(BASE, &[0u8; 4], None, -2), Err(ErrorCode::InvalidRange));
    let stats = m.get_stats().unwrap();
    assert_eq!(stats.num_tracked_regions, 0);
}

#[test]
fn watch_assigns_fresh_ids() {
    let mut m = running_engine();
    let a = m.watch(BASE, &[0u8; 5], Some("a".to_string()), 0).unwrap();
    let b = m.watch(BASE + 0x1000, &[0u8; 5], Some("b".to_string()), 0).unwrap();
    assert_ne!(a, b);
    assert!(b > a);
    let stats = m.get_stats().unwrap();
    assert_eq!(stats.num_tracked_regions, 2);
    assert!(stats.num_active_watchpoints >= 2);
}

#[test]
fn poll_no_value_bytes() {
    // Watch a 5-byte buffer that stores no value bytes; overwrite byte 0.
    let mut m = running_engine();
    let buf = [10u8, 11, 12, 13, 14];
    let id = m.watch(BASE, &buf, Some("buf".to_string()), 0).unwrap();
    assert_eq!(m.handle_write(BASE, &[42], 1000), 1);
    let events = m.check_changes(16).unwrap();
    assert_eq!(events.len(), 1);
    let ev = &events[0];
    assert_eq!(ev.region_id, id);
    assert_eq!(ev.byte_offset, 0);
    assert_eq!(ev.length_changed, 1);
    assert!(ev.old_preview.is_empty());
    assert!(ev.new_preview.is_empty());
    // Nothing further to deliver.
    assert!(m.check_changes(16).unwrap().is_empty());
}

#[test]
fn truncated_preview_starts_at_change() {
    // Watch a 6-byte buffer keeping at most 2 preview bytes; overwrite from byte 3.
    let mut m = running_engine();
    let buf = [0u8, 1, 2, 3, 4, 5];
    let id = m.watch(BASE, &buf, None, 2).unwrap();
    assert_eq!(m.handle_write(BASE + 3, &[99, 98, 97], 2000), 1);
    let events = m.check_changes(16).unwrap();
    assert_eq!(events.len(), 1);
    let ev = &events[0];
    assert_eq!(ev.region_id, id);
    assert!(ev.byte_offset <= 3);
    assert_eq!(ev.byte_offset, 3);
    assert!(ev.new_preview.len() <= 2);
    assert_eq!(ev.new_preview, vec![99, 98]);
    assert_eq!(ev.old_preview, vec![3, 4]);
}

#[test]
fn full_preview_matches_buffer() {
    // Watch a 5-byte buffer keeping everything; overwrite byte 2.
    let mut m = running_engine();
    let buf = [1u8, 2, 3, 4, 5];
    m.watch(BASE, &buf, None, -1).unwrap();
    assert_eq!(m.handle_write(BASE + 2, &[77], 3000), 1);
    let events = m.check_changes(16).unwrap();
    assert_eq!(events.len(), 1);
    let ev = &events[0];
    assert_eq!(ev.new_preview.len(), 5);
    assert_eq!(ev.new_preview, vec![1, 2, 77, 4, 5]);
    assert_eq!(ev.old_preview, vec![1, 2, 3, 4, 5]);
    assert_eq!(ev.byte_offset, 2);
    assert_eq!(ev.length_changed, 1);
}

#[test]
fn unwatch_unknown_id_changes_nothing() {
    let mut m = running_engine();
    m.watch(BASE, &[0u8; 5], None, 0).unwrap();
    let before = m.get_stats().unwrap();
    assert!(!m.unwatch(4040));
    let after = m.get_stats().unwrap();
    assert_eq!(before.num_tracked_regions, after.num_tracked_regions);
}

#[test]
fn unwatch_removes_exactly_that_region() {
    let mut m = running_engine();
    let a = m.watch(BASE, &[0u8; 5], None, -1).unwrap();
    let b = m.watch(BASE + 0x2000, &[0u8; 5], None, -1).unwrap();
    assert!(m.unwatch(a));
    assert!(!m.unwatch(a));
    let stats = m.get_stats().unwrap();
    assert_eq!(stats.num_tracked_regions, 1);
    // The other region still reports changes.
    assert_eq!(m.handle_write(BASE + 0x2000, &[1], 1), 1);
    let events = m.check_changes(16).unwrap();
    assert_eq!(events.len(), 1);
    assert_eq!(events[0].region_id, b);
    // A write to the removed range is attributed to nothing.
    assert_eq!(m.handle_write(BASE, &[1], 2), 0);
}

#[test]
fn disjoint_regions_attribute_separately() {
    let mut m = running_engine();
    let a = m.watch(BASE, &[0u8; 4], Some("left".to_string()), -1).unwrap();
    let _b = m.watch(BASE + 0x1000, &[0u8; 4], Some("right".to_string()), -1).unwrap();
    assert_eq!(m.handle_write(BASE + 1, &[5], 1), 1);
    let events = m.check_changes(16).unwrap();
    assert_eq!(events.len(), 1);
    assert_eq!(events[0].region_id, a);
    assert_eq!(events[0].variable_name.as_deref(), Some("left"));
}

#[test]
fn overlapping_regions_both_fire() {
    let mut m = running_engine();
    let a = m.watch(BASE, &[0u8; 8], None, -1).unwrap();
    let b = m.watch(BASE + 4, &[0u8; 8], None, -1).unwrap();
    assert_eq!(m.handle_write(BASE + 5, &[9], 1), 2);
    let events = m.check_changes(16).unwrap();
    assert_eq!(events.len(), 2);
    assert_eq!(events[0].region_id, a);
    assert_eq!(events[1].region_id, b);
    assert_eq!(events[0].byte_offset, 5);
    assert_eq!(events[1].byte_offset, 1);
}

#[test]
fn rewriting_equal_bytes_yields_no_event() {
    let mut m = running_engine();
    m.watch(BASE, &[7u8, 7, 7], None, -1).unwrap();
    assert_eq!(m.handle_write(BASE, &[7, 7], 1), 0);
    assert!(m.check_changes(16).unwrap().is_empty());
}

#[test]
fn sequence_numbers_increase_across_polls() {
    let mut m = running_engine();
    m.watch(BASE, &[0u8; 3], None, 0).unwrap();
    for step in 0..5u8 {
        m.handle_write(BASE, &[step + 1], u64::from(step));
    }
    let first = m.check_changes(2).unwrap();
    let second = m.check_changes(16).unwrap();
    assert_eq!(first.len(), 2);
    assert_eq!(second.len(), 3);
    let mut all: Vec<u64> = first.iter().chain(second.iter()).map(|e| e.seq).collect();
    let mut sorted = all.clone();
    sorted.sort();
    sorted.dedup();
    assert_eq!(all, sorted);
    all.dedup();
    assert_eq!(all.len(), 5);
}

#[test]
fn stats_track_ring_counters() {
    let mut m = running_engine();
    m.watch(BASE, &[0u8; 2], None, -1).unwrap();
    m.handle_write(BASE, &[1], 1);
    m.handle_write(BASE, &[2], 2);
    let s = m.get_stats().unwrap();
    assert_eq!(s.total_events, 2);
    assert_eq!(s.ring_write_count, 2);
    assert_eq!(s.ring_drop_count, 0);
    // Two events, each retaining a 2-byte old and new preview.
    assert_eq!(s.storage_bytes_used, 8);
    let drained = m.check_changes(16).unwrap();
    assert_eq!(drained.len(), 2);
    let s2 = m.get_stats().unwrap();
    assert_eq!(s2.storage_bytes_used, 0);
}

#[test]
fn worker_cycle_rearms_and_counts() {
    let mut m = running_engine();
    m.watch(BASE, &[0u8; 5], None, 0).unwrap();
    let before = m.get_stats().unwrap();
    assert_eq!(before.worker_cycles, 0);
    m.handle_write(BASE, &[1], 1);
    // The faulting page was left permissive.
    let mid = m.get_stats().unwrap();
    assert!(mid.num_active_watchpoints < mid.mprotect_page_count || mid.mprotect_page_count == 0);
    let out = m.worker_cycle(31, 16).unwrap();
    assert!(out.is_empty(), "push delivery is off by default");
    let after = m.get_stats().unwrap();
    assert_eq!(after.worker_cycles, 1);
    assert_eq!(after.worker_thread_id, 31);
    assert_eq!(after.num_active_watchpoints, after.mprotect_page_count);
}

#[test]
fn worker_cycle_drains_in_push_mode() {
    let mut m = running_engine();
    m.watch(BASE, &[0u8; 3], None, -1).unwrap();
    m.set_callback(true).unwrap();
    m.handle_write(BASE, &[8], 4);
    let out = m.worker_cycle(1, 16).unwrap();
    assert_eq!(out.len(), 1);
    assert_eq!(out[0].new_preview, vec![8, 0, 0]);
    m.set_callback(false).unwrap();
    m.handle_write(BASE, &[9], 5);
    assert!(m.worker_cycle(1, 16).unwrap().is_empty());
}

#[test]
fn state_enum_is_plain() {
    assert_ne!(EngineState::Running, EngineState::Shutdown);
}
