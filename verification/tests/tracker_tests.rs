use memwatch::tracker::MemoryTracker;

#[test]
fn detects_three_changes() {
    let mut tracker = MemoryTracker::new();
    let mut data = vec![0u8; 20];

    let region_id = tracker.watch(&data, "test_buffer");
    assert_eq!(region_id, 0);

    data[0] = 42;
    data[5] = 99;
    data[10] = 255;
    assert!(tracker.set_region_data(0, &data));

    tracker.detect_changes();
    assert_eq!(tracker.event_count(), 3);

    let events = tracker.events();
    assert_eq!(events[0].offset, 0);
    assert_eq!(events[0].old_value, 0);
    assert_eq!(events[0].new_value, 42);
    assert_eq!(events[1].offset, 5);
    assert_eq!(events[1].new_value, 99);
    assert_eq!(events[2].offset, 10);
    assert_eq!(events[2].new_value, 255);
    assert_eq!(events[0].name, "region_0");
}

#[test]
fn detect_is_incremental() {
    let mut tracker = MemoryTracker::new();
    let data = [1u8, 2, 3];
    tracker.watch(&data, "buf");

    tracker.detect_changes();
    assert_eq!(tracker.event_count(), 0);

    assert!(tracker.set_region_data(0, &[1, 2, 9]));
    tracker.detect_changes();
    assert_eq!(tracker.event_count(), 1);

    // The snapshot caught up: no repeated event.
    tracker.detect_changes();
    assert_eq!(tracker.event_count(), 1);
}

#[test]
fn regions_are_independent() {
    let mut tracker = MemoryTracker::new();
    tracker.watch(&[0u8; 4], "a");
    tracker.watch(&[0u8; 4], "b");

    assert!(tracker.set_region_data(1, &[0, 7, 0, 0]));
    tracker.detect_changes();
    assert_eq!(tracker.event_count(), 1);
    assert_eq!(tracker.events()[0].name, "region_1");
    assert_eq!(tracker.events()[0].offset, 1);
}

#[test]
fn set_region_data_rejects_bad_input() {
    let mut tracker = MemoryTracker::new();
    tracker.watch(&[0u8; 4], "a");
    assert!(!tracker.set_region_data(9, &[0u8; 4]));
    assert!(!tracker.set_region_data(0, &[0u8; 3]));
    tracker.detect_changes();
    assert_eq!(tracker.event_count(), 0);
}
