use memwatch::ring::{ChangeEvent, EventRing, Location};

fn event(region_id: u32, payload: Vec<u8>) -> ChangeEvent {
    ChangeEvent {
        seq: 0,
        timestamp_ns: 5,
        region_id,
        variable_name: None,
        byte_offset: 0,
        length_changed: payload.len(),
        location: Location { file: None, function: None, line: 0, fault_ip: 0 },
        old_preview: Vec::new(),
        new_preview: payload,
    }
}

#[test]
fn drain_yields_strictly_increasing_fresh_seqs() {
    let mut r = EventRing::new(8);
    for i in 0..5u32 {
        r.push(event(i, vec![1]));
    }
    let first = r.drain(3);
    let second = r.drain(10);
    assert_eq!(first.len(), 3);
    assert_eq!(second.len(), 2);
    let seqs: Vec<u64> = first.iter().chain(second.iter()).map(|e| e.seq).collect();
    for w in seqs.windows(2) {
        assert!(w[0] < w[1], "a later drain may never repeat a seq");
    }
    assert_eq!(seqs, vec![1, 2, 3, 4, 5]);
    assert!(r.drain(10).is_empty());
}

#[test]
fn overflow_drops_oldest_and_counts() {
    let mut r = EventRing::new(2);
    for i in 0..5u32 {
        r.push(event(i, vec![i as u8]));
    }
    assert_eq!(r.write_count_now(), 5);
    assert_eq!(r.drop_count_now(), 3);
    let delivered = r.drain(10);
    assert_eq!(delivered.len(), 2);
    // Everything written was delivered or dropped.
    assert_eq!(r.write_count_now() - r.drop_count_now(), delivered.len() as u64);
    // The survivors are the newest events, order kept.
    assert_eq!(delivered[0].region_id, 3);
    assert_eq!(delivered[1].region_id, 4);
    assert_eq!(delivered[0].seq, 4);
    assert_eq!(delivered[1].seq, 5);
}

#[test]
fn drop_count_rises_by_exactly_the_lost_events() {
    let mut r = EventRing::new(3);
    for i in 0..3u32 {
        r.push(event(i, Vec::new()));
    }
    assert_eq!(r.drop_count_now(), 0);
    r.push(event(3, Vec::new()));
    assert_eq!(r.drop_count_now(), 1);
    r.push(event(4, Vec::new()));
    assert_eq!(r.drop_count_now(), 2);
    assert_eq!(r.write_count_now(), 5);
    assert_eq!(r.drain(10).len(), 3);
}

#[test]
fn storage_follows_previews() {
    let mut r = EventRing::new(4);
    r.push(event(0, vec![1, 2, 3]));
    r.push(event(1, vec![4]));
    assert_eq!(r.storage_bytes_now(), 4);
    let out = r.drain(1);
    assert_eq!(out.len(), 1);
    assert_eq!(r.storage_bytes_now(), 1);
    r.drain(10);
    assert_eq!(r.storage_bytes_now(), 0);
}

#[test]
fn eviction_releases_storage() {
    let mut r = EventRing::new(1);
    r.push(event(0, vec![1, 2, 3, 4]));
    assert_eq!(r.storage_bytes_now(), 4);
    r.push(event(1, vec![5]));
    assert_eq!(r.storage_bytes_now(), 1);
    assert_eq!(r.drop_count_now(), 1);
}
