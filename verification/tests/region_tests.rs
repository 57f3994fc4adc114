use memwatch::region::RegionTable;
use memwatch::valuestore::capture;
use memwatch::ErrorCode;

#[test]
fn table_assigns_and_removes_ids() {
    let mut t = RegionTable::new();
    let a = t.add(0x1000, &[0u8; 8], None, 0).unwrap();
    let b = t.add(0x2000, &[0u8; 8], None, -1).unwrap();
    assert_eq!(a, 1);
    assert_eq!(b, 2);
    assert_eq!(t.len(), 2);
    assert!(t.remove(a));
    assert!(!t.remove(a));
    assert_eq!(t.len(), 1);
    // Identifiers are never reused.
    let c = t.add(0x1000, &[0u8; 8], None, 0).unwrap();
    assert_eq!(c, 3);
}

#[test]
fn table_rejects_malformed_regions() {
    let mut t = RegionTable::new();
    assert_eq!(t.add(0x1000, &[], None, 0), Err(ErrorCode::InvalidRange));
    assert_eq!(t.add(u64::MAX, &[0u8; 2], None, 0), Err(ErrorCode::InvalidRange));
    assert_eq!(t.add(0x1000, &[0u8; 2], None, -5), Err(ErrorCode::InvalidRange));
    assert_eq!(t.len(), 0);
}

#[test]
fn find_overlapping_reports_covering_regions() {
    let mut t = RegionTable::new();
    let a = t.add(0x1000, &[0u8; 16], None, 0).unwrap();
    let b = t.add(0x1008, &[0u8; 16], None, 0).unwrap();
    let _c = t.add(0x3000, &[0u8; 4], None, 0).unwrap();

    assert_eq!(t.find_overlapping(0x1004), vec![a]);
    assert_eq!(t.find_overlapping(0x100a), vec![a, b]);
    assert_eq!(t.find_overlapping(0x1010), vec![b]);
    assert!(t.find_overlapping(0x2000).is_empty());
}

#[test]
fn capture_follows_policy() {
    let old_bytes = [1u8, 2, 3, 4, 5, 6];
    let new_bytes = [1u8, 2, 9, 9, 5, 6];

    let (o, n) = capture(0, &old_bytes, &new_bytes, 2, 2);
    assert!(o.is_empty());
    assert!(n.is_empty());

    let (o, n) = capture(1, &old_bytes, &new_bytes, 2, 2);
    assert_eq!(o, vec![3]);
    assert_eq!(n, vec![9]);

    let (o, n) = capture(8, &old_bytes, &new_bytes, 2, 2);
    assert_eq!(o, vec![3, 4]);
    assert_eq!(n, vec![9, 9]);

    let (o, n) = capture(-1, &old_bytes, &new_bytes, 2, 2);
    assert_eq!(o, old_bytes.to_vec());
    assert_eq!(n, new_bytes.to_vec());
}
