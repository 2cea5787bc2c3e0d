use std::sync::Arc;
use catseq::path::MorphismPath;

#[test]
fn test_append() {
    let mut path = MorphismPath::new(0);
    path.append(100, 0x0101, vec![1, 2, 3]);
    path.append(200, 0x0102, vec![4, 5]);

    assert_eq!(path.len(), 2);
    assert_eq!(path.total_duration, 300);
}

#[test]
fn test_extend() {
    let mut path1 = MorphismPath::new(0);
    path1.append(100, 0x0101, vec![]);

    let mut path2 = MorphismPath::new(0);
    path2.append(200, 0x0102, vec![]);
    path2.append(50, 0x0103, vec![]);

    path1.extend(&path2).unwrap();

    assert_eq!(path1.len(), 3);
    assert_eq!(path1.total_duration, 350);
}

#[test]
fn test_extend_channel_mismatch() {
    let mut path1 = MorphismPath::new(0);
    let path2 = MorphismPath::new(1);

    let result = path1.extend(&path2);
    assert!(result.is_err());
}

#[test]
fn test_arc_zero_copy() {
    let mut path1 = MorphismPath::new(0);
    let large_payload = vec![0u8; 10000];
    path1.append(100, 0x0101, large_payload);

    // Clone should not copy the payload data
    let path2 = path1.clone();

    // Both should point to the same Arc
    assert!(Arc::ptr_eq(&path1.steps[0].payload, &path2.steps[0].payload));
}

#[test]
fn test_identity_and_align() {
    let path = MorphismPath::identity(4, 25, 0x0000);
    assert_eq!(path.len(), 1);
    assert_eq!(path.total_duration, 25);
    assert_eq!(path.channel_id, 4);

    let empty = MorphismPath::identity(4, 0, 0x0000);
    assert_eq!(empty.len(), 0);
    assert_eq!(empty.total_duration, 0);

    let mut p = MorphismPath::new(2);
    p.append(30, 0x0101, vec![7]);
    p.align(100, 0x0000);
    assert_eq!(p.total_duration, 100);
    assert_eq!(p.len(), 2);
    let (dur, op, payload) = p.get_step(1).unwrap();
    assert_eq!(dur, 70);
    assert_eq!(op, 0x0000);
    assert!(payload.is_empty());

    // already long enough: a no-op
    p.align(50, 0x0000);
    assert_eq!(p.total_duration, 100);
    assert_eq!(p.len(), 2);
}

#[test]
fn test_get_step_bounds() {
    let mut p = MorphismPath::with_capacity(0, 8);
    p.append(5, 0x0101, vec![1, 2]);
    let (dur, op, payload) = p.get_step(0).unwrap();
    assert_eq!((dur, op), (5, 0x0101));
    assert_eq!(payload, vec![1, 2]);
    assert!(p.get_step(1).is_none());
    assert!(!p.is_empty());
}

#[test]
fn test_extend_shares_payloads() {
    let mut src = MorphismPath::new(9);
    src.append(10, 0x0101, vec![1; 4096]);
    let mut dst = MorphismPath::new(9);
    dst.extend(&src).unwrap();
    assert!(Arc::ptr_eq(&src.steps[0].payload, &dst.steps[0].payload));
}
