use catseq::arena::{ArenaContext, AtomicPayload, has_intersection};

#[test]
fn test_atomic_creation() {
    let mut arena = ArenaContext::new();
    let node = arena.atomic(0, 100, 0x01, vec![1, 2, 3]);

    assert_eq!(arena.get(node).duration(), 100);
    assert_eq!(arena.get(node).channels_vec(), vec![0]);
}

#[test]
fn test_sequential_composition() {
    let mut arena = ArenaContext::new();
    let n1 = arena.atomic(0, 100, 0x01, vec![]);
    let n2 = arena.atomic(0, 50, 0x02, vec![]);
    let seq = arena.sequential(n1, n2);

    assert_eq!(arena.get(seq).duration(), 150);
    assert_eq!(arena.get(seq).channels_vec(), vec![0]);
}

#[test]
fn test_parallel_composition() {
    let mut arena = ArenaContext::new();
    let n1 = arena.atomic(0, 100, 0x01, vec![]);
    let n2 = arena.atomic(1, 200, 0x01, vec![]);
    let par = arena.parallel(n1, n2).unwrap();

    assert_eq!(arena.get(par).duration(), 200);
    assert_eq!(arena.get(par).channels_vec(), vec![0, 1]);
}

#[test]
fn test_parallel_channel_conflict() {
    let mut arena = ArenaContext::new();
    let n1 = arena.atomic(0, 100, 0x01, vec![]);
    let n2 = arena.atomic(0, 100, 0x01, vec![]);
    let result = arena.parallel(n1, n2);

    assert!(result.is_err());
    assert!(result.unwrap_err().contains("disjoint"));
}

#[test]
fn test_deep_chain() {
    let mut arena = ArenaContext::new();
    let mut root = arena.atomic(0, 1, 0x00, vec![]);

    for _ in 1..10_000 {
        let next = arena.atomic(0, 1, 0x00, vec![]);
        root = arena.sequential(root, next);
    }

    assert_eq!(arena.get(root).duration(), 10_000);
    assert_eq!(arena.leaf_count(root), 10_000);
}

#[test]
fn test_has_intersection() {
    assert!(has_intersection(&[1, 2, 3], &[2, 4, 5]));
    assert!(!has_intersection(&[1, 2, 3], &[4, 5, 6]));
    assert!(has_intersection(&[1], &[1]));
    assert!(!has_intersection(&[], &[1, 2]));
}

#[test]
fn test_complex_composition() {
    let mut arena = ArenaContext::new();

    let a = arena.atomic(0, 100, 0x01, vec![]);
    let b = arena.atomic(1, 50, 0x01, vec![]);
    let c = arena.atomic(0, 30, 0x02, vec![]);

    let ab = arena.parallel(a, b).unwrap();
    assert_eq!(arena.get(ab).duration(), 100);

    let result = arena.sequential(ab, c);
    assert_eq!(arena.get(result).duration(), 130);
    assert_eq!(arena.get(result).channels_vec(), vec![0, 1]);
}

#[test]
fn test_atomic_payload_storage() {
    let payload = AtomicPayload::new(0xABCD, vec![0x01, 0x02, 0x03]);
    assert_eq!(payload.opcode, 0xABCD);
    assert_eq!(*payload.data, vec![0x01, 0x02, 0x03]);
}

#[test]
fn test_conflict_leaves_arena_unchanged() {
    let mut arena = ArenaContext::new();
    let n1 = arena.atomic(0, 100, 0x01, vec![]);
    let n2 = arena.atomic(0, 100, 0x01, vec![]);
    let before = arena.len();
    assert!(arena.parallel(n1, n2).is_err());
    assert_eq!(arena.len(), before);
}

#[test]
fn test_max_depth_of_linear_fold() {
    let mut arena = ArenaContext::new();
    let mut root = arena.atomic(0, 1, 0x00, vec![]);
    for _ in 1..4 {
        let next = arena.atomic(0, 1, 0x00, vec![]);
        root = arena.sequential(root, next);
    }
    // a linear fold of four leaves is four levels deep
    assert_eq!(arena.max_depth(root), 4);
    assert_eq!(arena.max_depth(0), 1);
}

#[test]
fn test_is_empty_and_len() {
    let mut arena = ArenaContext::with_capacity(4);
    assert!(arena.is_empty());
    arena.atomic(7, 5, 0x02, vec![9]);
    assert!(!arena.is_empty());
    assert_eq!(arena.len(), 1);
    arena.clear();
    assert!(arena.is_empty());
}
