use catseq::arena::ArenaContext;
use catseq::compiler::{compile, compile_by_board};

#[test]
fn test_compile_atomic() {
    let mut arena = ArenaContext::new();
    let node = arena.atomic(0, 100, 0x01, vec![1, 2, 3]);

    let events = compile(&arena, node);
    assert_eq!(events.len(), 1);
    assert_eq!(events[0].time, 0);
    assert_eq!(events[0].channel_id, 0);
    assert_eq!(*events[0].data, vec![1, 2, 3]);
}

#[test]
fn test_compile_sequential() {
    let mut arena = ArenaContext::new();
    let n1 = arena.atomic(0, 100, 0x01, vec![1]);
    let n2 = arena.atomic(0, 50, 0x02, vec![2]);
    let seq = arena.sequential(n1, n2);

    let events = compile(&arena, seq);
    assert_eq!(events.len(), 2);
    assert_eq!(events[0].time, 0);
    assert_eq!(*events[0].data, vec![1]);
    assert_eq!(events[1].time, 100);
    assert_eq!(*events[1].data, vec![2]);
}

#[test]
fn test_compile_parallel() {
    let mut arena = ArenaContext::new();
    let n1 = arena.atomic(0, 100, 0x01, vec![1]);
    let n2 = arena.atomic(1, 200, 0x01, vec![2]);
    let par = arena.parallel(n1, n2).unwrap();

    let events = compile(&arena, par);
    assert_eq!(events.len(), 2);
    assert_eq!(events[0].time, 0);
    assert_eq!(events[1].time, 0);
    assert!(events[0].channel_id == 0 || events[0].channel_id == 1);
}

#[test]
fn test_compile_complex() {
    let mut arena = ArenaContext::new();

    let a = arena.atomic(0, 100, 0x01, vec![10]);
    let b = arena.atomic(1, 50, 0x01, vec![20]);
    let c = arena.atomic(0, 30, 0x02, vec![30]);

    let ab = arena.parallel(a, b).unwrap();
    let result = arena.sequential(ab, c);

    let events = compile(&arena, result);
    assert_eq!(events.len(), 3);

    assert_eq!(events[0].time, 0);
    assert_eq!(events[1].time, 0);
    assert_eq!(events[2].time, 100);
    assert_eq!(*events[2].data, vec![30u8]);
}

#[test]
fn test_compile_deep_chain() {
    let mut arena = ArenaContext::new();
    let mut root = arena.atomic(0, 10, 0x00, vec![0]);

    for i in 1..100 {
        let next = arena.atomic(0, 10, 0x00, vec![i]);
        root = arena.sequential(root, next);
    }

    let events = compile(&arena, root);
    assert_eq!(events.len(), 100);

    for (i, event) in events.iter().enumerate() {
        assert_eq!(event.time, (i as u64) * 10);
    }
}

#[test]
fn test_compile_wide_parallel() {
    let mut arena = ArenaContext::new();

    let mut nodes = Vec::new();
    for i in 0..100 {
        nodes.push(arena.atomic(i, 10 * (i as u64 + 1), 0x01, vec![i as u8]));
    }

    let mut root = nodes[0];
    for &node in &nodes[1..] {
        root = arena.parallel(root, node).unwrap();
    }

    let events = compile(&arena, root);
    assert_eq!(events.len(), 100);

    for event in &events {
        assert_eq!(event.time, 0);
    }
}

#[test]
fn test_compile_by_board() {
    let mut arena = ArenaContext::new();

    let ch0_board0 = 0u32;
    let ch1_board0 = 1u32;
    let ch0_board1 = 1u32 << 16;

    let n1 = arena.atomic(ch0_board0, 100, 0x01, vec![1]);
    let n2 = arena.atomic(ch1_board0, 100, 0x01, vec![2]);
    let n3 = arena.atomic(ch0_board1, 100, 0x01, vec![3]);

    let par1 = arena.parallel(n1, n2).unwrap();
    let par2 = arena.parallel(par1, n3).unwrap();

    let grouped = compile_by_board(&arena, par2);

    assert_eq!(grouped.len(), 2);
    let board0 = grouped.iter().find(|p| p.0 == 0).expect("board 0 listed");
    let board1 = grouped.iter().find(|p| p.0 == 1).expect("board 1 listed");
    assert_eq!(board0.1.len(), 2);
    assert_eq!(board1.1.len(), 1);
}

#[test]
fn test_stable_order_on_equal_times() {
    let mut arena = ArenaContext::new();
    // left operand of the parallel composition comes first on a tie
    let a = arena.atomic(3, 10, 0x0a, vec![1]);
    let b = arena.atomic(5, 10, 0x0b, vec![2]);
    let par = arena.parallel(a, b).unwrap();

    let events = compile(&arena, par);
    assert_eq!(events.len(), 2);
    assert_eq!(events[0].channel_id, 3);
    assert_eq!(events[1].channel_id, 5);
}

#[test]
fn test_event_times_below_duration() {
    let mut arena = ArenaContext::new();
    let a = arena.atomic(0, 7, 0x01, vec![]);
    let b = arena.atomic(1, 11, 0x02, vec![]);
    let ab = arena.parallel(a, b).unwrap();
    let c = arena.atomic(0, 2, 0x03, vec![]);
    let root = arena.sequential(ab, c);

    let dur = arena.get(root).duration();
    assert_eq!(dur, 13);
    let events = compile(&arena, root);
    assert_eq!(events.len(), 3);
    for e in &events {
        assert!(e.time < dur);
    }
}
