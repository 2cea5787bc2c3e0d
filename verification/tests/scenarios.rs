use catseq::arena::ArenaContext;
use catseq::compiler::compile;
use catseq::context::CompilerContext;

#[test]
fn test_python_api_simulation() {
    // the host-facing flow: intern two atomics, compose serially
    let mut ctx = CompilerContext::new();
    let n1 = ctx.atomic_id(0, 100, 0x01, vec![1, 2, 3]);
    let n2 = ctx.atomic_id(1, 50, 0x02, vec![4, 5, 6]);
    let seq = ctx.compose(n1, n2);
    assert_eq!(ctx.get_duration(seq), 150);
}

#[test]
fn two_atomic_serial() {
    let mut arena = ArenaContext::new();
    let a = arena.atomic(0, 100, 1, vec![1]);
    let b = arena.atomic(0, 50, 2, vec![2]);
    let root = arena.sequential(a, b);

    assert_eq!(arena.get(root).duration(), 150);
    assert_eq!(arena.get(root).channels_vec(), vec![0]);
    let events = compile(&arena, root);
    assert_eq!(events.len(), 2);
    assert_eq!((events[0].time, events[0].channel_id, events[0].opcode), (0, 0, 1));
    assert_eq!(*events[0].data, vec![1]);
    assert_eq!((events[1].time, events[1].channel_id, events[1].opcode), (100, 0, 2));
    assert_eq!(*events[1].data, vec![2]);
}

#[test]
fn two_atomic_parallel_distinct_channels() {
    let mut arena = ArenaContext::new();
    let a = arena.atomic(0, 100, 1, vec![1]);
    let b = arena.atomic(1, 200, 1, vec![2]);
    let root = arena.parallel(a, b).unwrap();

    assert_eq!(arena.get(root).duration(), 200);
    assert_eq!(arena.get(root).channels_vec(), vec![0, 1]);
    let events = compile(&arena, root);
    assert_eq!(events.len(), 2);
    assert_eq!(events[0].time, 0);
    assert_eq!(events[1].time, 0);
}

#[test]
fn parallel_conflict_keeps_node_count() {
    let mut arena = ArenaContext::new();
    let a = arena.atomic(0, 100, 1, vec![]);
    let b = arena.atomic(0, 100, 1, vec![]);
    let before = arena.len();
    let result = arena.parallel(a, b);
    assert!(result.is_err());
    assert_eq!(arena.len(), before);
}

#[test]
fn mixed_composition() {
    let mut arena = ArenaContext::new();
    let a = arena.atomic(0, 100, 1, vec![10]);
    let b = arena.atomic(1, 50, 1, vec![20]);
    let c = arena.atomic(0, 30, 2, vec![30]);
    let ab = arena.parallel(a, b).unwrap();
    let root = arena.sequential(ab, c);

    assert_eq!(arena.get(root).duration(), 130);
    assert_eq!(arena.get(root).channels_vec(), vec![0, 1]);
    let events = compile(&arena, root);
    assert_eq!(events.len(), 3);
    assert_eq!(events[0].time, 0);
    assert_eq!(events[1].time, 0);
    assert_eq!(events[2].time, 100);
    assert_eq!(*events[2].data, vec![30]);
}

#[test]
fn deep_chain_balanced() {
    let mut arena = ArenaContext::new();
    let leaves: Vec<u32> = (0..10_000).map(|_| arena.atomic(0, 1, 0, vec![])).collect();
    let root = arena.compose_sequence(leaves).unwrap();

    assert_eq!(arena.get(root).duration(), 10_000);
    assert_eq!(arena.leaf_count(root), 10_000);
    assert!(arena.max_depth(root) <= 15);
}

#[test]
fn incremental_reuse() {
    let mut ctx = CompilerContext::new();
    ctx.enable_incremental();
    assert!(ctx.is_incremental_enabled());

    let a = ctx.atomic_id(0, 100, 1, vec![1]);
    let b = ctx.atomic_id(1, 50, 2, vec![2]);
    let shared = ctx.compose(a, b);

    let mut trees = Vec::new();
    for i in 0..10 {
        let leaf = ctx.atomic_id(2, 10 * i, 1, vec![i as u8]);
        trees.push(ctx.compose(shared, leaf));
    }
    for tree in trees {
        ctx.compile_graph(tree);
    }
    let stats = ctx.get_incremental_stats().unwrap();
    assert!(stats.cache_hits >= 9);
}

#[test]
fn context_compile_matches_flat() {
    let mut ctx = CompilerContext::with_capacity(16);
    let a = ctx.atomic_id(0, 10, 1, vec![1]);
    let b = ctx.atomic_id(1, 20, 2, vec![2]);
    let ab = ctx.parallel_compose(a, b).unwrap();
    let plain = ctx.compile_graph(ab);

    ctx.enable_incremental();
    let memo = ctx.compile_graph(ab);
    assert_eq!(plain.len(), memo.len());
    for (x, y) in plain.iter().zip(memo.iter()) {
        assert_eq!(x.time, y.time);
        assert_eq!(x.channel_id, y.channel_id);
        assert_eq!(x.opcode, y.opcode);
        assert_eq!(*x.data, *y.data);
    }

    ctx.clear_incremental_cache();
    assert_eq!(ctx.get_incremental_stats().unwrap().cached_nodes, 0);
    ctx.disable_incremental();
    assert!(ctx.get_incremental_stats().is_none());

    assert_eq!(ctx.node_count(), 3);
    ctx.clear();
    assert_eq!(ctx.node_count(), 0);
}

#[test]
fn parallel_compose_many_success_and_conflict() {
    let mut ctx = CompilerContext::new();
    let mut handles = Vec::new();
    for i in 0..8 {
        handles.push(ctx.atomic_id(i, (i as u64 + 1) * 5, 1, vec![i as u8]));
    }
    let root = ctx.parallel_compose_many(handles).unwrap().unwrap();
    assert_eq!(ctx.get_duration(root), 40);
    assert_eq!(ctx.get_channels(root), vec![0, 1, 2, 3, 4, 5, 6, 7]);
    assert_eq!(ctx.max_depth(root), 4);
    assert_eq!(ctx.leaf_count(root), 8);

    // one repeated channel makes the batch fail
    let x = ctx.atomic_id(20, 5, 1, vec![]);
    let y = ctx.atomic_id(21, 5, 1, vec![]);
    let z = ctx.atomic_id(20, 5, 1, vec![]);
    let result = ctx.parallel_compose_many(vec![x, y, z]);
    assert!(result.is_err());
    assert!(result.unwrap_err().contains("disjoint"));

    // the empty batch composes to nothing
    let mut ctx2 = CompilerContext::new();
    assert_eq!(ctx2.compose_sequence(vec![]), None);
    assert_eq!(ctx2.parallel_compose_many(vec![]).unwrap(), None);
}

#[test]
fn compile_by_board_through_context() {
    let mut arena = ArenaContext::new();
    let a = arena.atomic(0, 10, 1, vec![1]);
    let b = arena.atomic((3 << 16) | 2, 10, 1, vec![2]);
    let ab = arena.parallel(a, b).unwrap();
    let grouped = catseq::compiler::compile_by_board(&arena, ab);
    assert_eq!(grouped.len(), 2);
    let boards: Vec<u16> = grouped.iter().map(|p| p.0).collect();
    assert!(boards.contains(&0));
    assert!(boards.contains(&3));
}
