use std::sync::Arc;
use catseq::arena::ArenaContext;
use catseq::compiler::{FlatEvent, compile};
use catseq::incremental::{IncrementalCompiler, merge_sorted_events};

#[test]
fn test_cache_correctness_sequential() {
    let mut arena = ArenaContext::new();
    let mut compiler = IncrementalCompiler::new();

    let a = arena.atomic(0, 100, 0x01, vec![1]);
    let b = arena.atomic(0, 50, 0x02, vec![2]);
    let ab = arena.sequential(a, b);

    let events1 = compiler.compile(&arena, ab);
    assert_eq!(events1.len(), 2);
    assert_eq!(events1[0].time, 0);
    assert_eq!(events1[1].time, 100);

    let c = arena.atomic(1, 10, 0x01, vec![3]);
    let cb = arena.sequential(c, b);

    let events2 = compiler.compile(&arena, cb);
    assert_eq!(events2.len(), 2);
    assert_eq!(events2[0].time, 0);
    assert_eq!(events2[1].time, 10);

    let stats = compiler.stats();
    assert!(stats.cache_hits > 0);
}

#[test]
fn test_block_copy_optimization() {
    let mut arena = ArenaContext::new();
    let mut compiler = IncrementalCompiler::new();

    let a = arena.atomic(0, 100, 0x01, vec![1]);
    let b = arena.atomic(1, 100, 0x01, vec![2]);
    let ab = arena.parallel(a, b).unwrap();

    let c = arena.atomic(2, 50, 0x01, vec![3]);
    let d = arena.atomic(3, 50, 0x01, vec![4]);
    let cd = arena.parallel(c, d).unwrap();

    let result = arena.sequential(ab, cd);
    let events = compiler.compile(&arena, result);

    assert_eq!(events.len(), 4);
    assert_eq!(events[0].time, 0);
    assert_eq!(events[1].time, 0);
    assert_eq!(events[2].time, 100);
    assert_eq!(events[3].time, 100);

    for i in 1..events.len() {
        assert!(events[i - 1].time <= events[i].time);
    }
}

#[test]
fn test_interleaved_merge() {
    let mut arena = ArenaContext::new();
    let mut compiler = IncrementalCompiler::new();

    let a1 = arena.atomic(0, 10, 0x01, vec![1]);
    let a2 = arena.atomic(0, 90, 0x02, vec![2]);
    let a = arena.sequential(a1, a2);

    let b_wait = arena.atomic(1, 50, 0x00, vec![3]);
    let b_op = arena.atomic(1, 100, 0x01, vec![4]);
    let b = arena.sequential(b_wait, b_op);

    let ab = arena.parallel(a, b).unwrap();
    let events = compiler.compile(&arena, ab);

    assert_eq!(events.len(), 4);
    assert_eq!(events[0].time, 0);
    assert_eq!(events[1].time, 0);
    assert_eq!(events[2].time, 10);
    assert_eq!(events[3].time, 50);
}

#[test]
fn test_cache_reuse_across_trees() {
    let mut arena = ArenaContext::new();
    let mut compiler = IncrementalCompiler::new();

    let base = arena.atomic(0, 100, 0x01, vec![1, 2, 3]);
    let other = arena.atomic(1, 50, 0x02, vec![4, 5]);
    let shared_sub = arena.sequential(base, other);

    let mut trees = Vec::new();
    for i in 0..10 {
        let leaf = arena.atomic(2, 10 * i, 0x01, vec![i as u8]);
        trees.push(arena.sequential(shared_sub, leaf));
    }

    for tree in trees {
        compiler.compile(&arena, tree);
    }

    let stats = compiler.stats();
    assert!(stats.cache_hits >= 9);
}

#[test]
fn test_merge_empty() {
    let a: Vec<FlatEvent> = vec![];
    let b = vec![
        FlatEvent { time: 0, channel_id: 0, opcode: 0x01, data: Arc::new(vec![1]) },
    ];

    let merged = merge_sorted_events(&a, &b);
    assert_eq!(merged.len(), 1);
    assert_eq!(merged[0].time, 0);
}

#[test]
fn test_merge_block_copy() {
    let a = vec![
        FlatEvent { time: 0, channel_id: 0, opcode: 0x01, data: Arc::new(vec![1]) },
        FlatEvent { time: 10, channel_id: 0, opcode: 0x01, data: Arc::new(vec![2]) },
    ];
    let b = vec![
        FlatEvent { time: 20, channel_id: 1, opcode: 0x01, data: Arc::new(vec![3]) },
        FlatEvent { time: 30, channel_id: 1, opcode: 0x01, data: Arc::new(vec![4]) },
    ];

    let merged = merge_sorted_events(&a, &b);
    assert_eq!(merged.len(), 4);
    assert_eq!(merged[0].time, 0);
    assert_eq!(merged[1].time, 10);
    assert_eq!(merged[2].time, 20);
    assert_eq!(merged[3].time, 30);
}

#[test]
fn test_merge_stability_on_ties() {
    let a = vec![
        FlatEvent { time: 5, channel_id: 0, opcode: 0x0a, data: Arc::new(vec![1]) },
        FlatEvent { time: 5, channel_id: 0, opcode: 0x0b, data: Arc::new(vec![2]) },
    ];
    let b = vec![
        FlatEvent { time: 5, channel_id: 1, opcode: 0x0c, data: Arc::new(vec![3]) },
    ];

    // equal-time events of the left stream precede those of the right
    let merged = merge_sorted_events(&a, &b);
    assert_eq!(merged.len(), 3);
    assert_eq!(merged[0].opcode, 0x0a);
    assert_eq!(merged[1].opcode, 0x0b);
    assert_eq!(merged[2].opcode, 0x0c);
}

#[test]
fn test_block_copy_matches_two_pointer_merge() {
    // a time-disjoint pair merges to plain concatenation
    let a = vec![
        FlatEvent { time: 0, channel_id: 0, opcode: 0x01, data: Arc::new(vec![1]) },
        FlatEvent { time: 4, channel_id: 0, opcode: 0x02, data: Arc::new(vec![2]) },
    ];
    let b = vec![
        FlatEvent { time: 5, channel_id: 1, opcode: 0x03, data: Arc::new(vec![3]) },
        FlatEvent { time: 9, channel_id: 1, opcode: 0x04, data: Arc::new(vec![4]) },
    ];
    let merged = merge_sorted_events(&a, &b);
    let opcodes: Vec<u16> = merged.iter().map(|e| e.opcode).collect();
    assert_eq!(opcodes, vec![0x01, 0x02, 0x03, 0x04]);

    // and with the sides swapped, the later stream follows the earlier one
    let merged_rev = merge_sorted_events(&b, &a);
    let opcodes_rev: Vec<u16> = merged_rev.iter().map(|e| e.opcode).collect();
    assert_eq!(opcodes_rev, vec![0x01, 0x02, 0x03, 0x04]);
}

#[test]
fn test_flat_and_incremental_agree() {
    let mut arena = ArenaContext::new();
    let mut compiler = IncrementalCompiler::new();

    let a1 = arena.atomic(0, 10, 0x01, vec![1]);
    let a2 = arena.atomic(0, 90, 0x02, vec![2]);
    let a = arena.sequential(a1, a2);
    let b = arena.atomic(1, 60, 0x03, vec![3]);
    let ab = arena.parallel(a, b).unwrap();
    let c = arena.atomic(2, 5, 0x04, vec![4]);
    let root = arena.sequential(ab, c);

    let flat = compile(&arena, root);
    let memo = compiler.compile(&arena, root);
    assert_eq!(flat.len(), memo.len());
    for (x, y) in flat.iter().zip(memo.iter()) {
        assert_eq!(x.time, y.time);
        assert_eq!(x.channel_id, y.channel_id);
        assert_eq!(x.opcode, y.opcode);
        assert_eq!(*x.data, *y.data);
    }
}

#[test]
fn test_clear_resets_counters() {
    let mut arena = ArenaContext::new();
    let mut compiler = IncrementalCompiler::new();
    let a = arena.atomic(0, 1, 0x01, vec![]);
    compiler.compile(&arena, a);
    compiler.compile(&arena, a);
    assert!(compiler.stats().cache_hits >= 1);
    compiler.clear();
    let stats = compiler.stats();
    assert_eq!(stats.cached_nodes, 0);
    assert_eq!(stats.cache_hits, 0);
    assert_eq!(stats.cache_misses, 0);
}

#[test]
fn test_hit_and_miss_accounting() {
    let mut arena = ArenaContext::new();
    let mut compiler = IncrementalCompiler::new();
    let a = arena.atomic(0, 5, 0x01, vec![1]);
    let b = arena.atomic(1, 7, 0x02, vec![2]);
    let ab = arena.sequential(a, b);

    // a fresh tree: one miss per node, no hits
    compiler.compile(&arena, ab);
    let first = compiler.stats();
    assert_eq!(first.cache_misses, 3);
    assert_eq!(first.cache_hits, 0);
    assert_eq!(first.cached_nodes, 3);

    // an immediate repeat is served from the cache
    compiler.compile(&arena, ab);
    let second = compiler.stats();
    assert_eq!(second.cache_hits, first.cache_hits + 1);
    assert_eq!(second.cache_misses, first.cache_misses);
    assert_eq!(second.cached_nodes, first.cached_nodes);
}
