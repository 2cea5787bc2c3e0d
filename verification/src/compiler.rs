//! One-shot compiler: flatten a morphism tree into a time-sorted event list.
//!
//! The traversal uses an explicit work stack of `(handle, start time)` pairs,
//! so arbitrarily deep trees cannot overflow the native call stack; the
//! collected events are then stably sorted by time.

use vstd::prelude::*;
use std::sync::Arc;
use crate::arena::{ArenaContext, ChannelId, MorphismData, NodeId, Time, bytes_arc_clone,
    node_duration, size_of, wf_idx};
use crate::semantics::{EventModel, events_of, insert_event, lemma_shifted_zero, lemma_walk_sort,
    sort_events, walk_events};

verus! {

/// One compiled event: when, where, and what.  The payload bytes are shared
/// with the arena node that produced them, not copied.
pub struct FlatEvent {
    pub time: Time,
    pub channel_id: ChannelId,
    pub opcode: u16,
    pub data: Arc<Vec<u8>>,
}

impl View for FlatEvent {
    type V = EventModel;

    open spec fn view(&self) -> EventModel {
        EventModel {
            time: self.time as int,
            channel_id: self.channel_id,
            opcode: self.opcode,
            data: self.data@,
        }
    }
}

impl DeepView for FlatEvent {
    type V = EventModel;

    open spec fn deep_view(&self) -> EventModel {
        self@
    }
}

/// Copy an event; the payload handle is cloned, not the bytes.
pub fn clone_event(e: &FlatEvent) -> (r: FlatEvent)
    ensures
        r@ == e@,
        r.time == e.time,
{
    FlatEvent {
        time: e.time,
        channel_id: e.channel_id,
        opcode: e.opcode,
        data: bytes_arc_clone(&e.data),
    }
}

/// The events still owed by the work stack, in the order they will be
/// emitted: the top of the stack is walked first.
pub open spec fn stack_events(nodes: Seq<MorphismData>, st: Seq<(NodeId, Time)>) -> Seq<EventModel>
    decreases st.len(),
{
    if st.len() == 0 {
        Seq::empty()
    } else {
        walk_events(nodes, st.last().0 as int, st.last().1 as int) + stack_events(
            nodes,
            st.drop_last(),
        )
    }
}

/// The nodes still to be visited, counted with their subtrees; this is the
/// traversal's termination measure.
pub open spec fn stack_sizes(nodes: Seq<MorphismData>, st: Seq<(NodeId, Time)>) -> nat
    decreases st.len(),
{
    if st.len() == 0 {
        0
    } else {
        size_of(nodes, st.last().0 as int) + stack_sizes(nodes, st.drop_last())
    }
}

/// Pushing two work items owes their walks, in pop order, before the rest.
proof fn lemma_stack_two_push(
    nodes: Seq<MorphismData>,
    rest: Seq<(NodeId, Time)>,
    a: (NodeId, Time),
    b: (NodeId, Time),
)
    ensures
        stack_events(nodes, rest.push(a).push(b)) == walk_events(nodes, b.0 as int, b.1 as int) + (
        walk_events(nodes, a.0 as int, a.1 as int) + stack_events(nodes, rest)),
        stack_sizes(nodes, rest.push(a).push(b)) == size_of(nodes, b.0 as int) + size_of(
            nodes,
            a.0 as int,
        ) + stack_sizes(nodes, rest),
{
    let s1 = rest.push(a);
    let s2 = s1.push(b);
    assert(s2.last() == b);
    assert(s2.drop_last() =~= s1);
    assert(s1.last() == a);
    assert(s1.drop_last() =~= rest);
    assert(stack_events(nodes, s1) == walk_events(nodes, a.0 as int, a.1 as int) + stack_events(
        nodes,
        rest,
    ));
    assert(stack_events(nodes, s2) == walk_events(nodes, b.0 as int, b.1 as int) + stack_events(
        nodes,
        s1,
    ));
    assert(stack_sizes(nodes, s1) == size_of(nodes, a.0 as int) + stack_sizes(nodes, rest));
    assert(stack_sizes(nodes, s2) == size_of(nodes, b.0 as int) + stack_sizes(nodes, s1));
}

/// Stable merge sort by event time: split in half, sort both halves, and
/// merge with the left half winning ties, which keeps equal-time events in
/// their original order.
fn sort_events_vec(input: Vec<FlatEvent>) -> (r: Vec<FlatEvent>)
    ensures
        r.deep_view() == sort_events(input.deep_view()),
    decreases input@.len(),
{
    if input.len() <= 1 {
        proof {
            let v = input.deep_view();
            if v.len() == 0 {
                assert(sort_events(v) =~= v);
            } else {
                assert(v.drop_last() =~= Seq::<EventModel>::empty());
                assert(sort_events(v.drop_last()) == Seq::<EventModel>::empty());
                assert(sort_events(v) == insert_event(v.last(), Seq::<EventModel>::empty()));
                assert(sort_events(v) =~= v);
            }
        }
        return input;
    }
    let ghost whole = input.deep_view();
    let mut left = input;
    let mid = left.len() / 2;
    let right = left.split_off(mid);
    let ghost lv = left.deep_view();
    let ghost rv = right.deep_view();
    proof {
        assert(lv =~= whole.take(mid as int));
        assert(rv =~= whole.skip(mid as int));
        assert(lv + rv =~= whole);
    }
    let sl = sort_events_vec(left);
    let sr = sort_events_vec(right);
    proof {
        crate::semantics::lemma_sort_sorted(lv);
        crate::semantics::lemma_sort_sorted(rv);
        crate::semantics::lemma_sort_concat(lv, rv);
    }
    crate::incremental::merge_sorted_events(&sl, &sr)
}

/// Compile a morphism into its flat event list: a stack-driven depth-first
/// walk collects one event per atomic leaf, and a stable sort by time puts
/// simultaneous events in traversal order.  The result is exactly the
/// node's event stream `events_of`, the same stream the memoizing compiler
/// produces.
pub fn compile(arena: &ArenaContext, root: NodeId) -> (r: Vec<FlatEvent>)
    requires
        arena.wf(),
        root < arena@.len(),
    ensures
        r.deep_view() == events_of(arena@, root as int),
        r@.len() == crate::arena::leaves_of(arena@, root as int),
{
    proof {
        crate::semantics::lemma_events_of_len(arena@, root as int);
    }
    let ghost nodes = arena@;
    let ghost goal = walk_events(nodes, root as int, 0);
    let ghost dur_root = node_duration(nodes[root as int]) as int;
    let mut stack: Vec<(NodeId, Time)> = Vec::new();
    stack.push((root, 0));
    let mut events: Vec<FlatEvent> = Vec::new();
    proof {
        assert(stack@.last() == (root, 0u64));
        assert(stack@.drop_last() =~= Seq::<(NodeId, Time)>::empty());
        assert(stack_events(nodes, stack@.drop_last()) == Seq::<EventModel>::empty());
        assert(stack_events(nodes, stack@) == goal + Seq::<EventModel>::empty());
        assert(goal + Seq::<EventModel>::empty() =~= goal);
        assert(events.deep_view() =~= Seq::<EventModel>::empty());
        assert(events.deep_view() + stack_events(nodes, stack@) =~= goal);
    }
    while stack.len() > 0
        invariant
            arena.wf(),
            arena@ == nodes,
            root < nodes.len(),
            dur_root == node_duration(nodes[root as int]) as int,
            events.deep_view() + stack_events(nodes, stack@) == goal,
            forall|k: int| 0 <= k < stack@.len() ==> (#[trigger] stack@[k]).0 < nodes.len()
                && stack@[k].1 as int + node_duration(nodes[stack@[k].0 as int]) as int
                <= dur_root,
        decreases stack_sizes(nodes, stack@),
    {
        let ghost pre_stack = stack@;
        let (h, t) = stack.pop().unwrap();
        proof {
            assert(pre_stack.last() == (h, t));
            assert(stack@ =~= pre_stack.drop_last());
        }
        let ghost rest = stack@;
        let node = arena.get(h);
        proof {
            assert(wf_idx(nodes, h as int));
            assert(stack_events(nodes, pre_stack) == walk_events(nodes, h as int, t as int)
                + stack_events(nodes, rest));
            assert(stack_sizes(nodes, pre_stack) == size_of(nodes, h as int) + stack_sizes(
                nodes,
                rest,
            ));
        }
        match node {
            MorphismData::Atomic { channel_id, payload, .. } => {
                let ghost pre_events = events.deep_view();
                events.push(
                    FlatEvent {
                        time: t,
                        channel_id: *channel_id,
                        opcode: payload.opcode,
                        data: bytes_arc_clone(&payload.data),
                    },
                );
                proof {
                    let e = EventModel {
                        time: t as int,
                        channel_id: *channel_id,
                        opcode: payload.opcode,
                        data: payload.data@,
                    };
                    assert(walk_events(nodes, h as int, t as int) =~= seq![e]);
                    assert(events.deep_view() =~= pre_events.push(e));
                    assert(events.deep_view() + stack_events(nodes, rest) =~= pre_events + (seq![e]
                        + stack_events(nodes, rest)));
                }
            },
            MorphismData::Sequential { lhs, rhs, .. } => {
                let dl = arena.get(*lhs).duration();
                let lhs_v = *lhs;
                let rhs_v = *rhs;
                stack.push((rhs_v, t + dl));
                stack.push((lhs_v, t));
                proof {
                    let wl = walk_events(nodes, lhs_v as int, t as int);
                    let wr = walk_events(nodes, rhs_v as int, t as int + dl as int);
                    assert(walk_events(nodes, h as int, t as int) == wl + wr);
                    let ea = ((rhs_v, (t + dl) as Time));
                    let eb = ((lhs_v, t));
                    assert(stack@ == rest.push(ea).push(eb));
                    lemma_stack_two_push(nodes, rest, ea, eb);
                    assert(stack_events(nodes, stack@) == wl + (wr + stack_events(nodes, rest)));
                    assert(events.deep_view() + stack_events(nodes, stack@) =~= events.deep_view()
                        + ((wl + wr) + stack_events(nodes, rest)));
                    assert(size_of(nodes, h as int) == 1 + size_of(nodes, lhs_v as int) + size_of(
                        nodes,
                        rhs_v as int,
                    ));
                    assert(stack_sizes(nodes, stack@) < stack_sizes(nodes, pre_stack));
                }
            },
            MorphismData::Parallel { lhs, rhs, .. } => {
                let lhs_v = *lhs;
                let rhs_v = *rhs;
                stack.push((rhs_v, t));
                stack.push((lhs_v, t));
                proof {
                    let wl = walk_events(nodes, lhs_v as int, t as int);
                    let wr = walk_events(nodes, rhs_v as int, t as int);
                    assert(walk_events(nodes, h as int, t as int) == wl + wr);
                    let ea = ((rhs_v, t));
                    let eb = ((lhs_v, t));
                    assert(stack@ == rest.push(ea).push(eb));
                    lemma_stack_two_push(nodes, rest, ea, eb);
                    assert(stack_events(nodes, stack@) == wl + (wr + stack_events(nodes, rest)));
                    assert(events.deep_view() + stack_events(nodes, stack@) =~= events.deep_view()
                        + ((wl + wr) + stack_events(nodes, rest)));
                    assert(size_of(nodes, h as int) == 1 + size_of(nodes, lhs_v as int) + size_of(
                        nodes,
                        rhs_v as int,
                    ));
                    assert(stack_sizes(nodes, stack@) < stack_sizes(nodes, pre_stack));
                }
            },
        }
    }
    proof {
        assert(stack_events(nodes, stack@) =~= Seq::<EventModel>::empty());
        assert(events.deep_view() =~= goal);
        lemma_walk_sort(nodes, root as int, 0);
        lemma_shifted_zero(events_of(nodes, root as int));
    }
    sort_events_vec(events)
}

/// The board a channel belongs to: the high 16 bits of the channel id.
pub open spec fn board_of_channel(ch: ChannelId) -> u16 {
    (ch >> 16) as u16
}

/// The board a compiled event belongs to.
pub open spec fn board_of(e: EventModel) -> u16 {
    board_of_channel(e.channel_id)
}

/// Extract the board id from a channel id.
pub fn board_id(ch: ChannelId) -> (b: u16)
    ensures
        b == board_of_channel(ch),
{
    proof {
        assert(ch >> 16 <= 0xFFFFu32) by (bit_vector);
    }
    (ch >> 16) as u16
}

/// The events of a stream that belong to one board, in stream order.
pub open spec fn board_events(s: Seq<EventModel>, b: u16) -> Seq<EventModel>
    decreases s.len(),
{
    if s.len() == 0 {
        Seq::empty()
    } else if board_of(s[0]) == b {
        seq![s[0]] + board_events(s.drop_first(), b)
    } else {
        board_events(s.drop_first(), b)
    }
}

proof fn lemma_board_events_push(s: Seq<EventModel>, e: EventModel, b: u16)
    ensures
        board_events(s.push(e), b) == if board_of(e) == b {
            board_events(s, b).push(e)
        } else {
            board_events(s, b)
        },
    decreases s.len(),
{
    let sp = s.push(e);
    if s.len() == 0 {
        assert(sp[0] == e);
        assert(sp.drop_first() =~= Seq::<EventModel>::empty());
        assert(board_events(sp.drop_first(), b) == Seq::<EventModel>::empty());
        assert(board_events(s, b) == Seq::<EventModel>::empty());
        if board_of(e) == b {
            assert(board_events(sp, b) == seq![e] + board_events(sp.drop_first(), b));
            assert(seq![e] + Seq::<EventModel>::empty() =~= board_events(s, b).push(e));
        } else {
            assert(board_events(sp, b) == board_events(sp.drop_first(), b));
        }
    } else {
        assert(sp[0] == s[0]);
        assert(sp.drop_first() =~= s.drop_first().push(e));
        lemma_board_events_push(s.drop_first(), e, b);
        if board_of(s[0]) == b {
            assert(board_events(sp, b) == seq![s[0]] + board_events(sp.drop_first(), b));
            assert(board_events(s, b) == seq![s[0]] + board_events(s.drop_first(), b));
            if board_of(e) == b {
                assert(seq![s[0]] + board_events(s.drop_first(), b).push(e) =~= (seq![s[0]]
                    + board_events(s.drop_first(), b)).push(e));
            }
        } else {
            assert(board_events(sp, b) == board_events(sp.drop_first(), b));
            assert(board_events(s, b) == board_events(s.drop_first(), b));
        }
    }
}

/// A stream with an event on board `b` filters to something on board `b`.
proof fn lemma_board_events_member(s: Seq<EventModel>, b: u16, k: int)
    requires
        0 <= k < s.len(),
        board_of(s[k]) == b,
    ensures
        board_events(s, b).len() > 0,
    decreases s.len(),
{
    if board_of(s[0]) != b {
        assert(s.drop_first()[k - 1] == s[k]);
        lemma_board_events_member(s.drop_first(), b, k - 1);
    }
}

/// A nonempty filtered stream proves the stream holds an event of the board.
proof fn lemma_board_events_witness(s: Seq<EventModel>, b: u16) -> (k: int)
    requires
        board_events(s, b).len() > 0,
    ensures
        0 <= k < s.len(),
        board_of(s[k]) == b,
    decreases s.len(),
{
    if s.len() == 0 {
        0
    } else if board_of(s[0]) == b {
        0
    } else {
        let k = lemma_board_events_witness(s.drop_first(), b);
        assert(s.drop_first()[k] == s[k + 1]);
        k + 1
    }
}

/// Whether a board id occurs in a key list.
pub open spec fn key_listed(ks: Seq<u16>, b: u16) -> bool {
    exists|m: int| 0 <= m < ks.len() && ks[m] == b
}

/// Whether some event of the stream lies on the given board.
pub open spec fn board_used(s: Seq<EventModel>, b: u16) -> bool {
    exists|j: int| 0 <= j < s.len() && board_of(#[trigger] s[j]) == b
}

/// Compile a morphism and split its events by board, the high 16 bits of the
/// channel id.  Each listed board keeps its events in compiled order; every
/// event goes to exactly one board, and exactly the boards with events are
/// listed.
pub fn compile_by_board(arena: &ArenaContext, root: NodeId) -> (r: Vec<(u16, Vec<FlatEvent>)>)
    requires
        arena.wf(),
        root < arena@.len(),
    ensures
        forall|p: int, q: int| 0 <= p < q < r@.len() ==> (#[trigger] r@[p]).0
            != (#[trigger] r@[q]).0,
        forall|k: int| 0 <= k < r@.len() ==> (#[trigger] r@[k]).1.deep_view() == board_events(
            events_of(arena@, root as int),
            r@[k].0,
        ),
        forall|b: u16| key_listed(r@.map_values(|p: (u16, Vec<FlatEvent>)| p.0), b)
            <==> board_used(events_of(arena@, root as int), b),
{
    let events = compile(arena, root);
    let ghost all = events.deep_view();

    // first pass: the distinct boards, in order of first appearance
    let mut keys: Vec<u16> = Vec::new();
    let mut i: usize = 0;
    while i < events.len()
        invariant
            i <= events.len(),
            all == events.deep_view(),
            events.len() == all.len(),
            forall|j: int| 0 <= j < i ==> key_listed(keys@, board_of(#[trigger] all[j])),
            forall|b: u16| key_listed(keys@, b) ==> board_used(all, b),
            forall|p: int, q: int| 0 <= p < q < keys@.len() ==> keys@[p] != keys@[q],
        decreases events.len() - i,
    {
        let b = board_id(events[i].channel_id);
        proof {
            assert(b == board_of(all[i as int]));
        }
        let mut k: usize = 0;
        let mut present = false;
        while k < keys.len() && !present
            invariant
                k <= keys@.len(),
                present ==> key_listed(keys@, b),
                !present ==> forall|m: int| 0 <= m < k ==> keys@[m] != b,
            decreases keys@.len() - k + if present { 0int } else { 1int },
        {
            if keys[k] == b {
                present = true;
            } else {
                k = k + 1;
            }
        }
        if !present {
            let ghost pre_keys = keys@;
            keys.push(b);
            proof {
                assert(keys@[keys@.len() - 1] == b);
                assert forall|p: int, q: int| 0 <= p < q < keys@.len() implies keys@[p]
                    != keys@[q] by {
                    if q < keys@.len() - 1 {
                        assert(pre_keys[p] != pre_keys[q]);
                    } else {
                        assert(keys@[p] == pre_keys[p]);
                    }
                }
                assert forall|j: int| 0 <= j < i + 1 implies key_listed(
                    keys@,
                    board_of(#[trigger] all[j]),
                ) by {
                    if j < i {
                        let m = choose|m: int| 0 <= m < pre_keys.len() && pre_keys[m] == board_of(
                            all[j],
                        );
                        assert(keys@[m] == board_of(all[j]));
                    } else {
                        assert(keys@[keys@.len() - 1] == board_of(all[j]));
                    }
                }
                assert forall|b2: u16| key_listed(keys@, b2) implies board_used(all, b2) by {
                    let m = choose|m: int| 0 <= m < keys@.len() && keys@[m] == b2;
                    if m < pre_keys.len() {
                        assert(key_listed(pre_keys, b2));
                    } else {
                        assert(board_of(all[i as int]) == b2);
                    }
                }
            }
        } else {
            proof {
                assert forall|j: int| 0 <= j < i + 1 implies key_listed(
                    keys@,
                    board_of(#[trigger] all[j]),
                ) by {
                    if j == i {
                        assert(key_listed(keys@, b));
                    }
                }
            }
        }
        i = i + 1;
    }

    // second pass: one filtered bucket per board
    let mut grouped: Vec<(u16, Vec<FlatEvent>)> = Vec::new();
    let mut k: usize = 0;
    while k < keys.len()
        invariant
            k <= keys@.len(),
            all == events.deep_view(),
            events.len() == all.len(),
            grouped@.len() == k,
            forall|j: int| 0 <= j < all.len() ==> key_listed(keys@, board_of(#[trigger] all[j])),
            forall|b: u16| key_listed(keys@, b) ==> board_used(all, b),
            forall|p: int, q: int| 0 <= p < q < keys@.len() ==> keys@[p] != keys@[q],
            forall|m: int| 0 <= m < k ==> (#[trigger] grouped@[m]).0 == keys@[m],
            forall|m: int| 0 <= m < k ==> (#[trigger] grouped@[m]).1.deep_view() == board_events(
                all,
                keys@[m],
            ),
        decreases keys@.len() - k,
    {
        let key = keys[k];
        let mut bucket: Vec<FlatEvent> = Vec::new();
        let mut i2: usize = 0;
        proof {
            assert(bucket.deep_view() =~= Seq::<EventModel>::empty());
            assert(all.take(0) =~= Seq::<EventModel>::empty());
        }
        while i2 < events.len()
            invariant
                i2 <= events.len(),
                all == events.deep_view(),
                events.len() == all.len(),
                key == keys@[k as int],
                bucket.deep_view() == board_events(all.take(i2 as int), key),
            decreases events.len() - i2,
        {
            let ghost pre = bucket.deep_view();
            let b = board_id(events[i2].channel_id);
            proof {
                assert(b == board_of(all[i2 as int]));
            }
            if b == key {
                bucket.push(clone_event(&events[i2]));
                proof {
                    assert(bucket.deep_view() =~= pre.push(all[i2 as int]));
                }
            }
            proof {
                assert(all.take(i2 + 1) =~= all.take(i2 as int).push(all[i2 as int]));
                lemma_board_events_push(all.take(i2 as int), all[i2 as int], key);
            }
            i2 = i2 + 1;
        }
        proof {
            assert(all.take(all.len() as int) =~= all);
        }
        grouped.push((key, bucket));
        k = k + 1;
    }
    proof {
        let ghost listed = grouped@.map_values(|p: (u16, Vec<FlatEvent>)| p.0);
        assert(listed.len() == keys@.len());
        assert(forall|m: int| 0 <= m < listed.len() ==> listed[m] == keys@[m]);
        assert forall|b: u16| key_listed(listed, b) implies board_used(all, b) by {
            let m = choose|m: int| 0 <= m < listed.len() && listed[m] == b;
            assert(key_listed(keys@, b));
        }
        assert forall|b: u16| board_used(all, b) implies key_listed(listed, b) by {
            let j = choose|j: int| 0 <= j < all.len() && board_of(#[trigger] all[j]) == b;
            assert(key_listed(keys@, board_of(all[j])));
            let m = choose|m: int| 0 <= m < keys@.len() && keys@[m] == b;
            assert(listed[m] == b);
        }
    }
    grouped
}

} // verus!