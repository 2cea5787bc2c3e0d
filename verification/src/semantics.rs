//! The mathematical meaning of compilation.
//!
//! A compiled program is a time-sorted sequence of events.  This module
//! defines that sequence for every arena node — `events_of` — together with
//! the stable merge and stable sort it is built from, and proves the algebra
//! that the two compilers rely on: merging sorted streams, concatenating
//! time-disjoint streams, and the equivalence of "traverse then stable-sort"
//! with "merge recursively".

use vstd::prelude::*;
use crate::arena::{ChannelId, MorphismData, node_duration, leaves_of, wf_idx, wf_nodes};

verus! {

/// Model of one compiled event: a timestamp, a channel, and the opaque
/// payload.
pub struct EventModel {
    pub time: int,
    pub channel_id: ChannelId,
    pub opcode: u16,
    pub data: Seq<u8>,
}

pub open spec fn sorted_events(s: Seq<EventModel>) -> bool {
    forall|i: int, j: int| 0 <= i < j < s.len() ==> s[i].time <= s[j].time
}

/// The same events, each moved later by `d`.
pub open spec fn shifted(s: Seq<EventModel>, d: int) -> Seq<EventModel> {
    Seq::new(
        s.len(),
        |i: int|
            EventModel {
                time: s[i].time + d,
                channel_id: s[i].channel_id,
                opcode: s[i].opcode,
                data: s[i].data,
            },
    )
}

/// Ordered merge of two event streams; on equal times the left stream wins.
pub open spec fn merge_events(a: Seq<EventModel>, b: Seq<EventModel>) -> Seq<EventModel>
    decreases a.len() + b.len(),
{
    if a.len() == 0 {
        b
    } else if b.len() == 0 {
        a
    } else if a[0].time <= b[0].time {
        seq![a[0]] + merge_events(a.drop_first(), b)
    } else {
        seq![b[0]] + merge_events(a, b.drop_first())
    }
}

/// Insert an event arriving after every element of `s`: it goes after all
/// elements with its own time or an earlier one.
pub open spec fn insert_event(e: EventModel, s: Seq<EventModel>) -> Seq<EventModel>
    decreases s.len(),
{
    if s.len() == 0 {
        seq![e]
    } else if s[0].time <= e.time {
        seq![s[0]] + insert_event(e, s.drop_first())
    } else {
        seq![e] + s
    }
}

/// Stable sort by time: elements are inserted left to right, so elements
/// with equal times keep their original order.
pub open spec fn sort_events(s: Seq<EventModel>) -> Seq<EventModel>
    decreases s.len(),
{
    if s.len() == 0 {
        Seq::empty()
    } else {
        insert_event(s.last(), sort_events(s.drop_last()))
    }
}

/// The compiled meaning of node `i`, with times local to the node's own
/// zero: an atomic is a single event at time 0, a serial composition
/// concatenates with the right side shifted by the left duration, and a
/// parallel composition merges.
pub open spec fn events_of(nodes: Seq<MorphismData>, i: int) -> Seq<EventModel>
    decreases i,
{
    if 0 <= i < nodes.len() {
        match nodes[i] {
            MorphismData::Atomic { channel_id, duration, payload } => seq![
                EventModel {
                    time: 0,
                    channel_id,
                    opcode: payload.opcode,
                    data: payload.data@,
                },
            ],
            MorphismData::Sequential { lhs, rhs, .. } => if lhs < i && rhs < i {
                events_of(nodes, lhs as int) + shifted(
                    events_of(nodes, rhs as int),
                    node_duration(nodes[lhs as int]) as int,
                )
            } else {
                Seq::empty()
            },
            MorphismData::Parallel { lhs, rhs, .. } => if lhs < i && rhs < i {
                merge_events(events_of(nodes, lhs as int), events_of(nodes, rhs as int))
            } else {
                Seq::empty()
            },
        }
    } else {
        Seq::empty()
    }
}

/// The events of node `i` in depth-first traversal order, with absolute
/// start time `t`: left child first, the right child of a serial node offset
/// by the left duration.
pub open spec fn walk_events(nodes: Seq<MorphismData>, i: int, t: int) -> Seq<EventModel>
    decreases i,
{
    if 0 <= i < nodes.len() {
        match nodes[i] {
            MorphismData::Atomic { channel_id, duration, payload } => seq![
                EventModel {
                    time: t,
                    channel_id,
                    opcode: payload.opcode,
                    data: payload.data@,
                },
            ],
            MorphismData::Sequential { lhs, rhs, .. } => if lhs < i && rhs < i {
                walk_events(nodes, lhs as int, t) + walk_events(
                    nodes,
                    rhs as int,
                    t + node_duration(nodes[lhs as int]) as int,
                )
            } else {
                Seq::empty()
            },
            MorphismData::Parallel { lhs, rhs, .. } => if lhs < i && rhs < i {
                walk_events(nodes, lhs as int, t) + walk_events(nodes, rhs as int, t)
            } else {
                Seq::empty()
            },
        }
    } else {
        Seq::empty()
    }
}

/// Whether every atomic leaf under node `i` has a positive duration.
pub open spec fn leaves_positive(nodes: Seq<MorphismData>, i: int) -> bool
    decreases i,
{
    if 0 <= i < nodes.len() {
        match nodes[i] {
            MorphismData::Atomic { duration, .. } => duration > 0,
            MorphismData::Sequential { lhs, rhs, .. } => if lhs < i && rhs < i {
                leaves_positive(nodes, lhs as int) && leaves_positive(nodes, rhs as int)
            } else {
                true
            },
            MorphismData::Parallel { lhs, rhs, .. } => if lhs < i && rhs < i {
                leaves_positive(nodes, lhs as int) && leaves_positive(nodes, rhs as int)
            } else {
                true
            },
        }
    } else {
        true
    }
}

// ---------------------------------------------------------------------------
// Merge: length, order, membership.
// ---------------------------------------------------------------------------

pub proof fn lemma_merge_len(a: Seq<EventModel>, b: Seq<EventModel>)
    ensures
        merge_events(a, b).len() == a.len() + b.len(),
    decreases a.len() + b.len(),
{
    if a.len() == 0 || b.len() == 0 {
    } else if a[0].time <= b[0].time {
        lemma_merge_len(a.drop_first(), b);
    } else {
        lemma_merge_len(a, b.drop_first());
    }
}

/// Every element of the merge satisfies any property that every element of
/// both inputs satisfies.
pub proof fn lemma_merge_all(a: Seq<EventModel>, b: Seq<EventModel>, p: spec_fn(EventModel) -> bool)
    requires
        forall|k: int| 0 <= k < a.len() ==> p(#[trigger] a[k]),
        forall|k: int| 0 <= k < b.len() ==> p(#[trigger] b[k]),
    ensures
        forall|k: int| 0 <= k < merge_events(a, b).len() ==> p(#[trigger] merge_events(a, b)[k]),
    decreases a.len() + b.len(),
{
    let m = merge_events(a, b);
    if a.len() == 0 || b.len() == 0 {
    } else if a[0].time <= b[0].time {
        assert(forall|k: int| 0 <= k < a.drop_first().len() ==> p(#[trigger] a.drop_first()[k]));
        lemma_merge_all(a.drop_first(), b, p);
        let rest = merge_events(a.drop_first(), b);
        assert forall|k: int| 0 <= k < m.len() implies p(m[k]) by {
            if k == 0 {
                assert(m[0] == a[0]);
            } else {
                assert(m[k] == rest[k - 1]);
            }
        }
    } else {
        assert(forall|k: int| 0 <= k < b.drop_first().len() ==> p(#[trigger] b.drop_first()[k]));
        lemma_merge_all(a, b.drop_first(), p);
        let rest = merge_events(a, b.drop_first());
        assert forall|k: int| 0 <= k < m.len() implies p(m[k]) by {
            if k == 0 {
                assert(m[0] == b[0]);
            } else {
                assert(m[k] == rest[k - 1]);
            }
        }
    }
}

pub proof fn lemma_merge_sorted(a: Seq<EventModel>, b: Seq<EventModel>)
    requires
        sorted_events(a),
        sorted_events(b),
    ensures
        sorted_events(merge_events(a, b)),
    decreases a.len() + b.len(),
{
    if a.len() == 0 || b.len() == 0 {
    } else if a[0].time <= b[0].time {
        assert(sorted_events(a.drop_first()));
        lemma_merge_sorted(a.drop_first(), b);
        let rest = merge_events(a.drop_first(), b);
        let head = a[0];
        lemma_merge_all(
            a.drop_first(),
            b,
            |e: EventModel| e.time >= head.time,
        );
        let m = merge_events(a, b);
        assert(m == seq![head] + rest);
        assert forall|i: int, j: int| 0 <= i < j < m.len() implies m[i].time <= m[j].time by {
            if i == 0 {
                assert(m[j] == rest[j - 1]);
            } else {
                assert(m[i] == rest[i - 1]);
                assert(m[j] == rest[j - 1]);
            }
        }
    } else {
        assert(sorted_events(b.drop_first()));
        lemma_merge_sorted(a, b.drop_first());
        let rest = merge_events(a, b.drop_first());
        let head = b[0];
        lemma_merge_all(
            a,
            b.drop_first(),
            |e: EventModel| e.time >= head.time,
        );
        let m = merge_events(a, b);
        assert(m == seq![head] + rest);
        assert forall|i: int, j: int| 0 <= i < j < m.len() implies m[i].time <= m[j].time by {
            if i == 0 {
                assert(m[j] == rest[j - 1]);
            } else {
                assert(m[i] == rest[i - 1]);
                assert(m[j] == rest[j - 1]);
            }
        }
    }
}

/// Block-copy law: when every event of `a` is no later than every event of
/// `b`, the merge is plain concatenation.
pub proof fn lemma_merge_disjoint(a: Seq<EventModel>, b: Seq<EventModel>)
    requires
        forall|i: int, j: int| 0 <= i < a.len() && 0 <= j < b.len() ==> #[trigger] a[i].time
            <= #[trigger] b[j].time,
    ensures
        merge_events(a, b) == a + b,
    decreases a.len(),
{
    if a.len() == 0 {
        assert(merge_events(a, b) == b);
        assert(a + b =~= b);
    } else if b.len() == 0 {
        assert(a + b =~= a);
    } else {
        assert(a[0].time <= b[0].time);
        assert(forall|i: int, j: int|
            0 <= i < a.drop_first().len() && 0 <= j < b.len() ==> #[trigger] a.drop_first()[i].time
                <= #[trigger] b[j].time);
        lemma_merge_disjoint(a.drop_first(), b);
        assert(seq![a[0]] + (a.drop_first() + b) =~= a + b);
    }
}

// ---------------------------------------------------------------------------
// Insertion and stable sort.
// ---------------------------------------------------------------------------

pub proof fn lemma_insert_len(e: EventModel, s: Seq<EventModel>)
    ensures
        insert_event(e, s).len() == s.len() + 1,
    decreases s.len(),
{
    if s.len() == 0 {
    } else if s[0].time <= e.time {
        lemma_insert_len(e, s.drop_first());
    }
}

pub proof fn lemma_insert_all(e: EventModel, s: Seq<EventModel>, p: spec_fn(EventModel) -> bool)
    requires
        p(e),
        forall|k: int| 0 <= k < s.len() ==> p(#[trigger] s[k]),
    ensures
        forall|k: int| 0 <= k < insert_event(e, s).len() ==> p(#[trigger] insert_event(e, s)[k]),
    decreases s.len(),
{
    let m = insert_event(e, s);
    if s.len() == 0 {
        assert(m[0] == e);
    } else if s[0].time <= e.time {
        assert(forall|k: int| 0 <= k < s.drop_first().len() ==> p(#[trigger] s.drop_first()[k]));
        lemma_insert_all(e, s.drop_first(), p);
        let rest = insert_event(e, s.drop_first());
        assert forall|k: int| 0 <= k < m.len() implies p(m[k]) by {
            if k == 0 {
                assert(m[0] == s[0]);
            } else {
                assert(m[k] == rest[k - 1]);
            }
        }
    } else {
        assert forall|k: int| 0 <= k < m.len() implies p(m[k]) by {
            if k == 0 {
                assert(m[0] == e);
            } else {
                assert(m[k] == s[k - 1]);
            }
        }
    }
}

pub proof fn lemma_insert_sorted(e: EventModel, s: Seq<EventModel>)
    requires
        sorted_events(s),
    ensures
        sorted_events(insert_event(e, s)),
    decreases s.len(),
{
    let m = insert_event(e, s);
    if s.len() == 0 {
    } else if s[0].time <= e.time {
        assert(sorted_events(s.drop_first()));
        lemma_insert_sorted(e, s.drop_first());
        let rest = insert_event(e, s.drop_first());
        lemma_insert_all(
            e,
            s.drop_first(),
            |x: EventModel| x.time >= s[0].time,
        );
        assert forall|i: int, j: int| 0 <= i < j < m.len() implies m[i].time <= m[j].time by {
            if i == 0 {
                assert(m[0] == s[0]);
                assert(m[j] == rest[j - 1]);
            } else {
                assert(m[i] == rest[i - 1]);
                assert(m[j] == rest[j - 1]);
            }
        }
    } else {
        assert forall|i: int, j: int| 0 <= i < j < m.len() implies m[i].time <= m[j].time by {
            if i == 0 {
                assert(m[0] == e);
                assert(m[j] == s[j - 1]);
            } else {
                assert(m[i] == s[i - 1]);
                assert(m[j] == s[j - 1]);
            }
        }
    }
}

pub proof fn lemma_sort_len(s: Seq<EventModel>)
    ensures
        sort_events(s).len() == s.len(),
    decreases s.len(),
{
    if s.len() > 0 {
        lemma_sort_len(s.drop_last());
        lemma_insert_len(s.last(), sort_events(s.drop_last()));
    }
}

pub proof fn lemma_sort_sorted(s: Seq<EventModel>)
    ensures
        sorted_events(sort_events(s)),
    decreases s.len(),
{
    if s.len() > 0 {
        lemma_sort_sorted(s.drop_last());
        lemma_insert_sorted(s.last(), sort_events(s.drop_last()));
    }
}

/// Inserting a later element commutes with merging: an element inserted on
/// the right of a merge can instead be inserted into the right input.
pub proof fn lemma_insert_merge(e: EventModel, a: Seq<EventModel>, b: Seq<EventModel>)
    ensures
        insert_event(e, merge_events(a, b)) == merge_events(a, insert_event(e, b)),
    decreases a.len() + b.len(),
{
    if a.len() == 0 {
    } else if b.len() == 0 {
        // merge of `a` with the single later element `e`
        lemma_insert_single(e, a);
    } else if b[0].time <= e.time {
        if a[0].time <= b[0].time {
            lemma_insert_merge(e, a.drop_first(), b);
            let ib = insert_event(e, b);
            assert(ib == seq![b[0]] + insert_event(e, b.drop_first()));
            assert(ib[0] == b[0]);
            assert(ib.len() > 0);
            assert(merge_events(a, ib) == seq![a[0]] + merge_events(a.drop_first(), ib));
            assert(merge_events(a, b) == seq![a[0]] + merge_events(a.drop_first(), b));
            let rest = merge_events(a.drop_first(), b);
            lemma_merge_first_time(a.drop_first(), b);
            assert(insert_event(e, seq![a[0]] + rest) == seq![a[0]] + insert_event(e, rest)) by {
                lemma_insert_head(e, a[0], rest);
            }
        } else {
            lemma_insert_merge(e, a, b.drop_first());
            let ib = insert_event(e, b);
            assert(ib == seq![b[0]] + insert_event(e, b.drop_first()));
            assert(ib[0] == b[0]);
            assert(ib.drop_first() =~= insert_event(e, b.drop_first()));
            assert(merge_events(a, ib) == seq![b[0]] + merge_events(a, insert_event(e, b.drop_first())));
            assert(merge_events(a, b) == seq![b[0]] + merge_events(a, b.drop_first()));
            let rest = merge_events(a, b.drop_first());
            assert(insert_event(e, seq![b[0]] + rest) == seq![b[0]] + insert_event(e, rest)) by {
                lemma_insert_head(e, b[0], rest);
            }
        }
    } else {
        // e is earlier than all of b, so insert_event(e, b) = e :: b
        let ib = insert_event(e, b);
        assert(ib == seq![e] + b);
        assert(ib[0] == e);
        if a[0].time <= e.time {
            lemma_insert_merge(e, a.drop_first(), b);
            assert(a[0].time <= b[0].time);
            assert(merge_events(a, b) == seq![a[0]] + merge_events(a.drop_first(), b));
            let rest = merge_events(a.drop_first(), b);
            lemma_insert_head(e, a[0], rest);
            assert(a[0].time <= ib[0].time);
            assert(merge_events(a, ib) == seq![a[0]] + merge_events(a.drop_first(), ib));
        } else {
            // both a[0] and b[0] are later than e
            let m = merge_events(a, b);
            assert(m.len() > 0);
            lemma_merge_first_time(a, b);
            assert(m[0].time > e.time);
            assert(insert_event(e, m) == seq![e] + m);
            assert(merge_events(a, ib) == seq![e] + merge_events(a, b)) by {
                assert(ib[0] == e);
                assert(a[0].time > e.time);
                assert(ib.drop_first() =~= b);
            }
        }
    }
}

/// The first element of a nonempty merge is the first element of one input.
pub proof fn lemma_merge_first_time(a: Seq<EventModel>, b: Seq<EventModel>)
    requires
        a.len() + b.len() > 0,
    ensures
        a.len() == 0 ==> merge_events(a, b)[0] == b[0],
        b.len() == 0 ==> merge_events(a, b)[0] == a[0],
        a.len() > 0 && b.len() > 0 ==> merge_events(a, b)[0] == a[0] || merge_events(a, b)[0]
            == b[0],
        merge_events(a, b).len() > 0,
{
    lemma_merge_len(a, b);
    if a.len() == 0 {
    } else if b.len() == 0 {
    } else if a[0].time <= b[0].time {
        assert(merge_events(a, b)[0] == a[0]);
    } else {
        assert(merge_events(a, b)[0] == b[0]);
    }
}

/// Inserting past a head element no later than `e` walks over the head.
pub proof fn lemma_insert_head(e: EventModel, h: EventModel, rest: Seq<EventModel>)
    requires
        h.time <= e.time,
    ensures
        insert_event(e, seq![h] + rest) == seq![h] + insert_event(e, rest),
{
    let s = seq![h] + rest;
    assert(s[0] == h);
    assert(s.len() == 1 + rest.len());
    assert(s.drop_first() =~= rest);
}

/// Inserting a latest element into `a` equals merging `a` with it.
pub proof fn lemma_insert_single(e: EventModel, a: Seq<EventModel>)
    ensures
        merge_events(a, seq![e]) == insert_event(e, a),
    decreases a.len(),
{
    if a.len() == 0 {
    } else if a[0].time <= e.time {
        lemma_insert_single(e, a.drop_first());
        assert(merge_events(a, seq![e]) == seq![a[0]] + merge_events(a.drop_first(), seq![e]));
    } else {
        // merge takes e first, then the rest of a
        assert(seq![e].drop_first() =~= Seq::<EventModel>::empty());
        assert(merge_events(a, seq![e].drop_first()) == a);
        assert(merge_events(a, seq![e]) == seq![e] + a);
    }
}

/// Stable sorting a concatenation merges the two sorted halves; this is the
/// stability law that lets the compilers sort piecewise.
pub proof fn lemma_sort_concat(x: Seq<EventModel>, y: Seq<EventModel>)
    ensures
        sort_events(x + y) == merge_events(sort_events(x), sort_events(y)),
    decreases y.len(),
{
    if y.len() == 0 {
        assert(x + y =~= x);
        let sx = sort_events(x);
        if sx.len() == 0 {
            assert(merge_events(sx, sort_events(y)) == sort_events(y));
            assert(sort_events(y) =~= Seq::<EventModel>::empty());
            assert(sx =~= Seq::<EventModel>::empty());
        } else {
            assert(merge_events(sx, sort_events(y)) == sx);
        }
    } else {
        let yd = y.drop_last();
        let e = y.last();
        let all = x + y;
        assert(all.last() == e);
        assert(all.drop_last() =~= x + yd);
        assert(sort_events(all) == insert_event(e, sort_events(x + yd)));
        lemma_sort_concat(x, yd);
        lemma_insert_merge(e, sort_events(x), sort_events(yd));
        assert(sort_events(y) == insert_event(e, sort_events(yd)));
    }
}

// ---------------------------------------------------------------------------
// Shifting commutes with everything.
// ---------------------------------------------------------------------------

pub open spec fn shifted_event(e: EventModel, d: int) -> EventModel {
    EventModel { time: e.time + d, channel_id: e.channel_id, opcode: e.opcode, data: e.data }
}

pub proof fn lemma_shifted_zero(s: Seq<EventModel>)
    ensures
        shifted(s, 0) == s,
{
    assert(shifted(s, 0) =~= s);
}

pub proof fn lemma_shifted_add(s: Seq<EventModel>, d1: int, d2: int)
    ensures
        shifted(shifted(s, d1), d2) == shifted(s, d1 + d2),
{
    assert(shifted(shifted(s, d1), d2) =~= shifted(s, d1 + d2));
}

pub proof fn lemma_shifted_concat(a: Seq<EventModel>, b: Seq<EventModel>, d: int)
    ensures
        shifted(a + b, d) == shifted(a, d) + shifted(b, d),
{
    assert(shifted(a + b, d) =~= shifted(a, d) + shifted(b, d));
}

pub proof fn lemma_merge_shift(a: Seq<EventModel>, b: Seq<EventModel>, d: int)
    ensures
        merge_events(shifted(a, d), shifted(b, d)) == shifted(merge_events(a, b), d),
    decreases a.len() + b.len(),
{
    let sa = shifted(a, d);
    let sb = shifted(b, d);
    if a.len() == 0 {
        assert(sa.len() == 0);
    } else if b.len() == 0 {
        assert(sb.len() == 0);
    } else if a[0].time <= b[0].time {
        assert(sa[0].time <= sb[0].time);
        lemma_merge_shift(a.drop_first(), b, d);
        assert(sa.drop_first() =~= shifted(a.drop_first(), d));
        assert(merge_events(sa, sb) == seq![sa[0]] + merge_events(shifted(a.drop_first(), d), sb));
        assert(shifted(merge_events(a, b), d) =~= seq![sa[0]] + shifted(
            merge_events(a.drop_first(), b),
            d,
        )) by {
            assert(merge_events(a, b) == seq![a[0]] + merge_events(a.drop_first(), b));
            assert(sa[0] == shifted_event(a[0], d));
        }
    } else {
        assert(sa[0].time > sb[0].time);
        lemma_merge_shift(a, b.drop_first(), d);
        assert(sb.drop_first() =~= shifted(b.drop_first(), d));
        assert(merge_events(sa, sb) == seq![sb[0]] + merge_events(sa, shifted(b.drop_first(), d)));
        assert(shifted(merge_events(a, b), d) =~= seq![sb[0]] + shifted(
            merge_events(a, b.drop_first()),
            d,
        )) by {
            assert(merge_events(a, b) == seq![b[0]] + merge_events(a, b.drop_first()));
            assert(sb[0] == shifted_event(b[0], d));
        }
    }
}

pub proof fn lemma_insert_shift(e: EventModel, s: Seq<EventModel>, d: int)
    ensures
        insert_event(shifted_event(e, d), shifted(s, d)) == shifted(insert_event(e, s), d),
    decreases s.len(),
{
    let se = shifted_event(e, d);
    let ss = shifted(s, d);
    if s.len() == 0 {
        assert(insert_event(se, ss) =~= shifted(insert_event(e, s), d));
    } else if s[0].time <= e.time {
        assert(ss[0].time <= se.time);
        lemma_insert_shift(e, s.drop_first(), d);
        assert(ss.drop_first() =~= shifted(s.drop_first(), d));
        assert(insert_event(se, ss) == seq![ss[0]] + insert_event(se, shifted(s.drop_first(), d)));
        assert(shifted(insert_event(e, s), d) =~= seq![ss[0]] + shifted(
            insert_event(e, s.drop_first()),
            d,
        )) by {
            assert(insert_event(e, s) == seq![s[0]] + insert_event(e, s.drop_first()));
            assert(ss[0] == shifted_event(s[0], d));
        }
    } else {
        assert(ss[0].time > se.time);
        assert(insert_event(se, ss) == seq![se] + ss);
        assert(shifted(insert_event(e, s), d) =~= seq![se] + ss) by {
            assert(insert_event(e, s) == seq![e] + s);
        }
    }
}

pub proof fn lemma_sort_shift(s: Seq<EventModel>, d: int)
    ensures
        sort_events(shifted(s, d)) == shifted(sort_events(s), d),
    decreases s.len(),
{
    let ss = shifted(s, d);
    if s.len() == 0 {
        assert(ss.len() == 0);
        assert(shifted(sort_events(s), d) =~= Seq::<EventModel>::empty());
    } else {
        lemma_sort_shift(s.drop_last(), d);
        assert(ss.last() == shifted_event(s.last(), d));
        assert(ss.drop_last() =~= shifted(s.drop_last(), d));
        assert(sort_events(ss) == insert_event(
            shifted_event(s.last(), d),
            sort_events(shifted(s.drop_last(), d)),
        ));
        lemma_insert_shift(s.last(), sort_events(s.drop_last()), d);
    }
}

// ---------------------------------------------------------------------------
// Bounds, counts and order of a node's events.
// ---------------------------------------------------------------------------

/// Every event of a well-formed node lies in `[0, duration]`.
pub proof fn lemma_events_of_bounds(nodes: Seq<MorphismData>, i: int)
    requires
        wf_nodes(nodes),
        0 <= i < nodes.len(),
    ensures
        forall|k: int| 0 <= k < events_of(nodes, i).len() ==> 0 <= #[trigger] events_of(
            nodes,
            i,
        )[k].time <= node_duration(nodes[i]),
    decreases i,
{
    assert(wf_idx(nodes, i));
    let dur = node_duration(nodes[i]) as int;
    match nodes[i] {
        MorphismData::Atomic { .. } => {},
        MorphismData::Sequential { lhs, rhs, .. } => {
            lemma_events_of_bounds(nodes, lhs as int);
            lemma_events_of_bounds(nodes, rhs as int);
            let el = events_of(nodes, lhs as int);
            let er = shifted(
                events_of(nodes, rhs as int),
                node_duration(nodes[lhs as int]) as int,
            );
            assert forall|k: int| 0 <= k < events_of(nodes, i).len() implies 0 <= #[trigger] events_of(
                nodes,
                i,
            )[k].time <= dur by {
                if k < el.len() {
                    assert(events_of(nodes, i)[k] == el[k]);
                } else {
                    assert(events_of(nodes, i)[k] == er[k - el.len()]);
                }
            }
        },
        MorphismData::Parallel { lhs, rhs, .. } => {
            lemma_events_of_bounds(nodes, lhs as int);
            lemma_events_of_bounds(nodes, rhs as int);
            lemma_merge_all(
                events_of(nodes, lhs as int),
                events_of(nodes, rhs as int),
                |e: EventModel| 0 <= e.time <= dur,
            );
        },
    }
}

/// With every leaf of positive duration, the upper bound is strict.
pub proof fn lemma_events_of_strict_bound(nodes: Seq<MorphismData>, i: int)
    requires
        wf_nodes(nodes),
        0 <= i < nodes.len(),
        leaves_positive(nodes, i),
    ensures
        forall|k: int| 0 <= k < events_of(nodes, i).len() ==> 0 <= #[trigger] events_of(
            nodes,
            i,
        )[k].time < node_duration(nodes[i]),
    decreases i,
{
    assert(wf_idx(nodes, i));
    let dur = node_duration(nodes[i]) as int;
    match nodes[i] {
        MorphismData::Atomic { .. } => {},
        MorphismData::Sequential { lhs, rhs, .. } => {
            lemma_events_of_strict_bound(nodes, lhs as int);
            lemma_events_of_strict_bound(nodes, rhs as int);
            let el = events_of(nodes, lhs as int);
            let er = shifted(
                events_of(nodes, rhs as int),
                node_duration(nodes[lhs as int]) as int,
            );
            assert forall|k: int| 0 <= k < events_of(nodes, i).len() implies 0 <= #[trigger] events_of(
                nodes,
                i,
            )[k].time < dur by {
                if k < el.len() {
                    assert(events_of(nodes, i)[k] == el[k]);
                } else {
                    assert(events_of(nodes, i)[k] == er[k - el.len()]);
                }
            }
        },
        MorphismData::Parallel { lhs, rhs, .. } => {
            lemma_events_of_strict_bound(nodes, lhs as int);
            lemma_events_of_strict_bound(nodes, rhs as int);
            lemma_merge_all(
                events_of(nodes, lhs as int),
                events_of(nodes, rhs as int),
                |e: EventModel| 0 <= e.time < dur,
            );
        },
    }
}

/// A node compiles to exactly one event per atomic leaf.
pub proof fn lemma_events_of_len(nodes: Seq<MorphismData>, i: int)
    requires
        wf_nodes(nodes),
        0 <= i < nodes.len(),
    ensures
        events_of(nodes, i).len() == leaves_of(nodes, i),
    decreases i,
{
    assert(wf_idx(nodes, i));
    match nodes[i] {
        MorphismData::Atomic { .. } => {},
        MorphismData::Sequential { lhs, rhs, .. } => {
            lemma_events_of_len(nodes, lhs as int);
            lemma_events_of_len(nodes, rhs as int);
        },
        MorphismData::Parallel { lhs, rhs, .. } => {
            lemma_events_of_len(nodes, lhs as int);
            lemma_events_of_len(nodes, rhs as int);
            lemma_merge_len(events_of(nodes, lhs as int), events_of(nodes, rhs as int));
        },
    }
}

/// Flattening law: stably sorting the depth-first traversal of a node gives
/// exactly the recursively merged event stream.  This is why the one-shot
/// compiler and the memoizing compiler agree.
pub proof fn lemma_walk_sort(nodes: Seq<MorphismData>, i: int, t: int)
    requires
        wf_nodes(nodes),
        0 <= i < nodes.len(),
    ensures
        sort_events(walk_events(nodes, i, t)) == shifted(events_of(nodes, i), t),
    decreases i,
{
    assert(wf_idx(nodes, i));
    match nodes[i] {
        MorphismData::Atomic { channel_id, duration, payload } => {
            let w = walk_events(nodes, i, t);
            assert(w.len() == 1);
            assert(w.drop_last() =~= Seq::<EventModel>::empty());
            assert(sort_events(w.drop_last()) == Seq::<EventModel>::empty());
            assert(sort_events(w) == insert_event(w.last(), Seq::<EventModel>::empty()));
            assert(sort_events(w) =~= w);
            assert(shifted(events_of(nodes, i), t) =~= w);
        },
        MorphismData::Sequential { lhs, rhs, .. } => {
            let dl = node_duration(nodes[lhs as int]) as int;
            let wl = walk_events(nodes, lhs as int, t);
            let wr = walk_events(nodes, rhs as int, t + dl);
            let el = events_of(nodes, lhs as int);
            let er = events_of(nodes, rhs as int);
            lemma_walk_sort(nodes, lhs as int, t);
            lemma_walk_sort(nodes, rhs as int, t + dl);
            lemma_sort_concat(wl, wr);
            lemma_events_of_bounds(nodes, lhs as int);
            lemma_events_of_bounds(nodes, rhs as int);
            let sl = shifted(el, t);
            let sr = shifted(er, t + dl);
            assert forall|p: int, q: int|
                0 <= p < sl.len() && 0 <= q < sr.len() implies #[trigger] sl[p].time
                <= #[trigger] sr[q].time by {
                assert(el[p].time <= dl);
                assert(0 <= er[q].time);
            }
            lemma_merge_disjoint(sl, sr);
            lemma_shifted_concat(el, shifted(er, dl), t);
            lemma_shifted_add(er, dl, t);
        },
        MorphismData::Parallel { lhs, rhs, .. } => {
            let wl = walk_events(nodes, lhs as int, t);
            let wr = walk_events(nodes, rhs as int, t);
            let el = events_of(nodes, lhs as int);
            let er = events_of(nodes, rhs as int);
            lemma_walk_sort(nodes, lhs as int, t);
            lemma_walk_sort(nodes, rhs as int, t);
            lemma_sort_concat(wl, wr);
            lemma_merge_shift(el, er, t);
        },
    }
}

/// The event stream of a node is sorted by time.
pub proof fn lemma_events_of_sorted(nodes: Seq<MorphismData>, i: int)
    requires
        wf_nodes(nodes),
        0 <= i < nodes.len(),
    ensures
        sorted_events(events_of(nodes, i)),
{
    lemma_walk_sort(nodes, i, 0);
    lemma_shifted_zero(events_of(nodes, i));
    lemma_sort_sorted(walk_events(nodes, i, 0));
}

/// The events of a stream that carry a given time, in stream order.
pub open spec fn events_at(s: Seq<EventModel>, t: int) -> Seq<EventModel>
    decreases s.len(),
{
    if s.len() == 0 {
        Seq::empty()
    } else if s[0].time == t {
        seq![s[0]] + events_at(s.drop_first(), t)
    } else {
        events_at(s.drop_first(), t)
    }
}

/// Merge stability: among the events of any one time, those of the left
/// stream come first, in order, then those of the right stream, in order.
pub proof fn lemma_merge_stable(a: Seq<EventModel>, b: Seq<EventModel>, t: int)
    requires
        sorted_events(a),
        sorted_events(b),
    ensures
        events_at(merge_events(a, b), t) == events_at(a, t) + events_at(b, t),
    decreases a.len() + b.len(),
{
    let m = merge_events(a, b);
    if a.len() == 0 {
        assert(events_at(a, t) + events_at(b, t) =~= events_at(b, t));
    } else if b.len() == 0 {
        assert(events_at(a, t) + events_at(b, t) =~= events_at(a, t));
    } else if a[0].time <= b[0].time {
        assert(sorted_events(a.drop_first()));
        lemma_merge_stable(a.drop_first(), b, t);
        let rest = merge_events(a.drop_first(), b);
        assert(m == seq![a[0]] + rest);
        assert(m[0] == a[0]);
        assert(m.drop_first() =~= rest);
        if a[0].time == t {
            assert(events_at(m, t) == seq![a[0]] + events_at(rest, t));
            assert(events_at(a, t) == seq![a[0]] + events_at(a.drop_first(), t));
            assert(seq![a[0]] + (events_at(a.drop_first(), t) + events_at(b, t)) =~= (seq![a[0]]
                + events_at(a.drop_first(), t)) + events_at(b, t));
        } else {
            assert(events_at(m, t) == events_at(rest, t));
            assert(events_at(a, t) == events_at(a.drop_first(), t));
        }
    } else {
        assert(sorted_events(b.drop_first()));
        lemma_merge_stable(a, b.drop_first(), t);
        let rest = merge_events(a, b.drop_first());
        assert(m == seq![b[0]] + rest);
        assert(m[0] == b[0]);
        assert(m.drop_first() =~= rest);
        if b[0].time == t {
            // every event of `a` is later than t, so `a` holds none at t
            assert forall|k: int| 0 <= k < a.len() implies #[trigger] a[k].time != t by {
                assert(a[0].time <= a[k].time);
            }
            lemma_events_at_none(a, t);
            assert(events_at(m, t) == seq![b[0]] + events_at(rest, t));
            assert(events_at(b, t) == seq![b[0]] + events_at(b.drop_first(), t));
            assert(events_at(a, t) + events_at(b, t) =~= seq![b[0]] + (events_at(a, t) + events_at(
                b.drop_first(),
                t,
            )));
        } else {
            assert(events_at(m, t) == events_at(rest, t));
            assert(events_at(b, t) == events_at(b.drop_first(), t));
        }
    }
}

/// A stream with no event at time `t` filters to nothing at `t`.
pub proof fn lemma_events_at_none(s: Seq<EventModel>, t: int)
    requires
        forall|k: int| 0 <= k < s.len() ==> #[trigger] s[k].time != t,
    ensures
        events_at(s, t) == Seq::<EventModel>::empty(),
    decreases s.len(),
{
    if s.len() > 0 {
        assert(forall|k: int|
            0 <= k < s.drop_first().len() ==> #[trigger] s.drop_first()[k].time != t);
        lemma_events_at_none(s.drop_first(), t);
    }
}

// ---------------------------------------------------------------------------
// Appending nodes to the arena leaves existing meanings unchanged.
// ---------------------------------------------------------------------------

pub proof fn lemma_events_of_push(nodes: Seq<MorphismData>, x: MorphismData, i: int)
    requires
        0 <= i < nodes.len(),
    ensures
        events_of(nodes.push(x), i) == events_of(nodes, i),
    decreases i,
{
    let ext = nodes.push(x);
    assert(ext[i] == nodes[i]);
    match nodes[i] {
        MorphismData::Atomic { .. } => {},
        MorphismData::Sequential { lhs, rhs, .. } => {
            if lhs < i && rhs < i {
                assert(ext[lhs as int] == nodes[lhs as int]);
                lemma_events_of_push(nodes, x, lhs as int);
                lemma_events_of_push(nodes, x, rhs as int);
            }
        },
        MorphismData::Parallel { lhs, rhs, .. } => {
            if lhs < i && rhs < i {
                lemma_events_of_push(nodes, x, lhs as int);
                lemma_events_of_push(nodes, x, rhs as int);
            }
        },
    }
}

pub proof fn lemma_leaves_positive_push(nodes: Seq<MorphismData>, x: MorphismData, i: int)
    requires
        0 <= i < nodes.len(),
    ensures
        leaves_positive(nodes.push(x), i) == leaves_positive(nodes, i),
    decreases i,
{
    let ext = nodes.push(x);
    assert(ext[i] == nodes[i]);
    match nodes[i] {
        MorphismData::Atomic { .. } => {},
        MorphismData::Sequential { lhs, rhs, .. } => {
            if lhs < i && rhs < i {
                lemma_leaves_positive_push(nodes, x, lhs as int);
                lemma_leaves_positive_push(nodes, x, rhs as int);
            }
        },
        MorphismData::Parallel { lhs, rhs, .. } => {
            if lhs < i && rhs < i {
                lemma_leaves_positive_push(nodes, x, lhs as int);
                lemma_leaves_positive_push(nodes, x, rhs as int);
            }
        },
    }
}

} // verus!
