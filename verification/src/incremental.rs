//! Memoizing compiler.
//!
//! Compiled event lists are cached per node with times relative to that
//! node's own zero, so one subtree can be reused under many start times;
//! the parent applies the offset when it consumes a cached list.  Merging
//! two sorted lists first looks for time-disjoint ranges, which reduce to
//! two block copies.

use vstd::prelude::*;
use std::collections::HashMap;
use std::sync::Arc;
use crate::arena::{ArenaContext, MorphismData, NodeId, node_duration, wf_idx};
use crate::compiler::{FlatEvent, clone_event};
use crate::semantics::{EventModel, events_of, lemma_events_of_bounds, lemma_events_of_push,
    lemma_events_of_sorted, lemma_merge_disjoint, merge_events, sorted_events};

verus! {

/// Counters describing the cache: entries held, hits and misses so far.
/// Hits and misses saturate at the machine's integer limit.
pub struct CacheStats {
    pub cached_nodes: usize,
    pub cache_hits: usize,
    pub cache_misses: usize,
}

/// Relies on `std::sync::Arc::clone`: the result is a handle to the same
/// allocation, so it carries the same event list as the argument.
#[verifier::external_body]
fn events_arc_clone(a: &Arc<Vec<FlatEvent>>) -> (r: Arc<Vec<FlatEvent>>)
    ensures
        r == *a,
{
    a.clone()
}

/// Relies on `Arc`'s `Deref`: reading through the handle yields the shared
/// event list itself.
#[verifier::external_body]
fn events_arc_ref(a: &Arc<Vec<FlatEvent>>) -> (r: &Vec<FlatEvent>)
    ensures
        *r == **a,
{
    &**a
}

/// Relies on `std::sync::Arc::try_unwrap`: a uniquely held list is returned
/// as it is; otherwise the same handle comes back.
#[verifier::external_body]
fn events_arc_unwrap(a: Arc<Vec<FlatEvent>>) -> (r: Result<Vec<FlatEvent>, Arc<Vec<FlatEvent>>>)
    ensures
        r matches Ok(v) ==> v == a,
        r matches Err(e) ==> e == a,
{
    Arc::try_unwrap(a)
}

/// Copy an event list; payload handles are cloned, not bytes.
fn copy_events(s: &Vec<FlatEvent>) -> (r: Vec<FlatEvent>)
    ensures
        r.deep_view() == s.deep_view(),
{
    let mut out: Vec<FlatEvent> = Vec::new();
    let mut i: usize = 0;
    proof {
        assert(out.deep_view() =~= s.deep_view().take(0));
    }
    while i < s.len()
        invariant
            i <= s.len(),
            out.deep_view() == s.deep_view().take(i as int),
        decreases s.len() - i,
    {
        let ghost pre = out.deep_view();
        out.push(clone_event(&s[i]));
        proof {
            assert(out.deep_view() =~= pre.push(s.deep_view()[i as int]));
            assert(s.deep_view().take(i + 1) =~= s.deep_view().take(i as int).push(
                s.deep_view()[i as int],
            ));
        }
        i = i + 1;
    }
    proof {
        assert(s.deep_view().take(s.len() as int) =~= s.deep_view());
    }
    out
}

/// When every event of `b` is strictly earlier than every event of `a`, the
/// merge is `b` followed by `a`.
pub proof fn lemma_merge_disjoint_rev(a: Seq<EventModel>, b: Seq<EventModel>)
    requires
        forall|i: int, j: int| 0 <= i < a.len() && 0 <= j < b.len() ==> #[trigger] b[j].time
            < #[trigger] a[i].time,
    ensures
        merge_events(a, b) == b + a,
    decreases b.len(),
{
    if a.len() == 0 {
        assert(b + a =~= b);
    } else if b.len() == 0 {
        assert(b + a =~= a);
    } else {
        assert(b[0].time < a[0].time);
        assert(forall|i: int, j: int|
            0 <= i < a.len() && 0 <= j < b.drop_first().len() ==> #[trigger] b.drop_first()[j].time
                < #[trigger] a[i].time);
        lemma_merge_disjoint_rev(a, b.drop_first());
        assert(seq![b[0]] + (b.drop_first() + a) =~= b + a);
    }
}

/// Ordered merge of two time-sorted event lists, stable on ties (`a` before
/// `b`).  Time-disjoint inputs are detected in two comparisons and handled
/// by block copies; otherwise a standard two-pointer merge runs.
pub fn merge_sorted_events(a: &Vec<FlatEvent>, b: &Vec<FlatEvent>) -> (r: Vec<FlatEvent>)
    requires
        sorted_events(a.deep_view()),
        sorted_events(b.deep_view()),
    ensures
        r.deep_view() == merge_events(a.deep_view(), b.deep_view()),
{
    let ghost av = a.deep_view();
    let ghost bv = b.deep_view();
    if a.len() == 0 {
        let r = copy_events(b);
        proof {
            assert(av.len() == 0);
        }
        return r;
    }
    if b.len() == 0 {
        let r = copy_events(a);
        proof {
            assert(bv.len() == 0);
        }
        return r;
    }

    // block-copy fast path: all of `a` no later than all of `b`
    if a[a.len() - 1].time <= b[0].time {
        let mut out = copy_events(a);
        let tail = copy_events(b);
        let mut j: usize = 0;
        proof {
            assert(out.deep_view() =~= av + bv.take(0));
        }
        while j < tail.len()
            invariant
                j <= tail.len(),
                tail.deep_view() == bv,
                tail.len() == bv.len(),
                out.deep_view() == av + bv.take(j as int),
            decreases tail.len() - j,
        {
            let ghost pre = out.deep_view();
            out.push(clone_event(&tail[j]));
            proof {
                assert(out.deep_view() =~= pre.push(bv[j as int]));
                assert(bv.take(j + 1) =~= bv.take(j as int).push(bv[j as int]));
                assert((av + bv.take(j as int)).push(bv[j as int]) =~= av + bv.take(j + 1));
            }
            j = j + 1;
        }
        proof {
            assert(bv.take(bv.len() as int) =~= bv);
            assert forall|i: int, j2: int|
                0 <= i < av.len() && 0 <= j2 < bv.len() implies #[trigger] av[i].time
                <= #[trigger] bv[j2].time by {
                assert(av[i].time <= av[av.len() - 1].time);
                assert(bv[0].time <= bv[j2].time);
            }
            lemma_merge_disjoint(av, bv);
        }
        return out;
    }

    // block-copy fast path: all of `b` strictly earlier than all of `a`
    if b[b.len() - 1].time < a[0].time {
        let mut out = copy_events(b);
        let tail = copy_events(a);
        let mut j: usize = 0;
        proof {
            assert(out.deep_view() =~= bv + av.take(0));
        }
        while j < tail.len()
            invariant
                j <= tail.len(),
                tail.deep_view() == av,
                tail.len() == av.len(),
                out.deep_view() == bv + av.take(j as int),
            decreases tail.len() - j,
        {
            let ghost pre = out.deep_view();
            out.push(clone_event(&tail[j]));
            proof {
                assert(out.deep_view() =~= pre.push(av[j as int]));
                assert(av.take(j + 1) =~= av.take(j as int).push(av[j as int]));
                assert((bv + av.take(j as int)).push(av[j as int]) =~= bv + av.take(j + 1));
            }
            j = j + 1;
        }
        proof {
            assert(av.take(av.len() as int) =~= av);
            assert forall|i: int, j2: int|
                0 <= i < av.len() && 0 <= j2 < bv.len() implies #[trigger] bv[j2].time
                < #[trigger] av[i].time by {
                assert(bv[j2].time <= bv[bv.len() - 1].time);
                assert(av[0].time <= av[i].time);
            }
            lemma_merge_disjoint_rev(av, bv);
        }
        return out;
    }

    // standard two-pointer merge
    let mut out: Vec<FlatEvent> = Vec::new();
    let mut i: usize = 0;
    let mut j: usize = 0;
    proof {
        assert(av.skip(0) =~= av);
        assert(bv.skip(0) =~= bv);
        assert(out.deep_view() + merge_events(av.skip(0), bv.skip(0)) =~= merge_events(av, bv));
    }
    while i < a.len() || j < b.len()
        invariant
            i <= a.len(),
            j <= b.len(),
            av == a.deep_view(),
            bv == b.deep_view(),
            a.len() == av.len(),
            b.len() == bv.len(),
            out.deep_view() + merge_events(av.skip(i as int), bv.skip(j as int)) == merge_events(
                av,
                bv,
            ),
        decreases a.len() - i + b.len() - j,
    {
        let ghost pre = out.deep_view();
        let ghost sa = av.skip(i as int);
        let ghost sb = bv.skip(j as int);
        let take_a = if i < a.len() && j < b.len() {
            a[i].time <= b[j].time
        } else {
            i < a.len()
        };
        if take_a {
            out.push(clone_event(&a[i]));
            proof {
                assert(sa[0] == av[i as int]);
                assert(sa.drop_first() =~= av.skip(i + 1));
                if j < b.len() {
                    assert(merge_events(sa, sb) == seq![sa[0]] + merge_events(av.skip(i + 1), sb));
                } else {
                    assert(sb.len() == 0);
                    assert(merge_events(sa, sb) == sa);
                    assert(sa =~= seq![sa[0]] + av.skip(i + 1));
                    assert(merge_events(av.skip(i + 1), sb) == av.skip(i + 1));
                }
                assert(out.deep_view() =~= pre.push(av[i as int]));
                assert(pre.push(av[i as int]) + merge_events(av.skip(i + 1), sb) =~= pre + (seq![
                    sa[0],
                ] + merge_events(av.skip(i + 1), sb)));
            }
            i = i + 1;
        } else {
            out.push(clone_event(&b[j]));
            proof {
                assert(sb[0] == bv[j as int]);
                assert(sb.drop_first() =~= bv.skip(j + 1));
                if i < a.len() {
                    assert(sa[0].time > sb[0].time);
                    assert(merge_events(sa, sb) == seq![sb[0]] + merge_events(sa, bv.skip(j + 1)));
                } else {
                    assert(sa.len() == 0);
                    assert(merge_events(sa, sb) == sb);
                    assert(sb =~= seq![sb[0]] + bv.skip(j + 1));
                    assert(merge_events(sa, bv.skip(j + 1)) == bv.skip(j + 1));
                }
                assert(out.deep_view() =~= pre.push(bv[j as int]));
                assert(pre.push(bv[j as int]) + merge_events(sa, bv.skip(j + 1)) =~= pre + (seq![
                    sb[0],
                ] + merge_events(sa, bv.skip(j + 1))));
            }
            j = j + 1;
        }
    }
    proof {
        assert(av.skip(av.len() as int).len() == 0);
        assert(bv.skip(bv.len() as int).len() == 0);
        assert(merge_events(av.skip(i as int), bv.skip(j as int)).len() == 0);
        assert(out.deep_view() + merge_events(av.skip(i as int), bv.skip(j as int)) =~= out.deep_view());
    }
    out
}

/// One saturating step of a hit or miss counter.
pub open spec fn tick(c: nat) -> nat {
    if c < usize::MAX {
        c + 1
    } else {
        c
    }
}

/// Memoizing compiler: per-node event lists in local time, reused across
/// roots that share subtrees.
pub struct IncrementalCompiler {
    cache: HashMap<NodeId, Arc<Vec<FlatEvent>>>,
    cache_hits: usize,
    cache_misses: usize,
}

impl IncrementalCompiler {
    /// Every cached list is the event stream of its node in the given
    /// arena, and the cache is closed under children: a cached composite
    /// node's children are cached too.
    pub closed spec fn valid_for(&self, nodes: Seq<MorphismData>) -> bool {
        forall|k: NodeId| #[trigger] self.cache@.dom().contains(k) ==> k < nodes.len()
            && self.cache@[k].deep_view() == events_of(nodes, k as int) && (match nodes[k as int] {
            MorphismData::Atomic { .. } => true,
            MorphismData::Sequential { lhs, rhs, .. } => self.cache@.dom().contains(lhs)
                && self.cache@.dom().contains(rhs),
            MorphismData::Parallel { lhs, rhs, .. } => self.cache@.dom().contains(lhs)
                && self.cache@.dom().contains(rhs),
        })
    }

    pub closed spec fn hits(&self) -> nat {
        self.cache_hits as nat
    }

    pub closed spec fn misses(&self) -> nat {
        self.cache_misses as nat
    }

    /// The nodes whose event lists are held in the cache.
    pub closed spec fn cached(&self) -> Set<NodeId> {
        self.cache@.dom()
    }

    pub open spec fn cached_count(&self) -> nat {
        self.cached().len()
    }

    pub fn new() -> (r: IncrementalCompiler)
        ensures
            forall|nodes: Seq<MorphismData>| r.valid_for(nodes),
            r.hits() == 0,
            r.misses() == 0,
            r.cached() == Set::<NodeId>::empty(),
    {
        let r = IncrementalCompiler { cache: HashMap::new(), cache_hits: 0, cache_misses: 0 };
        proof {
            assert(r.cached() =~= Set::<NodeId>::empty());
        }
        r
    }

    /// A populated cache covers whole subtrees: once a root is cached, so
    /// is every node reachable from it, because entries are only added after
    /// their children's.
    pub proof fn lemma_cached_subtree(
        &self,
        nodes: Seq<MorphismData>,
        root: NodeId,
        k: NodeId,
    )
        requires
            self.valid_for(nodes),
            self.cached().contains(root),
            crate::arena::subtree_contains(nodes, root as int, k as int),
        ensures
            self.cached().contains(k),
        decreases root,
    {
        if k != root {
            match nodes[root as int] {
                MorphismData::Atomic { .. } => {},
                MorphismData::Sequential { lhs, rhs, .. } => {
                    if crate::arena::subtree_contains(nodes, lhs as int, k as int) {
                        self.lemma_cached_subtree(nodes, lhs, k);
                    } else {
                        self.lemma_cached_subtree(nodes, rhs, k);
                    }
                },
                MorphismData::Parallel { lhs, rhs, .. } => {
                    if crate::arena::subtree_contains(nodes, lhs as int, k as int) {
                        self.lemma_cached_subtree(nodes, lhs, k);
                    } else {
                        self.lemma_cached_subtree(nodes, rhs, k);
                    }
                },
            }
        }
    }

    /// A cache that is consistent with an arena stays consistent when the
    /// arena grows: appended nodes change no existing meaning.
    pub proof fn lemma_valid_push(&self, nodes: Seq<MorphismData>, x: MorphismData)
        requires
            self.valid_for(nodes),
        ensures
            self.valid_for(nodes.push(x)),
    {
        let ext = nodes.push(x);
        assert forall|k: NodeId| self.cache@.dom().contains(k) implies k < ext.len() && (
        #[trigger] self.cache@[k]).deep_view() == events_of(ext, k as int) by {
            lemma_events_of_push(nodes, x, k as int);
        }
    }

    /// Compile a node to its local-time event list, reusing and filling the
    /// cache.
    fn compile_node(&mut self, arena: &ArenaContext, node_id: NodeId) -> (r: Arc<Vec<FlatEvent>>)
        requires
            arena.wf(),
            node_id < arena@.len(),
            old(self).valid_for(arena@),
        ensures
            final(self).valid_for(arena@),
            r.deep_view() == events_of(arena@, node_id as int),
            final(self).hits() >= old(self).hits(),
            final(self).misses() >= old(self).misses(),
            forall|k: NodeId| old(self).cached().contains(k) ==> final(self).cached().contains(k),
            final(self).cached().contains(node_id),
            old(self).cached().contains(node_id) ==> final(self).cached() == old(self).cached()
                && final(self).hits() == tick(old(self).hits()) && final(self).misses() == old(
                self,
            ).misses(),
            !old(self).cached().contains(node_id) ==> final(self).misses() >= tick(
                old(self).misses(),
            ),
        decreases node_id,
    {
        broadcast use vstd::std_specs::hash::group_hash_axioms;

        let ghost nodes = arena@;
        if self.cache.contains_key(&node_id) {
            if self.cache_hits < usize::MAX {
                self.cache_hits = self.cache_hits + 1;
            }
            proof {
                assert(self.cache == old(self).cache);
                assert(self.valid_for(arena@));
                assert(self.cached() == old(self).cached());
                assert(self.hits() == tick(old(self).hits()));
            }
            let c = self.cache.get(&node_id).unwrap();
            return events_arc_clone(c);
        }
        if self.cache_misses < usize::MAX {
            self.cache_misses = self.cache_misses + 1;
        }
        proof {
            assert(self.cache == old(self).cache);
            assert(self.valid_for(arena@));
            assert(self.misses() == tick(old(self).misses()));
        }

        proof {
            assert(wf_idx(nodes, node_id as int));
        }
        let node = arena.get(node_id);
        let events: Vec<FlatEvent> = match node {
            MorphismData::Atomic { channel_id, payload, .. } => {
                let out = vec![
                    FlatEvent {
                        time: 0,
                        channel_id: *channel_id,
                        opcode: payload.opcode,
                        data: crate::arena::bytes_arc_clone(&payload.data),
                    },
                ];
                proof {
                    assert(out.deep_view() =~= events_of(nodes, node_id as int));
                }
                out
            },
            MorphismData::Sequential { lhs, rhs, .. } => {
                let lhs_v = *lhs;
                let rhs_v = *rhs;
                let le = self.compile_node(arena, lhs_v);
                let re = self.compile_node(arena, rhs_v);
                let dl = arena.get(lhs_v).duration();
                let ghost el = events_of(nodes, lhs_v as int);
                let ghost er = events_of(nodes, rhs_v as int);
                let lv = events_arc_ref(&le);
                let mut out = copy_events(lv);
                let rv = events_arc_ref(&re);
                let mut j: usize = 0;
                proof {
                    lemma_events_of_bounds(nodes, rhs_v as int);
                    assert(crate::semantics::shifted(er, dl as int).take(0)
                        =~= Seq::<EventModel>::empty());
                    assert(out.deep_view() =~= el + crate::semantics::shifted(
                        er,
                        dl as int,
                    ).take(0));
                }
                while j < rv.len()
                    invariant
                        j <= rv.len(),
                        lhs_v < nodes.len(),
                        rhs_v < nodes.len(),
                        rv.deep_view() == er,
                        rv.len() == er.len(),
                        forall|k: int| 0 <= k < er.len() ==> 0 <= #[trigger] er[k].time
                            <= node_duration(nodes[rhs_v as int]),
                        dl == node_duration(nodes[lhs_v as int]),
                        dl as int + node_duration(nodes[rhs_v as int]) as int <= u64::MAX,
                        out.deep_view() == el + crate::semantics::shifted(er, dl as int).take(
                            j as int,
                        ),
                    decreases rv.len() - j,
                {
                    let ghost pre = out.deep_view();
                    let e = &rv[j];
                    proof {
                        assert(e@ == er[j as int]);
                        assert(er[j as int].time <= node_duration(nodes[rhs_v as int]));
                    }
                    out.push(
                        FlatEvent {
                            time: e.time + dl,
                            channel_id: e.channel_id,
                            opcode: e.opcode,
                            data: crate::arena::bytes_arc_clone(&e.data),
                        },
                    );
                    proof {
                        let sh = crate::semantics::shifted(er, dl as int);
                        assert(sh[j as int] == crate::semantics::shifted_event(
                            er[j as int],
                            dl as int,
                        ));
                        assert(out.deep_view() =~= pre.push(sh[j as int]));
                        assert(sh.take(j + 1) =~= sh.take(j as int).push(sh[j as int]));
                        assert((el + sh.take(j as int)).push(sh[j as int]) =~= el + sh.take(j + 1));
                    }
                    j = j + 1;
                }
                proof {
                    let sh = crate::semantics::shifted(er, dl as int);
                    assert(sh.take(sh.len() as int) =~= sh);
                    assert(out.deep_view() == el + sh);
                    assert(events_of(nodes, node_id as int) == el + sh);
                }
                out
            },
            MorphismData::Parallel { lhs, rhs, .. } => {
                let lhs_v = *lhs;
                let rhs_v = *rhs;
                let le = self.compile_node(arena, lhs_v);
                let re = self.compile_node(arena, rhs_v);
                proof {
                    lemma_events_of_sorted(nodes, lhs_v as int);
                    lemma_events_of_sorted(nodes, rhs_v as int);
                }
                let out = merge_sorted_events(events_arc_ref(&le), events_arc_ref(&re));
                proof {
                    assert(events_of(nodes, node_id as int) == merge_events(
                        events_of(nodes, lhs_v as int),
                        events_of(nodes, rhs_v as int),
                    ));
                }
                out
            },
        };
        let cached = Arc::new(events);
        let copy = events_arc_clone(&cached);
        let ghost pre_cache = self.cache@;
        self.cache.insert(node_id, copy);
        proof {
            assert(cached.deep_view() == events_of(nodes, node_id as int));
            assert(copy.deep_view() == cached.deep_view());
            assert(self.cache@ == pre_cache.insert(node_id, copy));
            assert forall|k: NodeId| self.cache@.dom().contains(k) implies k < nodes.len() && (
            #[trigger] self.cache@[k]).deep_view() == events_of(nodes, k as int) by {
                if k != node_id {
                    assert(pre_cache.dom().contains(k));
                }
            }
        }
        cached
    }

    /// Compile a root with memoization; the returned times are absolute
    /// (the root's zero).  The result is the same event stream `events_of`
    /// that the one-shot compiler produces.
    pub fn compile(&mut self, arena: &ArenaContext, root: NodeId) -> (r: Vec<FlatEvent>)
        requires
            arena.wf(),
            root < arena@.len(),
            old(self).valid_for(arena@),
        ensures
            final(self).valid_for(arena@),
            r.deep_view() == events_of(arena@, root as int),
            r@.len() == crate::arena::leaves_of(arena@, root as int),
            final(self).hits() >= old(self).hits(),
            final(self).misses() >= old(self).misses(),
            forall|k: NodeId| old(self).cached().contains(k) ==> final(self).cached().contains(k),
            final(self).cached().contains(root),
            old(self).cached().contains(root) ==> final(self).cached() == old(self).cached()
                && final(self).hits() == tick(old(self).hits()) && final(self).misses() == old(
                self,
            ).misses(),
            !old(self).cached().contains(root) ==> final(self).misses() >= tick(
                old(self).misses(),
            ),
    {
        proof {
            crate::semantics::lemma_events_of_len(arena@, root as int);
        }
        let cached = self.compile_node(arena, root);
        match events_arc_unwrap(cached) {
            Ok(v) => v,
            Err(a) => copy_events(events_arc_ref(&a)),
        }
    }

    /// Cache and counter snapshot.
    pub fn stats(&self) -> (r: CacheStats)
        ensures
            r.cached_nodes == self.cached_count(),
            r.cache_hits == self.hits(),
            r.cache_misses == self.misses(),
    {
        broadcast use vstd::std_specs::hash::group_hash_axioms;

        CacheStats {
            cached_nodes: self.cache.len(),
            cache_hits: self.cache_hits,
            cache_misses: self.cache_misses,
        }
    }

    /// Empty the cache and zero the counters; the compiler is then
    /// consistent with any arena.
    pub fn clear(&mut self)
        ensures
            forall|nodes: Seq<MorphismData>| final(self).valid_for(nodes),
            final(self).hits() == 0,
            final(self).misses() == 0,
            final(self).cached() == Set::<NodeId>::empty(),
    {
        broadcast use vstd::std_specs::hash::group_hash_axioms;

        self.cache.clear();
        self.cache_hits = 0;
        self.cache_misses = 0;
        proof {
            assert(self.cache@.dom() =~= Set::<NodeId>::empty());
        }
    }
}

} // verus!
