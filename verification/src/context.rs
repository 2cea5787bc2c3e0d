//! The compiler context: one morphism arena together with an optional
//! memoizing compiler.
//!
//! The memoizing compiler is a nullable slot: enabling it installs an empty
//! cache, disabling it drops the cache, and compilation falls back to the
//! one-shot compiler while it is off.  The context keeps the cache
//! consistent with the arena: entries always describe nodes of this arena.

use vstd::prelude::*;
use crate::arena::{ArenaContext, ChannelId, MorphismData, NodeId, Time, channels_of, depth_of,
    leaves_of, node_channels, node_duration};
use crate::compiler::{FlatEvent, compile};
use crate::compose::{all_valid, depth_bound, max_durations, pairwise_disjoint, sum_durations,
    sum_leaves, union_channels};
use crate::incremental::{CacheStats, IncrementalCompiler};
use crate::semantics::events_of;

verus! {

pub struct CompilerContext {
    arena: ArenaContext,
    incremental: Option<IncrementalCompiler>,
}

impl CompilerContext {
    /// The nodes of the underlying arena.
    pub closed spec fn nodes(&self) -> Seq<MorphismData> {
        self.arena@
    }

    pub closed spec fn incremental_enabled(&self) -> bool {
        self.incremental is Some
    }

    /// The arena is well formed and any cache entries describe its nodes.
    pub closed spec fn wf(&self) -> bool {
        &&& self.arena.wf()
        &&& match self.incremental {
            Some(c) => c.valid_for(self.arena@),
            None => true,
        }
    }

    pub fn new() -> (r: CompilerContext)
        ensures
            r.wf(),
            r.nodes() == Seq::<MorphismData>::empty(),
            !r.incremental_enabled(),
    {
        CompilerContext { arena: ArenaContext::new(), incremental: None }
    }

    pub fn with_capacity(capacity: usize) -> (r: CompilerContext)
        ensures
            r.wf(),
            r.nodes() == Seq::<MorphismData>::empty(),
            !r.incremental_enabled(),
    {
        CompilerContext { arena: ArenaContext::with_capacity(capacity), incremental: None }
    }

    /// Turn memoized compilation on; a no-op if it is already on.
    pub fn enable_incremental(&mut self)
        requires
            old(self).wf(),
        ensures
            final(self).wf(),
            final(self).nodes() == old(self).nodes(),
            final(self).incremental_enabled(),
    {
        if self.incremental.is_none() {
            self.incremental = Some(IncrementalCompiler::new());
        }
    }

    /// Turn memoized compilation off and drop the cache.
    pub fn disable_incremental(&mut self)
        requires
            old(self).wf(),
        ensures
            final(self).wf(),
            final(self).nodes() == old(self).nodes(),
            !final(self).incremental_enabled(),
    {
        self.incremental = None;
    }

    pub fn is_incremental_enabled(&self) -> (r: bool)
        ensures
            r == self.incremental_enabled(),
    {
        self.incremental.is_some()
    }

    /// Cache counters, or nothing while memoization is off.
    pub fn get_incremental_stats(&self) -> (r: Option<CacheStats>)
        ensures
            r is Some <==> self.incremental_enabled(),
    {
        match &self.incremental {
            Some(c) => Some(c.stats()),
            None => None,
        }
    }

    /// Empty the cache but keep memoization on.
    pub fn clear_incremental_cache(&mut self)
        requires
            old(self).wf(),
        ensures
            final(self).wf(),
            final(self).nodes() == old(self).nodes(),
            final(self).incremental_enabled() == old(self).incremental_enabled(),
    {
        match &mut self.incremental {
            Some(c) => {
                c.clear();
            },
            None => {},
        }
    }

    pub fn node_count(&self) -> (r: usize)
        ensures
            r == self.nodes().len(),
    {
        self.arena.len()
    }

    /// Drop every node; outstanding handles become dangling, so the cache is
    /// emptied with them.
    pub fn clear(&mut self)
        requires
            old(self).wf(),
        ensures
            final(self).wf(),
            final(self).nodes() == Seq::<MorphismData>::empty(),
            final(self).incremental_enabled() == old(self).incremental_enabled(),
    {
        self.arena.clear();
        match &mut self.incremental {
            Some(c) => {
                c.clear();
            },
            None => {},
        }
    }

    /// Intern an atomic operation and return its handle.
    pub fn atomic_id(
        &mut self,
        channel_id: ChannelId,
        duration: Time,
        opcode: u16,
        data: Vec<u8>,
    ) -> (id: NodeId)
        requires
            old(self).wf(),
            old(self).nodes().len() < u32::MAX,
        ensures
            final(self).wf(),
            final(self).incremental_enabled() == old(self).incremental_enabled(),
            id == old(self).nodes().len(),
            final(self).nodes() == old(self).nodes().push(final(self).nodes()[id as int]),
            final(self).nodes()[id as int] matches MorphismData::Atomic {
                channel_id: c,
                duration: d,
                payload: p,
            } && c == channel_id && d == duration && p.opcode == opcode && p.data@ == data@,
    {
        let ghost pre = self.arena@;
        let id = self.arena.atomic(channel_id, duration, opcode, data);
        proof {
            match old(self).incremental {
                Some(c) => c.lemma_valid_push(pre, self.arena@[id as int]),
                None => {},
            }
        }
        id
    }

    /// Serial composition of two handles.
    pub fn compose(&mut self, a: NodeId, b: NodeId) -> (id: NodeId)
        requires
            old(self).wf(),
            old(self).nodes().len() < u32::MAX,
            a < old(self).nodes().len(),
            b < old(self).nodes().len(),
            node_duration(old(self).nodes()[a as int]) as int + node_duration(
                old(self).nodes()[b as int],
            ) as int <= u64::MAX,
        ensures
            final(self).wf(),
            final(self).incremental_enabled() == old(self).incremental_enabled(),
            id == old(self).nodes().len(),
            final(self).nodes() == old(self).nodes().push(final(self).nodes()[id as int]),
            final(self).nodes()[id as int] matches MorphismData::Sequential {
                lhs,
                rhs,
                duration,
                ..
            } && lhs == a && rhs == b && duration as int == node_duration(
                old(self).nodes()[a as int],
            ) as int + node_duration(old(self).nodes()[b as int]) as int,
            channels_of(final(self).nodes(), id as int) == channels_of(
                old(self).nodes(),
                a as int,
            ).union(channels_of(old(self).nodes(), b as int)),
    {
        let ghost pre = self.arena@;
        let id = self.arena.sequential(a, b);
        proof {
            match old(self).incremental {
                Some(c) => c.lemma_valid_push(pre, self.arena@[id as int]),
                None => {},
            }
        }
        id
    }

    /// Parallel composition of two handles; fails, leaving the context
    /// unchanged, exactly when their channel sets intersect.
    pub fn parallel_compose(&mut self, a: NodeId, b: NodeId) -> (r: Result<NodeId, String>)
        requires
            old(self).wf(),
            old(self).nodes().len() < u32::MAX,
            a < old(self).nodes().len(),
            b < old(self).nodes().len(),
        ensures
            final(self).wf(),
            final(self).incremental_enabled() == old(self).incremental_enabled(),
            r is Ok <==> channels_of(old(self).nodes(), a as int).disjoint(
                channels_of(old(self).nodes(), b as int),
            ),
            r matches Err(m) ==> final(self).nodes() == old(self).nodes() && m@
                == "Parallel composition requires disjoint channels"@,
            r matches Ok(id) ==> {
                &&& id == old(self).nodes().len()
                &&& final(self).nodes() == old(self).nodes().push(
                    final(self).nodes()[id as int],
                )
                &&& final(self).nodes()[id as int] matches MorphismData::Parallel { lhs, rhs, .. }
                    && lhs == a && rhs == b
                &&& channels_of(final(self).nodes(), id as int) == channels_of(
                    old(self).nodes(),
                    a as int,
                ).union(channels_of(old(self).nodes(), b as int))
            },
    {
        let ghost pre = self.arena@;
        let r = self.arena.parallel(a, b);
        proof {
            if r is Ok {
                match old(self).incremental {
                    Some(c) => c.lemma_valid_push(pre, self.arena@[r->Ok_0 as int]),
                    None => {},
                }
            }
        }
        r
    }

    /// Serial batch composition into a balanced tree.
    pub fn compose_sequence(&mut self, handles: Vec<NodeId>) -> (r: Option<NodeId>)
        requires
            old(self).wf(),
            all_valid(old(self).nodes(), handles@),
            sum_durations(old(self).nodes(), handles@) <= u64::MAX,
            old(self).nodes().len() + handles@.len() <= u32::MAX,
        ensures
            final(self).wf(),
            final(self).incremental_enabled() == old(self).incremental_enabled(),
            old(self).nodes().is_prefix_of(final(self).nodes()),
            handles@.len() <= 1 ==> final(self).nodes() == old(self).nodes(),
            r is Some <==> handles@.len() > 0,
            handles@.len() == 1 ==> r == Some(handles@[0]),
            r matches Some(root) ==> {
                &&& root < final(self).nodes().len()
                &&& node_duration(final(self).nodes()[root as int]) as int == sum_durations(
                    old(self).nodes(),
                    handles@,
                )
                &&& channels_of(final(self).nodes(), root as int) == union_channels(
                    old(self).nodes(),
                    handles@,
                )
                &&& leaves_of(final(self).nodes(), root as int) == sum_leaves(
                    old(self).nodes(),
                    handles@,
                )
                &&& forall|k: nat| vstd::arithmetic::power2::pow2(k) >= handles@.len()
                    ==> depth_of(final(self).nodes(), root as int) <= k + depth_bound(
                    old(self).nodes(),
                    handles@,
                )
            },
    {
        let ghost pre = self.arena@;
        let r = self.arena.compose_sequence(handles);
        proof {
            match old(self).incremental {
                Some(c) => lemma_valid_prefix(c, pre, self.arena@),
                None => {},
            }
        }
        r
    }

    /// Parallel batch composition into a balanced tree; succeeds exactly
    /// when the handles' channel sets are pairwise disjoint.
    pub fn parallel_compose_many(&mut self, handles: Vec<NodeId>) -> (r: Result<
        Option<NodeId>,
        String,
    >)
        requires
            old(self).wf(),
            all_valid(old(self).nodes(), handles@),
            old(self).nodes().len() + handles@.len() <= u32::MAX,
        ensures
            final(self).wf(),
            final(self).incremental_enabled() == old(self).incremental_enabled(),
            old(self).nodes().is_prefix_of(final(self).nodes()),
            handles@.len() <= 1 ==> final(self).nodes() == old(self).nodes(),
            r is Ok <==> pairwise_disjoint(old(self).nodes(), handles@),
            r matches Err(m) ==> m@ == "Parallel composition requires disjoint channels"@,
            r matches Ok(o) ==> (o is Some <==> handles@.len() > 0),
            handles@.len() == 1 && r is Ok ==> (r matches Ok(o) && o == Some(handles@[0])),
            r matches Ok(Some(root)) ==> {
                &&& root < final(self).nodes().len()
                &&& node_duration(final(self).nodes()[root as int]) as int == max_durations(
                    old(self).nodes(),
                    handles@,
                )
                &&& channels_of(final(self).nodes(), root as int) == union_channels(
                    old(self).nodes(),
                    handles@,
                )
                &&& leaves_of(final(self).nodes(), root as int) == sum_leaves(
                    old(self).nodes(),
                    handles@,
                )
            },
    {
        let ghost pre = self.arena@;
        let r = self.arena.compose_parallel(handles);
        proof {
            match old(self).incremental {
                Some(c) => lemma_valid_prefix(c, pre, self.arena@),
                None => {},
            }
        }
        r
    }

    /// Compile a node to its time-sorted event list; the memoizing compiler
    /// is used when enabled, the one-shot compiler otherwise, and both yield
    /// the same stream.
    pub fn compile_graph(&mut self, node_id: NodeId) -> (r: Vec<FlatEvent>)
        requires
            old(self).wf(),
            node_id < old(self).nodes().len(),
        ensures
            final(self).wf(),
            final(self).nodes() == old(self).nodes(),
            final(self).incremental_enabled() == old(self).incremental_enabled(),
            r.deep_view() == events_of(old(self).nodes(), node_id as int),
            r@.len() == crate::arena::leaves_of(old(self).nodes(), node_id as int),
    {
        match &mut self.incremental {
            Some(c) => c.compile(&self.arena, node_id),
            None => compile(&self.arena, node_id),
        }
    }

    /// Compile a node and split its events by board (the high 16 bits of
    /// the channel id); grouping always runs on the one-shot compiler.
    pub fn compile_by_board(&self, node_id: NodeId) -> (r: Vec<(u16, Vec<FlatEvent>)>)
        requires
            self.wf(),
            node_id < self.nodes().len(),
        ensures
            forall|p: int, q: int| 0 <= p < q < r@.len() ==> (#[trigger] r@[p]).0
                != (#[trigger] r@[q]).0,
            forall|k: int| 0 <= k < r@.len() ==> (#[trigger] r@[k]).1.deep_view()
                == crate::compiler::board_events(
                events_of(self.nodes(), node_id as int),
                r@[k].0,
            ),
    {
        crate::compiler::compile_by_board(&self.arena, node_id)
    }

    /// The precomputed duration of a node.
    pub fn get_duration(&self, node_id: NodeId) -> (r: Time)
        requires
            node_id < self.nodes().len(),
        ensures
            r == node_duration(self.nodes()[node_id as int]),
    {
        self.arena.get(node_id).duration()
    }

    /// The sorted channel list of a node.
    pub fn get_channels(&self, node_id: NodeId) -> (r: Vec<ChannelId>)
        requires
            node_id < self.nodes().len(),
        ensures
            r@ == node_channels(self.nodes()[node_id as int]),
    {
        self.arena.get(node_id).channels_vec()
    }

    /// Count the atomic leaves under a node.
    pub fn leaf_count(&self, node_id: NodeId) -> (r: usize)
        requires
            self.wf(),
            node_id < self.nodes().len(),
            crate::arena::leaves_of(self.nodes(), node_id as int) <= usize::MAX,
        ensures
            r == crate::arena::leaves_of(self.nodes(), node_id as int),
    {
        self.arena.leaf_count(node_id)
    }

    /// The height of the tree under a node.
    pub fn max_depth(&self, node_id: NodeId) -> (r: usize)
        requires
            self.wf(),
            node_id < self.nodes().len(),
        ensures
            r == depth_of(self.nodes(), node_id as int),
    {
        self.arena.max_depth(node_id)
    }
}

/// A cache consistent with an arena stays consistent with any extension.
proof fn lemma_valid_prefix(
    c: IncrementalCompiler,
    pre: Seq<MorphismData>,
    ext: Seq<MorphismData>,
)
    requires
        c.valid_for(pre),
        pre.is_prefix_of(ext),
    ensures
        c.valid_for(ext),
    decreases ext.len(),
{
    if ext.len() == pre.len() {
        assert(ext =~= pre);
    } else {
        let shorter = ext.drop_last();
        assert(pre.is_prefix_of(shorter));
        lemma_valid_prefix(c, pre, shorter);
        assert(ext =~= shorter.push(ext.last()));
        c.lemma_valid_push(shorter, ext.last());
    }
}

} // verus!
