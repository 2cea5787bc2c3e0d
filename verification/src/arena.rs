//! Arena-backed storage for the morphism algebra.
//!
//! A morphism is either an atomic timed operation on one channel, a serial
//! composition (durations add), or a parallel composition (durations take the
//! maximum and the channel sets must be disjoint).  Every node carries its
//! duration and its sorted channel list, computed once at construction.

use vstd::prelude::*;
use std::sync::Arc;

verus! {

pub type ChannelId = u32;
pub type Time = u64;
pub type NodeId = u32;

/// The payload of an atomic operation: an opcode and an opaque byte blob.
/// The blob is held under shared ownership so that copies into event streams
/// never duplicate the bytes.
pub struct AtomicPayload {
    pub opcode: u16,
    pub data: Arc<Vec<u8>>,
}

impl AtomicPayload {
    pub fn new(opcode: u16, data: Vec<u8>) -> (r: AtomicPayload)
        ensures
            r.opcode == opcode,
            r.data@ == data@,
    {
        AtomicPayload { opcode, data: Arc::new(data) }
    }
}

/// Relies on `std::sync::Arc::clone`: the result is a handle to the same
/// allocation, so it carries the same value as the argument.
#[verifier::external_body]
pub(crate) fn bytes_arc_clone(a: &Arc<Vec<u8>>) -> (r: Arc<Vec<u8>>)
    ensures
        r == *a,
{
    a.clone()
}

/// Relies on `Arc`'s `Deref`: reading through the handle yields the shared
/// bytes themselves.
#[verifier::external_body]
pub(crate) fn bytes_arc_ref(a: &Arc<Vec<u8>>) -> (r: &Vec<u8>)
    ensures
        *r == **a,
{
    &**a
}

/// One node of the composition DAG, with its precomputed summary data.
pub enum MorphismData {
    Atomic { channel_id: ChannelId, duration: Time, payload: AtomicPayload },
    Sequential { lhs: NodeId, rhs: NodeId, duration: Time, channels: Vec<ChannelId> },
    Parallel { lhs: NodeId, rhs: NodeId, duration: Time, channels: Vec<ChannelId> },
}

pub open spec fn node_duration(n: MorphismData) -> Time {
    match n {
        MorphismData::Atomic { duration, .. } => duration,
        MorphismData::Sequential { duration, .. } => duration,
        MorphismData::Parallel { duration, .. } => duration,
    }
}

/// The channel list stored on a node (an atomic node conceptually stores the
/// one-element list of its own channel).
pub open spec fn node_channels(n: MorphismData) -> Seq<ChannelId> {
    match n {
        MorphismData::Atomic { channel_id, .. } => seq![channel_id],
        MorphismData::Sequential { channels, .. } => channels@,
        MorphismData::Parallel { channels, .. } => channels@,
    }
}

pub open spec fn strictly_sorted(s: Seq<ChannelId>) -> bool {
    forall|i: int, j: int| 0 <= i < j < s.len() ==> s[i] < s[j]
}

/// The set of channel ids of the atomic leaves reachable from node `i`.
pub open spec fn channels_of(nodes: Seq<MorphismData>, i: int) -> Set<ChannelId>
    decreases i,
{
    if 0 <= i < nodes.len() {
        match nodes[i] {
            MorphismData::Atomic { channel_id, .. } => set![channel_id],
            MorphismData::Sequential { lhs, rhs, .. } => if lhs < i && rhs < i {
                channels_of(nodes, lhs as int).union(channels_of(nodes, rhs as int))
            } else {
                Set::empty()
            },
            MorphismData::Parallel { lhs, rhs, .. } => if lhs < i && rhs < i {
                channels_of(nodes, lhs as int).union(channels_of(nodes, rhs as int))
            } else {
                Set::empty()
            },
        }
    } else {
        Set::empty()
    }
}

/// The number of atomic leaves reachable from node `i`.
pub open spec fn leaves_of(nodes: Seq<MorphismData>, i: int) -> nat
    decreases i,
{
    if 0 <= i < nodes.len() {
        match nodes[i] {
            MorphismData::Atomic { .. } => 1,
            MorphismData::Sequential { lhs, rhs, .. } => if lhs < i && rhs < i {
                leaves_of(nodes, lhs as int) + leaves_of(nodes, rhs as int)
            } else {
                0
            },
            MorphismData::Parallel { lhs, rhs, .. } => if lhs < i && rhs < i {
                leaves_of(nodes, lhs as int) + leaves_of(nodes, rhs as int)
            } else {
                0
            },
        }
    } else {
        0
    }
}

/// The height of the composition tree rooted at node `i` (an atomic leaf has
/// depth 1).
pub open spec fn depth_of(nodes: Seq<MorphismData>, i: int) -> nat
    decreases i,
{
    if 0 <= i < nodes.len() {
        match nodes[i] {
            MorphismData::Atomic { .. } => 1,
            MorphismData::Sequential { lhs, rhs, .. } => if lhs < i && rhs < i {
                1 + if depth_of(nodes, lhs as int) >= depth_of(nodes, rhs as int) {
                    depth_of(nodes, lhs as int)
                } else {
                    depth_of(nodes, rhs as int)
                }
            } else {
                0
            },
            MorphismData::Parallel { lhs, rhs, .. } => if lhs < i && rhs < i {
                1 + if depth_of(nodes, lhs as int) >= depth_of(nodes, rhs as int) {
                    depth_of(nodes, lhs as int)
                } else {
                    depth_of(nodes, rhs as int)
                }
            } else {
                0
            },
        }
    } else {
        0
    }
}

/// The number of nodes in the composition tree rooted at `i` (leaves and
/// interior nodes together).
pub open spec fn size_of(nodes: Seq<MorphismData>, i: int) -> nat
    decreases i,
{
    if 0 <= i < nodes.len() {
        match nodes[i] {
            MorphismData::Atomic { .. } => 1,
            MorphismData::Sequential { lhs, rhs, .. } => if lhs < i && rhs < i {
                1 + size_of(nodes, lhs as int) + size_of(nodes, rhs as int)
            } else {
                1
            },
            MorphismData::Parallel { lhs, rhs, .. } => if lhs < i && rhs < i {
                1 + size_of(nodes, lhs as int) + size_of(nodes, rhs as int)
            } else {
                1
            },
        }
    } else {
        0
    }
}

/// Whether node `k` lies in the composition tree rooted at `i`.
pub open spec fn subtree_contains(nodes: Seq<MorphismData>, i: int, k: int) -> bool
    decreases i,
{
    i == k || (0 <= i < nodes.len() && match nodes[i] {
        MorphismData::Atomic { .. } => false,
        MorphismData::Sequential { lhs, rhs, .. } => lhs < i && rhs < i && (subtree_contains(
            nodes,
            lhs as int,
            k,
        ) || subtree_contains(nodes, rhs as int, k)),
        MorphismData::Parallel { lhs, rhs, .. } => lhs < i && rhs < i && (subtree_contains(
            nodes,
            lhs as int,
            k,
        ) || subtree_contains(nodes, rhs as int, k)),
    })
}

/// Well-formedness of a single node: child handles point at earlier nodes,
/// the stored duration follows the algebra, the stored channel list is the
/// strictly sorted union of the children's channel sets, and a parallel
/// node's children act on disjoint channels.
pub open spec fn wf_idx(nodes: Seq<MorphismData>, i: int) -> bool {
    match nodes[i] {
        MorphismData::Atomic { .. } => true,
        MorphismData::Sequential { lhs, rhs, duration, channels } => {
            &&& lhs < i
            &&& rhs < i
            &&& duration as int == node_duration(nodes[lhs as int]) as int
                + node_duration(nodes[rhs as int]) as int
            &&& strictly_sorted(channels@)
            &&& channels@.to_set() == channels_of(nodes, lhs as int).union(
                channels_of(nodes, rhs as int),
            )
        },
        MorphismData::Parallel { lhs, rhs, duration, channels } => {
            &&& lhs < i
            &&& rhs < i
            &&& duration == if node_duration(nodes[lhs as int]) >= node_duration(
                nodes[rhs as int],
            ) {
                node_duration(nodes[lhs as int])
            } else {
                node_duration(nodes[rhs as int])
            }
            &&& strictly_sorted(channels@)
            &&& channels@.to_set() == channels_of(nodes, lhs as int).union(
                channels_of(nodes, rhs as int),
            )
            &&& channels_of(nodes, lhs as int).disjoint(channels_of(nodes, rhs as int))
        },
    }
}

pub open spec fn wf_nodes(nodes: Seq<MorphismData>) -> bool {
    forall|i: int| 0 <= i < nodes.len() ==> #[trigger] wf_idx(nodes, i)
}

/// Append-only store of all morphism nodes; handles are indexes into it.
pub struct ArenaContext {
    nodes: Vec<MorphismData>,
}

impl View for ArenaContext {
    type V = Seq<MorphismData>;

    closed spec fn view(&self) -> Seq<MorphismData> {
        self.nodes@
    }
}

impl MorphismData {
    /// The precomputed duration, in O(1).
    pub fn duration(&self) -> (r: Time)
        ensures
            r == node_duration(*self),
    {
        match self {
            MorphismData::Atomic { duration, .. } => *duration,
            MorphismData::Sequential { duration, .. } => *duration,
            MorphismData::Parallel { duration, .. } => *duration,
        }
    }

    /// The sorted channel list, as an owned vector.
    pub fn channels_vec(&self) -> (r: Vec<ChannelId>)
        ensures
            r@ == node_channels(*self),
    {
        match self {
            MorphismData::Atomic { channel_id, .. } => {
                let r = vec![*channel_id];
                proof {
                    assert(r@ =~= node_channels(*self));
                }
                r
            },
            MorphismData::Sequential { channels, .. } => {
                let r = channels.clone();
                proof {
                    assert(r@ =~= channels@);
                }
                r
            },
            MorphismData::Parallel { channels, .. } => {
                let r = channels.clone();
                proof {
                    assert(r@ =~= channels@);
                }
                r
            },
        }
    }
}

/// Pushing onto a sequence adds exactly one element to its set of members.
pub proof fn lemma_to_set_push<A>(s: Seq<A>, v: A)
    ensures
        s.push(v).to_set() == s.to_set().insert(v),
{
    assert forall|x: A| s.push(v).to_set().contains(x) implies s.to_set().insert(v).contains(
        x,
    ) by {
        let k = choose|k: int| 0 <= k < s.push(v).len() && s.push(v)[k] == x;
        if k < s.len() {
            assert(s[k] == x);
            assert(s.contains(x));
        }
    }
    assert forall|x: A| s.to_set().insert(v).contains(x) implies s.push(v).to_set().contains(
        x,
    ) by {
        if s.to_set().contains(x) {
            let k = choose|k: int| 0 <= k < s.len() && s[k] == x;
            assert(s.push(v)[k] == x);
            assert(s.push(v).contains(x));
        } else {
            assert(s.push(v)[s.len() as int] == v);
            assert(s.push(v).contains(v));
        }
    }
    assert(s.push(v).to_set() =~= s.to_set().insert(v));
}

/// Extending the arena does not change what any existing node means.
pub proof fn lemma_channels_of_push(nodes: Seq<MorphismData>, x: MorphismData, i: int)
    requires
        0 <= i < nodes.len(),
    ensures
        channels_of(nodes.push(x), i) == channels_of(nodes, i),
    decreases i,
{
    let ext = nodes.push(x);
    assert(ext[i] == nodes[i]);
    match nodes[i] {
        MorphismData::Atomic { .. } => {},
        MorphismData::Sequential { lhs, rhs, .. } => {
            if lhs < i && rhs < i {
                lemma_channels_of_push(nodes, x, lhs as int);
                lemma_channels_of_push(nodes, x, rhs as int);
            }
        },
        MorphismData::Parallel { lhs, rhs, .. } => {
            if lhs < i && rhs < i {
                lemma_channels_of_push(nodes, x, lhs as int);
                lemma_channels_of_push(nodes, x, rhs as int);
            }
        },
    }
}

pub proof fn lemma_leaves_of_push(nodes: Seq<MorphismData>, x: MorphismData, i: int)
    requires
        0 <= i < nodes.len(),
    ensures
        leaves_of(nodes.push(x), i) == leaves_of(nodes, i),
    decreases i,
{
    let ext = nodes.push(x);
    assert(ext[i] == nodes[i]);
    match nodes[i] {
        MorphismData::Atomic { .. } => {},
        MorphismData::Sequential { lhs, rhs, .. } => {
            if lhs < i && rhs < i {
                lemma_leaves_of_push(nodes, x, lhs as int);
                lemma_leaves_of_push(nodes, x, rhs as int);
            }
        },
        MorphismData::Parallel { lhs, rhs, .. } => {
            if lhs < i && rhs < i {
                lemma_leaves_of_push(nodes, x, lhs as int);
                lemma_leaves_of_push(nodes, x, rhs as int);
            }
        },
    }
}

pub proof fn lemma_depth_of_push(nodes: Seq<MorphismData>, x: MorphismData, i: int)
    requires
        0 <= i < nodes.len(),
    ensures
        depth_of(nodes.push(x), i) == depth_of(nodes, i),
    decreases i,
{
    let ext = nodes.push(x);
    assert(ext[i] == nodes[i]);
    match nodes[i] {
        MorphismData::Atomic { .. } => {},
        MorphismData::Sequential { lhs, rhs, .. } => {
            if lhs < i && rhs < i {
                lemma_depth_of_push(nodes, x, lhs as int);
                lemma_depth_of_push(nodes, x, rhs as int);
            }
        },
        MorphismData::Parallel { lhs, rhs, .. } => {
            if lhs < i && rhs < i {
                lemma_depth_of_push(nodes, x, lhs as int);
                lemma_depth_of_push(nodes, x, rhs as int);
            }
        },
    }
}

pub proof fn lemma_wf_idx_push(nodes: Seq<MorphismData>, x: MorphismData, i: int)
    requires
        0 <= i < nodes.len(),
        wf_idx(nodes, i),
    ensures
        wf_idx(nodes.push(x), i),
{
    let ext = nodes.push(x);
    assert(ext[i] == nodes[i]);
    match nodes[i] {
        MorphismData::Atomic { .. } => {},
        MorphismData::Sequential { lhs, rhs, .. } => {
            assert(ext[lhs as int] == nodes[lhs as int]);
            assert(ext[rhs as int] == nodes[rhs as int]);
            lemma_channels_of_push(nodes, x, lhs as int);
            lemma_channels_of_push(nodes, x, rhs as int);
        },
        MorphismData::Parallel { lhs, rhs, .. } => {
            assert(ext[lhs as int] == nodes[lhs as int]);
            assert(ext[rhs as int] == nodes[rhs as int]);
            lemma_channels_of_push(nodes, x, lhs as int);
            lemma_channels_of_push(nodes, x, rhs as int);
        },
    }
}

/// Under well-formedness, the channel list stored on a node is exactly the
/// sorted enumeration of the channel set of its subtree.
pub proof fn lemma_node_channel_list(nodes: Seq<MorphismData>, i: int)
    requires
        wf_nodes(nodes),
        0 <= i < nodes.len(),
    ensures
        strictly_sorted(node_channels(nodes[i])),
        node_channels(nodes[i]).to_set() == channels_of(nodes, i),
{
    assert(wf_idx(nodes, i));
    match nodes[i] {
        MorphismData::Atomic { channel_id, .. } => {
            let s = seq![channel_id];
            assert(s.to_set() =~= set![channel_id]) by {
                assert(s[0] == channel_id);
                assert(s.contains(channel_id));
                assert forall|x: ChannelId| s.to_set().contains(x) implies x == channel_id by {
                    let k = choose|k: int| 0 <= k < s.len() && s[k] == x;
                    assert(k == 0);
                }
            }
        },
        MorphismData::Sequential { .. } => {},
        MorphismData::Parallel { .. } => {},
    }
}

/// Merge two strictly sorted channel lists into their strictly sorted union,
/// emitting a shared element once.
pub fn merge_channels(a: &Vec<ChannelId>, b: &Vec<ChannelId>) -> (r: Vec<ChannelId>)
    requires
        strictly_sorted(a@),
        strictly_sorted(b@),
    ensures
        strictly_sorted(r@),
        r@.to_set() == a@.to_set().union(b@.to_set()),
{
    let mut out: Vec<ChannelId> = Vec::new();
    let mut i: usize = 0;
    let mut j: usize = 0;
    proof {
        assert(out@.to_set() =~= a@.take(0).to_set().union(b@.take(0).to_set()));
    }
    while i < a.len() || j < b.len()
        invariant
            i <= a.len(),
            j <= b.len(),
            strictly_sorted(a@),
            strictly_sorted(b@),
            strictly_sorted(out@),
            out@.to_set() == a@.take(i as int).to_set().union(b@.take(j as int).to_set()),
            out@.len() > 0 && i < a@.len() ==> out@.last() < a@[i as int],
            out@.len() > 0 && j < b@.len() ==> out@.last() < b@[j as int],
        decreases a.len() - i + b.len() - j,
    {
        let take_a = if i < a.len() && j < b.len() {
            a[i] <= b[j]
        } else {
            i < a.len()
        };
        let also_b = if i < a.len() && j < b.len() {
            b[j] <= a[i]
        } else {
            j < b.len()
        };
        let ghost old_out = out@;
        let ghost old_i = i as int;
        let ghost old_j = j as int;
        let v = if take_a {
            a[i]
        } else {
            b[j]
        };
        out.push(v);
        if take_a {
            i = i + 1;
        }
        if also_b {
            j = j + 1;
        }
        proof {
            assert(out@ == old_out.push(v));
            lemma_to_set_push(old_out, v);
            if take_a {
                assert(a@.take(old_i + 1) =~= a@.take(old_i).push(a@[old_i]));
                lemma_to_set_push(a@.take(old_i), a@[old_i]);
            }
            if also_b {
                assert(b@.take(old_j + 1) =~= b@.take(old_j).push(b@[old_j]));
                lemma_to_set_push(b@.take(old_j), b@[old_j]);
            }
            assert(out@.to_set() =~= a@.take(i as int).to_set().union(b@.take(j as int).to_set()));
        }
    }
    proof {
        assert(a@.take(a@.len() as int) =~= a@);
        assert(b@.take(b@.len() as int) =~= b@);
    }
    out
}

impl ArenaContext {
    pub open spec fn wf(&self) -> bool {
        wf_nodes(self@)
    }

    pub fn new() -> (r: ArenaContext)
        ensures
            r@ == Seq::<MorphismData>::empty(),
            r.wf(),
    {
        let r = ArenaContext { nodes: Vec::with_capacity(100_000) };
        proof {
            assert(r@ =~= Seq::<MorphismData>::empty());
        }
        r
    }

    pub fn with_capacity(capacity: usize) -> (r: ArenaContext)
        ensures
            r@ == Seq::<MorphismData>::empty(),
            r.wf(),
    {
        let r = ArenaContext { nodes: Vec::with_capacity(capacity) };
        proof {
            assert(r@ =~= Seq::<MorphismData>::empty());
        }
        r
    }

    /// Resolve a handle; handles must come from this arena.
    pub fn get(&self, id: NodeId) -> (r: &MorphismData)
        requires
            id < self@.len(),
        ensures
            *r == self@[id as int],
    {
        &self.nodes[id as usize]
    }

    pub fn len(&self) -> (r: usize)
        ensures
            r == self@.len(),
    {
        self.nodes.len()
    }

    pub fn is_empty(&self) -> (r: bool)
        ensures
            r == (self@.len() == 0),
    {
        self.nodes.is_empty()
    }

    /// Drop every node; outstanding handles become dangling.
    pub fn clear(&mut self)
        ensures
            final(self)@ == Seq::<MorphismData>::empty(),
            final(self).wf(),
    {
        self.nodes.clear();
        proof {
            assert(self@ =~= Seq::<MorphismData>::empty());
        }
    }

    /// Intern an atomic operation, moving its payload into shared ownership.
    pub fn atomic(
        &mut self,
        channel_id: ChannelId,
        duration: Time,
        opcode: u16,
        data: Vec<u8>,
    ) -> (id: NodeId)
        requires
            old(self).wf(),
            old(self)@.len() < u32::MAX,
        ensures
            final(self).wf(),
            id == old(self)@.len(),
            final(self)@ == old(self)@.push(final(self)@[id as int]),
            final(self)@[id as int] matches MorphismData::Atomic {
                channel_id: c,
                duration: d,
                payload: p,
            } && c == channel_id && d == duration && p.opcode == opcode && p.data@ == data@,
            channels_of(final(self)@, id as int) == set![channel_id],
            leaves_of(final(self)@, id as int) == 1,
            depth_of(final(self)@, id as int) == 1,
    {
        let id = self.nodes.len();
        let node = MorphismData::Atomic { channel_id, duration, payload: AtomicPayload::new(opcode, data) };
        let ghost pre = self.nodes@;
        let ghost n = node;
        self.nodes.push(node);
        proof {
            assert forall|k: int| 0 <= k < self@.len() implies #[trigger] wf_idx(self@, k) by {
                if k < pre.len() {
                    assert(wf_idx(pre, k));
                    lemma_wf_idx_push(pre, n, k);
                } else {
                    assert(self@[k] is Atomic);
                }
            }
        }
        id as u32
    }

    /// Serial composition: durations add, channel sets join.
    pub fn sequential(&mut self, a: NodeId, b: NodeId) -> (id: NodeId)
        requires
            old(self).wf(),
            old(self)@.len() < u32::MAX,
            a < old(self)@.len(),
            b < old(self)@.len(),
            node_duration(old(self)@[a as int]) as int + node_duration(old(self)@[b as int]) as int
                <= u64::MAX,
        ensures
            final(self).wf(),
            id == old(self)@.len(),
            final(self)@ == old(self)@.push(final(self)@[id as int]),
            final(self)@[id as int] matches MorphismData::Sequential { lhs, rhs, duration, .. }
                && lhs == a && rhs == b && duration as int == node_duration(old(self)@[a as int]) as int
                + node_duration(old(self)@[b as int]) as int,
            channels_of(final(self)@, id as int) == channels_of(old(self)@, a as int).union(
                channels_of(old(self)@, b as int),
            ),
            leaves_of(final(self)@, id as int) == leaves_of(old(self)@, a as int) + leaves_of(
                old(self)@,
                b as int,
            ),
            depth_of(final(self)@, id as int) == 1 + if depth_of(old(self)@, a as int) >= depth_of(
                old(self)@,
                b as int,
            ) {
                depth_of(old(self)@, a as int)
            } else {
                depth_of(old(self)@, b as int)
            },
    {
        proof {
            lemma_node_channel_list(self@, a as int);
            lemma_node_channel_list(self@, b as int);
        }
        let ca = self.get(a).channels_vec();
        let cb = self.get(b).channels_vec();
        let channels = merge_channels(&ca, &cb);
        let duration = self.get(a).duration() + self.get(b).duration();
        let id = self.nodes.len();
        let node = MorphismData::Sequential { lhs: a, rhs: b, duration, channels };
        let ghost pre = self.nodes@;
        let ghost n = node;
        self.nodes.push(node);
        proof {
            lemma_channels_of_push(pre, n, a as int);
            lemma_channels_of_push(pre, n, b as int);
            lemma_leaves_of_push(pre, n, a as int);
            lemma_leaves_of_push(pre, n, b as int);
            lemma_depth_of_push(pre, n, a as int);
            lemma_depth_of_push(pre, n, b as int);
            assert(self@[id as int] == n);
            assert(wf_idx(self@, id as int));
            assert forall|k: int| 0 <= k < self@.len() implies #[trigger] wf_idx(self@, k) by {
                if k < pre.len() {
                    assert(wf_idx(pre, k));
                    lemma_wf_idx_push(pre, n, k);
                }
            }
        }
        id as u32
    }

    /// Parallel composition; fails, leaving the arena unchanged, exactly when
    /// the two subtrees' channel sets intersect.
    pub fn parallel(&mut self, a: NodeId, b: NodeId) -> (r: Result<NodeId, String>)
        requires
            old(self).wf(),
            old(self)@.len() < u32::MAX,
            a < old(self)@.len(),
            b < old(self)@.len(),
        ensures
            final(self).wf(),
            r is Ok <==> channels_of(old(self)@, a as int).disjoint(
                channels_of(old(self)@, b as int),
            ),
            r matches Err(m) ==> final(self)@ == old(self)@ && m@
                == "Parallel composition requires disjoint channels"@,
            r matches Ok(id) ==> {
                &&& id == old(self)@.len()
                &&& final(self)@ == old(self)@.push(final(self)@[id as int])
                &&& final(self)@[id as int] matches MorphismData::Parallel { lhs, rhs, duration, .. }
                    && lhs == a && rhs == b && duration == if node_duration(old(self)@[a as int])
                    >= node_duration(old(self)@[b as int]) {
                    node_duration(old(self)@[a as int])
                } else {
                    node_duration(old(self)@[b as int])
                }
                &&& channels_of(final(self)@, id as int) == channels_of(old(self)@, a as int).union(
                    channels_of(old(self)@, b as int),
                )
                &&& leaves_of(final(self)@, id as int) == leaves_of(old(self)@, a as int)
                    + leaves_of(old(self)@, b as int)
                &&& depth_of(final(self)@, id as int) == 1 + if depth_of(old(self)@, a as int)
                    >= depth_of(old(self)@, b as int) {
                    depth_of(old(self)@, a as int)
                } else {
                    depth_of(old(self)@, b as int)
                }
            },
    {
        proof {
            lemma_node_channel_list(self@, a as int);
            lemma_node_channel_list(self@, b as int);
        }
        let ca = self.get(a).channels_vec();
        let cb = self.get(b).channels_vec();
        if has_intersection(ca.as_slice(), cb.as_slice()) {
            return Err("Parallel composition requires disjoint channels".to_owned());
        }
        let channels = merge_channels(&ca, &cb);
        let da = self.get(a).duration();
        let db = self.get(b).duration();
        let duration = if da >= db {
            da
        } else {
            db
        };
        let id = self.nodes.len();
        let node = MorphismData::Parallel { lhs: a, rhs: b, duration, channels };
        let ghost pre = self.nodes@;
        let ghost n = node;
        self.nodes.push(node);
        proof {
            lemma_channels_of_push(pre, n, a as int);
            lemma_channels_of_push(pre, n, b as int);
            lemma_leaves_of_push(pre, n, a as int);
            lemma_leaves_of_push(pre, n, b as int);
            lemma_depth_of_push(pre, n, a as int);
            lemma_depth_of_push(pre, n, b as int);
            assert(self@[id as int] == n);
            assert(wf_idx(self@, id as int));
            assert forall|k: int| 0 <= k < self@.len() implies #[trigger] wf_idx(self@, k) by {
                if k < pre.len() {
                    assert(wf_idx(pre, k));
                    lemma_wf_idx_push(pre, n, k);
                }
            }
        }
        Ok(id as u32)
    }
}

/// Whether two strictly sorted channel lists share an element, by a
/// two-pointer scan.
pub fn has_intersection(a: &[ChannelId], b: &[ChannelId]) -> (r: bool)
    requires
        strictly_sorted(a@),
        strictly_sorted(b@),
    ensures
        r == !a@.to_set().disjoint(b@.to_set()),
{
    let mut i: usize = 0;
    let mut j: usize = 0;
    while i < a.len() && j < b.len()
        invariant
            i <= a.len(),
            j <= b.len(),
            strictly_sorted(a@),
            strictly_sorted(b@),
            forall|k: int| 0 <= k < i ==> !b@.contains(#[trigger] a@[k]),
            forall|k: int| 0 <= k < j ==> !a@.contains(#[trigger] b@[k]),
        decreases a.len() - i + b.len() - j,
    {
        if a[i] == b[j] {
            proof {
                assert(a@.contains(a@[i as int]));
                assert(b@.contains(b@[j as int]));
                assert(a@.to_set().contains(a@[i as int]));
                assert(b@.to_set().contains(a@[i as int]));
            }
            return true;
        } else if a[i] < b[j] {
            proof {
                let ai = a@[i as int];
                assert forall|k: int| 0 <= k < b@.len() implies b@[k] != ai by {
                    if k < j {
                        assert(!a@.contains(b@[k]));
                        assert(a@.contains(ai));
                    } else {
                        assert(b@[j as int] <= b@[k]);
                    }
                }
                assert(!b@.contains(ai));
            }
            i = i + 1;
        } else {
            proof {
                let bj = b@[j as int];
                assert forall|k: int| 0 <= k < a@.len() implies a@[k] != bj by {
                    if k < i {
                        assert(!b@.contains(a@[k]));
                        assert(b@.contains(bj));
                    } else {
                        assert(a@[i as int] <= a@[k]);
                    }
                }
                assert(!a@.contains(bj));
            }
            j = j + 1;
        }
    }
    proof {
        assert forall|x: ChannelId| !(a@.to_set().contains(x) && b@.to_set().contains(x)) by {
            if a@.to_set().contains(x) && b@.to_set().contains(x) {
                let k = choose|k: int| 0 <= k < a@.len() && a@[k] == x;
                let m = choose|m: int| 0 <= m < b@.len() && b@[m] == x;
                if k < i {
                    assert(!b@.contains(a@[k]));
                    assert(b@.contains(b@[m]));
                } else {
                    assert(j == b@.len());
                    assert(!a@.contains(b@[m]));
                    assert(a@.contains(a@[k]));
                }
            }
        }
        assert(a@.to_set().disjoint(b@.to_set()));
    }
    false
}

// ---------------------------------------------------------------------------
// Stack-machine traversals: leaf count and depth.
// ---------------------------------------------------------------------------

/// Leaves owed by a work stack of handles.
pub open spec fn pending_leaves(nodes: Seq<MorphismData>, st: Seq<NodeId>) -> nat
    decreases st.len(),
{
    if st.len() == 0 {
        0
    } else {
        leaves_of(nodes, st.last() as int) + pending_leaves(nodes, st.drop_last())
    }
}

/// Subtree sizes owed by a work stack of handles; the termination measure.
pub open spec fn pending_sizes(nodes: Seq<MorphismData>, st: Seq<NodeId>) -> nat
    decreases st.len(),
{
    if st.len() == 0 {
        0
    } else {
        size_of(nodes, st.last() as int) + pending_sizes(nodes, st.drop_last())
    }
}

/// A well-formed node's tree is no deeper than its own handle value allows.
pub proof fn lemma_depth_le_handle(nodes: Seq<MorphismData>, i: int)
    requires
        wf_nodes(nodes),
        0 <= i < nodes.len(),
    ensures
        depth_of(nodes, i) <= i + 1,
    decreases i,
{
    assert(wf_idx(nodes, i));
    match nodes[i] {
        MorphismData::Atomic { .. } => {},
        MorphismData::Sequential { lhs, rhs, .. } => {
            lemma_depth_le_handle(nodes, lhs as int);
            lemma_depth_le_handle(nodes, rhs as int);
        },
        MorphismData::Parallel { lhs, rhs, .. } => {
            lemma_depth_le_handle(nodes, lhs as int);
            lemma_depth_le_handle(nodes, rhs as int);
        },
    }
}

/// Every well-formed node's tree has at least depth one.
pub proof fn lemma_depth_pos(nodes: Seq<MorphismData>, i: int)
    requires
        wf_nodes(nodes),
        0 <= i < nodes.len(),
    ensures
        depth_of(nodes, i) >= 1,
{
    assert(wf_idx(nodes, i));
}

/// The largest tree depth owed by a work stack of `(handle, level)` pairs,
/// where a pair contributes its level plus the depth below its handle.
pub open spec fn pending_depth(nodes: Seq<MorphismData>, st: Seq<(NodeId, usize)>) -> int
    decreases st.len(),
{
    if st.len() == 0 {
        0
    } else {
        let d = st.last().1 - 1 + depth_of(nodes, st.last().0 as int);
        if d >= pending_depth(nodes, st.drop_last()) {
            d
        } else {
            pending_depth(nodes, st.drop_last())
        }
    }
}

pub open spec fn pending_depth_sizes(nodes: Seq<MorphismData>, st: Seq<(NodeId, usize)>) -> nat
    decreases st.len(),
{
    if st.len() == 0 {
        0
    } else {
        size_of(nodes, st.last().0 as int) + pending_depth_sizes(nodes, st.drop_last())
    }
}

impl ArenaContext {
    /// Count the atomic leaves under `root` with an explicit work stack, so
    /// deep trees cannot overflow the native call stack.
    pub fn leaf_count(&self, root: NodeId) -> (r: usize)
        requires
            self.wf(),
            root < self@.len(),
            leaves_of(self@, root as int) <= usize::MAX,
        ensures
            r == leaves_of(self@, root as int),
    {
        let ghost nodes = self@;
        let ghost goal = leaves_of(nodes, root as int);
        let mut stack: Vec<NodeId> = Vec::new();
        stack.push(root);
        let mut count: usize = 0;
        proof {
            assert(stack@.last() == root);
            assert(stack@.drop_last() =~= Seq::<NodeId>::empty());
            assert(pending_leaves(nodes, stack@.drop_last()) == 0);
            assert(pending_leaves(nodes, stack@) == goal);
        }
        while stack.len() > 0
            invariant
                self.wf(),
                self@ == nodes,
                count + pending_leaves(nodes, stack@) == goal,
                goal <= usize::MAX,
                forall|k: int| 0 <= k < stack@.len() ==> #[trigger] stack@[k] < nodes.len(),
            decreases pending_sizes(nodes, stack@),
        {
            let ghost pre_stack = stack@;
            let h = stack.pop().unwrap();
            proof {
                assert(pre_stack.last() == h);
                assert(stack@ =~= pre_stack.drop_last());
                assert(wf_idx(nodes, h as int));
            }
            let ghost rest = stack@;
            let node = self.get(h);
            match node {
                MorphismData::Atomic { .. } => {
                    proof {
                        assert(leaves_of(nodes, h as int) == 1);
                    }
                    count = count + 1;
                },
                MorphismData::Sequential { lhs, rhs, .. } => {
                    let lhs_v = *lhs;
                    let rhs_v = *rhs;
                    stack.push(rhs_v);
                    stack.push(lhs_v);
                    proof {
                        let s1 = rest.push(rhs_v);
                        assert(stack@ == s1.push(lhs_v));
                        assert(s1.drop_last() =~= rest);
                        assert(stack@.drop_last() =~= s1);
                        assert(pending_leaves(nodes, s1) == leaves_of(nodes, rhs_v as int)
                            + pending_leaves(nodes, rest));
                        assert(pending_sizes(nodes, s1) == size_of(nodes, rhs_v as int)
                            + pending_sizes(nodes, rest));
                        assert(leaves_of(nodes, h as int) == leaves_of(nodes, lhs_v as int)
                            + leaves_of(nodes, rhs_v as int));
                        assert(size_of(nodes, h as int) == 1 + size_of(nodes, lhs_v as int)
                            + size_of(nodes, rhs_v as int));
                    }
                },
                MorphismData::Parallel { lhs, rhs, .. } => {
                    let lhs_v = *lhs;
                    let rhs_v = *rhs;
                    stack.push(rhs_v);
                    stack.push(lhs_v);
                    proof {
                        let s1 = rest.push(rhs_v);
                        assert(stack@ == s1.push(lhs_v));
                        assert(s1.drop_last() =~= rest);
                        assert(stack@.drop_last() =~= s1);
                        assert(pending_leaves(nodes, s1) == leaves_of(nodes, rhs_v as int)
                            + pending_leaves(nodes, rest));
                        assert(pending_sizes(nodes, s1) == size_of(nodes, rhs_v as int)
                            + pending_sizes(nodes, rest));
                        assert(leaves_of(nodes, h as int) == leaves_of(nodes, lhs_v as int)
                            + leaves_of(nodes, rhs_v as int));
                        assert(size_of(nodes, h as int) == 1 + size_of(nodes, lhs_v as int)
                            + size_of(nodes, rhs_v as int));
                    }
                },
            }
        }
        count
    }

    /// The height of the tree under `root`, with an explicit work stack of
    /// `(handle, level)` pairs.
    pub fn max_depth(&self, root: NodeId) -> (r: usize)
        requires
            self.wf(),
            root < self@.len(),
        ensures
            r == depth_of(self@, root as int),
    {
        let ghost nodes = self@;
        let ghost goal = depth_of(nodes, root as int) as int;
        let total = self.len();
        let mut stack: Vec<(NodeId, usize)> = Vec::new();
        stack.push((root, 1));
        let mut best: usize = 0;
        proof {
            lemma_depth_le_handle(nodes, root as int);
            assert(stack@.last() == (root, 1usize));
            assert(stack@.drop_last() =~= Seq::<(NodeId, usize)>::empty());
            assert(pending_depth(nodes, stack@.drop_last()) == 0);
            assert(pending_depth(nodes, stack@) == goal);
        }
        while stack.len() > 0
            invariant
                self.wf(),
                self@ == nodes,
                root < nodes.len(),
                goal == depth_of(nodes, root as int),
                goal <= root + 1,
                nodes.len() <= usize::MAX,
                best <= goal,
                (if best as int >= pending_depth(nodes, stack@) {
                    best as int
                } else {
                    pending_depth(nodes, stack@)
                }) == goal,
                forall|k: int| 0 <= k < stack@.len() ==> (#[trigger] stack@[k]).0 < nodes.len()
                    && 1 <= stack@[k].1 && stack@[k].1 - 1 + depth_of(
                    nodes,
                    stack@[k].0 as int,
                ) <= goal,
            decreases pending_depth_sizes(nodes, stack@),
        {
            let ghost pre_stack = stack@;
            let (h, d) = stack.pop().unwrap();
            proof {
                assert(pre_stack.last() == (h, d));
                assert(stack@ =~= pre_stack.drop_last());
                assert(wf_idx(nodes, h as int));
                assert(pre_stack[pre_stack.len() - 1] == (h, d));
                assert(d - 1 + depth_of(nodes, h as int) <= goal);
                assert(pending_depth(nodes, pre_stack) == (if d - 1 + depth_of(nodes, h as int)
                    >= pending_depth(nodes, stack@) {
                    d - 1 + depth_of(nodes, h as int)
                } else {
                    pending_depth(nodes, stack@)
                }));
                assert(pending_depth_sizes(nodes, pre_stack) == size_of(nodes, h as int)
                    + pending_depth_sizes(nodes, stack@));
            }
            let ghost rest = stack@;
            if d > best {
                best = d;
            }
            let node = self.get(h);
            match node {
                MorphismData::Atomic { .. } => {
                    proof {
                        assert(depth_of(nodes, h as int) == 1);
                    }
                },
                MorphismData::Sequential { lhs, rhs, .. } | MorphismData::Parallel {
                    lhs,
                    rhs,
                    ..
                } => {
                    let lhs_v = *lhs;
                    let rhs_v = *rhs;
                    proof {
                        assert(depth_of(nodes, h as int) == 1 + if depth_of(nodes, lhs_v as int)
                            >= depth_of(nodes, rhs_v as int) {
                            depth_of(nodes, lhs_v as int)
                        } else {
                            depth_of(nodes, rhs_v as int)
                        });
                        lemma_depth_pos(nodes, lhs_v as int);
                        lemma_depth_pos(nodes, rhs_v as int);
                        assert(depth_of(nodes, h as int) >= 2);
                        assert(d + 1 <= goal);
                        assert(goal <= root + 1 <= nodes.len() <= usize::MAX);
                    }
                    stack.push((rhs_v, d + 1));
                    stack.push((lhs_v, d + 1));
                    proof {
                        let s1 = rest.push((rhs_v, (d + 1) as usize));
                        assert(stack@ == s1.push((lhs_v, (d + 1) as usize)));
                        assert(s1.drop_last() =~= rest);
                        assert(s1.last() == (rhs_v, (d + 1) as usize));
                        assert(stack@.drop_last() =~= s1);
                        assert(stack@.last() == (lhs_v, (d + 1) as usize));
                        assert(pending_depth_sizes(nodes, s1) == size_of(nodes, rhs_v as int)
                            + pending_depth_sizes(nodes, rest));
                        assert(size_of(nodes, h as int) == 1 + size_of(nodes, lhs_v as int)
                            + size_of(nodes, rhs_v as int));
                        assert(pending_depth(nodes, s1) == (if (d + 1) - 1 + depth_of(
                            nodes,
                            rhs_v as int,
                        ) >= pending_depth(nodes, rest) {
                            (d + 1) - 1 + depth_of(nodes, rhs_v as int)
                        } else {
                            pending_depth(nodes, rest)
                        }));
                        assert(pending_depth(nodes, stack@) == (if (d + 1) - 1 + depth_of(
                            nodes,
                            lhs_v as int,
                        ) >= pending_depth(nodes, s1) {
                            (d + 1) - 1 + depth_of(nodes, lhs_v as int)
                        } else {
                            pending_depth(nodes, s1)
                        }));
                    }
                },
            }
        }
        proof {
            assert(pending_depth(nodes, stack@) == 0);
        }
        best
    }
}

/// Duration algebra: a serial node's duration is the sum of its children's,
/// a parallel node's the maximum.
pub proof fn lemma_duration_algebra(nodes: Seq<MorphismData>, i: int)
    requires
        wf_nodes(nodes),
        0 <= i < nodes.len(),
    ensures
        nodes[i] matches MorphismData::Sequential { lhs, rhs, duration, .. } ==> duration as int
            == node_duration(nodes[lhs as int]) as int + node_duration(nodes[rhs as int]) as int,
        nodes[i] matches MorphismData::Parallel { lhs, rhs, duration, .. } ==> duration as int == if
        node_duration(nodes[lhs as int]) >= node_duration(nodes[rhs as int]) {
            node_duration(nodes[lhs as int]) as int
        } else {
            node_duration(nodes[rhs as int]) as int
        },
{
    assert(wf_idx(nodes, i));
}

/// Parallel disjointness: the children of every reachable parallel node act
/// on disjoint channel sets.
pub proof fn lemma_parallel_disjoint(nodes: Seq<MorphismData>, i: int)
    requires
        wf_nodes(nodes),
        0 <= i < nodes.len(),
        nodes[i] is Parallel,
    ensures
        nodes[i] matches MorphismData::Parallel { lhs, rhs, .. } ==> channels_of(
            nodes,
            lhs as int,
        ).disjoint(channels_of(nodes, rhs as int)),
{
    assert(wf_idx(nodes, i));
}

} // verus!
