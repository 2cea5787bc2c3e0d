//! Balanced batch composition.
//!
//! A list of handles is reduced pairwise, halving it each round, so the
//! resulting tree is balanced: its depth grows by at most one per round and
//! the number of rounds is logarithmic in the list length.

use vstd::prelude::*;
use vstd::arithmetic::power2::{pow2, lemma_pow2_strictly_increases};
use crate::arena::{ArenaContext, ChannelId, MorphismData, NodeId, channels_of, depth_of,
    leaves_of, node_duration, wf_nodes};

verus! {

/// Every handle in the list resolves in the arena.
pub open spec fn all_valid(nodes: Seq<MorphismData>, hs: Seq<NodeId>) -> bool {
    forall|k: int| 0 <= k < hs.len() ==> (#[trigger] hs[k]) < nodes.len()
}

/// The sum of the listed nodes' durations.
pub open spec fn sum_durations(nodes: Seq<MorphismData>, hs: Seq<NodeId>) -> int
    decreases hs.len(),
{
    if hs.len() == 0 {
        0
    } else {
        node_duration(nodes[hs[0] as int]) + sum_durations(nodes, hs.drop_first())
    }
}

/// The union of the listed nodes' channel sets.
pub open spec fn union_channels(nodes: Seq<MorphismData>, hs: Seq<NodeId>) -> Set<ChannelId>
    decreases hs.len(),
{
    if hs.len() == 0 {
        Set::empty()
    } else {
        channels_of(nodes, hs[0] as int).union(union_channels(nodes, hs.drop_first()))
    }
}

/// The sum of the listed nodes' channel-set sizes.
pub open spec fn sum_channel_card(nodes: Seq<MorphismData>, hs: Seq<NodeId>) -> int
    decreases hs.len(),
{
    if hs.len() == 0 {
        0
    } else {
        channels_of(nodes, hs[0] as int).len() + sum_channel_card(nodes, hs.drop_first())
    }
}

/// The total number of atomic leaves under the listed nodes.
pub open spec fn sum_leaves(nodes: Seq<MorphismData>, hs: Seq<NodeId>) -> nat
    decreases hs.len(),
{
    if hs.len() == 0 {
        0
    } else {
        leaves_of(nodes, hs[0] as int) + sum_leaves(nodes, hs.drop_first())
    }
}

/// The largest duration among the listed nodes.
pub open spec fn max_durations(nodes: Seq<MorphismData>, hs: Seq<NodeId>) -> int
    decreases hs.len(),
{
    if hs.len() == 0 {
        0
    } else {
        let d = node_duration(nodes[hs[0] as int]) as int;
        let rest = max_durations(nodes, hs.drop_first());
        if d >= rest {
            d
        } else {
            rest
        }
    }
}

/// The largest tree depth among the listed nodes.
pub open spec fn depth_bound(nodes: Seq<MorphismData>, hs: Seq<NodeId>) -> nat
    decreases hs.len(),
{
    if hs.len() == 0 {
        0
    } else {
        let d = depth_of(nodes, hs[0] as int);
        let rest = depth_bound(nodes, hs.drop_first());
        if d >= rest {
            d
        } else {
            rest
        }
    }
}

/// No two listed nodes touch a common channel.
pub open spec fn pairwise_disjoint(nodes: Seq<MorphismData>, hs: Seq<NodeId>) -> bool {
    forall|p: int, q: int| 0 <= p < q < hs.len() ==> channels_of(
        nodes,
        (#[trigger] hs[p]) as int,
    ).disjoint(channels_of(nodes, (#[trigger] hs[q]) as int))
}

/// All the list measures are unchanged when the arena grows.
pub proof fn lemma_list_push(nodes: Seq<MorphismData>, x: MorphismData, hs: Seq<NodeId>)
    requires
        all_valid(nodes, hs),
    ensures
        all_valid(nodes.push(x), hs),
        sum_durations(nodes.push(x), hs) == sum_durations(nodes, hs),
        union_channels(nodes.push(x), hs) == union_channels(nodes, hs),
        sum_channel_card(nodes.push(x), hs) == sum_channel_card(nodes, hs),
        depth_bound(nodes.push(x), hs) == depth_bound(nodes, hs),
        max_durations(nodes.push(x), hs) == max_durations(nodes, hs),
        sum_leaves(nodes.push(x), hs) == sum_leaves(nodes, hs),
        pairwise_disjoint(nodes.push(x), hs) == pairwise_disjoint(nodes, hs),
    decreases hs.len(),
{
    let ext = nodes.push(x);
    assert forall|p: int, q: int|
        0 <= p < hs.len() && 0 <= q < hs.len() implies channels_of(ext, (hs[p]) as int)
        == channels_of(nodes, (hs[p]) as int) && channels_of(ext, (hs[q]) as int) == channels_of(
        nodes,
        (hs[q]) as int,
    ) by {
        crate::arena::lemma_channels_of_push(nodes, x, hs[p] as int);
        crate::arena::lemma_channels_of_push(nodes, x, hs[q] as int);
    }
    assert(pairwise_disjoint(ext, hs) == pairwise_disjoint(nodes, hs));
    if hs.len() > 0 {
        assert(ext[hs[0] as int] == nodes[hs[0] as int]);
        crate::arena::lemma_channels_of_push(nodes, x, hs[0] as int);
        crate::arena::lemma_depth_of_push(nodes, x, hs[0] as int);
        crate::arena::lemma_leaves_of_push(nodes, x, hs[0] as int);
        assert(all_valid(nodes, hs.drop_first()));
        lemma_list_push(nodes, x, hs.drop_first());
    }
}

/// Appending a handle adds its measures at the end of the list.
pub proof fn lemma_list_snoc(nodes: Seq<MorphismData>, hs: Seq<NodeId>, h: NodeId)
    ensures
        sum_durations(nodes, hs.push(h)) == sum_durations(nodes, hs) + node_duration(
            nodes[h as int],
        ),
        union_channels(nodes, hs.push(h)) == union_channels(nodes, hs).union(
            channels_of(nodes, h as int),
        ),
        sum_channel_card(nodes, hs.push(h)) == sum_channel_card(nodes, hs) + channels_of(
            nodes,
            h as int,
        ).len(),
        depth_bound(nodes, hs.push(h)) == if depth_bound(nodes, hs) >= depth_of(nodes, h as int) {
            depth_bound(nodes, hs)
        } else {
            depth_of(nodes, h as int)
        },
        max_durations(nodes, hs.push(h)) == if max_durations(nodes, hs) >= node_duration(
            nodes[h as int],
        ) as int {
            max_durations(nodes, hs)
        } else {
            node_duration(nodes[h as int]) as int
        },
        sum_leaves(nodes, hs.push(h)) == sum_leaves(nodes, hs) + leaves_of(nodes, h as int),
    decreases hs.len(),
{
    let sp = hs.push(h);
    if hs.len() == 0 {
        assert(sp[0] == h);
        assert(sp.drop_first() =~= Seq::<NodeId>::empty());
        assert(union_channels(nodes, sp.drop_first()) == Set::<ChannelId>::empty());
        assert(sum_durations(nodes, sp.drop_first()) == 0);
        assert(sum_channel_card(nodes, sp.drop_first()) == 0);
        assert(depth_bound(nodes, sp.drop_first()) == 0);
        assert(max_durations(nodes, sp.drop_first()) == 0);
        assert(sum_leaves(nodes, sp.drop_first()) == 0);
        assert(union_channels(nodes, sp) == channels_of(nodes, h as int).union(
            Set::<ChannelId>::empty(),
        ));
        assert(union_channels(nodes, sp) =~= union_channels(nodes, hs).union(
            channels_of(nodes, h as int),
        ));
    } else {
        assert(sp[0] == hs[0]);
        assert(sp.drop_first() =~= hs.drop_first().push(h));
        lemma_list_snoc(nodes, hs.drop_first(), h);
        assert(union_channels(nodes, sp) == channels_of(nodes, sp[0] as int).union(
            union_channels(nodes, sp.drop_first()),
        ));
        assert(union_channels(nodes, sp) =~= union_channels(nodes, hs).union(
            channels_of(nodes, h as int),
        ));
    }
}

/// Each listed duration is nonnegative, so any sublist sum is at most the
/// whole sum.
pub proof fn lemma_sum_durations_nonneg(nodes: Seq<MorphismData>, hs: Seq<NodeId>)
    ensures
        sum_durations(nodes, hs) >= 0,
    decreases hs.len(),
{
    if hs.len() > 0 {
        lemma_sum_durations_nonneg(nodes, hs.drop_first());
    }
}

/// Splitting a list at the front: the head's measures plus the tail's.
pub proof fn lemma_list_skip(nodes: Seq<MorphismData>, hs: Seq<NodeId>, i: int)
    requires
        0 <= i < hs.len(),
    ensures
        sum_durations(nodes, hs.skip(i)) == node_duration(nodes[hs[i] as int]) + sum_durations(
            nodes,
            hs.skip(i + 1),
        ),
        union_channels(nodes, hs.skip(i)) == channels_of(nodes, hs[i] as int).union(
            union_channels(nodes, hs.skip(i + 1)),
        ),
        sum_channel_card(nodes, hs.skip(i)) == channels_of(nodes, hs[i] as int).len()
            + sum_channel_card(nodes, hs.skip(i + 1)),
        depth_bound(nodes, hs.skip(i)) == if depth_of(nodes, hs[i] as int) >= depth_bound(
            nodes,
            hs.skip(i + 1),
        ) {
            depth_of(nodes, hs[i] as int)
        } else {
            depth_bound(nodes, hs.skip(i + 1))
        },
        max_durations(nodes, hs.skip(i)) == if node_duration(nodes[hs[i] as int]) as int
            >= max_durations(nodes, hs.skip(i + 1)) {
            node_duration(nodes[hs[i] as int]) as int
        } else {
            max_durations(nodes, hs.skip(i + 1))
        },
        sum_leaves(nodes, hs.skip(i)) == leaves_of(nodes, hs[i] as int) + sum_leaves(
            nodes,
            hs.skip(i + 1),
        ),
{
    let s = hs.skip(i);
    assert(s[0] == hs[i]);
    assert(s.drop_first() =~= hs.skip(i + 1));
}

/// Each listed node's depth is within the list bound.
pub proof fn lemma_depth_bound_elem(nodes: Seq<MorphismData>, hs: Seq<NodeId>, k: int)
    requires
        0 <= k < hs.len(),
    ensures
        depth_of(nodes, hs[k] as int) <= depth_bound(nodes, hs),
    decreases hs.len(),
{
    if k > 0 {
        assert(hs.drop_first()[k - 1] == hs[k]);
        lemma_depth_bound_elem(nodes, hs.drop_first(), k - 1);
    }
}

impl ArenaContext {
    /// One pairwise reduction round: adjacent handles are serially combined,
    /// an odd tail carries over.  The round halves the list (rounded up),
    /// keeps the total duration and the channel union, and deepens the
    /// worst tree by at most one.
    fn sequential_round(&mut self, current: &Vec<NodeId>) -> (r: Vec<NodeId>)
        requires
            old(self).wf(),
            all_valid(old(self)@, current@),
            current@.len() >= 2,
            old(self)@.len() + current@.len() <= u32::MAX,
            sum_durations(old(self)@, current@) <= u64::MAX,
        ensures
            final(self).wf(),
            old(self)@.is_prefix_of(final(self)@),
            all_valid(final(self)@, r@),
            sum_durations(final(self)@, r@) == sum_durations(old(self)@, current@),
            union_channels(final(self)@, r@) == union_channels(old(self)@, current@),
            sum_leaves(final(self)@, r@) == sum_leaves(old(self)@, current@),
            depth_bound(final(self)@, r@) <= depth_bound(old(self)@, current@) + 1,
            2 * r@.len() <= current@.len() + 1,
            r@.len() >= 1,
            final(self)@.len() + r@.len() <= old(self)@.len() + current@.len(),
    {
        let ghost total = sum_durations(old(self)@, current@);
        let ghost whole = union_channels(old(self)@, current@);
        let ghost lv_total = sum_leaves(old(self)@, current@) as int;
        let ghost dbound = depth_bound(old(self)@, current@) as int;
        let mut next: Vec<NodeId> = Vec::new();
        let mut i: usize = 0;
        proof {
            assert(current@.skip(0) =~= current@);
            assert(old(self)@.is_prefix_of(old(self)@));
            assert(union_channels(self@, next@).union(union_channels(self@, current@.skip(0)))
                =~= whole);
        }
        while i < current.len()
            invariant
                self.wf(),
                old(self).wf(),
                i <= current@.len(),
                current@.len() >= 2,
                old(self)@.is_prefix_of(self@),
                all_valid(self@, current@),
                all_valid(self@, next@),
                sum_durations(self@, next@) + sum_durations(self@, current@.skip(i as int))
                    == total,
                total <= u64::MAX,
                union_channels(self@, next@).union(
                    union_channels(self@, current@.skip(i as int)),
                ) == whole,
                sum_leaves(self@, next@) + sum_leaves(self@, current@.skip(i as int)) == lv_total,
                depth_bound(self@, next@) <= dbound + 1,
                depth_bound(self@, current@) == dbound,
                2 * next@.len() <= i + 1,
                i < current@.len() ==> 2 * next@.len() <= i,
                i > 0 ==> next@.len() >= 1,
                self@.len() + next@.len() <= old(self)@.len() + i,
                old(self)@.len() + current@.len() <= u32::MAX,
            decreases current@.len() - i,
        {
            if i + 1 < current.len() {
                let a = current[i];
                let b = current[i + 1];
                let ghost pre = self@;
                proof {
                    lemma_list_skip(pre, current@, i as int);
                    lemma_list_skip(pre, current@, i + 1);
                    lemma_sum_durations_nonneg(pre, current@.skip(i + 2));
                    lemma_sum_durations_nonneg(pre, next@);
                    assert(node_duration(pre[a as int]) + node_duration(pre[b as int]) <= total);
                }
                let id = self.sequential(a, b);
                let ghost x = self@[id as int];
                proof {
                    assert(self@ == pre.push(x));
                    lemma_list_push(pre, x, next@);
                    lemma_list_push(pre, x, current@);
                    assert forall|k: int| 0 <= k < current@.len() implies channels_of(
                        self@,
                        (#[trigger] current@[k]) as int,
                    ) == channels_of(pre, current@[k] as int) by {
                        crate::arena::lemma_channels_of_push(pre, x, current@[k] as int);
                    }
                    lemma_list_skip(self@, current@, i as int);
                    lemma_list_skip(self@, current@, i + 1);
                    assert(sum_durations(self@, current@.skip(i as int)) == sum_durations(
                        pre,
                        current@.skip(i as int),
                    )) by {
                        lemma_list_push(pre, x, current@.skip(i as int));
                    }
                    lemma_list_push(pre, x, current@.skip(i + 2));
                    lemma_depth_bound_elem(self@, current@, i as int);
                    lemma_depth_bound_elem(self@, current@, i + 1);
                    crate::arena::lemma_channels_of_push(pre, x, a as int);
                    crate::arena::lemma_channels_of_push(pre, x, b as int);
                    crate::arena::lemma_depth_of_push(pre, x, a as int);
                    crate::arena::lemma_depth_of_push(pre, x, b as int);
                    crate::arena::lemma_leaves_of_push(pre, x, a as int);
                    crate::arena::lemma_leaves_of_push(pre, x, b as int);
                }
                let ghost pre_next = next@;
                next.push(id);
                proof {
                    assert(next@ == pre_next.push(id));
                    lemma_list_snoc(self@, pre_next, id);
                    assert(sum_durations(self@, next@) + sum_durations(
                        self@,
                        current@.skip(i + 2),
                    ) == total);
                    assert(sum_leaves(self@, next@) + sum_leaves(self@, current@.skip(i + 2))
                        == lv_total);
                    assert(union_channels(self@, next@).union(
                        union_channels(self@, current@.skip(i + 2)),
                    ) =~= whole);
                    assert(depth_of(self@, id as int) <= dbound + 1);
                    assert(depth_bound(self@, next@) <= dbound + 1);
                }
                i = i + 2;
            } else {
                let a = current[i];
                let ghost pre_next = next@;
                proof {
                    lemma_list_skip(self@, current@, i as int);
                    assert(current@.skip(i + 1) =~= Seq::<NodeId>::empty());
                    lemma_depth_bound_elem(self@, current@, i as int);
                }
                next.push(a);
                proof {
                    assert(next@ == pre_next.push(a));
                    lemma_list_snoc(self@, pre_next, a);
                    assert(union_channels(self@, next@).union(
                        union_channels(self@, current@.skip(i + 1)),
                    ) =~= whole);
                }
                i = i + 1;
            }
        }
        proof {
            assert(current@.skip(current@.len() as int).len() == 0);
            assert(sum_durations(self@, current@.skip(i as int)) == 0);
            assert(sum_leaves(self@, current@.skip(i as int)) == 0);
            assert(union_channels(self@, current@.skip(i as int)) == Set::<ChannelId>::empty());
            assert(union_channels(self@, next@).union(Set::<ChannelId>::empty()) =~= union_channels(
                self@,
                next@,
            ));
            assert(sum_durations(self@, next@) == total);
            lemma_list_push_prefix_saturate(old(self)@, self@, current@);
        }
        next
    }
}

impl ArenaContext {
    /// Compose a list of handles serially into a balanced tree: the list is
    /// halved round by round, so for any `k` with `2^k` at least the list
    /// length, the result is at most `k` levels deeper than the deepest
    /// input.  An empty list yields nothing; a singleton is returned as is.
    /// The result's duration is the sum of the inputs' durations and its
    /// channel set is their union.
    pub fn compose_sequence(&mut self, handles: Vec<NodeId>) -> (r: Option<NodeId>)
        requires
            old(self).wf(),
            all_valid(old(self)@, handles@),
            sum_durations(old(self)@, handles@) <= u64::MAX,
            old(self)@.len() + handles@.len() <= u32::MAX,
        ensures
            final(self).wf(),
            old(self)@.is_prefix_of(final(self)@),
            handles@.len() <= 1 ==> final(self)@ == old(self)@,
            r is Some <==> handles@.len() > 0,
            handles@.len() == 1 ==> r == Some(handles@[0]),
            r matches Some(root) ==> {
                &&& root < final(self)@.len()
                &&& node_duration(final(self)@[root as int]) as int == sum_durations(
                    old(self)@,
                    handles@,
                )
                &&& channels_of(final(self)@, root as int) == union_channels(
                    old(self)@,
                    handles@,
                )
                &&& leaves_of(final(self)@, root as int) == sum_leaves(old(self)@, handles@)
                &&& forall|k: nat| pow2(k) >= handles@.len() ==> depth_of(
                    final(self)@,
                    root as int,
                ) <= k + depth_bound(old(self)@, handles@)
            },
    {
        if handles.len() == 0 {
            return None;
        }
        let ghost n = handles@.len() as int;
        let ghost total = sum_durations(old(self)@, handles@);
        let ghost whole = union_channels(old(self)@, handles@);
        let ghost lv_total = sum_leaves(old(self)@, handles@) as int;
        let ghost d0 = depth_bound(old(self)@, handles@) as int;
        let mut current = handles;
        let ghost mut rounds: nat = 0;
        proof {
            vstd::arithmetic::power2::lemma_pow2_pos(0);
            vstd::arithmetic::power2::lemma2_to64();
            assert(old(self)@.is_prefix_of(old(self)@));
        }
        while current.len() > 1
            invariant
                self.wf(),
                old(self).wf(),
                old(self)@.is_prefix_of(self@),
                all_valid(self@, current@),
                sum_durations(self@, current@) == total,
                total <= u64::MAX,
                union_channels(self@, current@) == whole,
                sum_leaves(self@, current@) == lv_total,
                depth_bound(self@, current@) <= d0 + rounds,
                current@.len() >= 1,
                current@.len() * pow2(rounds) < n + pow2(rounds),
                rounds > 0 ==> pow2((rounds - 1) as nat) < n,
                self@.len() + current@.len() <= old(self)@.len() + n,
                old(self)@.len() + n <= u32::MAX,
                n >= 1,
                rounds == 0 ==> current@ == handles@ && self@ == old(self)@,
            decreases current@.len(),
        {
            let ghost pre_len = current@.len() as int;
            let ghost pre_rounds = rounds;
            proof {
                vstd::arithmetic::power2::lemma_pow2_pos(rounds);
            }
            let reduced = self.sequential_round(&current);
            current = reduced;
            proof {
                rounds = (rounds + 1) as nat;
                vstd::arithmetic::power2::lemma_pow2_adds(1, pre_rounds);
                vstd::arithmetic::power2::lemma2_to64();
                assert(pow2(rounds) == 2 * pow2(pre_rounds));
                let p = pow2(pre_rounds) as int;
                let len2 = current@.len() as int;
                assert(2 * len2 <= pre_len + 1);
                assert(p > 0);
                assert(len2 * (2 * p) < n + 2 * p) by (nonlinear_arith)
                    requires
                        2 * len2 <= pre_len + 1,
                        pre_len * p < n + p,
                        p > 0,
                        pre_len >= 2,
                {
                }
                assert(pow2((rounds - 1) as nat) < n) by {
                    assert(2 * p <= pre_len * p) by (nonlinear_arith)
                        requires
                            p > 0,
                            pre_len >= 2,
                    {
                    }
                }
            }
        }
        let root = current[0];
        proof {
            assert(current@.len() == 1);
            if handles@.len() == 1 {
                assert(handles@.len() * pow2(rounds) < 1 + pow2(rounds));
                if rounds > 0 {
                    assert(pow2((rounds - 1) as nat) < 1);
                    vstd::arithmetic::power2::lemma_pow2_pos((rounds - 1) as nat);
                    assert(false);
                }
                assert(current@[0] == handles@[0]);
            }
            assert(current@[0] == root);
            lemma_list_skip(self@, current@, 0);
            assert(current@.skip(1).len() == 0);
            assert(sum_durations(self@, current@.skip(1)) == 0);
            assert(sum_leaves(self@, current@.skip(1)) == 0);
            assert(union_channels(self@, current@.skip(1)) == Set::<ChannelId>::empty());
            assert(node_duration(self@[root as int]) as int == total);
            assert(leaves_of(self@, root as int) == lv_total);
            assert(channels_of(self@, root as int).union(Set::<ChannelId>::empty()) =~= channels_of(
                self@,
                root as int,
            ));
            assert(channels_of(self@, root as int) == whole);
            assert(depth_of(self@, root as int) <= d0 + rounds) by {
                lemma_depth_bound_elem(self@, current@, 0);
            }
            assert forall|k: nat| pow2(k) >= n implies depth_of(self@, root as int) <= k
                + d0 by {
                if rounds > 0 {
                    assert(pow2((rounds - 1) as nat) < n);
                    if k < rounds - 1 {
                        lemma_pow2_strictly_increases(k, (rounds - 1) as nat);
                        assert(false);
                    } else if k == rounds - 1 {
                        assert(false);
                    }
                    assert(k >= rounds);
                }
            }
        }
        Some(root)
    }
}

/// The measures of a handle list agree between an arena and any extension
/// of it.
pub proof fn lemma_list_push_prefix_saturate(
    pre: Seq<MorphismData>,
    ext: Seq<MorphismData>,
    hs: Seq<NodeId>,
)
    requires
        pre.is_prefix_of(ext),
        all_valid(pre, hs),
    ensures
        sum_durations(ext, hs) == sum_durations(pre, hs),
        union_channels(ext, hs) == union_channels(pre, hs),
        sum_channel_card(ext, hs) == sum_channel_card(pre, hs),
        depth_bound(ext, hs) == depth_bound(pre, hs),
        max_durations(ext, hs) == max_durations(pre, hs),
        sum_leaves(ext, hs) == sum_leaves(pre, hs),
        pairwise_disjoint(ext, hs) == pairwise_disjoint(pre, hs),
        all_valid(ext, hs),
    decreases ext.len(),
{
    if ext.len() == pre.len() {
        assert(ext =~= pre);
    } else {
        let shorter = ext.drop_last();
        assert(pre.is_prefix_of(shorter));
        lemma_list_push_prefix_saturate(pre, shorter, hs);
        assert(ext =~= shorter.push(ext.last()));
        lemma_list_push(shorter, ext.last(), hs);
    }
}

/// The channel set of any node is finite.
pub proof fn lemma_channels_of_finite(nodes: Seq<MorphismData>, i: int)
    ensures
        channels_of(nodes, i).finite(),
    decreases i,
{
    if 0 <= i < nodes.len() {
        match nodes[i] {
            MorphismData::Atomic { .. } => {},
            MorphismData::Sequential { lhs, rhs, .. } => {
                if lhs < i && rhs < i {
                    lemma_channels_of_finite(nodes, lhs as int);
                    lemma_channels_of_finite(nodes, rhs as int);
                }
            },
            MorphismData::Parallel { lhs, rhs, .. } => {
                if lhs < i && rhs < i {
                    lemma_channels_of_finite(nodes, lhs as int);
                    lemma_channels_of_finite(nodes, rhs as int);
                }
            },
        }
    }
}

pub proof fn lemma_union_channels_finite(nodes: Seq<MorphismData>, hs: Seq<NodeId>)
    ensures
        union_channels(nodes, hs).finite(),
    decreases hs.len(),
{
    if hs.len() > 0 {
        lemma_channels_of_finite(nodes, hs[0] as int);
        lemma_union_channels_finite(nodes, hs.drop_first());
    }
}

/// A union is never bigger than the sum of the parts.
pub proof fn lemma_union_card_le(nodes: Seq<MorphismData>, hs: Seq<NodeId>)
    ensures
        union_channels(nodes, hs).len() <= sum_channel_card(nodes, hs),
    decreases hs.len(),
{
    if hs.len() > 0 {
        lemma_channels_of_finite(nodes, hs[0] as int);
        lemma_union_channels_finite(nodes, hs.drop_first());
        lemma_union_card_le(nodes, hs.drop_first());
        vstd::set_lib::lemma_len_union(
            channels_of(nodes, hs[0] as int),
            union_channels(nodes, hs.drop_first()),
        );
    }
}

/// Two finite sets that share an element lose at least one in their union.
pub proof fn lemma_len_union_strict<A>(s1: Set<A>, s2: Set<A>, x: A)
    requires
        s1.finite(),
        s2.finite(),
        s1.contains(x),
        s2.contains(x),
    ensures
        s1.union(s2).len() < s1.len() + s2.len(),
{
    let u = s1.union(s2);
    assert(u.remove(x) =~= s1.remove(x).union(s2.remove(x)));
    vstd::set_lib::lemma_len_union(s1.remove(x), s2.remove(x));
    assert(u.contains(x));
    assert(u.len() == u.remove(x).len() + 1);
    assert(s1.len() == s1.remove(x).len() + 1);
    assert(s2.len() == s2.remove(x).len() + 1);
}

/// Each listed node's channels lie inside the list's union.
pub proof fn lemma_elem_subset_union(nodes: Seq<MorphismData>, hs: Seq<NodeId>, k: int)
    requires
        0 <= k < hs.len(),
    ensures
        channels_of(nodes, hs[k] as int).subset_of(union_channels(nodes, hs)),
    decreases hs.len(),
{
    if k > 0 {
        assert(hs.drop_first()[k - 1] == hs[k]);
        lemma_elem_subset_union(nodes, hs.drop_first(), k - 1);
    }
}

/// A set disjoint from every listed node's channels is disjoint from their
/// union.
pub proof fn lemma_disjoint_each_union(nodes: Seq<MorphismData>, hs: Seq<NodeId>, c: Set<ChannelId>)
    requires
        forall|k: int| 0 <= k < hs.len() ==> c.disjoint(
            channels_of(nodes, (#[trigger] hs[k]) as int),
        ),
    ensures
        c.disjoint(union_channels(nodes, hs)),
    decreases hs.len(),
{
    if hs.len() > 0 {
        assert(c.disjoint(channels_of(nodes, hs[0] as int)));
        assert(forall|k: int| 0 <= k < hs.drop_first().len() ==> c.disjoint(
            channels_of(nodes, (#[trigger] hs.drop_first()[k]) as int),
        ));
        lemma_disjoint_each_union(nodes, hs.drop_first(), c);
    }
}

/// The listed channel sets are pairwise disjoint exactly when their union is
/// as large as the sum of their sizes.
pub proof fn lemma_pairwise_card(nodes: Seq<MorphismData>, hs: Seq<NodeId>)
    ensures
        pairwise_disjoint(nodes, hs) <==> union_channels(nodes, hs).len() == sum_channel_card(
            nodes,
            hs,
        ),
    decreases hs.len(),
{
    if hs.len() == 0 {
    } else {
        let c = channels_of(nodes, hs[0] as int);
        let rest = hs.drop_first();
        let u = union_channels(nodes, rest);
        lemma_pairwise_card(nodes, rest);
        lemma_channels_of_finite(nodes, hs[0] as int);
        lemma_union_channels_finite(nodes, rest);
        lemma_union_card_le(nodes, rest);
        // positional decomposition: the head against the tail, then the tail
        assert(pairwise_disjoint(nodes, hs) <==> (forall|k: int|
            0 <= k < rest.len() ==> c.disjoint(channels_of(nodes, (#[trigger] rest[k]) as int)))
            && pairwise_disjoint(nodes, rest)) by {
            if pairwise_disjoint(nodes, hs) {
                assert forall|k: int| 0 <= k < rest.len() implies c.disjoint(
                    channels_of(nodes, (#[trigger] rest[k]) as int),
                ) by {
                    assert(hs[k + 1] == rest[k]);
                    assert(channels_of(nodes, (hs[0]) as int).disjoint(
                        channels_of(nodes, (hs[k + 1]) as int),
                    ));
                }
                assert forall|p: int, q: int| 0 <= p < q < rest.len() implies channels_of(
                    nodes,
                    (#[trigger] rest[p]) as int,
                ).disjoint(channels_of(nodes, (#[trigger] rest[q]) as int)) by {
                    assert(hs[p + 1] == rest[p]);
                    assert(hs[q + 1] == rest[q]);
                    assert(channels_of(nodes, (hs[p + 1]) as int).disjoint(
                        channels_of(nodes, (hs[q + 1]) as int),
                    ));
                }
            }
            if (forall|k: int| 0 <= k < rest.len() ==> c.disjoint(
                channels_of(nodes, (#[trigger] rest[k]) as int),
            )) && pairwise_disjoint(nodes, rest) {
                assert forall|p: int, q: int| 0 <= p < q < hs.len() implies channels_of(
                    nodes,
                    (#[trigger] hs[p]) as int,
                ).disjoint(channels_of(nodes, (#[trigger] hs[q]) as int)) by {
                    if p == 0 {
                        assert(rest[q - 1] == hs[q]);
                        assert(c.disjoint(channels_of(nodes, (rest[q - 1]) as int)));
                    } else {
                        assert(rest[p - 1] == hs[p]);
                        assert(rest[q - 1] == hs[q]);
                        assert(channels_of(nodes, (rest[p - 1]) as int).disjoint(
                            channels_of(nodes, (rest[q - 1]) as int),
                        ));
                    }
                }
            }
        }
        if pairwise_disjoint(nodes, hs) {
            lemma_disjoint_each_union(nodes, rest, c);
            vstd::set_lib::lemma_set_disjoint_lens(c, u);
            assert(c + u =~= c.union(u));
        } else {
            // some pair overlaps, so the union falls short somewhere
            if union_channels(nodes, hs).len() == sum_channel_card(nodes, hs) {
                if u.len() < sum_channel_card(nodes, rest) {
                    vstd::set_lib::lemma_len_union(c, u);
                    assert(false);
                } else {
                    assert(pairwise_disjoint(nodes, rest));
                    // the head must overlap the tail union
                    if c.disjoint(u) {
                        assert forall|k: int| 0 <= k < rest.len() implies c.disjoint(
                            channels_of(nodes, (#[trigger] rest[k]) as int),
                        ) by {
                            lemma_elem_subset_union(nodes, rest, k);
                        }
                        assert(false);
                    }
                    let x = choose|x: ChannelId| c.contains(x) && u.contains(x);
                    lemma_len_union_strict(c, u, x);
                    assert(false);
                }
            }
        }
    }
}

impl ArenaContext {
    /// One pairwise parallel reduction round.  On a channel conflict the
    /// round stops: the union of the listed channel sets is then provably
    /// smaller than the sum of their sizes.
    fn parallel_round(&mut self, current: &Vec<NodeId>) -> (r: Result<Vec<NodeId>, String>)
        requires
            old(self).wf(),
            all_valid(old(self)@, current@),
            current@.len() >= 2,
            old(self)@.len() + current@.len() <= u32::MAX,
        ensures
            final(self).wf(),
            old(self)@.is_prefix_of(final(self)@),
            r matches Ok(next) ==> {
                &&& all_valid(final(self)@, next@)
                &&& max_durations(final(self)@, next@) == max_durations(old(self)@, current@)
                &&& union_channels(final(self)@, next@) == union_channels(old(self)@, current@)
                &&& sum_leaves(final(self)@, next@) == sum_leaves(old(self)@, current@)
                &&& sum_channel_card(final(self)@, next@) == sum_channel_card(
                    old(self)@,
                    current@,
                )
                &&& depth_bound(final(self)@, next@) <= depth_bound(old(self)@, current@) + 1
                &&& 2 * next@.len() <= current@.len() + 1
                &&& next@.len() >= 1
                &&& final(self)@.len() + next@.len() <= old(self)@.len() + current@.len()
            },
            r matches Err(m) ==> {
                &&& m@ == "Parallel composition requires disjoint channels"@
                &&& union_channels(old(self)@, current@).len() < sum_channel_card(
                    old(self)@,
                    current@,
                )
            },
    {
        let ghost maxdur = max_durations(old(self)@, current@);
        let ghost whole = union_channels(old(self)@, current@);
        let ghost lv_total = sum_leaves(old(self)@, current@) as int;
        let ghost card0 = sum_channel_card(old(self)@, current@);
        let ghost dbound = depth_bound(old(self)@, current@) as int;
        let mut next: Vec<NodeId> = Vec::new();
        let mut i: usize = 0;
        proof {
            assert(current@.skip(0) =~= current@);
            assert(old(self)@.is_prefix_of(old(self)@));
            assert(union_channels(self@, next@).union(union_channels(self@, current@.skip(0)))
                =~= whole);
        }
        while i < current.len()
            invariant
                self.wf(),
                old(self).wf(),
                i <= current@.len(),
                current@.len() >= 2,
                old(self)@.is_prefix_of(self@),
                all_valid(self@, current@),
                all_valid(self@, next@),
                max_durations(self@, current@) == maxdur,
                (if max_durations(self@, next@) >= max_durations(
                    self@,
                    current@.skip(i as int),
                ) {
                    max_durations(self@, next@)
                } else {
                    max_durations(self@, current@.skip(i as int))
                }) == maxdur,
                sum_channel_card(self@, next@) + sum_channel_card(
                    self@,
                    current@.skip(i as int),
                ) == card0,
                sum_leaves(self@, next@) + sum_leaves(self@, current@.skip(i as int)) == lv_total,
                union_channels(self@, next@).union(
                    union_channels(self@, current@.skip(i as int)),
                ) == whole,
                depth_bound(self@, next@) <= dbound + 1,
                depth_bound(self@, current@) == dbound,
                2 * next@.len() <= i + 1,
                i < current@.len() ==> 2 * next@.len() <= i,
                i > 0 ==> next@.len() >= 1,
                self@.len() + next@.len() <= old(self)@.len() + i,
                old(self)@.len() + current@.len() <= u32::MAX,
                whole == union_channels(old(self)@, current@),
                card0 == sum_channel_card(old(self)@, current@),
            decreases current@.len() - i,
        {
            if i + 1 < current.len() {
                let a = current[i];
                let b = current[i + 1];
                let ghost pre = self@;
                proof {
                    lemma_list_skip(pre, current@, i as int);
                    lemma_list_skip(pre, current@, i + 1);
                }
                let outcome = self.parallel(a, b);
                match outcome {
                    Err(m) => {
                        proof {
                            // the two children share a channel, so the whole
                            // union falls short of the size sum
                            let ca = channels_of(pre, a as int);
                            let cb = channels_of(pre, b as int);
                            assert(!ca.disjoint(cb));
                            let x = choose|x: ChannelId| ca.contains(x) && cb.contains(x);
                            lemma_channels_of_finite(pre, a as int);
                            lemma_channels_of_finite(pre, b as int);
                            lemma_union_channels_finite(pre, next@);
                            lemma_union_channels_finite(pre, current@.skip(i + 2));
                            lemma_union_card_le(pre, next@);
                            lemma_union_card_le(pre, current@.skip(i + 2));
                            lemma_len_union_strict(ca, cb, x);
                            let urest = union_channels(pre, current@.skip(i + 2));
                            let un = union_channels(pre, next@);
                            vstd::set_lib::lemma_len_union(cb, urest);
                            vstd::set_lib::lemma_len_union(ca, cb.union(urest));
                            vstd::set_lib::lemma_len_union(un, ca.union(cb.union(urest)));
                            assert(union_channels(pre, current@.skip(i as int)) == ca.union(
                                cb.union(urest),
                            ));
                            assert(ca.union(cb).union(urest) =~= ca.union(cb.union(urest)));
                            vstd::set_lib::lemma_len_union(ca.union(cb), urest);
                            assert(whole.len() < card0);
                        }
                        return Err(m);
                    },
                    Ok(id) => {
                        let ghost x = self@[id as int];
                        proof {
                            assert(self@ == pre.push(x));
                            lemma_list_push(pre, x, next@);
                            lemma_list_push(pre, x, current@);
                            lemma_list_push(pre, x, current@.skip(i as int));
                            lemma_list_push(pre, x, current@.skip(i + 2));
                            lemma_list_skip(self@, current@, i as int);
                            lemma_list_skip(self@, current@, i + 1);
                            lemma_depth_bound_elem(self@, current@, i as int);
                            lemma_depth_bound_elem(self@, current@, i + 1);
                            crate::arena::lemma_channels_of_push(pre, x, a as int);
                            crate::arena::lemma_channels_of_push(pre, x, b as int);
                            crate::arena::lemma_depth_of_push(pre, x, a as int);
                            crate::arena::lemma_depth_of_push(pre, x, b as int);
                            crate::arena::lemma_leaves_of_push(pre, x, a as int);
                            crate::arena::lemma_leaves_of_push(pre, x, b as int);
                            // a merged node's channel set splits by disjointness
                            lemma_channels_of_finite(pre, a as int);
                            lemma_channels_of_finite(pre, b as int);
                            vstd::set_lib::lemma_set_disjoint_lens(
                                channels_of(pre, a as int),
                                channels_of(pre, b as int),
                            );
                            assert(channels_of(pre, a as int) + channels_of(pre, b as int)
                                =~= channels_of(pre, a as int).union(channels_of(pre, b as int)));
                        }
                        let ghost pre_next = next@;
                        next.push(id);
                        proof {
                            assert(next@ == pre_next.push(id));
                            lemma_list_snoc(self@, pre_next, id);
                            assert(sum_channel_card(self@, next@) + sum_channel_card(
                                self@,
                                current@.skip(i + 2),
                            ) == card0);
                            assert(sum_leaves(self@, next@) + sum_leaves(
                                self@,
                                current@.skip(i + 2),
                            ) == lv_total);
                            assert(union_channels(self@, next@).union(
                                union_channels(self@, current@.skip(i + 2)),
                            ) =~= whole);
                            assert(depth_of(self@, id as int) <= dbound + 1);
                        }
                        i = i + 2;
                    },
                }
            } else {
                let a = current[i];
                let ghost pre_next = next@;
                proof {
                    lemma_list_skip(self@, current@, i as int);
                    assert(current@.skip(i + 1) =~= Seq::<NodeId>::empty());
                    lemma_depth_bound_elem(self@, current@, i as int);
                }
                next.push(a);
                proof {
                    assert(next@ == pre_next.push(a));
                    lemma_list_snoc(self@, pre_next, a);
                    assert(union_channels(self@, next@).union(
                        union_channels(self@, current@.skip(i + 1)),
                    ) =~= whole);
                }
                i = i + 1;
            }
        }
        proof {
            assert(current@.skip(current@.len() as int).len() == 0);
            assert(sum_channel_card(self@, current@.skip(i as int)) == 0);
            assert(sum_leaves(self@, current@.skip(i as int)) == 0);
            assert(max_durations(self@, current@.skip(i as int)) == 0);
            assert(union_channels(self@, current@.skip(i as int)) == Set::<ChannelId>::empty());
            assert(union_channels(self@, next@).union(Set::<ChannelId>::empty()) =~= union_channels(
                self@,
                next@,
            ));
            lemma_list_push_prefix_saturate(old(self)@, self@, current@);
        }
        Ok(next)
    }

    /// Compose a list of handles in parallel into a balanced tree.  It
    /// succeeds exactly when the inputs' channel sets are pairwise disjoint;
    /// on a conflict the error is returned and no further nodes are added.
    /// On success the result's duration is the largest input duration, its
    /// channel set is the union, and the depth obeys the same logarithmic
    /// bound as serial batch composition.
    pub fn compose_parallel(&mut self, handles: Vec<NodeId>) -> (r: Result<Option<NodeId>, String>)
        requires
            old(self).wf(),
            all_valid(old(self)@, handles@),
            old(self)@.len() + handles@.len() <= u32::MAX,
        ensures
            final(self).wf(),
            old(self)@.is_prefix_of(final(self)@),
            handles@.len() <= 1 ==> final(self)@ == old(self)@,
            r is Ok <==> pairwise_disjoint(old(self)@, handles@),
            r matches Err(m) ==> m@ == "Parallel composition requires disjoint channels"@,
            r matches Ok(o) ==> (o is Some <==> handles@.len() > 0),
            handles@.len() == 1 && r is Ok ==> (r matches Ok(o) && o == Some(handles@[0])),
            r matches Ok(Some(root)) ==> {
                &&& root < final(self)@.len()
                &&& node_duration(final(self)@[root as int]) as int == max_durations(
                    old(self)@,
                    handles@,
                )
                &&& channels_of(final(self)@, root as int) == union_channels(
                    old(self)@,
                    handles@,
                )
                &&& leaves_of(final(self)@, root as int) == sum_leaves(old(self)@, handles@)
                &&& forall|k: nat| pow2(k) >= handles@.len() ==> depth_of(
                    final(self)@,
                    root as int,
                ) <= k + depth_bound(old(self)@, handles@)
            },
    {
        if handles.len() == 0 {
            proof {
                assert(pairwise_disjoint(old(self)@, handles@));
            }
            return Ok(None);
        }
        let ghost n = handles@.len() as int;
        let ghost maxdur = max_durations(old(self)@, handles@);
        let ghost whole = union_channels(old(self)@, handles@);
        let ghost lv_total = sum_leaves(old(self)@, handles@) as int;
        let ghost card0 = sum_channel_card(old(self)@, handles@);
        let ghost d0 = depth_bound(old(self)@, handles@) as int;
        let mut current = handles;
        let ghost mut rounds: nat = 0;
        proof {
            vstd::arithmetic::power2::lemma_pow2_pos(0);
            vstd::arithmetic::power2::lemma2_to64();
            assert(old(self)@.is_prefix_of(old(self)@));
        }
        while current.len() > 1
            invariant
                self.wf(),
                old(self).wf(),
                old(self)@.is_prefix_of(self@),
                all_valid(self@, current@),
                max_durations(self@, current@) == maxdur,
                union_channels(self@, current@) == whole,
                sum_leaves(self@, current@) == lv_total,
                sum_channel_card(self@, current@) == card0,
                depth_bound(self@, current@) <= d0 + rounds,
                current@.len() >= 1,
                current@.len() * pow2(rounds) < n + pow2(rounds),
                rounds > 0 ==> pow2((rounds - 1) as nat) < n,
                self@.len() + current@.len() <= old(self)@.len() + n,
                old(self)@.len() + n <= u32::MAX,
                n >= 1,
                rounds == 0 ==> current@ == handles@ && self@ == old(self)@,
                whole == union_channels(old(self)@, handles@),
                card0 == sum_channel_card(old(self)@, handles@),
            decreases current@.len(),
        {
            let ghost pre_len = current@.len() as int;
            let ghost pre_rounds = rounds;
            proof {
                vstd::arithmetic::power2::lemma_pow2_pos(rounds);
            }
            let outcome = self.parallel_round(&current);
            match outcome {
                Err(m) => {
                    proof {
                        assert(whole.len() < card0);
                        lemma_pairwise_card(old(self)@, handles@);
                        lemma_union_card_le(old(self)@, handles@);
                        assert(!pairwise_disjoint(old(self)@, handles@));
                    }
                    return Err(m);
                },
                Ok(reduced) => {
                    current = reduced;
                    proof {
                        rounds = (rounds + 1) as nat;
                        vstd::arithmetic::power2::lemma_pow2_adds(1, pre_rounds);
                        vstd::arithmetic::power2::lemma2_to64();
                        assert(pow2(rounds) == 2 * pow2(pre_rounds));
                        let p = pow2(pre_rounds) as int;
                        let len2 = current@.len() as int;
                        assert(2 * len2 <= pre_len + 1);
                        assert(p > 0);
                        assert(len2 * (2 * p) < n + 2 * p) by (nonlinear_arith)
                            requires
                                2 * len2 <= pre_len + 1,
                                pre_len * p < n + p,
                                p > 0,
                                pre_len >= 2,
                        {
                        }
                        assert(pow2((rounds - 1) as nat) < n) by {
                            assert(2 * p <= pre_len * p) by (nonlinear_arith)
                                requires
                                    p > 0,
                                    pre_len >= 2,
                            {
                            }
                        }
                    }
                },
            }
        }
        let root = current[0];
        proof {
            assert(current@.len() == 1);
            assert(current@[0] == root);
            if handles@.len() == 1 {
                if rounds > 0 {
                    assert(pow2((rounds - 1) as nat) < 1);
                    vstd::arithmetic::power2::lemma_pow2_pos((rounds - 1) as nat);
                    assert(false);
                }
                assert(current@[0] == handles@[0]);
            }
            lemma_list_skip(self@, current@, 0);
            assert(current@.skip(1).len() == 0);
            assert(max_durations(self@, current@.skip(1)) == 0);
            assert(sum_leaves(self@, current@.skip(1)) == 0);
            assert(sum_channel_card(self@, current@.skip(1)) == 0);
            assert(union_channels(self@, current@.skip(1)) == Set::<ChannelId>::empty());
            assert(channels_of(self@, root as int).union(Set::<ChannelId>::empty()) =~= channels_of(
                self@,
                root as int,
            ));
            assert(channels_of(self@, root as int) == whole);
            assert(channels_of(self@, root as int).len() == card0);
            assert(leaves_of(self@, root as int) == lv_total);
            // a single surviving node means nothing was lost to overlap
            lemma_pairwise_card(old(self)@, handles@);
            assert(pairwise_disjoint(old(self)@, handles@));
            assert(node_duration(self@[root as int]) as int == maxdur) by {
                lemma_sum_durations_nonneg(self@, current@);
            }
            assert(depth_of(self@, root as int) <= d0 + rounds) by {
                lemma_depth_bound_elem(self@, current@, 0);
            }
            assert forall|k: nat| pow2(k) >= n implies depth_of(self@, root as int) <= k
                + d0 by {
                if rounds > 0 {
                    assert(pow2((rounds - 1) as nat) < n);
                    if k < rounds - 1 {
                        lemma_pow2_strictly_increases(k, (rounds - 1) as nat);
                        assert(false);
                    } else if k == rounds - 1 {
                        assert(false);
                    }
                    assert(k >= rounds);
                }
            }
        }
        Ok(Some(root))
    }
}

} // verus!
