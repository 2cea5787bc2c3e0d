//! The program arena: central storage for control-flow nodes and symbolic
//! values, addressed by dense integer handles.
//!
//! Variables are content-addressed by name: asking twice for the same name
//! yields the same handle, and the first registration's type hint wins.

use vstd::prelude::*;
use vstd::arithmetic::power2::{pow2, lemma_pow2_strictly_increases};
use crate::program::nodes::{AluOp, CmpOp, NodeData, NodeId, alu_op_of, cmp_op_of};
use crate::program::values::{LogicalOp, TypeHint, UnaryOp, ValueData, ValueId, logical_op_of,
    str_eq, type_hint_of, unary_op_of};

verus! {

/// First-match lookup of a name in an association list.
pub open spec fn lookup_pairs(pairs: Seq<(Seq<char>, ValueId)>, name: Seq<char>) -> Option<ValueId>
    decreases pairs.len(),
{
    if pairs.len() == 0 {
        None
    } else if pairs[0].0 == name {
        Some(pairs[0].1)
    } else {
        lookup_pairs(pairs.drop_first(), name)
    }
}

proof fn lemma_lookup_at(pairs: Seq<(Seq<char>, ValueId)>, name: Seq<char>, k: int)
    requires
        0 <= k < pairs.len(),
        forall|j: int| 0 <= j < k ==> (#[trigger] pairs[j]).0 != name,
        pairs[k].0 == name,
    ensures
        lookup_pairs(pairs, name) == Some(pairs[k].1),
    decreases k,
{
    if k > 0 {
        assert(pairs.drop_first()[k - 1] == pairs[k]);
        assert(forall|j: int| 0 <= j < k - 1 ==> (#[trigger] pairs.drop_first()[j]).0 != name);
        lemma_lookup_at(pairs.drop_first(), name, k - 1);
    }
}

proof fn lemma_lookup_none(pairs: Seq<(Seq<char>, ValueId)>, name: Seq<char>)
    requires
        forall|j: int| 0 <= j < pairs.len() ==> (#[trigger] pairs[j]).0 != name,
    ensures
        lookup_pairs(pairs, name) is None,
    decreases pairs.len(),
{
    if pairs.len() > 0 {
        assert(forall|j: int| 0 <= j < pairs.drop_first().len() ==> (
        #[trigger] pairs.drop_first()[j]).0 != name);
        lemma_lookup_none(pairs.drop_first(), name);
    }
}

proof fn lemma_lookup_push(
    pairs: Seq<(Seq<char>, ValueId)>,
    name: Seq<char>,
    id: ValueId,
    other: Seq<char>,
)
    ensures
        lookup_pairs(pairs.push((name, id)), other) == (match lookup_pairs(pairs, other) {
            Some(v) => Some(v),
            None => if other == name {
                Some(id)
            } else {
                None::<ValueId>
            },
        }),
    decreases pairs.len(),
{
    let sp = pairs.push((name, id));
    if pairs.len() == 0 {
        assert(sp[0] == (name, id));
        assert(sp.drop_first() =~= Seq::<(Seq<char>, ValueId)>::empty());
        assert(lookup_pairs(sp.drop_first(), other) is None);
    } else {
        assert(sp[0] == pairs[0]);
        assert(sp.drop_first() =~= pairs.drop_first().push((name, id)));
        lemma_lookup_push(pairs.drop_first(), name, id, other);
    }
}


/// The in-order leaves of a chain tree grown on top of the first `base`
/// nodes: a handle below `base` is a leaf (it was handed in), and so is any
/// non-chain node; a chain node at or past `base` expands to its children's
/// leaves.
pub open spec fn chain_leaves_from(nodes: Seq<NodeData>, i: NodeId, base: int) -> Seq<NodeId>
    decreases i,
{
    if base <= i < nodes.len() {
        match nodes[i as int] {
            NodeData::Chain { left, right } => if left < i && right < i {
                chain_leaves_from(nodes, left, base) + chain_leaves_from(nodes, right, base)
            } else {
                seq![i]
            },
            _ => seq![i],
        }
    } else {
        seq![i]
    }
}

/// The depth of such a chain tree; a leaf counts one level.
pub open spec fn chain_depth_from(nodes: Seq<NodeData>, i: NodeId, base: int) -> nat
    decreases i,
{
    if base <= i < nodes.len() {
        match nodes[i as int] {
            NodeData::Chain { left, right } => if left < i && right < i {
                1 + if chain_depth_from(nodes, left, base) >= chain_depth_from(
                    nodes,
                    right,
                    base,
                ) {
                    chain_depth_from(nodes, left, base)
                } else {
                    chain_depth_from(nodes, right, base)
                }
            } else {
                1
            },
            _ => 1,
        }
    } else {
        1
    }
}

/// The leaves of a list of chain trees, in list order.
pub open spec fn chain_list_leaves(nodes: Seq<NodeData>, hs: Seq<NodeId>, base: int) -> Seq<NodeId>
    decreases hs.len(),
{
    if hs.len() == 0 {
        Seq::empty()
    } else {
        chain_leaves_from(nodes, hs[0], base) + chain_list_leaves(nodes, hs.drop_first(), base)
    }
}

/// The largest depth among a list of chain trees.
pub open spec fn chain_list_depth(nodes: Seq<NodeData>, hs: Seq<NodeId>, base: int) -> nat
    decreases hs.len(),
{
    if hs.len() == 0 {
        0
    } else {
        let d = chain_depth_from(nodes, hs[0], base);
        let rest = chain_list_depth(nodes, hs.drop_first(), base);
        if d >= rest {
            d
        } else {
            rest
        }
    }
}

/// Appending a node leaves existing chain trees' leaves and depths alone.
proof fn lemma_chain_push(nodes: Seq<NodeData>, x: NodeData, i: NodeId, base: int)
    requires
        i < nodes.len(),
    ensures
        chain_leaves_from(nodes.push(x), i, base) == chain_leaves_from(nodes, i, base),
        chain_depth_from(nodes.push(x), i, base) == chain_depth_from(nodes, i, base),
    decreases i,
{
    let ext = nodes.push(x);
    if base <= i {
        assert(ext[i as int] == nodes[i as int]);
        match nodes[i as int] {
            NodeData::Chain { left, right } => {
                if left < i && right < i {
                    lemma_chain_push(nodes, x, left, base);
                    lemma_chain_push(nodes, x, right, base);
                }
            },
            _ => {},
        }
    }
}

proof fn lemma_chain_list_push(nodes: Seq<NodeData>, x: NodeData, hs: Seq<NodeId>, base: int)
    requires
        forall|k: int| 0 <= k < hs.len() ==> (#[trigger] hs[k]) < nodes.len(),
    ensures
        chain_list_leaves(nodes.push(x), hs, base) == chain_list_leaves(nodes, hs, base),
        chain_list_depth(nodes.push(x), hs, base) == chain_list_depth(nodes, hs, base),
    decreases hs.len(),
{
    if hs.len() > 0 {
        lemma_chain_push(nodes, x, hs[0], base);
        assert(forall|k: int| 0 <= k < hs.drop_first().len() ==> (#[trigger] hs.drop_first()[k])
            < nodes.len());
        lemma_chain_list_push(nodes, x, hs.drop_first(), base);
    }
}

proof fn lemma_chain_list_snoc(nodes: Seq<NodeData>, hs: Seq<NodeId>, h: NodeId, base: int)
    ensures
        chain_list_leaves(nodes, hs.push(h), base) == chain_list_leaves(nodes, hs, base)
            + chain_leaves_from(nodes, h, base),
        chain_list_depth(nodes, hs.push(h), base) == if chain_list_depth(nodes, hs, base)
            >= chain_depth_from(nodes, h, base) {
            chain_list_depth(nodes, hs, base)
        } else {
            chain_depth_from(nodes, h, base)
        },
    decreases hs.len(),
{
    let sp = hs.push(h);
    if hs.len() == 0 {
        assert(sp[0] == h);
        assert(sp.drop_first() =~= Seq::<NodeId>::empty());
        assert(chain_list_leaves(nodes, sp.drop_first(), base) == Seq::<NodeId>::empty());
        assert(chain_list_depth(nodes, sp.drop_first(), base) == 0);
        assert(chain_list_leaves(nodes, sp, base) =~= chain_list_leaves(nodes, hs, base)
            + chain_leaves_from(nodes, h, base));
    } else {
        assert(sp[0] == hs[0]);
        assert(sp.drop_first() =~= hs.drop_first().push(h));
        lemma_chain_list_snoc(nodes, hs.drop_first(), h, base);
        assert(chain_list_leaves(nodes, sp, base) == chain_leaves_from(nodes, sp[0], base)
            + chain_list_leaves(nodes, sp.drop_first(), base));
        assert(chain_list_leaves(nodes, sp, base) =~= chain_list_leaves(nodes, hs, base)
            + chain_leaves_from(nodes, h, base));
    }
}

proof fn lemma_chain_list_skip(nodes: Seq<NodeData>, hs: Seq<NodeId>, i: int, base: int)
    requires
        0 <= i < hs.len(),
    ensures
        chain_list_leaves(nodes, hs.skip(i), base) == chain_leaves_from(nodes, hs[i], base)
            + chain_list_leaves(nodes, hs.skip(i + 1), base),
        chain_list_depth(nodes, hs.skip(i), base) == if chain_depth_from(nodes, hs[i], base)
            >= chain_list_depth(nodes, hs.skip(i + 1), base) {
            chain_depth_from(nodes, hs[i], base)
        } else {
            chain_list_depth(nodes, hs.skip(i + 1), base)
        },
{
    let s = hs.skip(i);
    assert(s[0] == hs[i]);
    assert(s.drop_first() =~= hs.skip(i + 1));
}

proof fn lemma_chain_list_depth_elem(nodes: Seq<NodeData>, hs: Seq<NodeId>, k: int, base: int)
    requires
        0 <= k < hs.len(),
    ensures
        chain_depth_from(nodes, hs[k], base) <= chain_list_depth(nodes, hs, base),
    decreases hs.len(),
{
    if k > 0 {
        assert(hs.drop_first()[k - 1] == hs[k]);
        lemma_chain_list_depth_elem(nodes, hs.drop_first(), k - 1, base);
    }
}

/// A list of handles below `base` is its own leaf list, one level deep.
proof fn lemma_chain_list_all_leaves(nodes: Seq<NodeData>, hs: Seq<NodeId>, base: int)
    requires
        forall|k: int| 0 <= k < hs.len() ==> (#[trigger] hs[k]) < base,
    ensures
        chain_list_leaves(nodes, hs, base) == hs,
        chain_list_depth(nodes, hs, base) <= 1,
    decreases hs.len(),
{
    if hs.len() == 0 {
        assert(chain_list_leaves(nodes, hs, base) =~= hs);
    } else {
        assert(hs[0] < base);
        assert(chain_leaves_from(nodes, hs[0], base) == seq![hs[0]]);
        assert(forall|k: int| 0 <= k < hs.drop_first().len() ==> (#[trigger] hs.drop_first()[k])
            < base);
        lemma_chain_list_all_leaves(nodes, hs.drop_first(), base);
        assert(chain_list_leaves(nodes, hs, base) =~= hs);
    }
}

/// Storage for a program: its nodes, its values, and the variable-intern
/// table.
pub struct ProgramArena {
    nodes: Vec<NodeData>,
    values: Vec<ValueData>,
    var_names: Vec<(String, ValueId)>,
}

impl ProgramArena {
    pub closed spec fn prog_nodes(&self) -> Seq<NodeData> {
        self.nodes@
    }

    pub closed spec fn prog_values(&self) -> Seq<ValueData> {
        self.values@
    }

    pub closed spec fn var_pairs(&self) -> Seq<(Seq<char>, ValueId)> {
        self.var_names@.map_values(|p: (String, ValueId)| (p.0@, p.1))
    }

    /// The handle interned for a name, if any.
    pub open spec fn var_lookup(&self, name: Seq<char>) -> Option<ValueId> {
        lookup_pairs(self.var_pairs(), name)
    }

    /// Interned names are distinct, and each maps to a variable value of
    /// that very name.
    pub closed spec fn wf(&self) -> bool {
        &&& forall|p: int, q: int| 0 <= p < q < self.var_pairs().len() ==> (
        #[trigger] self.var_pairs()[p]).0 != (#[trigger] self.var_pairs()[q]).0
        &&& forall|k: int| 0 <= k < self.var_pairs().len() ==> (#[trigger] self.var_pairs()[k]).1
            < self.values@.len() && (self.values@[self.var_pairs()[k].1 as int] matches
            ValueData::Variable { name, .. } && name@ == self.var_pairs()[k].0)
    }

    pub fn new() -> (r: ProgramArena)
        ensures
            r.wf(),
            r.prog_nodes() == Seq::<NodeData>::empty(),
            r.prog_values() == Seq::<ValueData>::empty(),
            r.var_pairs() == Seq::<(Seq<char>, ValueId)>::empty(),
    {
        let r = ProgramArena {
            nodes: Vec::with_capacity(1024),
            values: Vec::with_capacity(1024),
            var_names: Vec::new(),
        };
        proof {
            assert(r.prog_nodes() =~= Seq::<NodeData>::empty());
            assert(r.prog_values() =~= Seq::<ValueData>::empty());
            assert(r.var_pairs() =~= Seq::<(Seq<char>, ValueId)>::empty());
        }
        r
    }

    pub fn with_capacity(node_capacity: usize, value_capacity: usize) -> (r: ProgramArena)
        ensures
            r.wf(),
            r.prog_nodes() == Seq::<NodeData>::empty(),
            r.prog_values() == Seq::<ValueData>::empty(),
            r.var_pairs() == Seq::<(Seq<char>, ValueId)>::empty(),
    {
        let r = ProgramArena {
            nodes: Vec::with_capacity(node_capacity),
            values: Vec::with_capacity(value_capacity),
            var_names: Vec::new(),
        };
        proof {
            assert(r.prog_nodes() =~= Seq::<NodeData>::empty());
            assert(r.prog_values() =~= Seq::<ValueData>::empty());
            assert(r.var_pairs() =~= Seq::<(Seq<char>, ValueId)>::empty());
        }
        r
    }

    pub fn node_count(&self) -> (r: usize)
        ensures
            r == self.prog_nodes().len(),
    {
        self.nodes.len()
    }

    pub fn value_count(&self) -> (r: usize)
        ensures
            r == self.prog_values().len(),
    {
        self.values.len()
    }

    pub fn var_count(&self) -> (r: usize)
        ensures
            r == self.var_pairs().len(),
    {
        self.var_names.len()
    }

    pub fn clear(&mut self)
        ensures
            final(self).wf(),
            final(self).prog_nodes() == Seq::<NodeData>::empty(),
            final(self).prog_values() == Seq::<ValueData>::empty(),
            final(self).var_pairs() == Seq::<(Seq<char>, ValueId)>::empty(),
    {
        self.nodes.clear();
        self.values.clear();
        self.var_names.clear();
        proof {
            assert(self.prog_nodes() =~= Seq::<NodeData>::empty());
            assert(self.prog_values() =~= Seq::<ValueData>::empty());
            assert(self.var_pairs() =~= Seq::<(Seq<char>, ValueId)>::empty());
        }
    }

    fn push_value(&mut self, v: ValueData) -> (id: ValueId)
        requires
            old(self).wf(),
            old(self).prog_values().len() < u32::MAX,
        ensures
            final(self).wf(),
            id == old(self).prog_values().len(),
            final(self).prog_values() == old(self).prog_values().push(v),
            final(self).prog_nodes() == old(self).prog_nodes(),
            final(self).var_pairs() == old(self).var_pairs(),
    {
        let id = self.values.len();
        self.values.push(v);
        id as u32
    }

    fn push_node(&mut self, n: NodeData) -> (id: NodeId)
        requires
            old(self).wf(),
            old(self).prog_nodes().len() < u32::MAX,
        ensures
            final(self).wf(),
            id == old(self).prog_nodes().len(),
            final(self).prog_nodes() == old(self).prog_nodes().push(n),
            final(self).prog_values() == old(self).prog_values(),
            final(self).var_pairs() == old(self).var_pairs(),
    {
        let id = self.nodes.len();
        self.nodes.push(n);
        id as u32
    }

    /// Store an integer literal.
    pub fn literal(&mut self, value: i64) -> (id: ValueId)
        requires
            old(self).wf(),
            old(self).prog_values().len() < u32::MAX,
        ensures
            final(self).wf(),
            id == old(self).prog_values().len(),
            final(self).prog_values() == old(self).prog_values().push(
                ValueData::Literal { value, is_float: false },
            ),
            final(self).prog_nodes() == old(self).prog_nodes(),
            final(self).var_pairs() == old(self).var_pairs(),
    {
        self.push_value(ValueData::int_literal(value))
    }

    /// Store a floating-point literal, given as the raw bits of the number.
    pub fn literal_float_bits(&mut self, bits: i64) -> (id: ValueId)
        requires
            old(self).wf(),
            old(self).prog_values().len() < u32::MAX,
        ensures
            final(self).wf(),
            id == old(self).prog_values().len(),
            final(self).prog_values() == old(self).prog_values().push(
                ValueData::Literal { value: bits, is_float: true },
            ),
            final(self).prog_nodes() == old(self).prog_nodes(),
            final(self).var_pairs() == old(self).var_pairs(),
    {
        self.push_value(ValueData::float_bits(bits))
    }

    /// Intern a variable: an already-known name returns its existing handle
    /// and changes nothing; a new name is stored under a fresh handle with
    /// the given type hint (an unknown hint falls back to `Int32`).
    pub fn variable(&mut self, name: &str, type_hint: &str) -> (id: ValueId)
        requires
            old(self).wf(),
            old(self).prog_values().len() < u32::MAX,
        ensures
            final(self).wf(),
            final(self).prog_nodes() == old(self).prog_nodes(),
            final(self).var_lookup(name@) == Some(id),
            old(self).var_lookup(name@) matches Some(v) ==> id == v && *final(self) == *old(self),
            old(self).var_lookup(name@) is None ==> {
                &&& id == old(self).prog_values().len()
                &&& final(self).prog_values() == old(self).prog_values().push(
                    final(self).prog_values()[id as int],
                )
                &&& final(self).prog_values()[id as int] matches ValueData::Variable {
                    name: n,
                    type_hint: h,
                } && n@ == name@ && h == (match type_hint_of(type_hint@) {
                    Some(t) => t,
                    None => TypeHint::Int32,
                })
                &&& final(self).var_pairs() == old(self).var_pairs().push((name@, id))
                &&& forall|other: Seq<char>| other != name@ ==> final(self).var_lookup(other)
                    == old(self).var_lookup(other)
            },
    {
        let ghost pairs = self.var_pairs();
        let mut k: usize = 0;
        while k < self.var_names.len()
            invariant
                k <= self.var_names@.len(),
                pairs == self.var_pairs(),
                pairs.len() == self.var_names@.len(),
                self.wf(),
                forall|j: int| 0 <= j < k ==> (#[trigger] pairs[j]).0 != name@,
                *self == *old(self),
            decreases self.var_names@.len() - k,
        {
            proof {
                assert(pairs[k as int] == (self.var_names@[k as int].0@,
                self.var_names@[k as int].1));
            }
            if str_eq(self.var_names[k].0.as_str(), name) {
                proof {
                    lemma_lookup_at(pairs, name@, k as int);
                }
                return self.var_names[k].1;
            }
            k = k + 1;
        }
        proof {
            lemma_lookup_none(pairs, name@);
        }
        let hint = match TypeHint::from_str(type_hint) {
            Some(t) => t,
            None => TypeHint::Int32,
        };
        let ghost pre = *self;
        let id = self.push_value(ValueData::Variable { name: name.to_owned(), type_hint: hint });
        let ghost mid = *self;
        self.var_names.push((name.to_owned(), id));
        proof {
            assert(self.var_pairs() =~= mid.var_pairs().push((name@, id)));
            assert(mid.var_pairs() == pairs);
            lemma_lookup_push(pairs, name@, id, name@);
            assert forall|other: Seq<char>| other != name@ implies lookup_pairs(
                self.var_pairs(),
                other,
            ) == lookup_pairs(pairs, other) by {
                lemma_lookup_push(pairs, name@, id, other);
                if lookup_pairs(pairs, other) is None {
                }
            }
            // well-formedness: the new pair is distinct and points at the
            // new variable value
            assert forall|p: int, q: int| 0 <= p < q < self.var_pairs().len() implies (
            #[trigger] self.var_pairs()[p]).0 != (#[trigger] self.var_pairs()[q]).0 by {
                if q < self.var_pairs().len() - 1 {
                    assert(pairs[p] == self.var_pairs()[p]);
                    assert(pairs[q] == self.var_pairs()[q]);
                } else {
                    assert(self.var_pairs()[p] == pairs[p]);
                    assert(self.var_pairs()[q].0 == name@);
                }
            }
            assert forall|k2: int| 0 <= k2 < self.var_pairs().len() implies (
            #[trigger] self.var_pairs()[k2]).1 < self.values@.len()
                && (self.values@[self.var_pairs()[k2].1 as int] matches ValueData::Variable {
                name: n2,
                ..
            } && n2@ == self.var_pairs()[k2].0) by {
                if k2 < self.var_pairs().len() - 1 {
                    assert(self.var_pairs()[k2] == pairs[k2]);
                    assert(self.values@[pairs[k2].1 as int] == pre.values@[pairs[k2].1 as int]);
                } else {
                    assert(self.var_pairs()[k2] == (name@, id));
                }
            }
        }
        id
    }

    /// Store a binary arithmetic expression; an unknown operator string
    /// falls back to addition.
    pub fn binary_expr(&mut self, lhs: ValueId, op: &str, rhs: ValueId) -> (id: ValueId)
        requires
            old(self).wf(),
            old(self).prog_values().len() < u32::MAX,
        ensures
            final(self).wf(),
            id == old(self).prog_values().len(),
            final(self).prog_values() == old(self).prog_values().push(
                ValueData::BinaryExpr {
                    lhs,
                    op: (match alu_op_of(op@) {
                        Some(o) => o,
                        None => AluOp::Add,
                    }),
                    rhs,
                },
            ),
            final(self).prog_nodes() == old(self).prog_nodes(),
            final(self).var_pairs() == old(self).var_pairs(),
    {
        let alu_op = match AluOp::from_str(op) {
            Some(o) => o,
            None => AluOp::Add,
        };
        self.push_value(ValueData::BinaryExpr { lhs, op: alu_op, rhs })
    }

    /// Store a unary expression; an unknown operator string falls back to
    /// negation.
    pub fn unary_expr(&mut self, op: &str, operand: ValueId) -> (id: ValueId)
        requires
            old(self).wf(),
            old(self).prog_values().len() < u32::MAX,
        ensures
            final(self).wf(),
            id == old(self).prog_values().len(),
            final(self).prog_values() == old(self).prog_values().push(
                ValueData::UnaryExpr {
                    op: (match unary_op_of(op@) {
                        Some(o) => o,
                        None => UnaryOp::Neg,
                    }),
                    operand,
                },
            ),
            final(self).prog_nodes() == old(self).prog_nodes(),
            final(self).var_pairs() == old(self).var_pairs(),
    {
        let unary_op = match UnaryOp::from_str(op) {
            Some(o) => o,
            None => UnaryOp::Neg,
        };
        self.push_value(ValueData::UnaryExpr { op: unary_op, operand })
    }

    /// Store a comparison; an unknown operator string falls back to
    /// equality.
    pub fn condition(&mut self, lhs: ValueId, op: &str, rhs: ValueId) -> (id: ValueId)
        requires
            old(self).wf(),
            old(self).prog_values().len() < u32::MAX,
        ensures
            final(self).wf(),
            id == old(self).prog_values().len(),
            final(self).prog_values() == old(self).prog_values().push(
                ValueData::Condition {
                    lhs,
                    op: (match cmp_op_of(op@) {
                        Some(o) => o,
                        None => CmpOp::Eq,
                    }),
                    rhs,
                },
            ),
            final(self).prog_nodes() == old(self).prog_nodes(),
            final(self).var_pairs() == old(self).var_pairs(),
    {
        let cmp_op = match CmpOp::from_str(op) {
            Some(o) => o,
            None => CmpOp::Eq,
        };
        self.push_value(ValueData::Condition { lhs, op: cmp_op, rhs })
    }

    /// Store a logical expression (`rhs` is absent for a negation); an
    /// unknown operator string falls back to conjunction.
    pub fn logical_expr(&mut self, lhs: ValueId, op: &str, rhs: Option<ValueId>) -> (id: ValueId)
        requires
            old(self).wf(),
            old(self).prog_values().len() < u32::MAX,
        ensures
            final(self).wf(),
            id == old(self).prog_values().len(),
            final(self).prog_values() == old(self).prog_values().push(
                ValueData::LogicalExpr {
                    lhs,
                    op: (match logical_op_of(op@) {
                        Some(o) => o,
                        None => LogicalOp::And,
                    }),
                    rhs,
                },
            ),
            final(self).prog_nodes() == old(self).prog_nodes(),
            final(self).var_pairs() == old(self).var_pairs(),
    {
        let logical_op = match LogicalOp::from_str(op) {
            Some(o) => o,
            None => LogicalOp::And,
        };
        self.push_value(ValueData::LogicalExpr { lhs, op: logical_op, rhs })
    }

    /// Store a lift node: an opaque morphism reference with parameter
    /// bindings; the arena never resolves the reference.
    pub fn lift(&mut self, morphism_ref: u64, params: Vec<(String, ValueId)>) -> (id: NodeId)
        requires
            old(self).wf(),
            old(self).prog_nodes().len() < u32::MAX,
        ensures
            final(self).wf(),
            id == old(self).prog_nodes().len(),
            final(self).prog_nodes() == old(self).prog_nodes().push(
                final(self).prog_nodes()[id as int],
            ),
            final(self).prog_nodes()[id as int] matches NodeData::Lift { morphism_ref: m, params: p }
                && m == morphism_ref && p.deep_view() == params.deep_view(),
            final(self).prog_values() == old(self).prog_values(),
            final(self).var_pairs() == old(self).var_pairs(),
    {
        self.push_node(NodeData::Lift { morphism_ref, params })
    }

    /// Store a delay node.
    pub fn delay(&mut self, duration: ValueId, max_hint: Option<u64>) -> (id: NodeId)
        requires
            old(self).wf(),
            old(self).prog_nodes().len() < u32::MAX,
        ensures
            final(self).wf(),
            id == old(self).prog_nodes().len(),
            final(self).prog_nodes() == old(self).prog_nodes().push(
                NodeData::Delay { duration, max_hint },
            ),
            final(self).prog_values() == old(self).prog_values(),
            final(self).var_pairs() == old(self).var_pairs(),
    {
        self.push_node(NodeData::Delay { duration, max_hint })
    }

    /// Store an assignment node.
    pub fn set_var(&mut self, target: ValueId, value: ValueId) -> (id: NodeId)
        requires
            old(self).wf(),
            old(self).prog_nodes().len() < u32::MAX,
        ensures
            final(self).wf(),
            id == old(self).prog_nodes().len(),
            final(self).prog_nodes() == old(self).prog_nodes().push(
                NodeData::Assign { target, value },
            ),
            final(self).prog_values() == old(self).prog_values(),
            final(self).var_pairs() == old(self).var_pairs(),
    {
        self.push_node(NodeData::Assign { target, value })
    }

    /// Store a sequencing node.
    pub fn chain(&mut self, left: NodeId, right: NodeId) -> (id: NodeId)
        requires
            old(self).wf(),
            old(self).prog_nodes().len() < u32::MAX,
        ensures
            final(self).wf(),
            id == old(self).prog_nodes().len(),
            final(self).prog_nodes() == old(self).prog_nodes().push(
                NodeData::Chain { left, right },
            ),
            final(self).prog_values() == old(self).prog_values(),
            final(self).var_pairs() == old(self).var_pairs(),
    {
        self.push_node(NodeData::Chain { left, right })
    }

    /// Store a loop node.
    pub fn loop_node(&mut self, count: ValueId, body: NodeId) -> (id: NodeId)
        requires
            old(self).wf(),
            old(self).prog_nodes().len() < u32::MAX,
        ensures
            final(self).wf(),
            id == old(self).prog_nodes().len(),
            final(self).prog_nodes() == old(self).prog_nodes().push(NodeData::Loop { count, body }),
            final(self).prog_values() == old(self).prog_values(),
            final(self).var_pairs() == old(self).var_pairs(),
    {
        self.push_node(NodeData::Loop { count, body })
    }

    /// Store a branch node over an integer subject.
    pub fn match_node(
        &mut self,
        subject: ValueId,
        cases: Vec<(i64, NodeId)>,
        default: Option<NodeId>,
    ) -> (id: NodeId)
        requires
            old(self).wf(),
            old(self).prog_nodes().len() < u32::MAX,
        ensures
            final(self).wf(),
            id == old(self).prog_nodes().len(),
            final(self).prog_nodes() == old(self).prog_nodes().push(
                final(self).prog_nodes()[id as int],
            ),
            final(self).prog_nodes()[id as int] matches NodeData::Match {
                subject: s,
                cases: c,
                default: d,
            } && s == subject && c@ == cases@ && d == default,
            final(self).prog_values() == old(self).prog_values(),
            final(self).var_pairs() == old(self).var_pairs(),
    {
        self.push_node(NodeData::Match { subject, cases, default })
    }

    /// Store a call node.
    pub fn apply(&mut self, func: NodeId, args: Vec<ValueId>) -> (id: NodeId)
        requires
            old(self).wf(),
            old(self).prog_nodes().len() < u32::MAX,
        ensures
            final(self).wf(),
            id == old(self).prog_nodes().len(),
            final(self).prog_nodes() == old(self).prog_nodes().push(
                final(self).prog_nodes()[id as int],
            ),
            final(self).prog_nodes()[id as int] matches NodeData::Apply { func: f, args: a } && f
                == func && a@ == args@,
            final(self).prog_values() == old(self).prog_values(),
            final(self).var_pairs() == old(self).var_pairs(),
    {
        self.push_node(NodeData::Apply { func, args })
    }

    /// Store a function definition; the parameters must be variable handles,
    /// which is the caller's obligation.
    pub fn func_def(&mut self, name: &str, params: Vec<ValueId>, body: NodeId) -> (id: NodeId)
        requires
            old(self).wf(),
            old(self).prog_nodes().len() < u32::MAX,
        ensures
            final(self).wf(),
            id == old(self).prog_nodes().len(),
            final(self).prog_nodes() == old(self).prog_nodes().push(
                final(self).prog_nodes()[id as int],
            ),
            final(self).prog_nodes()[id as int] matches NodeData::FuncDef {
                name: n,
                params: p,
                body: b,
            } && n@ == name@ && p@ == params@ && b == body,
            final(self).prog_values() == old(self).prog_values(),
            final(self).var_pairs() == old(self).var_pairs(),
    {
        self.push_node(NodeData::FuncDef { name: name.to_owned(), params, body })
    }

    /// Store a measurement node.
    pub fn measure(&mut self, target: ValueId, source: u32) -> (id: NodeId)
        requires
            old(self).wf(),
            old(self).prog_nodes().len() < u32::MAX,
        ensures
            final(self).wf(),
            id == old(self).prog_nodes().len(),
            final(self).prog_nodes() == old(self).prog_nodes().push(
                NodeData::Measure { target, source },
            ),
            final(self).prog_values() == old(self).prog_values(),
            final(self).var_pairs() == old(self).var_pairs(),
    {
        self.push_node(NodeData::Measure { target, source })
    }

    /// Store a do-nothing node.
    pub fn identity(&mut self) -> (id: NodeId)
        requires
            old(self).wf(),
            old(self).prog_nodes().len() < u32::MAX,
        ensures
            final(self).wf(),
            id == old(self).prog_nodes().len(),
            final(self).prog_nodes() == old(self).prog_nodes().push(NodeData::Identity),
            final(self).prog_values() == old(self).prog_values(),
            final(self).var_pairs() == old(self).var_pairs(),
    {
        self.push_node(NodeData::Identity)
    }

    /// Chain a list of node handles into a balanced tree by pairwise
    /// halving with an odd-tail carry, as the morphism arena does.  An empty
    /// list yields nothing and a singleton is returned as is, both leaving
    /// the store untouched; a longer list appends exactly `len - 1` chain
    /// nodes whose in-order leaves are the given handles in their given
    /// order, with the tree depth bounded by `k + 1` for any `k` with `2^k`
    /// at least the list length.
    pub fn chain_sequence(&mut self, handles: Vec<NodeId>) -> (r: Option<NodeId>)
        requires
            old(self).wf(),
            forall|k: int| 0 <= k < handles@.len() ==> (#[trigger] handles@[k]) < old(
                self,
            ).prog_nodes().len(),
            old(self).prog_nodes().len() + handles@.len() <= u32::MAX,
        ensures
            final(self).wf(),
            old(self).prog_nodes().is_prefix_of(final(self).prog_nodes()),
            final(self).prog_values() == old(self).prog_values(),
            final(self).var_pairs() == old(self).var_pairs(),
            handles@.len() <= 1 ==> final(self).prog_nodes() == old(self).prog_nodes(),
            r is Some <==> handles@.len() > 0,
            handles@.len() == 1 ==> r == Some(handles@[0]),
            r matches Some(root) ==> {
                &&& root < final(self).prog_nodes().len()
                &&& final(self).prog_nodes().len() == old(self).prog_nodes().len()
                    + handles@.len() - 1
                &&& chain_leaves_from(
                    final(self).prog_nodes(),
                    root,
                    old(self).prog_nodes().len() as int,
                ) == handles@
                &&& forall|k: int| old(self).prog_nodes().len() <= k
                    < final(self).prog_nodes().len() ==> final(self).prog_nodes()[k] is Chain
                &&& forall|k: nat| pow2(k) >= handles@.len() ==> chain_depth_from(
                    final(self).prog_nodes(),
                    root,
                    old(self).prog_nodes().len() as int,
                ) <= k + 1
            },
    {
        if handles.len() == 0 {
            return None;
        }
        let ghost base = old(self).prog_nodes().len() as int;
        if handles.len() == 1 {
            let h = handles[0];
            proof {
                assert(chain_leaves_from(self.prog_nodes(), h, base) =~= handles@);
                assert(old(self).prog_nodes().is_prefix_of(self.prog_nodes()));
            }
            return Some(h);
        }
        let ghost n = handles@.len() as int;
        let mut current = handles;
        let ghost mut rounds: nat = 0;
        proof {
            vstd::arithmetic::power2::lemma_pow2_pos(0);
            vstd::arithmetic::power2::lemma2_to64();
            assert(old(self).prog_nodes().is_prefix_of(old(self).prog_nodes()));
            assert forall|j: int| 0 <= j < current@.len() implies chain_depth_from(
                self.prog_nodes(),
                #[trigger] current@[j],
                base,
            ) == 1 by {
                assert(current@[j] < base);
            }
            lemma_chain_list_all_leaves(self.prog_nodes(), current@, base);
        }
        while current.len() > 1
            invariant
                self.wf(),
                old(self).wf(),
                old(self).prog_nodes().is_prefix_of(self.prog_nodes()),
                self.prog_values() == old(self).prog_values(),
                self.var_pairs() == old(self).var_pairs(),
                base == old(self).prog_nodes().len(),
                forall|k: int| 0 <= k < current@.len() ==> (#[trigger] current@[k])
                    < self.prog_nodes().len(),
                chain_list_leaves(self.prog_nodes(), current@, base) == handles@,
                chain_list_depth(self.prog_nodes(), current@, base) <= 1 + rounds,
                forall|k: int| base <= k < self.prog_nodes().len()
                    ==> self.prog_nodes()[k] is Chain,
                current@.len() >= 1,
                current@.len() * pow2(rounds) < n + pow2(rounds),
                rounds > 0 ==> pow2((rounds - 1) as nat) < n,
                self.prog_nodes().len() + current@.len() == base + n,
                base + n <= u32::MAX,
                n >= 2,
            decreases current@.len(),
        {
            let ghost pre_len = current@.len() as int;
            let ghost pre_rounds = rounds;
            proof {
                vstd::arithmetic::power2::lemma_pow2_pos(rounds);
            }
            let mut next: Vec<NodeId> = Vec::new();
            let mut i: usize = 0;
            proof {
                assert(current@.skip(0) =~= current@);
            }
            while i < current.len()
                invariant
                    self.wf(),
                    old(self).wf(),
                    i <= current@.len(),
                    current@.len() >= 2,
                    old(self).prog_nodes().is_prefix_of(self.prog_nodes()),
                    self.prog_values() == old(self).prog_values(),
                    self.var_pairs() == old(self).var_pairs(),
                    base == old(self).prog_nodes().len(),
                    forall|k: int| 0 <= k < current@.len() ==> (#[trigger] current@[k])
                        < self.prog_nodes().len(),
                    forall|k: int| 0 <= k < next@.len() ==> (#[trigger] next@[k])
                        < self.prog_nodes().len(),
                    chain_list_leaves(self.prog_nodes(), next@, base) + chain_list_leaves(
                        self.prog_nodes(),
                        current@.skip(i as int),
                        base,
                    ) == handles@,
                    chain_list_depth(self.prog_nodes(), next@, base) <= 2 + pre_rounds,
                    chain_list_depth(self.prog_nodes(), current@, base) <= 1 + pre_rounds,
                    forall|k: int| base <= k < self.prog_nodes().len()
                        ==> self.prog_nodes()[k] is Chain,
                    2 * next@.len() <= i + 1,
                    i < current@.len() ==> 2 * next@.len() <= i,
                    i > 0 ==> next@.len() >= 1,
                    self.prog_nodes().len() + next@.len() + (current@.len() - i) == base + n,
                    base + n <= u32::MAX,
                    n >= 2,
                decreases current@.len() - i,
            {
                if i + 1 < current.len() {
                    let a = current[i];
                    let b = current[i + 1];
                    let ghost pre = self.prog_nodes();
                    proof {
                        lemma_chain_list_skip(pre, current@, i as int, base);
                        lemma_chain_list_skip(pre, current@, i + 1, base);
                        lemma_chain_list_depth_elem(pre, current@, i as int, base);
                        lemma_chain_list_depth_elem(pre, current@, i + 1, base);
                    }
                    let id = self.chain(a, b);
                    proof {
                        let x = NodeData::Chain { left: a, right: b };
                        assert(self.prog_nodes() == pre.push(x));
                        lemma_chain_list_push(pre, x, next@, base);
                        lemma_chain_list_push(pre, x, current@, base);
                        lemma_chain_list_push(pre, x, current@.skip(i as int), base);
                        lemma_chain_list_push(pre, x, current@.skip(i + 2), base);
                        lemma_chain_push(pre, x, a, base);
                        lemma_chain_push(pre, x, b, base);
                        // the fresh node chains exactly a then b
                        assert(id == pre.len());
                        assert(self.prog_nodes()[id as int] == x);
                        assert(chain_leaves_from(self.prog_nodes(), id, base) == chain_leaves_from(
                            self.prog_nodes(),
                            a,
                            base,
                        ) + chain_leaves_from(self.prog_nodes(), b, base));
                        assert(chain_depth_from(self.prog_nodes(), id, base) <= 2 + pre_rounds);
                    }
                    let ghost pre_next = next@;
                    next.push(id);
                    proof {
                        assert(next@ == pre_next.push(id));
                        lemma_chain_list_snoc(self.prog_nodes(), pre_next, id, base);
                        lemma_chain_list_skip(self.prog_nodes(), current@, i as int, base);
                        lemma_chain_list_skip(self.prog_nodes(), current@, i + 1, base);
                        assert(chain_list_leaves(self.prog_nodes(), next@, base)
                            + chain_list_leaves(self.prog_nodes(), current@.skip(i + 2), base)
                            =~= handles@);
                    }
                    i = i + 2;
                } else {
                    let a = current[i];
                    let ghost pre_next = next@;
                    proof {
                        lemma_chain_list_skip(self.prog_nodes(), current@, i as int, base);
                        assert(current@.skip(i + 1) =~= Seq::<NodeId>::empty());
                        lemma_chain_list_depth_elem(self.prog_nodes(), current@, i as int, base);
                    }
                    next.push(a);
                    proof {
                        assert(next@ == pre_next.push(a));
                        lemma_chain_list_snoc(self.prog_nodes(), pre_next, a, base);
                        assert(chain_list_leaves(self.prog_nodes(), next@, base)
                            + chain_list_leaves(self.prog_nodes(), current@.skip(i + 1), base)
                            =~= handles@);
                    }
                    i = i + 1;
                }
            }
            proof {
                assert(current@.skip(current@.len() as int).len() == 0);
                assert(chain_list_leaves(self.prog_nodes(), current@.skip(i as int), base)
                    == Seq::<NodeId>::empty());
                assert(chain_list_leaves(self.prog_nodes(), next@, base)
                    + Seq::<NodeId>::empty() =~= chain_list_leaves(
                    self.prog_nodes(),
                    next@,
                    base,
                ));
            }
            current = next;
            proof {
                rounds = (rounds + 1) as nat;
                vstd::arithmetic::power2::lemma_pow2_adds(1, pre_rounds);
                vstd::arithmetic::power2::lemma2_to64();
                assert(pow2(rounds) == 2 * pow2(pre_rounds));
                let p = pow2(pre_rounds) as int;
                let len2 = current@.len() as int;
                assert(2 * len2 <= pre_len + 1);
                assert(p > 0);
                assert(len2 * (2 * p) < n + 2 * p) by (nonlinear_arith)
                    requires
                        2 * len2 <= pre_len + 1,
                        pre_len * p < n + p,
                        p > 0,
                        pre_len >= 2,
                {
                }
                assert(pow2((rounds - 1) as nat) < n) by {
                    assert(2 * p <= pre_len * p) by (nonlinear_arith)
                        requires
                            p > 0,
                            pre_len >= 2,
                    {
                    }
                }
            }
        }
        let root = current[0];
        proof {
            assert(current@.len() == 1);
            assert(current@[0] == root);
            lemma_chain_list_skip(self.prog_nodes(), current@, 0, base);
            assert(current@.skip(1).len() == 0);
            assert(chain_list_leaves(self.prog_nodes(), current@.skip(1), base)
                == Seq::<NodeId>::empty());
            assert(chain_leaves_from(self.prog_nodes(), root, base) + Seq::<NodeId>::empty()
                =~= chain_leaves_from(self.prog_nodes(), root, base));
            assert(chain_leaves_from(self.prog_nodes(), root, base) == handles@);
            assert(chain_depth_from(self.prog_nodes(), root, base) <= 1 + rounds) by {
                lemma_chain_list_depth_elem(self.prog_nodes(), current@, 0, base);
            }
            assert forall|k: nat| pow2(k) >= n implies chain_depth_from(
                self.prog_nodes(),
                root,
                base,
            ) <= k + 1 by {
                if rounds > 0 {
                    assert(pow2((rounds - 1) as nat) < n);
                    if k < rounds - 1 {
                        lemma_pow2_strictly_increases(k, (rounds - 1) as nat);
                        assert(false);
                    } else if k == rounds - 1 {
                        assert(false);
                    }
                    assert(k >= rounds);
                }
            }
        }
        Some(root)
    }

    /// Whether a handle names a literal; an unknown handle does not.
    pub fn is_literal(&self, value_id: ValueId) -> (r: bool)
        ensures
            r == (value_id < self.prog_values().len() && self.prog_values()[value_id as int]
                is Literal),
    {
        if (value_id as usize) < self.values.len() {
            self.values[value_id as usize].is_literal()
        } else {
            false
        }
    }

    /// Whether a handle names a variable; an unknown handle does not.
    pub fn is_variable(&self, value_id: ValueId) -> (r: bool)
        ensures
            r == (value_id < self.prog_values().len() && self.prog_values()[value_id as int]
                is Variable),
    {
        if (value_id as usize) < self.values.len() {
            self.values[value_id as usize].is_variable()
        } else {
            false
        }
    }

    /// The integer value of a non-float literal handle.
    pub fn get_literal_int(&self, value_id: ValueId) -> (r: Option<i64>)
        ensures
            r == (if value_id < self.prog_values().len() {
                match self.prog_values()[value_id as int] {
                    ValueData::Literal { value, is_float } => if !is_float {
                        Some(value)
                    } else {
                        None::<i64>
                    },
                    _ => None::<i64>,
                }
            } else {
                None::<i64>
            }),
    {
        if (value_id as usize) < self.values.len() {
            self.values[value_id as usize].as_int()
        } else {
            None
        }
    }

    /// The raw bits of a float literal handle.
    pub fn get_literal_float_bits(&self, value_id: ValueId) -> (r: Option<i64>)
        ensures
            r == (if value_id < self.prog_values().len() {
                match self.prog_values()[value_id as int] {
                    ValueData::Literal { value, is_float } => if is_float {
                        Some(value)
                    } else {
                        None::<i64>
                    },
                    _ => None::<i64>,
                }
            } else {
                None::<i64>
            }),
    {
        if (value_id as usize) < self.values.len() {
            self.values[value_id as usize].as_float_bits()
        } else {
            None
        }
    }

    /// The name of a variable handle.
    pub fn get_variable_name(&self, value_id: ValueId) -> (r: Option<String>)
        ensures
            r is Some <==> value_id < self.prog_values().len()
                && self.prog_values()[value_id as int] is Variable,
            r matches Some(s) ==> self.prog_values()[value_id as int] matches ValueData::Variable {
                name,
                ..
            } && s@ == name@,
    {
        if (value_id as usize) < self.values.len() {
            match &self.values[value_id as usize] {
                ValueData::Variable { name, .. } => Some(name.clone()),
                _ => None,
            }
        } else {
            None
        }
    }

    /// Resolve a node handle.
    pub fn get_node(&self, id: NodeId) -> (r: Option<&NodeData>)
        ensures
            r is Some <==> id < self.prog_nodes().len(),
            r matches Some(n) ==> *n == self.prog_nodes()[id as int],
    {
        if (id as usize) < self.nodes.len() {
            Some(&self.nodes[id as usize])
        } else {
            None
        }
    }

    /// Resolve a value handle.
    pub fn get_value(&self, id: ValueId) -> (r: Option<&ValueData>)
        ensures
            r is Some <==> id < self.prog_values().len(),
            r matches Some(v) ==> *v == self.prog_values()[id as int],
    {
        if (id as usize) < self.values.len() {
            Some(&self.values[id as usize])
        } else {
            None
        }
    }
}

} // verus!
