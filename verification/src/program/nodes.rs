//! Control-flow nodes of the program layer.
//!
//! Nodes reference values and other nodes by handle; `Chain` provides
//! sequencing, `Lift` embeds a morphism reference with parameter bindings.

use vstd::prelude::*;
use crate::program::values::{ValueId, str_eq};

verus! {

pub type NodeId = u32;

/// A comparison operator.
#[derive(Debug, Clone, Copy, PartialEq, Eq)]
pub enum CmpOp {
    Eq,
    Ne,
    Lt,
    Le,
    Gt,
    Ge,
}

pub open spec fn cmp_op_of(s: Seq<char>) -> Option<CmpOp> {
    if s == "=="@ {
        Some(CmpOp::Eq)
    } else if s == "!="@ {
        Some(CmpOp::Ne)
    } else if s == "<"@ {
        Some(CmpOp::Lt)
    } else if s == "<="@ {
        Some(CmpOp::Le)
    } else if s == ">"@ {
        Some(CmpOp::Gt)
    } else if s == ">="@ {
        Some(CmpOp::Ge)
    } else {
        None
    }
}

impl CmpOp {
    pub fn from_str(s: &str) -> (r: Option<CmpOp>)
        ensures
            r == cmp_op_of(s@),
    {
        if str_eq(s, "==") {
            Some(CmpOp::Eq)
        } else if str_eq(s, "!=") {
            Some(CmpOp::Ne)
        } else if str_eq(s, "<") {
            Some(CmpOp::Lt)
        } else if str_eq(s, "<=") {
            Some(CmpOp::Le)
        } else if str_eq(s, ">") {
            Some(CmpOp::Gt)
        } else if str_eq(s, ">=") {
            Some(CmpOp::Ge)
        } else {
            None
        }
    }
}

/// An arithmetic or bitwise operator.
#[derive(Debug, Clone, Copy, PartialEq, Eq)]
pub enum AluOp {
    Add,
    Sub,
    Mul,
    Div,
    Mod,
    BitAnd,
    BitOr,
    BitXor,
    Shl,
    Shr,
}

pub open spec fn alu_op_of(s: Seq<char>) -> Option<AluOp> {
    if s == "+"@ {
        Some(AluOp::Add)
    } else if s == "-"@ {
        Some(AluOp::Sub)
    } else if s == "*"@ {
        Some(AluOp::Mul)
    } else if s == "/"@ {
        Some(AluOp::Div)
    } else if s == "%"@ {
        Some(AluOp::Mod)
    } else if s == "&"@ {
        Some(AluOp::BitAnd)
    } else if s == "|"@ {
        Some(AluOp::BitOr)
    } else if s == "^"@ {
        Some(AluOp::BitXor)
    } else if s == "<<"@ {
        Some(AluOp::Shl)
    } else if s == ">>"@ {
        Some(AluOp::Shr)
    } else {
        None
    }
}

impl AluOp {
    pub fn from_str(s: &str) -> (r: Option<AluOp>)
        ensures
            r == alu_op_of(s@),
    {
        if str_eq(s, "+") {
            Some(AluOp::Add)
        } else if str_eq(s, "-") {
            Some(AluOp::Sub)
        } else if str_eq(s, "*") {
            Some(AluOp::Mul)
        } else if str_eq(s, "/") {
            Some(AluOp::Div)
        } else if str_eq(s, "%") {
            Some(AluOp::Mod)
        } else if str_eq(s, "&") {
            Some(AluOp::BitAnd)
        } else if str_eq(s, "|") {
            Some(AluOp::BitOr)
        } else if str_eq(s, "^") {
            Some(AluOp::BitXor)
        } else if str_eq(s, "<<") {
            Some(AluOp::Shl)
        } else if str_eq(s, ">>") {
            Some(AluOp::Shr)
        } else {
            None
        }
    }
}

/// A control-flow node.  `Lift` embeds a morphism by opaque reference with
/// named parameter bindings; `Chain` sequences two nodes; `Assign` writes a
/// value to a variable; `Match` branches on an integer subject.
#[derive(Debug, Clone)]
pub enum NodeData {
    Lift { morphism_ref: u64, params: Vec<(String, ValueId)> },
    Delay { duration: ValueId, max_hint: Option<u64> },
    Assign { target: ValueId, value: ValueId },
    Chain { left: NodeId, right: NodeId },
    Loop { count: ValueId, body: NodeId },
    Match { subject: ValueId, cases: Vec<(i64, NodeId)>, default: Option<NodeId> },
    Apply { func: NodeId, args: Vec<ValueId> },
    FuncDef { name: String, params: Vec<ValueId>, body: NodeId },
    Measure { target: ValueId, source: u32 },
    Identity,
}

} // verus!
