//! Symbolic values: literals, variables and expressions.
//!
//! Values are stored in an arena and referenced by dense integer handles.
//! A literal carries 64 bits; a floating-point literal is stored as its raw
//! bit pattern with a flag, so the store itself never computes on floats.

use vstd::prelude::*;
use vstd::string::StrSliceExecFns;
use crate::program::nodes::{AluOp, CmpOp};

verus! {

pub type ValueId = u32;

/// Compare two string slices character by character.
pub fn str_eq(a: &str, b: &str) -> (r: bool)
    ensures
        r == (a@ == b@),
{
    let la = a.unicode_len();
    let lb = b.unicode_len();
    if la != lb {
        proof {
            assert(a@.len() != b@.len());
        }
        return false;
    }
    let mut i: usize = 0;
    while i < la
        invariant
            i <= la,
            la == a@.len(),
            lb == b@.len(),
            la == lb,
            forall|k: int| 0 <= k < i ==> a@[k] == b@[k],
        decreases la - i,
    {
        let ca = a.get_char(i);
        let cb = b.get_char(i);
        if ca != cb {
            proof {
                assert(a@[i as int] != b@[i as int]);
            }
            return false;
        }
        i = i + 1;
    }
    proof {
        assert(a@ =~= b@);
    }
    true
}

/// A type annotation for variables.
#[derive(Debug, Clone, Copy, PartialEq, Eq)]
pub enum TypeHint {
    Int32,
    Int64,
    Float32,
    Float64,
    Bool,
}

pub open spec fn type_hint_of(s: Seq<char>) -> Option<TypeHint> {
    if s == "int32"@ || s == "i32"@ {
        Some(TypeHint::Int32)
    } else if s == "int64"@ || s == "i64"@ {
        Some(TypeHint::Int64)
    } else if s == "float32"@ || s == "f32"@ {
        Some(TypeHint::Float32)
    } else if s == "float64"@ || s == "f64"@ {
        Some(TypeHint::Float64)
    } else if s == "bool"@ {
        Some(TypeHint::Bool)
    } else {
        None
    }
}

impl TypeHint {
    pub fn from_str(s: &str) -> (r: Option<TypeHint>)
        ensures
            r == type_hint_of(s@),
    {
        if str_eq(s, "int32") || str_eq(s, "i32") {
            Some(TypeHint::Int32)
        } else if str_eq(s, "int64") || str_eq(s, "i64") {
            Some(TypeHint::Int64)
        } else if str_eq(s, "float32") || str_eq(s, "f32") {
            Some(TypeHint::Float32)
        } else if str_eq(s, "float64") || str_eq(s, "f64") {
            Some(TypeHint::Float64)
        } else if str_eq(s, "bool") {
            Some(TypeHint::Bool)
        } else {
            None
        }
    }
}

/// A unary operator.
#[derive(Debug, Clone, Copy, PartialEq, Eq)]
pub enum UnaryOp {
    Neg,
    Not,
    BitNot,
}

pub open spec fn unary_op_of(s: Seq<char>) -> Option<UnaryOp> {
    if s == "-"@ {
        Some(UnaryOp::Neg)
    } else if s == "!"@ {
        Some(UnaryOp::Not)
    } else if s == "~"@ {
        Some(UnaryOp::BitNot)
    } else {
        None
    }
}

impl UnaryOp {
    pub fn from_str(s: &str) -> (r: Option<UnaryOp>)
        ensures
            r == unary_op_of(s@),
    {
        if str_eq(s, "-") {
            Some(UnaryOp::Neg)
        } else if str_eq(s, "!") {
            Some(UnaryOp::Not)
        } else if str_eq(s, "~") {
            Some(UnaryOp::BitNot)
        } else {
            None
        }
    }
}

/// A boolean connective.
#[derive(Debug, Clone, Copy, PartialEq, Eq)]
pub enum LogicalOp {
    And,
    Or,
    Not,
}

pub open spec fn logical_op_of(s: Seq<char>) -> Option<LogicalOp> {
    if s == "and"@ || s == "&&"@ {
        Some(LogicalOp::And)
    } else if s == "or"@ || s == "||"@ {
        Some(LogicalOp::Or)
    } else if s == "not"@ || s == "!"@ {
        Some(LogicalOp::Not)
    } else {
        None
    }
}

impl LogicalOp {
    pub fn from_str(s: &str) -> (r: Option<LogicalOp>)
        ensures
            r == logical_op_of(s@),
    {
        if str_eq(s, "and") || str_eq(s, "&&") {
            Some(LogicalOp::And)
        } else if str_eq(s, "or") || str_eq(s, "||") {
            Some(LogicalOp::Or)
        } else if str_eq(s, "not") || str_eq(s, "!") {
            Some(LogicalOp::Not)
        } else {
            None
        }
    }
}

/// A symbolic value: a 64-bit literal (with a flag marking a raw float bit
/// pattern), a named variable, or an expression over earlier values.
#[derive(Debug, Clone)]
pub enum ValueData {
    Literal { value: i64, is_float: bool },
    Variable { name: String, type_hint: TypeHint },
    BinaryExpr { lhs: ValueId, op: AluOp, rhs: ValueId },
    UnaryExpr { op: UnaryOp, operand: ValueId },
    Condition { lhs: ValueId, op: CmpOp, rhs: ValueId },
    LogicalExpr { lhs: ValueId, op: LogicalOp, rhs: Option<ValueId> },
}

impl ValueData {
    /// An integer literal.
    pub fn int_literal(value: i64) -> (r: ValueData)
        ensures
            r == (ValueData::Literal { value, is_float: false }),
    {
        ValueData::Literal { value, is_float: false }
    }

    /// A floating-point literal, given as the raw bits of the number.
    pub fn float_bits(bits: i64) -> (r: ValueData)
        ensures
            r == (ValueData::Literal { value: bits, is_float: true }),
    {
        ValueData::Literal { value: bits, is_float: true }
    }

    /// The integer value of a non-float literal.
    pub fn as_int(&self) -> (r: Option<i64>)
        ensures
            r == (match *self {
                ValueData::Literal { value, is_float } => if !is_float {
                    Some(value)
                } else {
                    None::<i64>
                },
                _ => None::<i64>,
            }),
    {
        match self {
            ValueData::Literal { value, is_float } => if !*is_float {
                Some(*value)
            } else {
                None
            },
            _ => None,
        }
    }

    /// The raw bits of a float literal.
    pub fn as_float_bits(&self) -> (r: Option<i64>)
        ensures
            r == (match *self {
                ValueData::Literal { value, is_float } => if is_float {
                    Some(value)
                } else {
                    None::<i64>
                },
                _ => None::<i64>,
            }),
    {
        match self {
            ValueData::Literal { value, is_float } => if *is_float {
                Some(*value)
            } else {
                None
            },
            _ => None,
        }
    }

    pub fn is_literal(&self) -> (r: bool)
        ensures
            r == (self is Literal),
    {
        match self {
            ValueData::Literal { .. } => true,
            _ => false,
        }
    }

    pub fn is_variable(&self) -> (r: bool)
        ensures
            r == (self is Variable),
    {
        match self {
            ValueData::Variable { .. } => true,
            _ => false,
        }
    }
}

} // verus!
