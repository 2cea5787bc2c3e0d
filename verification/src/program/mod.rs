//! The program layer: control-flow nodes and symbolic values over the
//! morphism universe, stored in an arena of their own.

pub mod arena;
pub mod nodes;
pub mod values;

pub use arena::ProgramArena;
pub use nodes::{AluOp, CmpOp, NodeData, NodeId};
pub use values::{LogicalOp, TypeHint, UnaryOp, ValueData, ValueId};
