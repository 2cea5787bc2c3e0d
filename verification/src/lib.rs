//! An arena-backed algebra of timed, per-channel operations and its
//! compilers.
//!
//! Programs are compositions of morphisms: atomic operations combined
//! serially (durations add) and in parallel (durations take the maximum and
//! the channel sets must be disjoint).  A one-shot compiler and a memoizing
//! compiler flatten a composition into the same time-sorted event stream,
//! `semantics::events_of`; the laws relating order, counts, time bounds,
//! merging and balanced construction are stated and proved alongside them.
//! A second arena stores control-flow programs over the same morphism
//! universe.

pub mod arena;
pub mod compiler;
pub mod compose;
pub mod context;
pub mod incremental;
pub mod path;
pub mod program;
pub mod semantics;
