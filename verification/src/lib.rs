//! A typed dataflow graph for tensor programs, with transactional patches,
//! a fixed-point optimizer and a topological scheduler.

pub mod apply;
pub mod core_op;
pub mod datum;
pub mod error;
pub mod fact;
pub mod fixpoint;
pub mod graph;
pub mod label;
pub mod op;
pub mod ops;
pub mod optim;
pub mod order;
pub mod outlet_map;
pub mod patch;
pub mod recompact;
pub mod replace;
pub mod sound;
pub mod stable;
pub mod tensor;
pub mod translate;
