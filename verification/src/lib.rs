//! Verified core of a task-graph runtime: graph model and inspection, run
//! scheduling decisions, pipelines, partitioners, buffers and sequential
//! algorithm kernels.

mod text;
pub mod error;
pub mod graph;
pub mod dot;
pub mod cycles;
pub mod inspect;
pub mod snapshot;
pub mod run;
pub mod status;
pub mod partitioner;
pub mod parallel_for;
pub mod buffers;
pub mod perf;
pub mod trace;
pub mod pipeline;
pub mod sort;
pub mod heap;
pub mod order;
pub mod quicksort;
pub mod inline;
pub mod scan;
pub mod algorithms;
pub mod queue;
pub mod compat;
pub mod bench;
pub mod compare;
pub mod kernels;
pub mod options;
pub mod report;
pub mod parking;
pub mod driver;
pub mod backoff;
pub mod repeat;
pub mod suite;
pub mod level_graph;

pub use error::FlowError;
pub use dot::escape_dot;
pub use graph::{FlowGraph, FlowTaskKind, Node, TaskId};
pub use text::{decimal_string, spec_decimal};
