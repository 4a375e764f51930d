//! A distributed shell-pipeline planner.
//!
//! A shell command line is parsed into a dataflow graph of command, read
//! and write nodes joined by pipe edges; the graph is partitioned by the
//! machine that owns each node's files, cross-machine pipes are rewritten
//! into TCP streams, and the partitions are framed for dispatch over a
//! typed wire protocol.
pub mod client;
pub mod errors;
pub mod node;
pub mod program;
pub mod shellparser;
pub mod stream;
