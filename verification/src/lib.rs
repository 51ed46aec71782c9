//! Atlas: a codebase knowledge graph.
//!
//! The library holds the graph model, import extraction, import resolution,
//! index freshness, the doctor's decision rules, the command line as data and
//! the errors a command can end with. Reading files, walking directories,
//! JSON and argument parsing live around it.

pub mod text;
pub mod order;
pub mod graph;
pub mod parse;
pub mod resolve;
pub mod scan;
pub mod store;
pub mod report;
pub mod cli;
pub mod error;
pub mod laws;
