//! The command line, as plain data: what the user asked for.
use vstd::prelude::*;

verus! {

/// How results are printed.
#[derive(Debug, Clone, Copy, PartialEq, Eq, Structural)]
pub enum OutputFormat {
    Json,
    Text,
}

/// A subcommand with its arguments.
pub enum Command {
    /// Scan the project and build the knowledge graph; `force` rescans even
    /// when an index exists.
    Scan { force: bool },
    /// List all files in the graph.
    Modules,
    /// What a file depends on.
    Deps { file: String },
    /// What depends on a file.
    Rdeps { file: String },
    /// The transitive dependents of a file, up to `depth` steps away.
    Blast { file: String, depth: usize },
    /// Graph health and map confidence; `strict` exits by the action level.
    Doctor { limit: usize, strict: bool },
    /// The files with the most dependents and the widest blast radius.
    Hotspots { limit: usize },
    /// Exported symbols, filtered by an optional case-insensitive query.
    Symbols { query: Option<String>, limit: usize },
    /// Deps, dependents, blast radius and hints for one file.
    Impact { file: String, depth: usize },
    /// Graph statistics.
    Stats,
}

/// A parsed command line.
pub struct Cli {
    /// Project root override.
    pub repo: Option<String>,
    /// Output format.
    pub format: OutputFormat,
    pub command: Command,
}

impl Cli {
    /// Whether the output is JSON.
    pub fn is_json(&self) -> (r: bool)
        ensures
            r == (self.format == OutputFormat::Json),
    {
        match self.format {
            OutputFormat::Json => true,
            OutputFormat::Text => false,
        }
    }
}

} // verus!
