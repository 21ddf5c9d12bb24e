use vstd::prelude::*;

use crate::context::ContextSpec;

verus! {

/// The resolved run configuration. The command-line layer fills it in; the
/// engine only reads it.
pub struct Args {
    /// The patterns to look for; a line matches when any of them does.
    pub query: Vec<String>,
    /// File or directory to search; `-` means standard input.
    pub path: String,
    /// Case-insensitive matching.
    pub ignore_case: bool,
    /// Show line numbers for each match.
    pub show_line_numbers: bool,
    /// Only print a count of matching lines per file.
    pub count: bool,
    /// Invert the match: report lines that do not match.
    pub invert: bool,
    /// Symmetric context size; when non-zero it overrides the two below.
    pub context: usize,
    /// Lines of context after each match.
    pub context_after: usize,
    /// Lines of context before each match.
    pub context_before: usize,
    /// Treat the queries as regular expressions.
    pub regex: bool,
    /// Recurse into directories.
    pub recursive: bool,
    /// Path of the ignore file honoured during traversal.
    pub ignore_file: String,
    /// Emphasise the matched text.
    pub color: bool,
    /// Use fuzzy matching.
    pub fuzzy: bool,
    /// Inclusive lower bound on the fuzzy similarity score.
    pub fuzzy_threshold: i64,
}

impl Args {
    /// The context sizes of this configuration.
    pub fn context_spec(&self) -> (r: ContextSpec)
        ensures
            r.context == self.context,
            r.after == self.context_after,
            r.before == self.context_before,
    {
        ContextSpec { context: self.context, after: self.context_after, before: self.context_before }
    }
}

} // verus!
