//! The command-line options of the search.
use vstd::prelude::*;

verus! {

/// The parsed command line.
pub struct Cli {
    /// The pattern searched for.
    pub target: String,
    /// Files, directories or file-name patterns; none means standard input.
    pub filenames: Vec<String>,
    /// Ignore letter case (`-i`).
    pub ignore_case: bool,
    /// Select the lines that do not match (`-v`).
    pub invert_match: bool,
    /// Treat the pattern as a regular expression (`-E`).
    pub extended_regexp: bool,
    /// Treat the pattern as a fixed string (`-F`).
    pub fixed_strings: bool,
    /// Match whole words only (`-w`).
    pub word_regexp: bool,
    /// Match whole lines only (`-x`).
    pub line_regexp: bool,
    /// Read patterns from a file (`-f`).
    pub file: Option<String>,
    /// A pattern given with `-e`.
    pub regexp: Option<String>,
    /// Show line numbers (`-n`).
    pub line_number: bool,
    /// Show all lines, the matches marked (`--all`).
    pub all: bool,
    /// Show only the matching parts (`-o`).
    pub only_matching: bool,
    /// Show only the names of files with a match (`-l`).
    pub files_with_matches: bool,
    /// Show only the names of files without a match (`-L`).
    pub files_without_match: bool,
    /// Show the number of selected lines (`-c`).
    pub count: bool,
    /// Show nothing; the exit status tells (`-q`).
    pub quiet: bool,
    /// Prefix lines with the file name (`-H`).
    pub with_filename: bool,
    /// Never prefix lines with the file name.
    pub no_filename: bool,
    /// Lines of context after a match (`-A`).
    pub after_context: Option<usize>,
    /// Lines of context before a match (`-B`).
    pub before_context: Option<usize>,
    /// Lines of context around a match (`-C`).
    pub context: Option<usize>,
    /// Search directories recursively (`-r`).
    pub recursive: bool,
    /// Only search files whose path matches this pattern.
    pub include_pattern: Option<String>,
    /// Skip files whose path matches this pattern.
    pub exclude: Option<String>,
    /// Skip directories with this name.
    pub exclude_dir: Option<String>,
    /// Stop after this many matches (`-m`).
    pub max_count: Option<usize>,
    /// Treat binary files as text (`-a`).
    pub text: bool,
    /// Number of threads, 0 for one per CPU (`-j`).
    pub threads: usize,
    /// Encoding of the input (`auto` detects a byte order mark).
    pub input_encoding: String,
    /// Encoding of the output.
    pub output_encoding: String,
}

} // verus!
