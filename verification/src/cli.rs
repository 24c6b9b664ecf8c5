//! The command line: what each subcommand takes.

use vstd::prelude::*;

verus! {

/// Top-level command line: the subcommand to run.
#[derive(Debug)]
pub struct Cli {
    pub command: Commands,
}

/// The subcommands.
#[derive(Debug)]
pub enum Commands {
    /// Scan directories for lint suppressions.
    Scan {
        /// Paths to scan (defaults to the config's scan paths or the current directory).
        paths: Vec<String>,
        /// Output format: `human`, `json` or `tui`.
        format: Option<String>,
        /// Path to the config file (overrides discovery).
        config: Option<String>,
        /// Path to the CODEOWNERS file.
        codeowners: Option<String>,
        /// File extensions to scan.
        extensions: Option<Vec<String>>,
    },
    /// Launch a web dashboard showing trends across several reports.
    Trend {
        /// JSON report files, or directories holding them.
        paths: Vec<String>,
        /// Port of the web server.
        port: u16,
        /// Do not open the browser.
        no_open: bool,
    },
    /// Read a previously saved JSON report (`-` for standard input).
    Read {
        /// Path to the JSON report.
        path: String,
        /// Output format: `human` or `json`.
        format: String,
    },
}

/// The port the dashboard listens on unless told otherwise.
pub const DEFAULT_PORT: u16 = 8081;

} // verus!
