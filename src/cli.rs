//! The run's settings: the arguments as given, and the configuration
//! resolved from them before any scanning begins.
use vstd::prelude::*;
use crate::select::{AskMode, ask_mode_of};
use crate::size::{parse_size, size_value};
use crate::text::same_text;
use crate::walk::Strategy;

verus! {

/// The command-line arguments of a run.
pub struct Args {
    /// Where the scan starts; by default, the directory of the executable.
    pub path: Option<String>,
    /// `bfs` or `dfs`.
    pub strategy: String,
    /// Purge automatically from this size up (such as 100MB, 1GB).
    pub threshold: Option<String>,
    /// `real-time`, `after-scan`, `auto` or `none`.
    pub ask_mode: String,
    /// Workers that inspect directories.
    pub parallel_scan: usize,
    /// Workers that purge projects.
    pub parallel_clean: usize,
    /// Glob patterns of paths to leave out.
    pub exclude: Vec<String>,
    /// Report what would be purged, and purge nothing.
    pub dry_run: bool,
    /// Print the structured record of the run.
    pub json: bool,
    /// The deepest level below the root that is inspected.
    pub max_depth: Option<u32>,
}

/// The resolved, read-only configuration of a run.
pub struct Config {
    pub strategy: Strategy,
    pub threshold_bytes: Option<u64>,
    pub ask_mode: AskMode,
    /// Whether the mode name given was one of the four; if not, the mode is
    /// asking about each project.
    pub ask_mode_known: bool,
    pub parallel_scan: usize,
    pub parallel_clean: usize,
    pub excludes: Vec<String>,
    pub dry_run: bool,
    pub json: bool,
    pub max_depth: Option<u32>,
}

impl Config {
    /// Resolves the arguments: `dfs` walks depth-first and anything else
    /// breadth-first; a threshold that cannot be read is no threshold; an
    /// unknown mode asks about each project.
    pub fn from_args(args: Args) -> (r: Config)
        ensures
            r.strategy == (if args.strategy@ == "dfs"@ { Strategy::DepthFirst } else { Strategy::BreadthFirst }),
            r.threshold_bytes == match args.threshold {
                None => None,
                Some(t) => match size_value(t@) {
                    None => None,
                    Some(v) => Some(v as u64),
                },
            },
            r.ask_mode_known == ask_mode_of_spec(args.ask_mode@) is Some,
            r.ask_mode == match ask_mode_of_spec(args.ask_mode@) {
                Some(m) => m,
                None => AskMode::RealTime,
            },
            r.parallel_scan == args.parallel_scan,
            r.parallel_clean == args.parallel_clean,
            r.excludes == args.exclude,
            r.dry_run == args.dry_run,
            r.json == args.json,
            r.max_depth == args.max_depth,
    {
        let strategy = if same_text(args.strategy.as_str(), "dfs") {
            Strategy::DepthFirst
        } else {
            Strategy::BreadthFirst
        };
        let threshold_bytes = match &args.threshold {
            None => None,
            Some(t) => parse_size(t.as_str()),
        };
        let mode = ask_mode_of(args.ask_mode.as_str());
        let (ask_mode, ask_mode_known) = match mode {
            Some(m) => (m, true),
            None => (AskMode::RealTime, false),
        };
        Config {
            strategy,
            threshold_bytes,
            ask_mode,
            ask_mode_known,
            parallel_scan: args.parallel_scan,
            parallel_clean: args.parallel_clean,
            excludes: args.exclude,
            dry_run: args.dry_run,
            json: args.json,
            max_depth: args.max_depth,
        }
    }
}

/// The mode a name stands for, as `ask_mode_of` reads it.
pub open spec fn ask_mode_of_spec(name: Seq<char>) -> Option<AskMode> {
    if name == "real-time"@ {
        Some(AskMode::RealTime)
    } else if name == "after-scan"@ {
        Some(AskMode::AfterScan)
    } else if name == "auto"@ {
        Some(AskMode::Auto)
    } else if name == "none"@ {
        Some(AskMode::SelectAll)
    } else {
        None
    }
}

} // verus!
