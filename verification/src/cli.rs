//! The command line: one subcommand per operation.

use vstd::prelude::*;

verus! {

/// The parsed command line.
pub struct Cli {
    pub command: Commands,
}

/// The subcommands and their arguments.
pub enum Commands {
    /// Track a new config folder or file.
    Add {
        /// Path to the folder or file to track.
        path: String,
        /// Name for the entry (defaults to the folder or file name).
        name: Option<String>,
        /// Copy into the dotfiles folder without creating an entry.
        raw: bool,
    },
    /// Remove a tracked config.
    Remove {
        /// Name of the entry to remove.
        name: String,
    },
    /// Apply tracked entries to their source locations.
    Apply {
        /// Only apply entries with these names (skips the picker).
        names: Vec<String>,
        /// Apply all entries without prompting.
        all: bool,
        /// Overwrite targets even if they have local changes.
        force: bool,
    },
    /// Show differences between tracked entries and their source locations.
    Diff,
    /// Push the dotfiles repo upstream.
    Push,
    /// Pull the dotfiles repo and apply the updated entries.
    Pull {
        /// Only apply entries with these names (skips the picker).
        names: Vec<String>,
        /// Apply all entries without prompting.
        all: bool,
        /// Overwrite targets even if they have local changes.
        force: bool,
    },
    /// Copy tracked configs from their source locations into the dotfiles folder.
    Sync,
    /// Initialize a dotfiles repo, optionally from a git URL.
    Init {
        /// Git repository URL to clone.
        url: Option<String>,
        /// Where to clone the repo or create the local config.
        path: Option<String>,
    },
}

} // verus!
