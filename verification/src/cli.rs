//! The command line surface, once the arguments are parsed.

use vstd::prelude::*;

use crate::shell::Shell;

verus! {

/// A minimalist sqlite-backed shell-history recorder and searcher.
#[derive(Debug)]
pub struct Cli {
    pub command: Command,
}

/// The subcommands. `add` and `search` are called by the shell snippets in [`crate::shell`]; the
/// rest are typed by hand.
#[derive(Debug)]
pub enum Command {
    /// Print the shell integration snippet for bash, zsh, or fish.
    Init { shell: Shell },
    /// Record one executed command. Called by the shell hook.
    Add {
        /// Exit status of the command.
        exit: i32,
        /// The command line, after --.
        cmd: Vec<String>,
    },
    /// Search history interactively. Prints the selection to stdout.
    Search {
        /// Initial query.
        query: Vec<String>,
    },
    /// Print the last 50 commands as time, exit, and cmd, tab separated.
    List,
    /// Import from Atuin, $HISTFILE, or the current shell's history.
    Import,
}

} // verus!
