//! The command line: what the user asked for, and what is run for it.

use vstd::prelude::*;

verus! {

/// Output format of `list`.
#[derive(Clone, Copy, PartialEq, Eq)]
pub enum Format {
    Text,
    Json,
}

/// A subcommand.
pub enum Command {
    /// Print the cgroup tree to stdout (pipe-friendly).
    List {
        /// Limit the tree to N levels below the root.
        depth: Option<usize>,
        /// Properties to show (patterns; `*` shows all).
        props: Vec<String>,
        format: Format,
    },
    /// Open the interactive explorer.
    Explore,
}

/// Inspect the cgroup v2 hierarchy.
pub struct Cli {
    /// Root of the cgroup v2 hierarchy.
    pub root: String,
    pub command: Option<Command>,
}

/// What a run does once the hierarchy has been read.
pub enum Action {
    /// Print the tree as text.
    PrintText { depth: Option<usize>, props: Vec<String> },
    /// Print the tree as JSON.
    PrintJson { depth: Option<usize>, props: Vec<String> },
    /// Open the interactive explorer.
    Explore,
}

/// The action for a command line: `list` prints in the chosen format;
/// `explore`, and no command, open the explorer when stdout is a terminal
/// and otherwise print the whole tree without properties, like `list`.
pub fn plan_run(command: Option<Command>, stdout_is_terminal: bool) -> (r: Action)
    ensures
        match command {
            Some(Command::List { depth, props, format: Format::Text }) => r == (Action::PrintText {
                depth,
                props,
            }),
            Some(Command::List { depth, props, format: Format::Json }) => r == (Action::PrintJson {
                depth,
                props,
            }),
            Some(Command::Explore) | None => if stdout_is_terminal {
                r is Explore
            } else {
                r matches Action::PrintText { depth, props } && depth is None && props@.len() == 0
            },
        },
{
    match command {
        Some(Command::List { depth, props, format }) => match format {
            Format::Text => Action::PrintText { depth, props },
            Format::Json => Action::PrintJson { depth, props },
        },
        Some(Command::Explore) | None => {
            if stdout_is_terminal {
                Action::Explore
            } else {
                Action::PrintText { depth: None, props: Vec::new() }
            }
        },
    }
}

} // verus!
