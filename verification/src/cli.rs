//! The command line: one subcommand per mode of the program.
use vstd::prelude::*;

verus! {

/// The parsed command line.
#[derive(Debug, Clone, Copy, PartialEq, Eq, Structural)]
pub struct Cli {
    pub command: Commands,
}

/// The program's modes.
#[derive(Debug, Clone, Copy, PartialEq, Eq, Structural)]
pub enum Commands {
    /// Run OAuth2 PKCE auth flow and store token
    Auth,
    /// Long-running daemon loop (managed by systemd/launchd)
    Run,
    /// Print the next upcoming meeting and its join URL
    Next,
}

} // verus!
