use vstd::prelude::*;

verus! {

/// The port the web server listens on unless `--port` says otherwise.
pub const DEFAULT_PORT: u16 = 3000;

/// The command line: one subcommand.
#[derive(Debug)]
pub struct Cli {
    pub command: Commands,
}

/// The subcommands.
#[derive(Debug)]
pub enum Commands {
    /// Analyze dependencies and start the visualization server.
    Run {
        /// Port for the web server.
        port: u16,
        /// Maximum dependency depth to resolve.
        depth: Option<usize>,
        /// Open the browser automatically.
        open: bool,
    },
}

} // verus!
