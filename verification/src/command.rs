//! What the program is asked to do.

use vstd::prelude::*;

verus! {

/// The two ways to run the program.
#[derive(Clone, Copy, Debug, PartialEq, Eq, Structural)]
pub enum Command {
    /// Generate an identity and write a configuration for it.
    Init,
    /// Load the configuration and run the node.
    Run,
}

/// Picks the command from the two flags of the command line, of which one is
/// always set; `init` wins where both are.
pub fn select_command(init: bool, run: bool) -> (command: Command)
    requires
        init || run,
    ensures
        command == if init {
            Command::Init
        } else {
            Command::Run
        },
{
    if init {
        Command::Init
    } else {
        Command::Run
    }
}

} // verus!
