//! Command requests sent by clients.

use vstd::prelude::*;

use crate::kv::{Command, CommandView};

verus! {

/// Request from a client to apply a command to the replicated machine.
#[derive(Debug, PartialEq, Eq)]
pub struct CommandRequest {
    pub command: Command,
}

/// Mathematical image of a [`CommandRequest`].
#[verifier::ext_equal]
pub ghost struct CommandRequestView {
    pub command: CommandView,
}

impl View for CommandRequest {
    type V = CommandRequestView;

    open spec fn view(&self) -> CommandRequestView {
        CommandRequestView { command: self.command@ }
    }
}

impl CommandRequest {
    /// Creates a command request.
    pub fn new(command: Command) -> (r: CommandRequest)
        ensures
            r@ == (CommandRequestView { command: command@ }),
    {
        CommandRequest { command }
    }
}

impl Clone for CommandRequest {
    /// Clones the request; the copy has the same view.
    fn clone(&self) -> (r: CommandRequest)
        ensures
            r@ == self@,
    {
        CommandRequest { command: self.command.clone() }
    }
}

} // verus!
