//! Replies to command requests.

use vstd::prelude::*;

use crate::errors::ClientError;
use crate::kv::CommandResult;

verus! {

/// Reply to a [`crate::message::CommandRequest`].
#[derive(Clone, Copy, PartialEq, Eq, Debug)]
pub struct CommandReply {
    pub result: Result<CommandResult, ClientError>,
}

impl CommandReply {
    /// Creates a command reply.
    pub fn new(result: Result<CommandResult, ClientError>) -> (r: CommandReply)
        ensures
            r == (CommandReply { result }),
    {
        CommandReply { result }
    }

    /// Gets the carried result.
    pub fn result(&self) -> (r: Result<CommandResult, ClientError>)
        ensures
            r == self.result,
    {
        self.result
    }
}

} // verus!
