//! The chat-command surface: which named command an interaction invokes.
//!
//! The command handlers themselves talk to the chat service and live with
//! the rest of the I/O; what is decided here is only the dispatch from a
//! command's name to the command.

use vstd::prelude::*;

verus! {

/// The commands the relay registers with the chat service.
#[derive(Clone, Copy, Debug, PartialEq, Eq, Structural)]
pub enum CommandKind {
    /// Join a voice channel and start relaying its events.
    Join,
    /// Leave the current voice channel.
    Leave,
}

/// The command a name denotes, if any.
pub open spec fn spec_dispatch(name: Seq<char>) -> Option<CommandKind> {
    if name == "join"@ {
        Some(CommandKind::Join)
    } else if name == "leave"@ {
        Some(CommandKind::Leave)
    } else {
        None
    }
}

/// The gateway-event handler: receives the chat service's events and routes
/// each named command interaction to its command.
pub struct Events;

impl Events {
    /// Which command the interaction named `name` invokes; anything
    /// unrecognized is ignored.
    pub fn dispatch(&self, name: &str) -> (r: Option<CommandKind>)
        ensures
            r == spec_dispatch(name@),
    {
        let owned = name.to_owned();
        if owned == "join".to_owned() {
            Some(CommandKind::Join)
        } else if owned == "leave".to_owned() {
            Some(CommandKind::Leave)
        } else {
            None
        }
    }
}

} // verus!
