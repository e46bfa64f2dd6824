//! The activity events a room's tracker emits and the tagged form in which
//! they travel to the fan-out point.

use vstd::prelude::*;

verus! {

/// One participant-level activity event.
///
/// All variants but `Heartbeat` carry the identifier of the participant the
/// event is about; `Heartbeat` carries nothing and exists only so that idle
/// connections still see periodic traffic.
#[derive(Clone, Copy, Debug, PartialEq, Eq, Structural)]
pub enum EventMessage {
    Connected(u64),
    Speaking(u64),
    Quiet(u64),
    Disconnected(u64),
    Heartbeat,
}

/// An event tagged with the room it belongs to, as handed from a tracker to
/// the fan-out point.
#[derive(Clone, Copy, Debug, PartialEq, Eq, Structural)]
pub struct VoiceMessage {
    pub guild: u64,
    pub event: EventMessage,
}

impl VoiceMessage {
    /// The `Connected` event for participant `p` in room `guild`.
    pub open spec fn connected(guild: u64, p: u64) -> VoiceMessage {
        VoiceMessage { guild, event: EventMessage::Connected(p) }
    }

    /// The `Speaking` event for participant `p` in room `guild`.
    pub open spec fn speaking(guild: u64, p: u64) -> VoiceMessage {
        VoiceMessage { guild, event: EventMessage::Speaking(p) }
    }

    /// The `Quiet` event for participant `p` in room `guild`.
    pub open spec fn quiet(guild: u64, p: u64) -> VoiceMessage {
        VoiceMessage { guild, event: EventMessage::Quiet(p) }
    }

    /// The `Disconnected` event for participant `p` in room `guild`.
    pub open spec fn disconnected(guild: u64, p: u64) -> VoiceMessage {
        VoiceMessage { guild, event: EventMessage::Disconnected(p) }
    }
}

} // verus!
