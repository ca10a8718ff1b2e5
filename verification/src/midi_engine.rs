//! Where the MIDI engine sends a message.

use vstd::prelude::*;

verus! {

/// The output connections of the MIDI engine.
#[derive(Clone, Copy, Debug, PartialEq, Eq, Structural)]
pub enum OutputSlot {
    /// The first output connection.
    First,
    /// The second output connection.
    Second,
}

/// The connection that serves `port`: port 0 goes to the first, port 1 to
/// the second; other ports have none and their messages are not sent.
pub fn output_for_port(port: u8) -> (slot: Option<OutputSlot>)
    ensures
        slot == if port == 0 {
            Some(OutputSlot::First)
        } else if port == 1 {
            Some(OutputSlot::Second)
        } else {
            None::<OutputSlot>
        },
{
    match port {
        0 => Some(OutputSlot::First),
        1 => Some(OutputSlot::Second),
        _ => None,
    }
}

} // verus!
