//! The road-camera speed enforcement system: message formats, their
//! decoding and encoding, and the per-car infraction bookkeeping.

pub mod car;
pub mod models;
pub mod read;
pub mod serialization;
pub mod write;

use vstd::prelude::*;
use crate::speed::models::Sighting;
use crate::speed::models::Ticket;

verus! {

/// What the dispatch loop passes between tasks: a sighting coming in, a
/// ticket that must go out, or one that did.
#[derive(Clone, Debug)]
pub enum SpeedMessage {
    TicketRequired(Ticket),
    TicketSent(Ticket),
    Sighting(Sighting),
}

} // verus!
