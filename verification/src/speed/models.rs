//! Messages of the road-camera protocol, in their decoded form.

use vstd::prelude::*;

verus! {

/// Error report sent to a misbehaving client.
#[derive(Clone, PartialEq, Debug)]
pub struct ClientError {
    pub message: String,
}

/// A plate observation reported by a camera.
#[derive(Clone, PartialEq, Debug)]
pub struct Plate {
    pub plate: String,
    pub timestamp: u32,
}

/// A speeding ticket: one plate clocked between two observations.
#[derive(Clone, PartialEq, Debug)]
pub struct Ticket {
    pub plate: String,
    pub road: u16,
    pub mile1: u16,
    pub timestamp1: u32,
    pub mile2: u16,
    pub timestamp2: u32,
    pub speed: u16,
}

/// A plate observation joined with the camera's fixed position.
#[derive(Clone, PartialEq, Debug)]
pub struct Sighting {
    pub plate: String,
    pub timestamp: u32,
    pub road: u16,
    pub mile: u16,
    pub limit: u16,
}

/// Request for periodic heartbeats.
#[derive(Clone, PartialEq, Debug)]
pub struct WantHeartbeat {
    pub interval: u32,
}

/// The heartbeat itself.
#[derive(Clone, PartialEq, Debug)]
pub struct Heartbeat {}

/// A camera announcing its road, mile and the road's limit.
#[derive(Clone, PartialEq, Debug)]
pub struct IAmCamera {
    pub road: u16,
    pub mile: u16,
    pub limit: u16,
}

/// A dispatcher announcing the roads it serves.
#[derive(Clone, PartialEq, Debug)]
pub struct IAmDispatcher {
    pub roads: Vec<u16>,
}

/// Every message a client can send or receive.
#[derive(Clone, Debug)]
pub enum Message {
    Plate(Plate),
    Ticket(Ticket),
    WantHeartbeat(WantHeartbeat),
    IAmCamera(IAmCamera),
    IAmDispatcher(IAmDispatcher),
    Heartbeat(Heartbeat),
    Sighting(Sighting),
}

/// Cursor over a byte buffer from which messages are decoded one at a time.
pub struct MessageIterator {
    pub input: Vec<u8>,
    pub pos: usize,
}

} // verus!
