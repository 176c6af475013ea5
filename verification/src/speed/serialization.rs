//! The alternative wire model of the road-camera protocol: records built
//! from length-prefixed fields, decoded one whole datagram at a time.

use vstd::prelude::*;
use vstd::utf8::valid_utf8;
use vstd::utf8::decode_utf8;
use crate::text::bytes_to_string;
use crate::speed::read::be16_at;
use crate::speed::read::be32_at;
use crate::speed::read::lp_str_bytes;
use crate::speed::read::lp_str_end;
use crate::speed::read::lp_field_ok;

verus! {

/// A string carried on the wire with a one-byte length prefix.
#[derive(Clone, PartialEq, Eq, Debug)]
pub struct LengthPrefixedString(pub String);

/// A vector of 16-bit numbers carried with a one-byte count prefix.
#[derive(Clone, PartialEq, Debug)]
pub struct LengthPrefixedVector(pub Vec<u16>);

/// Error report sent to a misbehaving client.
#[derive(Clone, PartialEq, Debug)]
pub struct ClientError {
    pub message: LengthPrefixedString,
}

/// A plate observation reported by a camera.
#[derive(Clone, PartialEq, Debug)]
pub struct Plate {
    pub plate: LengthPrefixedString,
    pub timestamp: u32,
}

/// A speeding ticket: one plate clocked between two observations.
#[derive(Clone, PartialEq, Debug)]
pub struct Ticket {
    pub plate: LengthPrefixedString,
    pub road: u16,
    pub mile1: u16,
    pub timestamp1: u32,
    pub mile2: u16,
    pub timestamp2: u32,
    pub speed: u16,
}

/// Request for periodic heartbeats.
#[derive(Clone, PartialEq, Debug)]
pub struct WantHeartbeat {
    pub interval: u32,
}

/// The heartbeat itself.
#[derive(Clone, PartialEq, Debug)]
pub struct Heartbeat {}

/// A camera announcing its road, mile and the road's limit.
#[derive(Clone, PartialEq, Debug)]
pub struct IAmCamera {
    pub road: u16,
    pub mile: u16,
    pub limit: u16,
}

/// A dispatcher announcing the roads it serves.
#[derive(Clone, PartialEq, Debug)]
pub struct IAmDispatcher {
    pub roads: LengthPrefixedVector,
}

/// Every message of this wire model.
#[derive(Clone, Debug)]
pub enum Message {
    ClientError(ClientError),
    Plate(Plate),
    Ticket(Ticket),
    WantHeartbeat(WantHeartbeat),
    Heartbeat(Heartbeat),
    IAmCamera(IAmCamera),
    IAmDispatcher(IAmDispatcher),
}

/// Cursor over a byte buffer from which messages are decoded one at a time.
pub struct MessageIterator {
    pub input: Vec<u8>,
    pub pos: usize,
}

impl LengthPrefixedString {
    /// Decode a length-prefixed string at `pos`; the result also says where
    /// the next field begins.
    pub fn deserialize(input: &Vec<u8>, pos: usize) -> (r: Option<(LengthPrefixedString, usize)>)
        requires
            pos <= input@.len(),
        ensures
            ({
                let s = input@;
                let p = pos as int;
                &&& r matches Some(t) ==> p < s.len() && lp_str_end(s, p) <= s.len()
                    && valid_utf8(lp_str_bytes(s, p))
                    && t.0.0@ == decode_utf8(lp_str_bytes(s, p)) && t.1 == lp_str_end(s, p)
                &&& r is None ==> p >= s.len() || lp_str_end(s, p) > s.len()
                    || !valid_utf8(lp_str_bytes(s, p))
            }),
    {
        if pos >= input.len() {
            return None;
        }
        let len = input[pos] as usize;
        if len > input.len() - pos - 1 {
            return None;
        }
        let start = pos + 1;
        let mut bytes: Vec<u8> = Vec::new();
        let mut j: usize = 0;
        while j < len
            invariant
                j <= len,
                start + len <= input@.len(),
                start + len <= usize::MAX,
                bytes@ == input@.subrange(start as int, (start + j) as int),
                pos < input@.len(),
                start == pos + 1,
                len == input@[pos as int],
            decreases len - j,
        {
            proof {
                assert(input@.subrange(start as int, (start + j + 1) as int)
                    =~= input@.subrange(start as int, (start + j) as int)
                        .push(input@[(start + j) as int]));
            }
            let b = input[start + j];
            bytes.push(b);
            j = j + 1;
        }
        proof {
            assert(bytes@ =~= lp_str_bytes(input@, pos as int));
        }
        match bytes_to_string(bytes) {
            Some(s) => Some((LengthPrefixedString(s), start + len)),
            None => None,
        }
    }

    /// The wire bytes of this string: the low byte of its byte length, then
    /// its UTF-8 bytes.
    pub fn serialize(&self) -> (r: Vec<u8>)
        ensures
            r@ == seq![(vstd::utf8::encode_utf8(self.0@).len() % 0x100) as u8]
                + vstd::utf8::encode_utf8(self.0@),
    {
        let bytes = self.0.as_str().as_bytes();
        let mut out: Vec<u8> = Vec::new();
        out.push((bytes.len() % 0x100) as u8);
        out.extend_from_slice(bytes);
        proof {
            assert(out@ =~= seq![(vstd::utf8::encode_utf8(self.0@).len() % 0x100) as u8]
                + vstd::utf8::encode_utf8(self.0@));
        }
        out
    }
}

impl LengthPrefixedVector {
    /// Decode a count-prefixed vector of big-endian 16-bit numbers at
    /// `pos`, in wire order; the result also says where the next field
    /// begins.
    pub fn deserialize(input: &Vec<u8>, pos: usize) -> (r: Option<(LengthPrefixedVector, usize)>)
        requires
            pos <= input@.len(),
        ensures
            ({
                let s = input@;
                let p = pos as int;
                &&& r matches Some(t) ==> p < s.len() && p + 1 + 2 * s[p] <= s.len()
                    && t.0.0@.len() == s[p]
                    && (forall|k: int| 0 <= k < t.0.0@.len()
                        ==> t.0.0@[k] == be16_at(s, p + 1 + 2 * k))
                    && t.1 == p + 1 + 2 * s[p]
                &&& r is None ==> p >= s.len() || p + 1 + 2 * s[p] > s.len()
            }),
    {
        if pos >= input.len() {
            return None;
        }
        let count = input[pos] as usize;
        if count * 2 > input.len() - pos - 1 {
            return None;
        }
        let start = pos + 1;
        let mut out: Vec<u16> = Vec::new();
        let mut j: usize = 0;
        while j < count
            invariant
                j <= count,
                start + 2 * count <= input@.len(),
                start + 2 * count <= usize::MAX,
                out@.len() == j,
                forall|k: int| 0 <= k < j
                    ==> out@[k] == be16_at(input@, start as int + 2 * k),
                pos < input@.len(),
                start == pos + 1,
                count == input@[pos as int],
            decreases count - j,
        {
            let hi = input[start + 2 * j];
            let lo = input[start + 2 * j + 1];
            let v: u16 = (hi as u16) * 0x100 + (lo as u16);
            out.push(v);
            j = j + 1;
        }
        Some((LengthPrefixedVector(out), start + 2 * count))
    }
}

impl MessageIterator {
    /// Decode the message at the cursor: one tagged record.  A whole record
    /// always decodes; nothing comes back when the buffer is exhausted; a
    /// record the buffer cuts short, or an unknown tag, is malformed and
    /// moves nothing.
    pub fn next(&mut self) -> (r: Option<Result<Message, DecodeFailure>>)
        ensures
            final(self).input == old(self).input,
            ({
                let s = old(self).input@;
                let p = old(self).pos as int;
                &&& p >= s.len() ==> r is None && final(self).pos == old(self).pos
                &&& (r is None || r matches Some(Err(f))) ==> final(self).pos == old(self).pos
                &&& p < s.len() && s[p] == 0x10 ==> {
                    let complete = lp_field_ok(s, p + 1);
                    &&& !complete ==> r == Some(
                        Result::<Message, DecodeFailure>::Err(DecodeFailure::Invalid),
                    )
                    &&& complete ==> (r matches Some(Ok(m))
                        && m matches Message::ClientError(e)
                        && e.message.0@ == decode_utf8(lp_str_bytes(s, p + 1))
                        && final(self).pos == lp_str_end(s, p + 1))
                }
                &&& p < s.len() && s[p] == 0x20 ==> {
                    let complete = lp_field_ok(s, p + 1) && lp_str_end(s, p + 1) + 4 <= s.len();
                    &&& !complete ==> r == Some(
                        Result::<Message, DecodeFailure>::Err(DecodeFailure::Invalid),
                    )
                    &&& complete ==> (r matches Some(Ok(m))
                        && m matches Message::Plate(pl)
                        && pl.plate.0@ == decode_utf8(lp_str_bytes(s, p + 1))
                        && pl.timestamp == be32_at(s, lp_str_end(s, p + 1))
                        && final(self).pos == lp_str_end(s, p + 1) + 4)
                }
                &&& p < s.len() && s[p] == 0x21 ==> {
                    let complete = lp_field_ok(s, p + 1) && lp_str_end(s, p + 1) + 16 <= s.len();
                    &&& !complete ==> r == Some(
                        Result::<Message, DecodeFailure>::Err(DecodeFailure::Invalid),
                    )
                    &&& complete ==> (r matches Some(Ok(m))
                        && m matches Message::Ticket(t)
                        && t.plate.0@ == decode_utf8(lp_str_bytes(s, p + 1))
                        && t.road == be16_at(s, lp_str_end(s, p + 1))
                        && t.mile1 == be16_at(s, lp_str_end(s, p + 1) + 2)
                        && t.timestamp1 == be32_at(s, lp_str_end(s, p + 1) + 4)
                        && t.mile2 == be16_at(s, lp_str_end(s, p + 1) + 8)
                        && t.timestamp2 == be32_at(s, lp_str_end(s, p + 1) + 10)
                        && t.speed == be16_at(s, lp_str_end(s, p + 1) + 14)
                        && final(self).pos == lp_str_end(s, p + 1) + 16)
                }
                &&& p < s.len() && s[p] == 0x40 ==> {
                    let complete = p + 5 <= s.len();
                    &&& !complete ==> r == Some(
                        Result::<Message, DecodeFailure>::Err(DecodeFailure::Invalid),
                    )
                    &&& complete ==> (r matches Some(Ok(m))
                        && m matches Message::WantHeartbeat(w)
                        && w.interval == be32_at(s, p + 1)
                        && final(self).pos == p + 5)
                }
                &&& p < s.len() && s[p] == 0x41 ==> r == Some(
                    Result::<Message, DecodeFailure>::Ok(Message::Heartbeat(Heartbeat {})),
                ) && final(self).pos == p + 1
                &&& p < s.len() && s[p] == 0x80 ==> {
                    let complete = p + 7 <= s.len();
                    &&& !complete ==> r == Some(
                        Result::<Message, DecodeFailure>::Err(DecodeFailure::Invalid),
                    )
                    &&& complete ==> (r matches Some(Ok(m))
                        && m matches Message::IAmCamera(c)
                        && c.road == be16_at(s, p + 1) && c.mile == be16_at(s, p + 3)
                        && c.limit == be16_at(s, p + 5)
                        && final(self).pos == p + 7)
                }
                &&& p < s.len() && s[p] == 0x81 ==> {
                    let complete = p + 1 < s.len() && p + 2 + 2 * s[p + 1] <= s.len();
                    &&& !complete ==> r == Some(
                        Result::<Message, DecodeFailure>::Err(DecodeFailure::Invalid),
                    )
                    &&& complete ==> (r matches Some(Ok(m))
                        && m matches Message::IAmDispatcher(d)
                        && d.roads.0@.len() == s[p + 1]
                        && (forall|k: int| 0 <= k < d.roads.0@.len()
                            ==> d.roads.0@[k] == be16_at(s, p + 2 + 2 * k))
                        && final(self).pos == p + 2 + 2 * s[p + 1])
                }
                &&& p < s.len() && !(s[p] == 0x10 || s[p] == 0x20 || s[p] == 0x21
                    || s[p] == 0x40 || s[p] == 0x41 || s[p] == 0x80 || s[p] == 0x81)
                    ==> r == Some(Result::<Message, DecodeFailure>::Err(DecodeFailure::Invalid))
            }),
    {
        if self.pos >= self.input.len() {
            return None;
        }
        let tag = self.input[self.pos];
        let body = self.pos + 1;
        if tag == 0x10 {
            match LengthPrefixedString::deserialize(&self.input, body) {
                Some((message, end)) => {
                    self.pos = end;
                    Some(Ok(Message::ClientError(ClientError { message })))
                },
                None => Some(Err(DecodeFailure::Invalid)),
            }
        } else if tag == 0x20 {
            match LengthPrefixedString::deserialize(&self.input, body) {
                Some((plate, end)) => {
                    match u32_at(&self.input, end) {
                        Some((timestamp, end2)) => {
                            self.pos = end2;
                            Some(Ok(Message::Plate(Plate { plate, timestamp })))
                        },
                        None => Some(Err(DecodeFailure::Invalid)),
                    }
                },
                None => Some(Err(DecodeFailure::Invalid)),
            }
        } else if tag == 0x21 {
            match LengthPrefixedString::deserialize(&self.input, body) {
                Some((plate, e0)) => {
                    match (u16_at(&self.input, e0), u16_at2(&self.input, e0, 2)) {
                        (Some((road, _)), Some((mile1, _))) => {
                            match (u32_at2(&self.input, e0, 4), u16_at2(&self.input, e0, 8)) {
                                (Some((timestamp1, _)), Some((mile2, _))) => {
                                    match (u32_at2(&self.input, e0, 10), u16_at2(&self.input, e0, 14)) {
                                        (Some((timestamp2, _)), Some((speed, end))) => {
                                            self.pos = end;
                                            Some(Ok(Message::Ticket(Ticket {
                                                plate,
                                                road,
                                                mile1,
                                                timestamp1,
                                                mile2,
                                                timestamp2,
                                                speed,
                                            })))
                                        },
                                        _ => Some(Err(DecodeFailure::Invalid)),
                                    }
                                },
                                _ => Some(Err(DecodeFailure::Invalid)),
                            }
                        },
                        _ => Some(Err(DecodeFailure::Invalid)),
                    }
                },
                None => Some(Err(DecodeFailure::Invalid)),
            }
        } else if tag == 0x40 {
            match u32_at(&self.input, body) {
                Some((interval, end)) => {
                    self.pos = end;
                    Some(Ok(Message::WantHeartbeat(WantHeartbeat { interval })))
                },
                None => Some(Err(DecodeFailure::Invalid)),
            }
        } else if tag == 0x41 {
            self.pos = body;
            Some(Ok(Message::Heartbeat(Heartbeat {})))
        } else if tag == 0x80 {
            match (u16_at(&self.input, body), u16_at2(&self.input, body, 2), u16_at2(&self.input, body, 4)) {
                (Some((road, _)), Some((mile, _)), Some((limit, end))) => {
                    self.pos = end;
                    Some(Ok(Message::IAmCamera(IAmCamera { road, mile, limit })))
                },
                _ => Some(Err(DecodeFailure::Invalid)),
            }
        } else if tag == 0x81 {
            match LengthPrefixedVector::deserialize(&self.input, body) {
                Some((roads, end)) => {
                    self.pos = end;
                    Some(Ok(Message::IAmDispatcher(IAmDispatcher { roads })))
                },
                None => Some(Err(DecodeFailure::Invalid)),
            }
        } else {
            Some(Err(DecodeFailure::Invalid))
        }
    }
}

/// Why a record failed to decode: cut short or unknown.
#[derive(Clone, Copy, PartialEq, Eq, Structural, Debug)]
pub enum DecodeFailure {
    Invalid,
}

/// A big-endian 16-bit number at `pos`, and the index after it.
fn u16_at(input: &Vec<u8>, pos: usize) -> (r: Option<(u16, usize)>)
    ensures
        r is Some <==> pos + 2 <= input@.len(),
        r matches Some(t) ==> t.0 == be16_at(input@, pos as int) && t.1 == pos + 2,
{
    if pos > input.len() || input.len() - pos < 2 {
        return None;
    }
    let v: u16 = (input[pos] as u16) * 0x100 + (input[pos + 1] as u16);
    Some((v, pos + 2))
}

/// A big-endian 16-bit number at `pos + off`, and the index after it.
fn u16_at2(input: &Vec<u8>, pos: usize, off: usize) -> (r: Option<(u16, usize)>)
    requires
        off <= 14,
    ensures
        r is Some <==> pos + off + 2 <= input@.len(),
        r matches Some(t) ==> t.0 == be16_at(input@, pos as int + off as int)
            && t.1 == pos + off + 2,
{
    if pos > input.len() || input.len() - pos < off || input.len() - pos - off < 2 {
        return None;
    }
    u16_at(input, pos + off)
}

/// A big-endian 32-bit number at `pos`, and the index after it.
fn u32_at(input: &Vec<u8>, pos: usize) -> (r: Option<(u32, usize)>)
    ensures
        r is Some <==> pos + 4 <= input@.len(),
        r matches Some(t) ==> t.0 == be32_at(input@, pos as int) && t.1 == pos + 4,
{
    if pos > input.len() || input.len() - pos < 4 {
        return None;
    }
    let v: u32 = (input[pos] as u32) * 0x100_0000 + (input[pos + 1] as u32) * 0x1_0000
        + (input[pos + 2] as u32) * 0x100 + (input[pos + 3] as u32);
    Some((v, pos + 4))
}

/// A big-endian 32-bit number at `pos + off`, and the index after it.
fn u32_at2(input: &Vec<u8>, pos: usize, off: usize) -> (r: Option<(u32, usize)>)
    requires
        off <= 14,
    ensures
        r is Some <==> pos + off + 4 <= input@.len(),
        r matches Some(t) ==> t.0 == be32_at(input@, pos as int + off as int)
            && t.1 == pos + off + 4,
{
    if pos > input.len() || input.len() - pos < off || input.len() - pos - off < 4 {
        return None;
    }
    u32_at(input, pos + off)
}

/// Begin decoding messages from a buffer.
pub fn consume_messages(input: Vec<u8>) -> (r: MessageIterator)
    ensures
        r.input == input,
        r.pos == 0,
{
    MessageIterator { input, pos: 0 }
}

} // verus!
