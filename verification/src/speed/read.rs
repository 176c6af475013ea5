//! Decoding the road-camera protocol: tagged binary messages with
//! big-endian numbers and one-byte-length-prefixed strings.

use vstd::prelude::*;
use vstd::utf8::valid_utf8;
use vstd::utf8::decode_utf8;
use crate::text::bytes_to_string;
use crate::speed::models::Heartbeat;
use crate::speed::models::IAmCamera;
use crate::speed::models::IAmDispatcher;
use crate::speed::models::Message;
use crate::speed::models::MessageIterator;
use crate::speed::models::Plate;

verus! {

/// Two bytes at `i`, big endian.
pub open spec fn be16_at(s: Seq<u8>, i: int) -> int {
    s[i] * 0x100 + s[i + 1]
}

/// Four bytes at `i`, big endian.
pub open spec fn be32_at(s: Seq<u8>, i: int) -> int {
    s[i] * 0x100_0000 + s[i + 1] * 0x1_0000 + s[i + 2] * 0x100 + s[i + 3]
}

/// The bytes of the length-prefixed string starting at `i`.
pub open spec fn lp_str_bytes(s: Seq<u8>, i: int) -> Seq<u8> {
    s.subrange(i + 1, i + 1 + s[i])
}

/// Index just past the length-prefixed string starting at `i`.
pub open spec fn lp_str_end(s: Seq<u8>, i: int) -> int {
    i + 1 + s[i]
}

/// Read one byte.
fn read_char(it: &mut MessageIterator) -> (r: Option<u8>)
    ensures
        final(it).input == old(it).input,
        r is Some <==> old(it).pos < old(it).input@.len(),
        r matches Some(b) ==> b == old(it).input@[old(it).pos as int]
            && final(it).pos == old(it).pos + 1,
        r is None ==> final(it).pos == old(it).pos,
{
    if it.pos < it.input.len() {
        let b = it.input[it.pos];
        it.pos = it.pos + 1;
        Some(b)
    } else {
        None
    }
}

/// Read a length-prefixed string; it must be valid text.
fn read_string(it: &mut MessageIterator) -> (r: Option<String>)
    ensures
        final(it).input == old(it).input,
        ({
            let s = old(it).input@;
            let p = old(it).pos as int;
            &&& r matches Some(v) ==> p < s.len() && lp_str_end(s, p) <= s.len()
                && valid_utf8(lp_str_bytes(s, p)) && v@ == decode_utf8(lp_str_bytes(s, p))
                && final(it).pos == lp_str_end(s, p)
            &&& r is None ==> final(it).pos == old(it).pos
                && (p >= s.len() || lp_str_end(s, p) > s.len()
                    || !valid_utf8(lp_str_bytes(s, p)))
        }),
{
    let saved = it.pos;
    if it.pos >= it.input.len() {
        return None;
    }
    let len = it.input[it.pos] as usize;
    if len > it.input.len() - it.pos - 1 {
        return None;
    }
    let start = it.pos + 1;
    let mut bytes: Vec<u8> = Vec::new();
    let mut j: usize = 0;
    while j < len
        invariant
            j <= len,
            start + len <= it.input@.len(),
            start + len <= usize::MAX,
            bytes@ == it.input@.subrange(start as int, (start + j) as int),
            it.pos == saved,
            saved < it.input@.len(),
            start == saved + 1,
            len == it.input@[saved as int],
        decreases len - j,
    {
        proof {
            assert(it.input@.subrange(start as int, (start + j + 1) as int)
                =~= it.input@.subrange(start as int, (start + j) as int)
                    .push(it.input@[(start + j) as int]));
        }
        let b = it.input[start + j];
        bytes.push(b);
        j = j + 1;
    }
    proof {
        assert(bytes@ =~= lp_str_bytes(it.input@, saved as int));
    }
    match bytes_to_string(bytes) {
        Some(s) => {
            it.pos = start + len;
            Some(s)
        },
        None => None,
    }
}

/// Read a length-prefixed vector of big-endian 16-bit numbers.  The
/// elements come back in reverse wire order, newest first, as the original
/// reader produced them.
fn read_vec(it: &mut MessageIterator) -> (r: Option<Vec<u16>>)
    ensures
        final(it).input == old(it).input,
        ({
            let s = old(it).input@;
            let p = old(it).pos as int;
            &&& r matches Some(v) ==> p < s.len() && p + 1 + 2 * s[p] <= s.len()
                && v@.len() == s[p]
                && (forall|k: int| 0 <= k < v@.len()
                    ==> v@[k] == be16_at(s, p + 1 + 2 * (s[p] - 1 - k)))
                && final(it).pos == p + 1 + 2 * s[p]
            &&& r is None ==> final(it).pos == old(it).pos
                && (p >= s.len() || p + 1 + 2 * s[p] > s.len())
        }),
{
    let saved = it.pos;
    if it.pos >= it.input.len() {
        return None;
    }
    let count = it.input[it.pos] as usize;
    if count * 2 > it.input.len() - it.pos - 1 {
        return None;
    }
    let start = it.pos + 1;
    let mut out: Vec<u16> = Vec::new();
    let mut j: usize = 0;
    while j < count
        invariant
            j <= count,
            start + 2 * count <= it.input@.len(),
            start + 2 * count <= usize::MAX,
            out@.len() == j,
            forall|k: int| 0 <= k < j
                ==> out@[k] == be16_at(it.input@, start as int + 2 * (j - 1 - k)),
            it.pos == saved,
            saved < it.input@.len(),
            start == saved + 1,
            count == it.input@[saved as int],
        decreases count - j,
    {
        let hi = it.input[start + 2 * j];
        let lo = it.input[start + 2 * j + 1];
        let v: u16 = (hi as u16) * 0x100 + (lo as u16);
        out.insert(0, v);
        j = j + 1;
    }
    it.pos = start + 2 * count;
    Some(out)
}

/// Read a big-endian 32-bit number.
fn read_u32(it: &mut MessageIterator) -> (r: Option<u32>)
    ensures
        final(it).input == old(it).input,
        r is Some <==> old(it).pos + 4 <= old(it).input@.len(),
        r matches Some(v) ==> v == be32_at(old(it).input@, old(it).pos as int)
            && final(it).pos == old(it).pos + 4,
        r is None ==> final(it).pos == old(it).pos,
{
    if it.pos > it.input.len() || it.input.len() - it.pos < 4 {
        return None;
    }
    let p = it.pos;
    let v: u32 = (it.input[p] as u32) * 0x100_0000 + (it.input[p + 1] as u32) * 0x1_0000
        + (it.input[p + 2] as u32) * 0x100 + (it.input[p + 3] as u32);
    it.pos = p + 4;
    Some(v)
}

/// Read a big-endian 16-bit number.
fn read_u16(it: &mut MessageIterator) -> (r: Option<u16>)
    ensures
        final(it).input == old(it).input,
        r is Some <==> old(it).pos + 2 <= old(it).input@.len(),
        r matches Some(v) ==> v == be16_at(old(it).input@, old(it).pos as int)
            && final(it).pos == old(it).pos + 2,
        r is None ==> final(it).pos == old(it).pos,
{
    if it.pos > it.input.len() || it.input.len() - it.pos < 2 {
        return None;
    }
    let p = it.pos;
    let v: u16 = (it.input[p] as u16) * 0x100 + (it.input[p + 1] as u16);
    it.pos = p + 2;
    Some(v)
}

/// A length-prefixed string field is whole and holds valid text.
pub open spec fn lp_field_ok(s: Seq<u8>, i: int) -> bool {
    &&& i < s.len()
    &&& lp_str_end(s, i) <= s.len()
    &&& valid_utf8(lp_str_bytes(s, i))
}

/// The whole record whose tag sits at `p` is in the buffer.
pub open spec fn plate_complete(s: Seq<u8>, p: int) -> bool {
    lp_field_ok(s, p + 1) && lp_str_end(s, p + 1) + 4 <= s.len()
}

pub open spec fn plate_end(s: Seq<u8>, p: int) -> int {
    lp_str_end(s, p + 1) + 4
}

pub open spec fn camera_complete(s: Seq<u8>, p: int) -> bool {
    p + 7 <= s.len()
}

pub open spec fn dispatcher_complete(s: Seq<u8>, p: int) -> bool {
    p + 1 < s.len() && p + 2 + 2 * s[p + 1] <= s.len()
}

pub open spec fn dispatcher_end(s: Seq<u8>, p: int) -> int {
    p + 2 + 2 * s[p + 1]
}

/// Why a message failed to decode.
#[derive(Clone, Copy, PartialEq, Eq, Structural, Debug)]
pub enum SpeedReadError {
    /// The tag byte is not one a client may send.
    UnknownTag,
}

impl MessageIterator {
    /// Decode the next client message: a tagged record.  A whole record
    /// always decodes; the iterator ends — yielding nothing and moving
    /// nothing — when the buffer has no tag byte or cuts a record short;
    /// an unknown tag is an error.
    pub fn next(&mut self) -> (r: Option<Result<Message, SpeedReadError>>)
        ensures
            final(self).input == old(self).input,
            ({
                let s = old(self).input@;
                let p = old(self).pos as int;
                &&& p >= s.len() ==> r is None
                &&& r is None ==> final(self).pos == old(self).pos
                &&& p < s.len() && s[p] == 0x20 ==> {
                    &&& !plate_complete(s, p) ==> r is None
                    &&& plate_complete(s, p) ==> (r matches Some(Ok(m))
                        && m matches Message::Plate(pl)
                        && pl.plate@ == decode_utf8(lp_str_bytes(s, p + 1))
                        && pl.timestamp == be32_at(s, lp_str_end(s, p + 1))
                        && final(self).pos == plate_end(s, p))
                }
                &&& p < s.len() && s[p] == 0x41 ==> r == Some(
                    Result::<Message, SpeedReadError>::Ok(Message::Heartbeat(Heartbeat {})),
                ) && final(self).pos == p + 1
                &&& p < s.len() && s[p] == 0x80 ==> {
                    &&& !camera_complete(s, p) ==> r is None
                    &&& camera_complete(s, p) ==> (r matches Some(Ok(m))
                        && m matches Message::IAmCamera(c)
                        && c.road == be16_at(s, p + 1) && c.mile == be16_at(s, p + 3)
                        && c.limit == be16_at(s, p + 5) && final(self).pos == p + 7)
                }
                &&& p < s.len() && s[p] == 0x81 ==> {
                    &&& !dispatcher_complete(s, p) ==> r is None
                    &&& dispatcher_complete(s, p) ==> (r matches Some(Ok(m))
                        && m matches Message::IAmDispatcher(d)
                        && d.roads@.len() == s[p + 1]
                        && (forall|k: int| 0 <= k < d.roads@.len()
                            ==> d.roads@[k] == be16_at(s, p + 2 + 2 * (s[p + 1] - 1 - k)))
                        && final(self).pos == dispatcher_end(s, p))
                }
                &&& p < s.len() && !(s[p] == 0x20 || s[p] == 0x41 || s[p] == 0x80
                    || s[p] == 0x81) ==> r == Some(
                    Result::<Message, SpeedReadError>::Err(SpeedReadError::UnknownTag),
                ) && final(self).pos == p + 1
            }),
    {
        let start = self.pos;
        let tag = match read_char(self) {
            Some(t) => t,
            None => {
                return None;
            },
        };
        if tag == 0x20 {
            let plate = match read_string(self) {
                Some(v) => v,
                None => {
                    self.pos = start;
                    return None;
                },
            };
            let timestamp = match read_u32(self) {
                Some(v) => v,
                None => {
                    self.pos = start;
                    return None;
                },
            };
            Some(Ok(Message::Plate(Plate { plate, timestamp })))
        } else if tag == 0x41 {
            Some(Ok(Message::Heartbeat(Heartbeat {})))
        } else if tag == 0x80 {
            let road = match read_u16(self) {
                Some(v) => v,
                None => {
                    self.pos = start;
                    return None;
                },
            };
            let mile = match read_u16(self) {
                Some(v) => v,
                None => {
                    self.pos = start;
                    return None;
                },
            };
            let limit = match read_u16(self) {
                Some(v) => v,
                None => {
                    self.pos = start;
                    return None;
                },
            };
            Some(Ok(Message::IAmCamera(IAmCamera { road, mile, limit })))
        } else if tag == 0x81 {
            let roads = match read_vec(self) {
                Some(v) => v,
                None => {
                    self.pos = start;
                    return None;
                },
            };
            Some(Ok(Message::IAmDispatcher(IAmDispatcher { roads })))
        } else {
            Some(Err(SpeedReadError::UnknownTag))
        }
    }
}

/// Begin decoding messages from a buffer.
pub fn consume_messages(input: Vec<u8>) -> (r: MessageIterator)
    ensures
        r.input == input,
        r.pos == 0,
{
    MessageIterator { input, pos: 0 }
}

} // verus!
