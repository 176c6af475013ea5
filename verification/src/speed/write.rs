//! Encoding the road-camera protocol's server messages.

use vstd::prelude::*;
use vstd::utf8::encode_utf8;
use crate::speed::models::Ticket;

verus! {

/// Big-endian bytes of a 16-bit number.
pub open spec fn be16_bytes(v: u16) -> Seq<u8> {
    seq![(v / 0x100) as u8, (v % 0x100) as u8]
}

/// Big-endian bytes of a 32-bit number.
pub open spec fn be32_bytes(v: u32) -> Seq<u8> {
    seq![
        (v / 0x100_0000) as u8,
        ((v / 0x1_0000) % 0x100) as u8,
        ((v / 0x100) % 0x100) as u8,
        (v % 0x100) as u8,
    ]
}

/// Wire form of a string: the low byte of its byte length, then its UTF-8
/// bytes.
pub open spec fn lp_str_wire(b: Seq<u8>) -> Seq<u8> {
    seq![(b.len() % 0x100) as u8] + b
}

/// Append one byte.
fn write_char(out: &mut Vec<u8>, character: u8)
    ensures
        final(out)@ == old(out)@.push(character),
{
    out.push(character);
}

/// Append a length-prefixed string.
fn write_string(out: &mut Vec<u8>, string: &String)
    ensures
        final(out)@ == old(out)@ + lp_str_wire(encode_utf8(string@)),
{
    let bytes = string.as_str().as_bytes();
    let len_byte: u8 = ((bytes.len() % 0x100) as u8);
    out.push(len_byte);
    out.extend_from_slice(bytes);
    proof {
        assert((old(out)@.push(len_byte)) + bytes@
            =~= old(out)@ + lp_str_wire(encode_utf8(string@)));
    }
}

/// Append a big-endian 16-bit number.
fn write_u16(out: &mut Vec<u8>, number: u16)
    ensures
        final(out)@ == old(out)@ + be16_bytes(number),
{
    out.push((number / 0x100) as u8);
    out.push((number % 0x100) as u8);
    proof {
        assert(old(out)@.push((number / 0x100) as u8).push((number % 0x100) as u8)
            =~= old(out)@ + be16_bytes(number));
    }
}

/// Append a big-endian 32-bit number.
fn write_u32(out: &mut Vec<u8>, number: u32)
    ensures
        final(out)@ == old(out)@ + be32_bytes(number),
{
    out.push((number / 0x100_0000) as u8);
    out.push(((number / 0x1_0000) % 0x100) as u8);
    out.push(((number / 0x100) % 0x100) as u8);
    out.push((number % 0x100) as u8);
    proof {
        assert(old(out)@
            .push((number / 0x100_0000) as u8)
            .push(((number / 0x1_0000) % 0x100) as u8)
            .push(((number / 0x100) % 0x100) as u8)
            .push((number % 0x100) as u8) =~= old(out)@ + be32_bytes(number));
    }
}

/// Wire form of a ticket message.
pub open spec fn ticket_wire(t: &Ticket) -> Seq<u8> {
    seq![0x21u8] + lp_str_wire(encode_utf8(t.plate@)) + be16_bytes(t.road) + be16_bytes(t.mile1)
        + be32_bytes(t.timestamp1) + be16_bytes(t.mile2) + be32_bytes(t.timestamp2)
        + be16_bytes(t.speed)
}

/// Encode a ticket message.
pub fn write_ticket(ticket: &Ticket) -> (r: Vec<u8>)
    ensures
        r@ == ticket_wire(ticket),
{
    let mut out: Vec<u8> = Vec::new();
    write_char(&mut out, 0x21);
    write_string(&mut out, &ticket.plate);
    write_u16(&mut out, ticket.road);
    write_u16(&mut out, ticket.mile1);
    write_u32(&mut out, ticket.timestamp1);
    write_u16(&mut out, ticket.mile2);
    write_u32(&mut out, ticket.timestamp2);
    write_u16(&mut out, ticket.speed);
    proof {
        assert(out@ =~= ticket_wire(ticket));
    }
    out
}

/// Encode a heartbeat message.
pub fn write_heartbeat() -> (r: Vec<u8>)
    ensures
        r@ == seq![0x41u8],
{
    let mut out: Vec<u8> = Vec::new();
    write_char(&mut out, 0x41);
    proof {
        assert(out@ =~= seq![0x41u8]);
    }
    out
}

/// Encode an error message.
pub fn write_error(error: &String) -> (r: Vec<u8>)
    ensures
        r@ == seq![0x20u8] + lp_str_wire(encode_utf8(error@)),
{
    let mut out: Vec<u8> = Vec::new();
    write_char(&mut out, 0x20);
    write_string(&mut out, error);
    proof {
        assert(out@ =~= seq![0x20u8] + lp_str_wire(encode_utf8(error@)));
    }
    out
}

} // verus!
