//! Encoding the authority protocol: each record is framed with its tag,
//! its own total length, and a trailing checksum that makes the byte sum
//! zero modulo 256.

use vstd::prelude::*;
use vstd::utf8::encode_utf8;
use crate::pest::checksum::sum_bytes;
use crate::pest::models::Message;

verus! {

/// Big-endian bytes of a 32-bit value.
pub open spec fn u32_be(v: int) -> Seq<u8>
    recommends
        0 <= v < 0x1_0000_0000,
{
    seq![
        (v / 0x100_0000) as u8,
        ((v / 0x1_0000) % 0x100) as u8,
        ((v / 0x100) % 0x100) as u8,
        (v % 0x100) as u8,
    ]
}

/// Wire form of a string: its byte length, then its UTF-8 bytes.
pub open spec fn str_wire(b: Seq<u8>) -> Seq<u8> {
    u32_be(b.len() as int) + b
}

/// The checksum byte that makes the record sum to zero modulo 256.
pub open spec fn checksum_byte(s: Seq<u8>) -> u8 {
    ((0x100 - sum_bytes(s) % 0x100) % 0x100) as u8
}

/// A whole framed record: tag, total length, body, checksum.
pub open spec fn framed(tag: u8, body: Seq<u8>) -> Seq<u8> {
    (seq![tag] + u32_be((body.len() + 6) as int) + body).push(
        checksum_byte(seq![tag] + u32_be((body.len() + 6) as int) + body),
    )
}

/// Append one byte.
pub fn write_byte(bytes_to_write: &mut Vec<u8>, character: u8)
    ensures
        final(bytes_to_write)@ == old(bytes_to_write)@.push(character),
{
    bytes_to_write.push(character);
}

/// Append a big-endian 32-bit number.
pub fn write_u32(bytes_to_write: &mut Vec<u8>, number: u32)
    ensures
        final(bytes_to_write)@ == old(bytes_to_write)@ + u32_be(number as int),
{
    bytes_to_write.push((number / 0x100_0000) as u8);
    bytes_to_write.push(((number / 0x1_0000) % 0x100) as u8);
    bytes_to_write.push(((number / 0x100) % 0x100) as u8);
    bytes_to_write.push((number % 0x100) as u8);
    proof {
        assert(bytes_to_write@ =~= old(bytes_to_write)@ + u32_be(number as int));
    }
}

/// Append a length-prefixed string.
pub fn write_string(bytes_to_write: &mut Vec<u8>, string: &String)
    requires
        old(bytes_to_write)@.len() + encode_utf8(string@).len() <= usize::MAX,
        encode_utf8(string@).len() < 0x1_0000_0000,
    ensures
        final(bytes_to_write)@ == old(bytes_to_write)@ + str_wire(encode_utf8(string@)),
{
    let b = string.as_str().as_bytes();
    let len = b.len();
    write_u32(bytes_to_write, len as u32);
    bytes_to_write.extend_from_slice(b);
    proof {
        assert(bytes_to_write@ =~= old(bytes_to_write)@ + str_wire(encode_utf8(string@)));
    }
}

/// Slot the total record length in after the tag byte: the current bytes
/// plus the four of the length itself and the one of the checksum.
pub fn write_length(bytes_to_write: &mut Vec<u8>)
    requires
        1 <= old(bytes_to_write)@.len(),
        old(bytes_to_write)@.len() + 5 < 0x1_0000_0000,
    ensures
        final(bytes_to_write)@ == old(bytes_to_write)@.subrange(0, 1)
            + u32_be((old(bytes_to_write)@.len() + 5) as int)
            + old(bytes_to_write)@.subrange(1, old(bytes_to_write)@.len() as int),
{
    let n: u32 = (bytes_to_write.len() + 5) as u32;
    bytes_to_write.insert(1, (n % 0x100) as u8);
    bytes_to_write.insert(1, ((n / 0x100) % 0x100) as u8);
    bytes_to_write.insert(1, ((n / 0x1_0000) % 0x100) as u8);
    bytes_to_write.insert(1, (n / 0x100_0000) as u8);
    proof {
        assert(bytes_to_write@ =~= old(bytes_to_write)@.subrange(0, 1)
            + u32_be((old(bytes_to_write)@.len() + 5) as int)
            + old(bytes_to_write)@.subrange(1, old(bytes_to_write)@.len() as int));
    }
}

/// Append the checksum of everything written so far.
pub fn write_checksum(bytes_to_write: &mut Vec<u8>)
    ensures
        final(bytes_to_write)@ == old(bytes_to_write)@.push(
            checksum_byte(old(bytes_to_write)@),
        ),
{
    let n = bytes_to_write.len();
    let mut acc: u32 = 0;
    let mut i: usize = 0;
    while i < n
        invariant
            i <= n,
            n == bytes_to_write@.len(),
            bytes_to_write == old(bytes_to_write),
            acc == sum_bytes(bytes_to_write@.subrange(0, i as int)) % 0x100,
        decreases n - i,
    {
        proof {
            assert(bytes_to_write@.subrange(0, (i + 1) as int).drop_last()
                =~= bytes_to_write@.subrange(0, i as int));
            vstd::arithmetic::div_mod::lemma_add_mod_noop_right(
                bytes_to_write@[i as int] as int,
                sum_bytes(bytes_to_write@.subrange(0, i as int)),
                0x100,
            );
        }
        acc = (acc + bytes_to_write[i] as u32) % 0x100;
        i = i + 1;
    }
    proof {
        assert(bytes_to_write@.subrange(0, n as int) =~= bytes_to_write@);
    }
    let checksum = ((0x100 - acc) % 0x100) as u8;
    bytes_to_write.push(checksum);
}

/// Why a message could not be encoded.
#[derive(Clone, Copy, PartialEq, Eq, Structural, Debug)]
pub enum PestWriteError {
    /// A record kind this side never sends.
    Unsupported,
    /// A string too long for the length field.
    TooLong,
}

/// Encode one outbound record.  Only the record kinds a client sends are
/// supported; the rest come back unsupported, and a string that cannot fit
/// the length field comes back too long.
#[verifier::spinoff_prover]
#[verifier::rlimit(100)]
pub fn write_message(message: &Message) -> (r: Result<Vec<u8>, PestWriteError>)
    ensures
        ({
            match message {
                Message::Hello(h) => encode_utf8(h.protocol@).len() + 14 < 0x1_0000_0000
                    ==> (r matches Ok(v) && v@ == framed(
                        0x50,
                        str_wire(encode_utf8(h.protocol@)) + u32_be(h.version as int),
                    )),
                Message::PestControlError(e) => encode_utf8(e.message@).len() + 14
                    < 0x1_0000_0000 ==> (r matches Ok(v) && v@ == framed(
                    0x51,
                    str_wire(encode_utf8(e.message@)),
                )),
                Message::DialAuthority(d) => r matches Ok(v) && v@ == framed(
                    0x53,
                    u32_be(d.site as int),
                ),
                Message::CreatePolicy(c) => encode_utf8(c.species@).len() + 14 < 0x1_0000_0000
                    ==> (r matches Ok(v) && v@ == framed(
                        0x55,
                        str_wire(encode_utf8(c.species@)).push(c.action),
                    )),
                Message::DeletePolicy(d) => r matches Ok(v) && v@ == framed(
                    0x56,
                    u32_be(d.policy as int),
                ),
                _ => r == Result::<Vec<u8>, PestWriteError>::Err(PestWriteError::Unsupported),
            }
        }),
{
    let mut out: Vec<u8> = Vec::new();
    match message {
        Message::Hello(h) => {
            if (h.protocol.as_str().as_bytes().len() as u64) >= 0xFFFF_FFF2u64 {
                return Err(PestWriteError::TooLong);
            }
            write_byte(&mut out, 0x50);
            write_string(&mut out, &h.protocol);
            write_u32(&mut out, h.version);
            let ghost body = str_wire(encode_utf8(h.protocol@)) + u32_be(h.version as int);
            proof {
                assert(out@ =~= seq![0x50u8] + body);
                assert((seq![0x50u8] + body).subrange(0, 1) =~= seq![0x50u8]);
                assert((seq![0x50u8] + body).subrange(1, (seq![0x50u8] + body).len() as int)
                    =~= body);
            }
            write_length(&mut out);
            proof {
                assert(out@ =~= seq![0x50u8] + u32_be((body.len() + 6) as int) + body);
            }
            write_checksum(&mut out);
            Ok(out)
        },
        Message::PestControlError(e) => {
            if (e.message.as_str().as_bytes().len() as u64) >= 0xFFFF_FFF2u64 {
                return Err(PestWriteError::TooLong);
            }
            write_byte(&mut out, 0x51);
            write_string(&mut out, &e.message);
            let ghost body = str_wire(encode_utf8(e.message@));
            proof {
                assert(out@ =~= seq![0x51u8] + body);
                assert((seq![0x51u8] + body).subrange(0, 1) =~= seq![0x51u8]);
                assert((seq![0x51u8] + body).subrange(1, (seq![0x51u8] + body).len() as int)
                    =~= body);
            }
            write_length(&mut out);
            proof {
                assert(out@ =~= seq![0x51u8] + u32_be((body.len() + 6) as int) + body);
            }
            write_checksum(&mut out);
            Ok(out)
        },
        Message::DialAuthority(d) => {
            write_byte(&mut out, 0x53);
            write_u32(&mut out, d.site);
            let ghost body = u32_be(d.site as int);
            proof {
                assert(out@ =~= seq![0x53u8] + body);
                assert((seq![0x53u8] + body).subrange(0, 1) =~= seq![0x53u8]);
                assert((seq![0x53u8] + body).subrange(1, (seq![0x53u8] + body).len() as int)
                    =~= body);
            }
            write_length(&mut out);
            proof {
                assert(out@ =~= seq![0x53u8] + u32_be((body.len() + 6) as int) + body);
            }
            write_checksum(&mut out);
            Ok(out)
        },
        Message::CreatePolicy(c) => {
            if (c.species.as_str().as_bytes().len() as u64) >= 0xFFFF_FFF2u64 {
                return Err(PestWriteError::TooLong);
            }
            write_byte(&mut out, 0x55);
            write_string(&mut out, &c.species);
            write_byte(&mut out, c.action);
            let ghost body = str_wire(encode_utf8(c.species@)).push(c.action);
            proof {
                assert(out@ =~= seq![0x55u8] + body);
                assert((seq![0x55u8] + body).subrange(0, 1) =~= seq![0x55u8]);
                assert((seq![0x55u8] + body).subrange(1, (seq![0x55u8] + body).len() as int)
                    =~= body);
            }
            write_length(&mut out);
            proof {
                assert(out@ =~= seq![0x55u8] + u32_be((body.len() + 6) as int) + body);
            }
            write_checksum(&mut out);
            Ok(out)
        },
        Message::DeletePolicy(d) => {
            write_byte(&mut out, 0x56);
            write_u32(&mut out, d.policy);
            let ghost body = u32_be(d.policy as int);
            proof {
                assert(out@ =~= seq![0x56u8] + body);
                assert((seq![0x56u8] + body).subrange(0, 1) =~= seq![0x56u8]);
                assert((seq![0x56u8] + body).subrange(1, (seq![0x56u8] + body).len() as int)
                    =~= body);
            }
            write_length(&mut out);
            proof {
                assert(out@ =~= seq![0x56u8] + u32_be((body.len() + 6) as int) + body);
            }
            write_checksum(&mut out);
            Ok(out)
        },
        _ => Err(PestWriteError::Unsupported),
    }
}

} // verus!
