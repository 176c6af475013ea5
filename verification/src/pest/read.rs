//! Decoding the authority protocol: checksummed, length-framed records
//! with four-byte big-endian numbers and length-prefixed strings.

use vstd::prelude::*;
use vstd::utf8::valid_utf8;
use vstd::utf8::decode_utf8;
use crate::text::bytes_to_string;
use crate::pest::checksum::sum_bytes;
use crate::pest::models::Hello;
use crate::pest::models::Message;
use crate::pest::models::MessageIterator;
use crate::pest::models::Okay;
use crate::pest::models::PestControlError;
use crate::pest::models::PolicyResult;
use crate::pest::models::SiteVisit;
use crate::pest::models::TargetPopulation;
use crate::pest::models::TargetPopulations;
use crate::pest::models::VisitPopulation;

verus! {

/// Four bytes at `i`, big endian.
pub open spec fn be32_at(s: Seq<u8>, i: int) -> int {
    s[i] * 0x100_0000 + s[i + 1] * 0x1_0000 + s[i + 2] * 0x100 + s[i + 3]
}

/// The bytes of the length-prefixed string starting at `i`.
pub open spec fn p_str_bytes(s: Seq<u8>, i: int) -> Seq<u8> {
    s.subrange(i + 4, i + 4 + be32_at(s, i))
}

/// Index just past the length-prefixed string starting at `i`.
pub open spec fn p_str_end(s: Seq<u8>, i: int) -> int {
    i + 4 + be32_at(s, i)
}

/// Offset of the `k`-th target-population record, counting from `i`:
/// each record is a string and two numbers.
pub open spec fn tp_off(s: Seq<u8>, i: int, k: nat) -> int
    decreases k,
{
    if k == 0 {
        i
    } else {
        tp_off(s, p_str_end(s, i) + 8, (k - 1) as nat)
    }
}

/// Offset of the `k`-th visit-population record, counting from `i`:
/// each record is a string and one number.
pub open spec fn vp_off(s: Seq<u8>, i: int, k: nat) -> int
    decreases k,
{
    if k == 0 {
        i
    } else {
        vp_off(s, p_str_end(s, i) + 4, (k - 1) as nat)
    }
}

/// A whole record sums to zero modulo 256 and its length field spans it.
pub fn is_valid_message(bytes_read: &[u8], message_length: u32, checksum: u8) -> (r: bool)
    requires
        bytes_read@.len() >= 1,
    ensures
        r == (bytes_read@.len() == message_length
            && checksum == (0x100 - sum_bytes(bytes_read@.drop_last()) % 0x100) % 0x100),
{
    let n = bytes_read.len();
    let mut acc: u32 = 0;
    let mut i: usize = 0;
    while i < n - 1
        invariant
            i <= n - 1,
            n >= 1,
            n == bytes_read@.len(),
            acc == sum_bytes(bytes_read@.subrange(0, i as int)) % 0x100,
        decreases n - i,
    {
        proof {
            assert(bytes_read@.subrange(0, (i + 1) as int).drop_last()
                =~= bytes_read@.subrange(0, i as int));
            vstd::arithmetic::div_mod::lemma_add_mod_noop_right(
                bytes_read@[i as int] as int,
                sum_bytes(bytes_read@.subrange(0, i as int)),
                0x100,
            );
        }
        acc = (acc + bytes_read[i] as u32) % 0x100;
        i = i + 1;
    }
    proof {
        assert(bytes_read@.subrange(0, (n - 1) as int) =~= bytes_read@.drop_last());
    }
    let expected = ((0x100 - acc) % 0x100) as u8;
    expected == checksum && n as u64 == message_length as u64
}

/// Read one byte.
pub fn read_byte(it: &mut MessageIterator) -> (r: Option<u8>)
    ensures
        final(it).input == old(it).input,
        r is Some <==> old(it).pos < old(it).input@.len(),
        r matches Some(b) ==> b == old(it).input@[old(it).pos as int]
            && final(it).pos == old(it).pos + 1,
        r is None ==> final(it).pos == old(it).pos,
{
    if it.pos < it.input.len() {
        let b = it.input[it.pos];
        it.pos = it.pos + 1;
        Some(b)
    } else {
        None
    }
}

/// Read a big-endian 32-bit number.
pub fn read_u32(it: &mut MessageIterator) -> (r: Option<u32>)
    ensures
        final(it).input == old(it).input,
        r is Some <==> old(it).pos + 4 <= old(it).input@.len(),
        r matches Some(v) ==> v == be32_at(old(it).input@, old(it).pos as int)
            && final(it).pos == old(it).pos + 4,
        r is None ==> final(it).pos == old(it).pos,
{
    if it.pos > it.input.len() || it.input.len() - it.pos < 4 {
        return None;
    }
    let p = it.pos;
    let v: u32 = (it.input[p] as u32) * 0x100_0000 + (it.input[p + 1] as u32) * 0x1_0000
        + (it.input[p + 2] as u32) * 0x100 + (it.input[p + 3] as u32);
    it.pos = p + 4;
    Some(v)
}

/// Read a length-prefixed string; it must be valid text.
pub fn read_string(it: &mut MessageIterator) -> (r: Option<String>)
    ensures
        final(it).input == old(it).input,
        ({
            let s = old(it).input@;
            let p = old(it).pos as int;
            &&& r matches Some(v) ==> p + 4 <= s.len() && p_str_end(s, p) <= s.len()
                && valid_utf8(p_str_bytes(s, p)) && v@ == decode_utf8(p_str_bytes(s, p))
                && final(it).pos == p_str_end(s, p)
            &&& r is None ==> final(it).pos == old(it).pos
                && (p + 4 > s.len() || p_str_end(s, p) > s.len()
                    || !valid_utf8(p_str_bytes(s, p)))
        }),
{
    let saved = it.pos;
    let len = match read_u32(it) {
        Some(v) => v,
        None => {
            return None;
        },
    };
    if len as u64 > (it.input.len() - it.pos) as u64 {
        it.pos = saved;
        return None;
    }
    let start = it.pos;
    let count = len as usize;
    let mut bytes: Vec<u8> = Vec::new();
    let mut j: usize = 0;
    while j < count
        invariant
            j <= count,
            start + count <= it.input@.len(),
            start + count <= usize::MAX,
            bytes@ == it.input@.subrange(start as int, (start + j) as int),
            start == saved + 4,
            saved + 4 <= it.input@.len(),
            count == be32_at(it.input@, saved as int),
            it.pos == start,
        decreases count - j,
    {
        proof {
            assert(it.input@.subrange(start as int, (start + j + 1) as int)
                =~= it.input@.subrange(start as int, (start + j) as int)
                    .push(it.input@[(start + j) as int]));
        }
        let b = it.input[start + j];
        bytes.push(b);
        j = j + 1;
    }
    proof {
        assert(bytes@ =~= p_str_bytes(it.input@, saved as int));
    }
    match bytes_to_string(bytes) {
        Some(v) => {
            it.pos = start + count;
            Some(v)
        },
        None => {
            it.pos = saved;
            None
        },
    }
}

/// Read a counted list of target-population records.
pub fn read_target_populations(it: &mut MessageIterator) -> (r: Option<Vec<TargetPopulation>>)
    ensures
        final(it).input == old(it).input,
        ({
            let s = old(it).input@;
            let p = old(it).pos as int;
            &&& r is None ==> !(p + 4 <= s.len() && tp_records_ok(s, p + 4, be32_at(s, p) as nat))
            &&& r matches Some(v) ==> p + 4 <= s.len() && v@.len() == be32_at(s, p)
                && p + 4 <= final(it).pos <= s.len()
                && final(it).pos == tp_off(s, p + 4, be32_at(s, p) as nat)
                && tp_records_ok(s, p + 4, be32_at(s, p) as nat)
                && (forall|k: int| 0 <= k < v@.len()
                    ==> str_field_ok(s, #[trigger] tp_off(s, p + 4, k as nat))
                        && v@[k].species@ == decode_utf8(
                            p_str_bytes(s, tp_off(s, p + 4, k as nat)))
                        && v@[k].min == be32_at(s, p_str_end(s, tp_off(s, p + 4, k as nat)))
                        && v@[k].max == be32_at(s, p_str_end(s, tp_off(s, p + 4, k as nat)) + 4))
        }),
{
    let ghost s = it.input@;
    let ghost p0 = it.pos as int;
    let count = match read_u32(it) {
        Some(v) => v,
        None => {
            return None;
        },
    };
    let mut out: Vec<TargetPopulation> = Vec::new();
    let mut k: u32 = 0;
    while k < count
        invariant
            k <= count,
            it.input == old(it).input,
            s == old(it).input@,
            p0 == old(it).pos as int,
            it.input@ == s,
            out@.len() == k,
            it.pos == tp_off(s, p0 + 4, k as nat),
            p0 + 4 <= it.pos <= s.len(),
            tp_records_ok(s, p0 + 4, count as nat)
                ==> tp_records_ok(s, it.pos as int, (count - k) as nat),
            p0 + 4 <= s.len(),
            count == be32_at(s, p0),
            forall|j: int| 0 <= j < k
                ==> str_field_ok(s, #[trigger] tp_off(s, p0 + 4, j as nat))
                    && out@[j].species@ == decode_utf8(p_str_bytes(s, tp_off(s, p0 + 4, j as nat)))
                    && out@[j].min == be32_at(s, p_str_end(s, tp_off(s, p0 + 4, j as nat)))
                    && out@[j].max == be32_at(s, p_str_end(s, tp_off(s, p0 + 4, j as nat)) + 4),
        decreases count - k,
    {
        let ghost off = it.pos as int;
        let species = match read_string(it) {
            Some(v) => v,
            None => {
                proof {
                    if tp_records_ok(s, p0 + 4, count as nat) {
                        assert(tp_records_ok(s, off, (count - k) as nat));
                        assert(str_field_ok(s, off));
                        assert(false);
                    }
                }
                return None;
            },
        };
        let min = match read_u32(it) {
            Some(v) => v,
            None => {
                proof {
                    if tp_records_ok(s, p0 + 4, count as nat) {
                        assert(tp_records_ok(s, off, (count - k) as nat));
                        assert(p_str_end(s, off) + 8 <= s.len());
                        assert(false);
                    }
                }
                return None;
            },
        };
        let max = match read_u32(it) {
            Some(v) => v,
            None => {
                proof {
                    if tp_records_ok(s, p0 + 4, count as nat) {
                        assert(tp_records_ok(s, off, (count - k) as nat));
                        assert(p_str_end(s, off) + 8 <= s.len());
                        assert(false);
                    }
                }
                return None;
            },
        };
        proof {
            lemma_tp_off_step(s, p0 + 4, k as nat);
        }
        out.push(TargetPopulation { species, min, max });
        k = k + 1;
    }
    proof {
        lemma_tp_records_from_fields(s, p0 + 4, count as nat);
    }
    Some(out)
}

/// Read a counted list of visit-population records.
pub fn read_visit_populations(it: &mut MessageIterator) -> (r: Option<Vec<VisitPopulation>>)
    ensures
        final(it).input == old(it).input,
        ({
            let s = old(it).input@;
            let p = old(it).pos as int;
            &&& r is None ==> !(p + 4 <= s.len() && vp_records_ok(s, p + 4, be32_at(s, p) as nat))
            &&& r matches Some(v) ==> p + 4 <= s.len() && v@.len() == be32_at(s, p)
                && p + 4 <= final(it).pos <= s.len()
                && final(it).pos == vp_off(s, p + 4, be32_at(s, p) as nat)
                && vp_records_ok(s, p + 4, be32_at(s, p) as nat)
                && (forall|k: int| 0 <= k < v@.len()
                    ==> str_field_ok(s, #[trigger] vp_off(s, p + 4, k as nat))
                        && v@[k].species@ == decode_utf8(
                            p_str_bytes(s, vp_off(s, p + 4, k as nat)))
                        && v@[k].count == be32_at(s, p_str_end(s, vp_off(s, p + 4, k as nat))))
        }),
{
    let ghost s = it.input@;
    let ghost p0 = it.pos as int;
    let count = match read_u32(it) {
        Some(v) => v,
        None => {
            return None;
        },
    };
    let mut out: Vec<VisitPopulation> = Vec::new();
    let mut k: u32 = 0;
    while k < count
        invariant
            k <= count,
            it.input == old(it).input,
            s == old(it).input@,
            p0 == old(it).pos as int,
            it.input@ == s,
            out@.len() == k,
            it.pos == vp_off(s, p0 + 4, k as nat),
            p0 + 4 <= it.pos <= s.len(),
            vp_records_ok(s, p0 + 4, count as nat)
                ==> vp_records_ok(s, it.pos as int, (count - k) as nat),
            p0 + 4 <= s.len(),
            count == be32_at(s, p0),
            forall|j: int| 0 <= j < k
                ==> str_field_ok(s, #[trigger] vp_off(s, p0 + 4, j as nat))
                    && out@[j].species@ == decode_utf8(p_str_bytes(s, vp_off(s, p0 + 4, j as nat)))
                    && out@[j].count == be32_at(s, p_str_end(s, vp_off(s, p0 + 4, j as nat))),
        decreases count - k,
    {
        let ghost off = it.pos as int;
        let species = match read_string(it) {
            Some(v) => v,
            None => {
                proof {
                    if vp_records_ok(s, p0 + 4, count as nat) {
                        assert(vp_records_ok(s, off, (count - k) as nat));
                        assert(str_field_ok(s, off));
                        assert(false);
                    }
                }
                return None;
            },
        };
        let population_count = match read_u32(it) {
            Some(v) => v,
            None => {
                proof {
                    if vp_records_ok(s, p0 + 4, count as nat) {
                        assert(vp_records_ok(s, off, (count - k) as nat));
                        assert(p_str_end(s, off) + 4 <= s.len());
                        assert(false);
                    }
                }
                return None;
            },
        };
        proof {
            lemma_vp_off_step(s, p0 + 4, k as nat);
            assert(off == vp_off(s, p0 + 4, k as nat));
            assert(species@ == decode_utf8(p_str_bytes(s, off)));
            assert(population_count == be32_at(s, p_str_end(s, off)));
            assert(it.pos == vp_off(s, p0 + 4, (k + 1) as nat));
        }
        out.push(VisitPopulation { species, count: population_count });
        k = k + 1;
    }
    proof {
        lemma_vp_records_from_fields(s, p0 + 4, count as nat);
    }
    Some(out)
}

/// A length-prefixed string field is whole and holds valid text.
pub open spec fn str_field_ok(s: Seq<u8>, i: int) -> bool {
    &&& i + 4 <= s.len()
    &&& p_str_end(s, i) <= s.len()
    &&& valid_utf8(p_str_bytes(s, i))
}

/// `k` target-population records starting at `i` are whole, each a sound
/// string and two numbers.
pub open spec fn tp_records_ok(s: Seq<u8>, i: int, k: nat) -> bool
    decreases k,
{
    if k == 0 {
        true
    } else {
        &&& str_field_ok(s, i)
        &&& p_str_end(s, i) + 8 <= s.len()
        &&& tp_records_ok(s, p_str_end(s, i) + 8, (k - 1) as nat)
    }
}

/// `k` visit-population records starting at `i` are whole, each a sound
/// string and one number.
pub open spec fn vp_records_ok(s: Seq<u8>, i: int, k: nat) -> bool
    decreases k,
{
    if k == 0 {
        true
    } else {
        &&& str_field_ok(s, i)
        &&& p_str_end(s, i) + 4 <= s.len()
        &&& vp_records_ok(s, p_str_end(s, i) + 4, (k - 1) as nat)
    }
}

/// Index just past each kind of record whose tag sits at `p`.
pub open spec fn hello_end(s: Seq<u8>, p: int) -> int {
    p_str_end(s, p + 5) + 5
}

pub open spec fn error_end(s: Seq<u8>, p: int) -> int {
    p_str_end(s, p + 5) + 1
}

pub open spec fn okay_end(p: int) -> int {
    p + 6
}

pub open spec fn policy_end(p: int) -> int {
    p + 10
}

pub open spec fn tp_end(s: Seq<u8>, p: int) -> int {
    tp_off(s, p + 13, be32_at(s, p + 9) as nat) + 1
}

pub open spec fn vp_end(s: Seq<u8>, p: int) -> int {
    vp_off(s, p + 13, be32_at(s, p + 9) as nat) + 1
}

/// The whole record whose tag sits at `p` is in the buffer, its strings
/// sound.
pub open spec fn hello_complete(s: Seq<u8>, p: int) -> bool {
    str_field_ok(s, p + 5) && hello_end(s, p) <= s.len()
}

pub open spec fn error_complete(s: Seq<u8>, p: int) -> bool {
    str_field_ok(s, p + 5) && error_end(s, p) <= s.len()
}

pub open spec fn okay_complete(s: Seq<u8>, p: int) -> bool {
    okay_end(p) <= s.len()
}

pub open spec fn policy_complete(s: Seq<u8>, p: int) -> bool {
    policy_end(p) <= s.len()
}

pub open spec fn tp_complete(s: Seq<u8>, p: int) -> bool {
    &&& p + 13 <= s.len()
    &&& tp_records_ok(s, p + 13, be32_at(s, p + 9) as nat)
    &&& tp_end(s, p) <= s.len()
}

pub open spec fn vp_complete(s: Seq<u8>, p: int) -> bool {
    &&& p + 13 <= s.len()
    &&& vp_records_ok(s, p + 13, be32_at(s, p + 9) as nat)
    &&& vp_end(s, p) <= s.len()
}

/// Why a record failed to decode: an empty read, or a record whose length
/// or checksum does not hold together.
#[derive(Clone, Copy, PartialEq, Eq, Structural, Debug)]
pub enum PestReadError {
    UnexpectedEof,
    InvalidData,
}

/// Bytes of `v` from `start` up to `end`.
fn copy_region(v: &Vec<u8>, start: usize, end: usize) -> (r: Vec<u8>)
    requires
        start <= end <= v@.len(),
    ensures
        r@ == v@.subrange(start as int, end as int),
{
    let mut out: Vec<u8> = Vec::new();
    proof {
        assert(v@.subrange(start as int, start as int) =~= Seq::<u8>::empty());
    }
    let mut i: usize = start;
    while i < end
        invariant
            start <= i <= end <= v@.len(),
            out@ == v@.subrange(start as int, i as int),
        decreases end - i,
    {
        proof {
            assert(v@.subrange(start as int, (i + 1) as int)
                =~= v@.subrange(start as int, i as int).push(v@[i as int]));
        }
        let b = v[i];
        out.push(b);
        i = i + 1;
    }
    out
}

/// The validation every accepted record passed: its length field counts
/// the whole record, and its trailing checksum complements the byte sum.
pub open spec fn framed_ok(s: Seq<u8>, p: int, end: int) -> bool {
    &&& end - p == be32_at(s, p + 1)
    &&& s[end - 1] == (0x100 - sum_bytes(s.subrange(p, end - 1)) % 0x100) % 0x100
}

impl MessageIterator {
    /// Decode the record at the cursor.  An exhausted buffer reads as end
    /// of input; a record the buffer cuts short yields nothing and moves
    /// nothing; a record whose frame does not validate, or whose tag is
    /// unknown, is malformed.
    pub fn next(&mut self) -> (r: Option<Result<Message, PestReadError>>)
        ensures
            final(self).input == old(self).input,
            ({
                let s = old(self).input@;
                let p = old(self).pos as int;
                &&& p >= s.len() ==> r == Some(
                    Result::<Message, PestReadError>::Err(PestReadError::UnexpectedEof),
                ) && final(self).pos == old(self).pos
                &&& r is None ==> final(self).pos == old(self).pos
                &&& (r matches Some(Ok(m)) ==> framed_ok(s, p, final(self).pos as int)
                    && p < final(self).pos <= s.len())
                &&& p < s.len() && s[p] == 0x50 ==> {
                    &&& !hello_complete(s, p) ==> r is None
                    &&& hello_complete(s, p) ==> final(self).pos == hello_end(s, p)
                        && (framed_ok(s, p, hello_end(s, p)) ==> (r matches Some(Ok(m))
                            && m matches Message::Hello(h)
                            && h.protocol@ == decode_utf8(p_str_bytes(s, p + 5))
                            && h.version == be32_at(s, p_str_end(s, p + 5))))
                        && (!framed_ok(s, p, hello_end(s, p)) ==> r == Some(
                            Result::<Message, PestReadError>::Err(PestReadError::InvalidData),
                        ))
                }
                &&& p < s.len() && s[p] == 0x51 ==> {
                    &&& !error_complete(s, p) ==> r is None
                    &&& error_complete(s, p) ==> final(self).pos == error_end(s, p)
                        && (framed_ok(s, p, error_end(s, p)) ==> (r matches Some(Ok(m))
                            && m matches Message::PestControlError(e)
                            && e.message@ == decode_utf8(p_str_bytes(s, p + 5))))
                        && (!framed_ok(s, p, error_end(s, p)) ==> r == Some(
                            Result::<Message, PestReadError>::Err(PestReadError::InvalidData),
                        ))
                }
                &&& p < s.len() && s[p] == 0x52 ==> {
                    &&& !okay_complete(s, p) ==> r is None
                    &&& okay_complete(s, p) ==> final(self).pos == okay_end(p)
                        && (framed_ok(s, p, okay_end(p)) ==> (r matches Some(Ok(m))
                            && m matches Message::Okay(o)))
                        && (!framed_ok(s, p, okay_end(p)) ==> r == Some(
                            Result::<Message, PestReadError>::Err(PestReadError::InvalidData),
                        ))
                }
                &&& p < s.len() && s[p] == 0x54 ==> {
                    &&& !tp_complete(s, p) ==> r is None
                    &&& tp_complete(s, p) ==> final(self).pos == tp_end(s, p)
                        && (framed_ok(s, p, tp_end(s, p)) ==> (r matches Some(Ok(m))
                            && m matches Message::TargetPopulations(tp)
                            && tp.site == be32_at(s, p + 5)
                            && tp.populations@.len() == be32_at(s, p + 9)
                            && (forall|k: int| 0 <= k < tp.populations@.len()
                                ==> valid_utf8(p_str_bytes(
                                    s, #[trigger] tp_off(s, p + 13, k as nat)))
                                    && tp.populations@[k].species@ == decode_utf8(
                                        p_str_bytes(s, tp_off(s, p + 13, k as nat)))
                                    && tp.populations@[k].min == be32_at(
                                        s, p_str_end(s, tp_off(s, p + 13, k as nat)))
                                    && tp.populations@[k].max == be32_at(
                                        s, p_str_end(s, tp_off(s, p + 13, k as nat)) + 4))))
                        && (!framed_ok(s, p, tp_end(s, p)) ==> r == Some(
                            Result::<Message, PestReadError>::Err(PestReadError::InvalidData),
                        ))
                }
                &&& p < s.len() && s[p] == 0x57 ==> {
                    &&& !policy_complete(s, p) ==> r is None
                    &&& policy_complete(s, p) ==> final(self).pos == policy_end(p)
                        && (framed_ok(s, p, policy_end(p)) ==> (r matches Some(Ok(m))
                            && m matches Message::PolicyResult(pr)
                            && pr.policy == be32_at(s, p + 5)))
                        && (!framed_ok(s, p, policy_end(p)) ==> r == Some(
                            Result::<Message, PestReadError>::Err(PestReadError::InvalidData),
                        ))
                }
                &&& p < s.len() && s[p] == 0x58 ==> {
                    &&& !vp_complete(s, p) ==> r is None
                    &&& vp_complete(s, p) ==> final(self).pos == vp_end(s, p)
                        && (framed_ok(s, p, vp_end(s, p)) ==> (r matches Some(Ok(m))
                            && m matches Message::SiteVisit(sv)
                            && sv.site == be32_at(s, p + 5)
                            && sv.populations@.len() == be32_at(s, p + 9)
                            && (forall|k: int| 0 <= k < sv.populations@.len()
                                ==> valid_utf8(p_str_bytes(
                                    s, #[trigger] vp_off(s, p + 13, k as nat)))
                                    && sv.populations@[k].species@ == decode_utf8(
                                        p_str_bytes(s, vp_off(s, p + 13, k as nat)))
                                    && sv.populations@[k].count == be32_at(
                                        s, p_str_end(s, vp_off(s, p + 13, k as nat))))))
                        && (!framed_ok(s, p, vp_end(s, p)) ==> r == Some(
                            Result::<Message, PestReadError>::Err(PestReadError::InvalidData),
                        ))
                }
                &&& p < s.len() && !(s[p] == 0x50 || s[p] == 0x51 || s[p] == 0x52
                    || s[p] == 0x54 || s[p] == 0x57 || s[p] == 0x58) ==> r == Some(
                    Result::<Message, PestReadError>::Err(PestReadError::InvalidData),
                )
            }),
    {
        let start = self.pos;
        let tag = match read_byte(self) {
            Some(t) => t,
            None => {
                return Some(Err(PestReadError::UnexpectedEof));
            },
        };
        if tag == 0x50 {
            let message_length = match read_u32(self) {
                Some(v) => v,
                None => {
                    self.pos = start;
                    return None;
                },
            };
            let protocol = match read_string(self) {
                Some(v) => v,
                None => {
                    self.pos = start;
                    return None;
                },
            };
            let version = match read_u32(self) {
                Some(v) => v,
                None => {
                    self.pos = start;
                    return None;
                },
            };
            let checksum = match read_byte(self) {
                Some(v) => v,
                None => {
                    self.pos = start;
                    return None;
                },
            };
            let region = copy_region(&self.input, start, self.pos);
            proof {
                assert(region@.drop_last()
                    =~= self.input@.subrange(start as int, self.pos - 1));
            }
            if !is_valid_message(region.as_slice(), message_length, checksum) {
                return Some(Err(PestReadError::InvalidData));
            }
            Some(Ok(Message::Hello(Hello { protocol, version })))
        } else if tag == 0x51 {
            let message_length = match read_u32(self) {
                Some(v) => v,
                None => {
                    self.pos = start;
                    return None;
                },
            };
            let message = match read_string(self) {
                Some(v) => v,
                None => {
                    self.pos = start;
                    return None;
                },
            };
            let checksum = match read_byte(self) {
                Some(v) => v,
                None => {
                    self.pos = start;
                    return None;
                },
            };
            let region = copy_region(&self.input, start, self.pos);
            proof {
                assert(region@.drop_last()
                    =~= self.input@.subrange(start as int, self.pos - 1));
            }
            if !is_valid_message(region.as_slice(), message_length, checksum) {
                return Some(Err(PestReadError::InvalidData));
            }
            Some(Ok(Message::PestControlError(PestControlError { message })))
        } else if tag == 0x52 {
            let message_length = match read_u32(self) {
                Some(v) => v,
                None => {
                    self.pos = start;
                    return None;
                },
            };
            let checksum = match read_byte(self) {
                Some(v) => v,
                None => {
                    self.pos = start;
                    return None;
                },
            };
            let region = copy_region(&self.input, start, self.pos);
            proof {
                assert(region@.drop_last()
                    =~= self.input@.subrange(start as int, self.pos - 1));
            }
            if !is_valid_message(region.as_slice(), message_length, checksum) {
                return Some(Err(PestReadError::InvalidData));
            }
            Some(Ok(Message::Okay(Okay {})))
        } else if tag == 0x54 {
            let message_length = match read_u32(self) {
                Some(v) => v,
                None => {
                    self.pos = start;
                    return None;
                },
            };
            let site = match read_u32(self) {
                Some(v) => v,
                None => {
                    self.pos = start;
                    return None;
                },
            };
            let populations = match read_target_populations(self) {
                Some(v) => v,
                None => {
                    self.pos = start;
                    return None;
                },
            };
            let checksum = match read_byte(self) {
                Some(v) => v,
                None => {
                    self.pos = start;
                    return None;
                },
            };
            let region = copy_region(&self.input, start, self.pos);
            proof {
                assert(region@.drop_last()
                    =~= self.input@.subrange(start as int, self.pos - 1));
            }
            if !is_valid_message(region.as_slice(), message_length, checksum) {
                return Some(Err(PestReadError::InvalidData));
            }
            Some(Ok(Message::TargetPopulations(TargetPopulations { site, populations })))
        } else if tag == 0x57 {
            let message_length = match read_u32(self) {
                Some(v) => v,
                None => {
                    self.pos = start;
                    return None;
                },
            };
            let policy = match read_u32(self) {
                Some(v) => v,
                None => {
                    self.pos = start;
                    return None;
                },
            };
            let checksum = match read_byte(self) {
                Some(v) => v,
                None => {
                    self.pos = start;
                    return None;
                },
            };
            let region = copy_region(&self.input, start, self.pos);
            proof {
                assert(region@.drop_last()
                    =~= self.input@.subrange(start as int, self.pos - 1));
            }
            if !is_valid_message(region.as_slice(), message_length, checksum) {
                return Some(Err(PestReadError::InvalidData));
            }
            Some(Ok(Message::PolicyResult(PolicyResult { policy })))
        } else if tag == 0x58 {
            let message_length = match read_u32(self) {
                Some(v) => v,
                None => {
                    self.pos = start;
                    return None;
                },
            };
            let site = match read_u32(self) {
                Some(v) => v,
                None => {
                    self.pos = start;
                    return None;
                },
            };
            let populations = match read_visit_populations(self) {
                Some(v) => v,
                None => {
                    self.pos = start;
                    return None;
                },
            };
            let checksum = match read_byte(self) {
                Some(v) => v,
                None => {
                    self.pos = start;
                    return None;
                },
            };
            let region = copy_region(&self.input, start, self.pos);
            proof {
                assert(region@.drop_last()
                    =~= self.input@.subrange(start as int, self.pos - 1));
            }
            if !is_valid_message(region.as_slice(), message_length, checksum) {
                return Some(Err(PestReadError::InvalidData));
            }
            Some(Ok(Message::SiteVisit(SiteVisit { site, populations })))
        } else {
            Some(Err(PestReadError::InvalidData))
        }
    }
}

/// Begin decoding records from a buffer.
pub fn consume_messages(input: Vec<u8>) -> (r: MessageIterator)
    ensures
        r.input == input,
        r.pos == 0,
{
    MessageIterator { input, pos: 0 }
}

/// Record offsets only move forward.
proof fn lemma_tp_off_ge(s: Seq<u8>, i: int, k: nat)
    ensures
        tp_off(s, i, k) >= i,
    decreases k,
{
    if k > 0 {
        lemma_tp_off_ge(s, p_str_end(s, i) + 8, (k - 1) as nat);
    }
}

/// Record offsets only move forward.
proof fn lemma_vp_off_ge(s: Seq<u8>, i: int, k: nat)
    ensures
        vp_off(s, i, k) >= i,
    decreases k,
{
    if k > 0 {
        lemma_vp_off_ge(s, p_str_end(s, i) + 4, (k - 1) as nat);
    }
}

/// Sound fields at every record offset, ending inside the buffer, make the
/// whole run of records whole.
proof fn lemma_tp_records_from_fields(s: Seq<u8>, base: int, count: nat)
    requires
        forall|k: int| 0 <= k < count ==> str_field_ok(s, #[trigger] tp_off(s, base, k as nat)),
        tp_off(s, base, count) <= s.len(),
    ensures
        tp_records_ok(s, base, count),
    decreases count,
{
    if count > 0 {
        let base2 = p_str_end(s, base) + 8;
        let k0: int = 0;
        assert(tp_off(s, base, k0 as nat) == base);
        assert(str_field_ok(s, tp_off(s, base, k0 as nat)));
        assert(str_field_ok(s, base));
        assert(tp_off(s, base, count) == tp_off(s, base2, (count - 1) as nat));
        lemma_tp_off_ge(s, base2, (count - 1) as nat);
        assert forall|k: int| 0 <= k < count - 1
            implies str_field_ok(s, #[trigger] tp_off(s, base2, k as nat)) by {
            assert(tp_off(s, base, (k + 1) as nat) == tp_off(s, base2, k as nat));
            assert(str_field_ok(s, tp_off(s, base, (k + 1) as nat)));
        }
        lemma_tp_records_from_fields(s, base2, (count - 1) as nat);
    }
}

/// Sound fields at every record offset, ending inside the buffer, make the
/// whole run of records whole.
proof fn lemma_vp_records_from_fields(s: Seq<u8>, base: int, count: nat)
    requires
        forall|k: int| 0 <= k < count ==> str_field_ok(s, #[trigger] vp_off(s, base, k as nat)),
        vp_off(s, base, count) <= s.len(),
    ensures
        vp_records_ok(s, base, count),
    decreases count,
{
    if count > 0 {
        let base2 = p_str_end(s, base) + 4;
        let k0: int = 0;
        assert(vp_off(s, base, k0 as nat) == base);
        assert(str_field_ok(s, vp_off(s, base, k0 as nat)));
        assert(str_field_ok(s, base));
        assert(vp_off(s, base, count) == vp_off(s, base2, (count - 1) as nat));
        lemma_vp_off_ge(s, base2, (count - 1) as nat);
        assert forall|k: int| 0 <= k < count - 1
            implies str_field_ok(s, #[trigger] vp_off(s, base2, k as nat)) by {
            assert(vp_off(s, base, (k + 1) as nat) == vp_off(s, base2, k as nat));
            assert(str_field_ok(s, vp_off(s, base, (k + 1) as nat)));
        }
        lemma_vp_records_from_fields(s, base2, (count - 1) as nat);
    }
}

/// Walking one more record moves the offset past a string and eight bytes.
proof fn lemma_tp_off_step(s: Seq<u8>, i: int, k: nat)
    ensures
        tp_off(s, i, k + 1) == p_str_end(s, tp_off(s, i, k)) + 8,
    decreases k,
{
    if k == 0 {
        assert(tp_off(s, i, 0) == i);
        assert(tp_off(s, p_str_end(s, i) + 8, 0) == p_str_end(s, i) + 8);
        assert(tp_off(s, i, 1) == tp_off(s, p_str_end(s, i) + 8, 0));
    } else {
        lemma_tp_off_step(s, p_str_end(s, i) + 8, (k - 1) as nat);
        assert(tp_off(s, i, k + 1) == tp_off(s, p_str_end(s, i) + 8, k));
        assert(tp_off(s, i, k) == tp_off(s, p_str_end(s, i) + 8, (k - 1) as nat));
    }
}

/// Walking one more record moves the offset past a string and four bytes.
proof fn lemma_vp_off_step(s: Seq<u8>, i: int, k: nat)
    ensures
        vp_off(s, i, k + 1) == p_str_end(s, vp_off(s, i, k)) + 4,
    decreases k,
{
    if k == 0 {
        assert(vp_off(s, i, 0) == i);
        assert(vp_off(s, p_str_end(s, i) + 4, 0) == p_str_end(s, i) + 4);
        assert(vp_off(s, i, 1) == vp_off(s, p_str_end(s, i) + 4, 0));
    } else {
        lemma_vp_off_step(s, p_str_end(s, i) + 4, (k - 1) as nat);
        assert(vp_off(s, i, k + 1) == vp_off(s, p_str_end(s, i) + 4, k));
        assert(vp_off(s, i, k) == vp_off(s, p_str_end(s, i) + 4, (k - 1) as nat));
    }
}

} // verus!
