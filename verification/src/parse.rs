//! Wire codec of the reliable datagram transport.
//!
//! Messages travel as ASCII text: fields separated by `/`, with a leading
//! and a trailing `/`.  Numeric fields are canonical decimals in the 31-bit
//! range; the payload of a data message is escaped, `\` as `\\` and `/` as
//! `\/`.  `parse_message` and `encode_message` are exact inverses, which
//! `lemma_parse_encode` states and proves.

use vstd::prelude::*;

verus! {

/// Byte value of `/`, the field separator.
pub const SLASH: u8 = 0x2F;

/// Byte value of `\`, the escape lead-in.
pub const BACKSLASH: u8 = 0x5C;

/// A decoded transport message.
#[derive(Clone, PartialEq, Debug)]
pub enum LcrpMessage {
    Ack { session_id: i32, len: i32 },
    Close { session_id: i32 },
    Connect { session_id: i32 },
    Data { session_id: i32, pos: i32, data: Vec<u8> },
}

/// Mathematical form of a message: unbounded integers and byte sequences.
pub enum MessageV {
    Ack { session_id: int, len: int },
    Close { session_id: int },
    Connect { session_id: int },
    Data { session_id: int, pos: int, data: Seq<u8> },
}

impl View for LcrpMessage {
    type V = MessageV;

    open spec fn view(&self) -> MessageV {
        match self {
            LcrpMessage::Ack { session_id, len } => MessageV::Ack {
                session_id: *session_id as int,
                len: *len as int,
            },
            LcrpMessage::Close { session_id } => MessageV::Close {
                session_id: *session_id as int,
            },
            LcrpMessage::Connect { session_id } => MessageV::Connect {
                session_id: *session_id as int,
            },
            LcrpMessage::Data { session_id, pos, data } => MessageV::Data {
                session_id: *session_id as int,
                pos: *pos as int,
                data: data@,
            },
        }
    }
}

/// Why a datagram failed to decode: an empty datagram is an end-of-input
/// signal, a non-empty malformed one is dropped silently.
#[derive(Clone, Copy, PartialEq, Eq, Structural, Debug)]
pub enum DecodeError {
    Empty,
    Invalid,
}

/// A numeric wire field holds a non-negative integer below 2^31.
pub open spec fn in_range(v: int) -> bool {
    0 <= v <= 0x7FFF_FFFF
}

/// Every numeric field of the message lies in the 31-bit range.
pub open spec fn valid_msg(m: MessageV) -> bool {
    match m {
        MessageV::Ack { session_id, len } => in_range(session_id) && in_range(len),
        MessageV::Close { session_id } => in_range(session_id),
        MessageV::Connect { session_id } => in_range(session_id),
        MessageV::Data { session_id, pos, data: _ } => in_range(session_id) && in_range(pos),
    }
}

// ---------------------------------------------------------------------------
// Decimal fields
// ---------------------------------------------------------------------------

/// ASCII digit.
pub open spec fn is_digit(c: u8) -> bool {
    0x30 <= c <= 0x39
}

/// Canonical decimal spelling of `n`: no sign, no leading zero.
pub open spec fn dec_rep(n: int) -> Seq<u8>
    recommends
        n >= 0,
    decreases n,
{
    if n <= 9 {
        seq![(0x30 + n) as u8]
    } else {
        dec_rep(n / 10).push((0x30 + n % 10) as u8)
    }
}

/// Value of a digit string, most significant digit first.
pub open spec fn dec_value(s: Seq<u8>) -> int
    decreases s.len(),
{
    if s.len() == 0 {
        0
    } else {
        dec_value(s.drop_last()) * 10 + (s.last() - 0x30)
    }
}

pub open spec fn all_digits(s: Seq<u8>) -> bool {
    forall|i: int| 0 <= i < s.len() ==> is_digit(#[trigger] s[i])
}

/// The digit strings that the wire format accepts: non-empty, digits only,
/// and a leading zero only for the single digit `0`.
pub open spec fn is_canonical_dec(s: Seq<u8>) -> bool {
    &&& s.len() > 0
    &&& all_digits(s)
    &&& (s[0] == 0x30 ==> s.len() == 1)
}

/// A digit string is worth at least 0, and at least 1 when its first digit
/// is not `0`.
proof fn lemma_dec_value_lower(s: Seq<u8>)
    requires
        all_digits(s),
    ensures
        dec_value(s) >= 0,
        s.len() > 0 && s[0] != 0x30 ==> dec_value(s) >= 1,
    decreases s.len(),
{
    if s.len() > 0 {
        assert(all_digits(s.drop_last())) by {
            assert(forall|i: int| 0 <= i < s.len() - 1 ==> is_digit(#[trigger] s.drop_last()[i]));
        }
        lemma_dec_value_lower(s.drop_last());
    }
}

/// Extending a digit string on the right can only grow its value.
proof fn lemma_dec_value_prefix(s: Seq<u8>, k: int)
    requires
        all_digits(s),
        0 <= k <= s.len(),
    ensures
        dec_value(s) >= dec_value(s.subrange(0, k)),
    decreases s.len() - k,
{
    lemma_dec_value_lower(s);
    if k < s.len() {
        assert(all_digits(s.drop_last())) by {
            assert(forall|i: int| 0 <= i < s.len() - 1 ==> is_digit(#[trigger] s.drop_last()[i]));
        }
        lemma_dec_value_prefix(s.drop_last(), k);
        assert(s.drop_last().subrange(0, k) =~= s.subrange(0, k));
        lemma_dec_value_lower(s.drop_last());
    } else {
        assert(s.subrange(0, k) =~= s);
    }
}

/// The canonical spelling really is canonical, and spells its value.
proof fn lemma_dec_rep_ok(n: int)
    requires
        n >= 0,
    ensures
        is_canonical_dec(dec_rep(n)),
        dec_value(dec_rep(n)) == n,
    decreases n,
{
    if n <= 9 {
        let s = dec_rep(n);
        assert(s.len() == 1);
        assert(s[0] == (0x30 + n) as u8);
        assert(s.last() == s[0]);
        assert(s.drop_last() =~= Seq::<u8>::empty());
        assert(dec_value(Seq::<u8>::empty()) == 0);
    } else {
        lemma_dec_rep_ok(n / 10);
        let p = dec_rep(n / 10);
        let s = dec_rep(n);
        assert(s == p.push((0x30 + n % 10) as u8));
        assert(s.drop_last() =~= p);
        assert(s.last() == (0x30 + n % 10) as u8);
        assert(all_digits(s)) by {
            assert(forall|i: int| 0 <= i < s.len() - 1 ==> s[i] == p[i]);
        }
        // the leading digit of a value of ten or more is never zero
        assert(n / 10 >= 1);
        lemma_dec_value_lower(p);
        if p[0] == 0x30 {
            assert(p.len() == 1);
            assert(p.drop_last() =~= Seq::<u8>::empty());
            assert(p.last() == p[0]);
            assert(dec_value(Seq::<u8>::empty()) == 0);
            assert(dec_value(p) == p[0] - 0x30);
            assert(false);
        }
        assert(dec_value(s) == dec_value(p) * 10 + (n % 10));
        vstd::arithmetic::div_mod::lemma_fundamental_div_mod(n, 10);
    }
}

/// Every canonical digit string is the spelling of its own value.
proof fn lemma_canonical_is_rep(s: Seq<u8>)
    requires
        is_canonical_dec(s),
    ensures
        dec_value(s) >= 0,
        dec_rep(dec_value(s)) == s,
    decreases s.len(),
{
    lemma_dec_value_lower(s);
    if s.len() == 1 {
        assert(s.drop_last() =~= Seq::<u8>::empty());
        assert(s.last() == s[0]);
        assert(dec_value(Seq::<u8>::empty()) == 0);
        assert(dec_value(s) == s[0] - 0x30);
        assert(dec_rep(dec_value(s)) =~= s);
    } else {
        let p = s.drop_last();
        assert(all_digits(p)) by {
            assert(forall|i: int| 0 <= i < s.len() - 1 ==> is_digit(#[trigger] p[i]));
        }
        assert(p[0] == s[0]);
        assert(is_canonical_dec(p));
        lemma_canonical_is_rep(p);
        lemma_dec_value_lower(p);
        // the first digit is not zero, so the prefix is worth at least one
        assert(s[0] != 0x30);
        let v = dec_value(s);
        let d = s.last() - 0x30;
        assert(v == dec_value(p) * 10 + d);
        assert(dec_value(p) >= 1);
        assert(v >= 10);
        vstd::arithmetic::div_mod::lemma_fundamental_div_mod_converse(v, 10, dec_value(p), d);
        assert(v / 10 == dec_value(p));
        assert(v % 10 == d);
        assert(dec_rep(v) == dec_rep(dec_value(p)).push((0x30 + v % 10) as u8));
        assert(dec_rep(v) =~= s);
    }
}

/// Digits are never the field separator.
proof fn lemma_digits_no_slash(s: Seq<u8>)
    requires
        all_digits(s),
    ensures
        forall|i: int| 0 <= i < s.len() ==> s[i] != SLASH,
{
}

// ---------------------------------------------------------------------------
// Payload escaping
// ---------------------------------------------------------------------------

/// Wire spelling of one payload byte.
pub open spec fn esc1(c: u8) -> Seq<u8> {
    if c == BACKSLASH {
        seq![BACKSLASH, BACKSLASH]
    } else if c == SLASH {
        seq![BACKSLASH, SLASH]
    } else {
        seq![c]
    }
}

/// Escaped form of a payload: `\` and `/` each get a `\` lead-in.
pub open spec fn escape_bytes(s: Seq<u8>) -> Seq<u8>
    decreases s.len(),
{
    if s.len() == 0 {
        Seq::empty()
    } else {
        escape_bytes(s.drop_last()) + esc1(s.last())
    }
}

/// A well-escaped field: every `\` leads a pair, and `/` occurs only as the
/// second byte of one.
pub open spec fn well_escaped(s: Seq<u8>) -> bool
    decreases s.len(),
{
    if s.len() == 0 {
        true
    } else if s[0] == BACKSLASH {
        s.len() >= 2 && (s[1] == BACKSLASH || s[1] == SLASH) && well_escaped(s.skip(2))
    } else {
        s[0] != SLASH && well_escaped(s.skip(1))
    }
}

/// Left-to-right unescaping: the byte after a `\` is taken literally.
pub open spec fn unescape_bytes(s: Seq<u8>) -> Seq<u8>
    decreases s.len(),
{
    if s.len() == 0 {
        Seq::empty()
    } else if s[0] == BACKSLASH && s.len() >= 2 {
        seq![s[1]] + unescape_bytes(s.skip(2))
    } else {
        seq![s[0]] + unescape_bytes(s.skip(1))
    }
}

/// Escaping distributes over concatenation.
proof fn lemma_escape_concat(a: Seq<u8>, b: Seq<u8>)
    ensures
        escape_bytes(a + b) == escape_bytes(a) + escape_bytes(b),
    decreases b.len(),
{
    if b.len() == 0 {
        assert(a + b =~= a);
        assert(escape_bytes(a) + escape_bytes(b) =~= escape_bytes(a));
    } else {
        lemma_escape_concat(a, b.drop_last());
        assert((a + b).drop_last() =~= a + b.drop_last());
        assert((a + b).last() == b.last());
        assert(escape_bytes(a) + escape_bytes(b.drop_last()) + esc1(b.last())
            =~= escape_bytes(a) + (escape_bytes(b.drop_last()) + esc1(b.last())));
    }
}

/// Escaping then unescaping gives the payload back, and the escaped form is
/// well formed.
pub proof fn lemma_escape_unescape(p: Seq<u8>)
    ensures
        well_escaped(escape_bytes(p)),
        unescape_bytes(escape_bytes(p)) == p,
    decreases p.len(),
{
    if p.len() == 0 {
    } else {
        let head = seq![p[0]];
        let tail = p.skip(1);
        assert(p =~= head + tail);
        lemma_escape_concat(head, tail);
        lemma_escape_unescape(tail);
        assert(head.drop_last() =~= Seq::<u8>::empty());
        assert(head.last() == p[0]);
        assert(escape_bytes(Seq::<u8>::empty()) =~= Seq::<u8>::empty());
        assert(escape_bytes(head) =~= esc1(p[0]));
        let e = escape_bytes(p);
        assert(p == head + tail);
        assert(e == escape_bytes(head) + escape_bytes(tail));
        assert(e == esc1(p[0]) + escape_bytes(tail));
        if p[0] == BACKSLASH {
            assert(e[0] == BACKSLASH && e[1] == BACKSLASH);
            assert(e.skip(2) =~= escape_bytes(tail));
            assert(seq![e[1]] + unescape_bytes(e.skip(2)) =~= p);
        } else if p[0] == SLASH {
            assert(e[0] == BACKSLASH && e[1] == SLASH);
            assert(e.skip(2) =~= escape_bytes(tail));
            assert(seq![e[1]] + unescape_bytes(e.skip(2)) =~= p);
        } else {
            assert(e[0] == p[0]);
            assert(e.skip(1) =~= escape_bytes(tail));
            assert(seq![e[0]] + unescape_bytes(e.skip(1)) =~= p);
        }
    }
}

// ---------------------------------------------------------------------------
// The wire grammar
// ---------------------------------------------------------------------------

pub open spec fn kw_connect() -> Seq<u8> {
    seq![0x63u8, 0x6Fu8, 0x6Eu8, 0x6Eu8, 0x65u8, 0x63u8, 0x74u8]
}

pub open spec fn kw_data() -> Seq<u8> {
    seq![0x64u8, 0x61u8, 0x74u8, 0x61u8]
}

pub open spec fn kw_ack() -> Seq<u8> {
    seq![0x61u8, 0x63u8, 0x6Bu8]
}

pub open spec fn kw_close() -> Seq<u8> {
    seq![0x63u8, 0x6Cu8, 0x6Fu8, 0x73u8, 0x65u8]
}

/// Index of the first separator at or after `i`, or -1 when there is none.
pub open spec fn first_slash_from(s: Seq<u8>, i: int) -> int
    recommends
        0 <= i <= s.len(),
    decreases s.len() - i,
{
    if i < 0 || i >= s.len() {
        -1
    } else if s[i] == SLASH {
        i
    } else {
        first_slash_from(s, i + 1)
    }
}

/// A numeric field accepted by the wire format, with its value.
pub open spec fn num_field(s: Seq<u8>) -> Option<int> {
    if is_canonical_dec(s) && dec_value(s) <= 0x7FFF_FFFF {
        Some(dec_value(s))
    } else {
        None
    }
}

/// The message a datagram decodes to, or `None` when it is malformed.
pub open spec fn spec_parse(s: Seq<u8>) -> Option<MessageV> {
    if s.len() < 2 || s[0] != SLASH || s[s.len() - 1] != SLASH {
        None
    } else {
        let e = s.len() - 1;
        let k = first_slash_from(s, 1);
        if !(1 <= k < e) {
            None
        } else {
            let kw = s.subrange(1, k);
            if kw == kw_connect() {
                match num_field(s.subrange(k + 1, e)) {
                    Some(id) => Some(MessageV::Connect { session_id: id }),
                    None => None,
                }
            } else if kw == kw_close() {
                match num_field(s.subrange(k + 1, e)) {
                    Some(id) => Some(MessageV::Close { session_id: id }),
                    None => None,
                }
            } else if kw == kw_ack() {
                let m1 = first_slash_from(s, k + 1);
                if !(k + 1 <= m1 < e) {
                    None
                } else {
                    match (num_field(s.subrange(k + 1, m1)), num_field(s.subrange(m1 + 1, e))) {
                        (Some(id), Some(l)) => Some(MessageV::Ack { session_id: id, len: l }),
                        _ => None,
                    }
                }
            } else if kw == kw_data() {
                let m1 = first_slash_from(s, k + 1);
                if !(k + 1 <= m1 < e) {
                    None
                } else {
                    let m2 = first_slash_from(s, m1 + 1);
                    if !(m1 + 1 <= m2 < e) {
                        None
                    } else {
                        let body = s.subrange(m2 + 1, e);
                        match (num_field(s.subrange(k + 1, m1)), num_field(s.subrange(m1 + 1, m2))) {
                            (Some(id), Some(p)) => if well_escaped(body)
                                && vstd::utf8::valid_utf8(unescape_bytes(body)) {
                                Some(MessageV::Data {
                                    session_id: id,
                                    pos: p,
                                    data: unescape_bytes(body),
                                })
                            } else {
                                None
                            },
                            _ => None,
                        }
                    }
                }
            } else {
                None
            }
        }
    }
}

/// Wire bytes of a message.
pub open spec fn encode_msg(m: MessageV) -> Seq<u8> {
    match m {
        MessageV::Connect { session_id } => seq![SLASH] + kw_connect() + seq![SLASH]
            + dec_rep(session_id) + seq![SLASH],
        MessageV::Close { session_id } => seq![SLASH] + kw_close() + seq![SLASH]
            + dec_rep(session_id) + seq![SLASH],
        MessageV::Ack { session_id, len } => seq![SLASH] + kw_ack() + seq![SLASH]
            + dec_rep(session_id) + seq![SLASH] + dec_rep(len) + seq![SLASH],
        MessageV::Data { session_id, pos, data } => seq![SLASH] + kw_data() + seq![SLASH]
            + dec_rep(session_id) + seq![SLASH] + dec_rep(pos) + seq![SLASH]
            + escape_bytes(data) + seq![SLASH],
    }
}

// ---------------------------------------------------------------------------
// Exec helpers
// ---------------------------------------------------------------------------

/// Scan for the next separator.
fn find_slash(packet: &[u8], start: usize) -> (r: Option<usize>)
    requires
        start <= packet@.len(),
    ensures
        r matches Some(k) ==> start <= k < packet@.len() && packet@[k as int] == SLASH
            && first_slash_from(packet@, start as int) == k,
        r is None ==> first_slash_from(packet@, start as int) == -1,
{
    let mut i = start;
    while i < packet.len()
        invariant
            start <= i <= packet@.len(),
            first_slash_from(packet@, start as int) == first_slash_from(packet@, i as int),
        decreases packet@.len() - i,
    {
        if packet[i] == SLASH {
            return Some(i);
        }
        i = i + 1;
    }
    None
}

/// Compare a packet region with an expected literal.
fn region_eq(packet: &[u8], start: usize, end: usize, lit: &[u8]) -> (r: bool)
    requires
        start <= end <= packet@.len(),
    ensures
        r <==> packet@.subrange(start as int, end as int) =~= lit@,
{
    if end - start != lit.len() {
        return false;
    }
    let mut i: usize = 0;
    while i < lit.len()
        invariant
            start <= end <= packet@.len(),
            end - start == lit@.len(),
            i <= lit@.len(),
            forall|j: int| 0 <= j < i ==> packet@[start + j] == lit@[j],
        decreases lit@.len() - i,
    {
        if packet[start + i] != lit[i] {
            proof {
                assert(packet@.subrange(start as int, end as int)[i as int] != lit@[i as int]);
            }
            return false;
        }
        i = i + 1;
    }
    proof {
        assert(packet@.subrange(start as int, end as int) =~= lit@);
    }
    true
}

/// Decode one numeric field: canonical decimal, 31-bit range.
fn parse_u31(packet: &[u8], start: usize, end: usize) -> (r: Option<i32>)
    requires
        start <= end <= packet@.len(),
    ensures
        r matches Some(v) ==> 0 <= v
            && num_field(packet@.subrange(start as int, end as int)) == Some(v as int),
        r is None ==> num_field(packet@.subrange(start as int, end as int)) is None,
{
    if start == end {
        return None;
    }
    if packet[start] == 0x30 && end - start > 1 {
        return None;
    }
    let ghost full = packet@.subrange(start as int, end as int);
    let mut acc: u64 = 0;
    let mut i = start;
    while i < end
        invariant
            start <= i <= end <= packet@.len(),
            acc <= 0x7FFF_FFFF,
            all_digits(packet@.subrange(start as int, i as int)),
            acc == dec_value(packet@.subrange(start as int, i as int)),
        decreases end - i,
    {
        let c = packet[i];
        if c < 0x30 || c > 0x39 {
            proof {
                let full = packet@.subrange(start as int, end as int);
                assert(full[i - start] == c);
                if all_digits(full) {
                    assert(is_digit(full[i - start]));
                    assert(false);
                }
            }
            return None;
        }
        proof {
            let pre = packet@.subrange(start as int, i as int);
            let cur = packet@.subrange(start as int, (i + 1) as int);
            assert(cur.drop_last() =~= pre);
            assert(cur.last() == c);
            assert(all_digits(cur)) by {
                assert(forall|j: int| 0 <= j < cur.len() - 1 ==> cur[j] == pre[j]);
            }
            assert(dec_value(cur) == acc * 10 + (c - 0x30));
        }
        acc = acc * 10 + (c - 0x30) as u64;
        if acc > 0x7FFF_FFFF {
            proof {
                let full = packet@.subrange(start as int, end as int);
                if all_digits(full) {
                    lemma_dec_value_prefix(full, i + 1 - start);
                    assert(full.subrange(0, i + 1 - start)
                        =~= packet@.subrange(start as int, (i + 1) as int));
                    assert(dec_value(full) > 0x7FFF_FFFF);
                }
            }
            return None;
        }
        i = i + 1;
    }
    proof {
        let full = packet@.subrange(start as int, end as int);
        assert(full[0] == packet@[start as int]);
        assert(is_canonical_dec(full));
    }
    Some(acc as i32)
}

/// Check and undo the escaping of a data field.
fn unescape_field(packet: &[u8], start: usize, end: usize) -> (r: Option<Vec<u8>>)
    requires
        start <= end <= packet@.len(),
    ensures
        r matches Some(v) ==> well_escaped(packet@.subrange(start as int, end as int))
            && v@ == unescape_bytes(packet@.subrange(start as int, end as int)),
        r is None ==> !well_escaped(packet@.subrange(start as int, end as int)),
{
    let ghost full = packet@.subrange(start as int, end as int);
    let mut out: Vec<u8> = Vec::new();
    let mut i = start;
    while i < end
        invariant
            start <= i <= end <= packet@.len(),
            well_escaped(packet@.subrange(start as int, end as int))
                <==> well_escaped(packet@.subrange(i as int, end as int)),
            well_escaped(packet@.subrange(i as int, end as int))
                ==> unescape_bytes(packet@.subrange(start as int, end as int))
                    == out@ + unescape_bytes(packet@.subrange(i as int, end as int)),
        decreases end - i,
    {
        let ghost rest = packet@.subrange(i as int, end as int);
        let c = packet[i];
        proof {
            assert(rest[0] == c);
        }
        if c == BACKSLASH {
            if end - i < 2 {
                proof {
                    assert(!well_escaped(rest));
                }
                return None;
            }
            let d = packet[i + 1];
            proof {
                assert(rest[1] == d);
            }
            if d != BACKSLASH && d != SLASH {
                proof {
                    assert(!well_escaped(rest));
                }
                return None;
            }
            proof {
                let next = packet@.subrange((i + 2) as int, end as int);
                assert(rest.skip(2) =~= next);
                assert(well_escaped(rest) <==> well_escaped(next));
                if well_escaped(next) {
                    assert(unescape_bytes(rest) == seq![d] + unescape_bytes(next));
                    assert((out@ + seq![d]) + unescape_bytes(next)
                        =~= out@ + (seq![d] + unescape_bytes(next)));
                    assert(out@.push(d) =~= out@ + seq![d]);
                }
            }
            out.push(d);
            i = i + 2;
        } else if c == SLASH {
            proof {
                assert(!well_escaped(rest));
            }
            return None;
        } else {
            proof {
                let next = packet@.subrange((i + 1) as int, end as int);
                assert(rest.skip(1) =~= next);
                assert(well_escaped(rest) <==> well_escaped(next));
                if well_escaped(next) {
                    assert(unescape_bytes(rest) == seq![c] + unescape_bytes(next));
                    assert((out@ + seq![c]) + unescape_bytes(next)
                        =~= out@ + (seq![c] + unescape_bytes(next)));
                    assert(out@.push(c) =~= out@ + seq![c]);
                }
            }
            out.push(c);
            i = i + 1;
        }
    }
    proof {
        let tail = packet@.subrange(end as int, end as int);
        assert(tail =~= Seq::<u8>::empty());
        assert(well_escaped(tail));
        assert(unescape_bytes(tail) =~= Seq::<u8>::empty());
        assert(out@ + unescape_bytes(tail) =~= out@);
    }
    Some(out)
}

/// Append the canonical decimal spelling of `v`.
fn push_dec(out: &mut Vec<u8>, v: u32)
    requires
        v <= 0x7FFF_FFFF,
    ensures
        final(out)@ == old(out)@ + dec_rep(v as int),
    decreases v,
{
    if v <= 9 {
        out.push((0x30 + v) as u8);
        proof {
            assert(old(out)@.push((0x30 + v) as u8) =~= old(out)@ + dec_rep(v as int));
        }
    } else {
        push_dec(out, v / 10);
        let ghost mid = out@;
        out.push((0x30 + v % 10) as u8);
        proof {
            assert(dec_rep(v as int) == dec_rep(v as int / 10).push((0x30 + v as int % 10) as u8));
            assert(mid.push((0x30 + v % 10) as u8)
                =~= old(out)@ + dec_rep(v as int / 10).push((0x30 + v as int % 10) as u8));
        }
    }
}

/// Append the escaped form of a payload.
fn push_escaped(out: &mut Vec<u8>, data: &[u8])
    ensures
        final(out)@ == old(out)@ + escape_bytes(data@),
{
    let mut i: usize = 0;
    proof {
        assert(data@.subrange(0, 0) =~= Seq::<u8>::empty());
        assert(out@ + escape_bytes(data@.subrange(0, 0)) =~= out@);
    }
    while i < data.len()
        invariant
            i <= data@.len(),
            out@ == old(out)@ + escape_bytes(data@.subrange(0, i as int)),
        decreases data@.len() - i,
    {
        let c = data[i];
        let ghost pre = data@.subrange(0, i as int);
        let ghost cur = data@.subrange(0, (i + 1) as int);
        proof {
            assert(cur.drop_last() =~= pre);
            assert(cur.last() == c);
            assert(escape_bytes(cur) == escape_bytes(pre) + esc1(c));
        }
        let ghost mid = out@;
        if c == BACKSLASH {
            out.push(BACKSLASH);
            out.push(BACKSLASH);
            proof {
                assert(mid.push(BACKSLASH).push(BACKSLASH) =~= mid + esc1(c));
            }
        } else if c == SLASH {
            out.push(BACKSLASH);
            out.push(SLASH);
            proof {
                assert(mid.push(BACKSLASH).push(SLASH) =~= mid + esc1(c));
            }
        } else {
            out.push(c);
            proof {
                assert(mid.push(c) =~= mid + esc1(c));
            }
        }
        proof {
            assert((old(out)@ + escape_bytes(pre)) + esc1(c)
                =~= old(out)@ + (escape_bytes(pre) + esc1(c)));
        }
        i = i + 1;
    }
    proof {
        assert(data@.subrange(0, data@.len() as int) =~= data@);
    }
}

/// Encode a message for the wire.
pub fn encode_message(msg: &LcrpMessage) -> (r: Vec<u8>)
    requires
        valid_msg(msg@),
    ensures
        r@ == encode_msg(msg@),
{
    let mut out: Vec<u8> = Vec::new();
    proof {
        assert(out@ =~= Seq::<u8>::empty());
    }
    match msg {
        LcrpMessage::Connect { session_id } => {
            out.push(SLASH);
            let kw: [u8; 7] = [0x63, 0x6F, 0x6E, 0x6E, 0x65, 0x63, 0x74];
            proof {
                assert(kw@ =~= kw_connect());
            }
            out.extend_from_slice(kw.as_slice());
            out.push(SLASH);
            push_dec(&mut out, *session_id as u32);
            out.push(SLASH);
            proof {
                assert(out@ =~= encode_msg(msg@));
            }
        }
        LcrpMessage::Close { session_id } => {
            out.push(SLASH);
            let kw: [u8; 5] = [0x63, 0x6C, 0x6F, 0x73, 0x65];
            proof {
                assert(kw@ =~= kw_close());
            }
            out.extend_from_slice(kw.as_slice());
            out.push(SLASH);
            push_dec(&mut out, *session_id as u32);
            out.push(SLASH);
            proof {
                assert(out@ =~= encode_msg(msg@));
            }
        }
        LcrpMessage::Ack { session_id, len } => {
            out.push(SLASH);
            let kw: [u8; 3] = [0x61, 0x63, 0x6B];
            proof {
                assert(kw@ =~= kw_ack());
            }
            out.extend_from_slice(kw.as_slice());
            out.push(SLASH);
            push_dec(&mut out, *session_id as u32);
            out.push(SLASH);
            push_dec(&mut out, *len as u32);
            out.push(SLASH);
            proof {
                assert(out@ =~= encode_msg(msg@));
            }
        }
        LcrpMessage::Data { session_id, pos, data } => {
            out.push(SLASH);
            let kw: [u8; 4] = [0x64, 0x61, 0x74, 0x61];
            proof {
                assert(kw@ =~= kw_data());
            }
            out.extend_from_slice(kw.as_slice());
            out.push(SLASH);
            push_dec(&mut out, *session_id as u32);
            out.push(SLASH);
            push_dec(&mut out, *pos as u32);
            out.push(SLASH);
            push_escaped(&mut out, data.as_slice());
            out.push(SLASH);
            proof {
                assert(out@ =~= encode_msg(msg@));
            }
        }
    }
    out
}

/// A scan that starts before a separator and sees none earlier stops there.
proof fn lemma_first_slash_at(s: Seq<u8>, a: int, k: int)
    requires
        0 <= a <= k < s.len(),
        s[k] == SLASH,
        forall|i: int| a <= i < k ==> s[i] != SLASH,
    ensures
        first_slash_from(s, a) == k,
    decreases k - a,
{
    if a < k {
        lemma_first_slash_at(s, a + 1, k);
    }
}

/// The four keywords never contain the field separator.
proof fn lemma_kw_no_slash()
    ensures
        forall|i: int| 0 <= i < kw_connect().len() ==> kw_connect()[i] != SLASH,
        forall|i: int| 0 <= i < kw_close().len() ==> kw_close()[i] != SLASH,
        forall|i: int| 0 <= i < kw_ack().len() ==> kw_ack()[i] != SLASH,
        forall|i: int| 0 <= i < kw_data().len() ==> kw_data()[i] != SLASH,
{
}

/// Round trip: every valid message decodes from its own encoding.
///
/// Together with the contracts of `encode_message` and `parse_message` this
/// says that decoding an encoded message gives the message back, for all
/// four message kinds and any textual payload, however much escaping it
/// needs.  A data payload that is not valid text is no wire message at all:
/// the decoder refuses it, so it is left out here.
#[verifier::spinoff_prover]
#[verifier::rlimit(60)]
pub proof fn lemma_parse_encode(m: MessageV)
    requires
        valid_msg(m),
        (m matches MessageV::Data { data, .. } ==> vstd::utf8::valid_utf8(data)),
    ensures
        spec_parse(encode_msg(m)) == Some(m),
{
    lemma_kw_no_slash();
    let s = encode_msg(m);
    match m {
        MessageV::Connect { session_id } => {
            lemma_dec_rep_ok(session_id);
            let d = dec_rep(session_id);
            let l = d.len() as int;
            assert(s.len() == 10 + l);
            assert(s[0] == SLASH);
            assert(s[8] == SLASH);
            assert(s[s.len() - 1] == SLASH);
            assert(s.subrange(1, 8) =~= kw_connect());
            assert(s.subrange(9, 9 + l) =~= d);
            assert(forall|i: int| 1 <= i < 8 ==> s[i] == kw_connect()[i - 1]);
            lemma_first_slash_at(s, 1, 8);
            assert(num_field(s.subrange(9, s.len() - 1)) == Some(session_id));
            assert(spec_parse(s) == Some(m));
        }
        MessageV::Close { session_id } => {
            lemma_dec_rep_ok(session_id);
            let d = dec_rep(session_id);
            let l = d.len() as int;
            assert(s.len() == 8 + l);
            assert(s[0] == SLASH);
            assert(s[6] == SLASH);
            assert(s[s.len() - 1] == SLASH);
            assert(s.subrange(1, 6) =~= kw_close());
            assert(s.subrange(7, 7 + l) =~= d);
            assert(forall|i: int| 1 <= i < 6 ==> s[i] == kw_close()[i - 1]);
            lemma_first_slash_at(s, 1, 6);
            assert(!(s.subrange(1, 6) == kw_connect()));
            assert(num_field(s.subrange(7, s.len() - 1)) == Some(session_id));
            assert(spec_parse(s) == Some(m));
        }
        MessageV::Ack { session_id, len } => {
            lemma_dec_rep_ok(session_id);
            lemma_dec_rep_ok(len);
            let d1 = dec_rep(session_id);
            let d2 = dec_rep(len);
            let l1 = d1.len() as int;
            let l2 = d2.len() as int;
            assert(s.len() == 7 + l1 + l2);
            assert(s[0] == SLASH);
            assert(s[4] == SLASH);
            assert(s[5 + l1] == SLASH);
            assert(s[s.len() - 1] == SLASH);
            assert(s.subrange(1, 4) =~= kw_ack());
            assert(s.subrange(5, 5 + l1) =~= d1);
            assert(s.subrange(6 + l1, 6 + l1 + l2) =~= d2);
            assert(forall|i: int| 1 <= i < 4 ==> s[i] == kw_ack()[i - 1]);
            lemma_first_slash_at(s, 1, 4);
            assert(!(s.subrange(1, 4) == kw_connect()));
            assert(!(s.subrange(1, 4) == kw_close()));
            assert(forall|i: int| 5 <= i < 5 + l1 ==> s[i] == d1[i - 5]);
            lemma_digits_no_slash(d1);
            lemma_first_slash_at(s, 5, 5 + l1);
            assert(num_field(s.subrange(5, 5 + l1)) == Some(session_id));
            assert(num_field(s.subrange(6 + l1, s.len() - 1)) == Some(len));
            assert(spec_parse(s) == Some(m));
        }
        MessageV::Data { session_id, pos, data } => {
            lemma_dec_rep_ok(session_id);
            lemma_dec_rep_ok(pos);
            lemma_escape_unescape(data);
            let d1 = dec_rep(session_id);
            let d2 = dec_rep(pos);
            let b = escape_bytes(data);
            let l1 = d1.len() as int;
            let l2 = d2.len() as int;
            let lb = b.len() as int;
            assert(s.len() == 9 + l1 + l2 + lb);
            assert(s[0] == SLASH);
            assert(s[5] == SLASH);
            assert(s[6 + l1] == SLASH);
            assert(s[7 + l1 + l2] == SLASH);
            assert(s[s.len() - 1] == SLASH);
            assert(s.subrange(1, 5) =~= kw_data());
            assert(s.subrange(6, 6 + l1) =~= d1);
            assert(s.subrange(7 + l1, 7 + l1 + l2) =~= d2);
            assert(s.subrange(8 + l1 + l2, 8 + l1 + l2 + lb) =~= b);
            assert(forall|i: int| 1 <= i < 5 ==> s[i] == kw_data()[i - 1]);
            lemma_first_slash_at(s, 1, 5);
            assert(!(s.subrange(1, 5) == kw_connect()));
            assert(!(s.subrange(1, 5) == kw_close()));
            assert(!(s.subrange(1, 5) == kw_ack()));
            assert(forall|i: int| 6 <= i < 6 + l1 ==> s[i] == d1[i - 6]);
            lemma_digits_no_slash(d1);
            lemma_first_slash_at(s, 6, 6 + l1);
            assert(forall|i: int| 7 + l1 <= i < 7 + l1 + l2 ==> s[i] == d2[i - 7 - l1]);
            lemma_digits_no_slash(d2);
            lemma_first_slash_at(s, 7 + l1, 7 + l1 + l2);
            assert(num_field(s.subrange(6, 6 + l1)) == Some(session_id));
            assert(num_field(s.subrange(7 + l1, 7 + l1 + l2)) == Some(pos));
            assert(s.subrange(8 + l1 + l2, s.len() - 1) == b);
            assert(spec_parse(s) == Some(m));
        }
    }
}

/// A well-escaped field re-escapes to itself.
proof fn lemma_unescape_escape(b: Seq<u8>)
    requires
        well_escaped(b),
    ensures
        escape_bytes(unescape_bytes(b)) == b,
    decreases b.len(),
{
    if b.len() == 0 {
        assert(unescape_bytes(b) =~= Seq::<u8>::empty());
        assert(escape_bytes(Seq::<u8>::empty()) =~= Seq::<u8>::empty());
    } else if b[0] == BACKSLASH {
        let d = b[1];
        let rest = b.skip(2);
        lemma_unescape_escape(rest);
        assert(unescape_bytes(b) == seq![d] + unescape_bytes(rest));
        lemma_escape_concat(seq![d], unescape_bytes(rest));
        assert(seq![d].drop_last() =~= Seq::<u8>::empty());
        assert(seq![d].last() == d);
        assert(escape_bytes(Seq::<u8>::empty()) =~= Seq::<u8>::empty());
        assert(escape_bytes(seq![d]) =~= esc1(d));
        assert(esc1(d) =~= seq![BACKSLASH, d]);
        assert(seq![BACKSLASH, d] + rest =~= b);
    } else {
        let rest = b.skip(1);
        lemma_unescape_escape(rest);
        assert(unescape_bytes(b) == seq![b[0]] + unescape_bytes(rest));
        lemma_escape_concat(seq![b[0]], unescape_bytes(rest));
        assert(seq![b[0]].drop_last() =~= Seq::<u8>::empty());
        assert(seq![b[0]].last() == b[0]);
        assert(escape_bytes(Seq::<u8>::empty()) =~= Seq::<u8>::empty());
        assert(escape_bytes(seq![b[0]]) =~= esc1(b[0]));
        assert(esc1(b[0]) =~= seq![b[0]]);
        assert(seq![b[0]] + rest =~= b);
    }
}

/// A scan that found something stopped on a separator within range.
proof fn lemma_first_slash_found(s: Seq<u8>, a: int)
    requires
        0 <= a <= s.len(),
        first_slash_from(s, a) >= 0,
    ensures
        a <= first_slash_from(s, a) < s.len(),
        s[first_slash_from(s, a)] == SLASH,
    decreases s.len() - a,
{
    if a < s.len() && s[a] != SLASH {
        lemma_first_slash_found(s, a + 1);
    }
}

/// The converse round trip: whatever decodes at all is the canonical
/// encoding of exactly the message it decodes to.  Together with
/// `lemma_parse_encode`, the well-formed datagrams are precisely the
/// canonical encodings of valid messages.
#[verifier::spinoff_prover]
#[verifier::rlimit(60)]
pub proof fn lemma_parse_canonical(s: Seq<u8>, m: MessageV)
    requires
        spec_parse(s) == Some(m),
    ensures
        valid_msg(m),
        (m matches MessageV::Data { data, .. } ==> vstd::utf8::valid_utf8(data)),
        encode_msg(m) == s,
{
    let e = s.len() - 1;
    let k = first_slash_from(s, 1);
    lemma_first_slash_found(s, 1);
    let kw = s.subrange(1, k);
    assert(s.subrange(0, 1) =~= seq![SLASH]);
    assert(s.subrange(k, k + 1) =~= seq![SLASH]);
    assert(s.subrange(e, s.len() as int) =~= seq![SLASH]);
    if kw == kw_connect() || kw == kw_close() {
        let num = s.subrange(k + 1, e);
        lemma_canonical_is_rep(num);
        assert(s =~= s.subrange(0, 1) + s.subrange(1, k) + s.subrange(k, k + 1)
            + s.subrange(k + 1, e) + s.subrange(e, s.len() as int));
        assert(encode_msg(m) == s);
    } else if kw == kw_ack() {
        let m1 = first_slash_from(s, k + 1);
        lemma_first_slash_found(s, k + 1);
        assert(s.subrange(m1, m1 + 1) =~= seq![SLASH]);
        lemma_canonical_is_rep(s.subrange(k + 1, m1));
        lemma_canonical_is_rep(s.subrange(m1 + 1, e));
        assert(s =~= s.subrange(0, 1) + s.subrange(1, k) + s.subrange(k, k + 1)
            + s.subrange(k + 1, m1) + s.subrange(m1, m1 + 1) + s.subrange(m1 + 1, e)
            + s.subrange(e, s.len() as int));
        assert(encode_msg(m) == s);
    } else {
        let m1 = first_slash_from(s, k + 1);
        lemma_first_slash_found(s, k + 1);
        let m2 = first_slash_from(s, m1 + 1);
        lemma_first_slash_found(s, m1 + 1);
        assert(s.subrange(m1, m1 + 1) =~= seq![SLASH]);
        assert(s.subrange(m2, m2 + 1) =~= seq![SLASH]);
        lemma_canonical_is_rep(s.subrange(k + 1, m1));
        lemma_canonical_is_rep(s.subrange(m1 + 1, m2));
        let body = s.subrange(m2 + 1, e);
        lemma_unescape_escape(body);
        assert(s =~= s.subrange(0, 1) + s.subrange(1, k) + s.subrange(k, k + 1)
            + s.subrange(k + 1, m1) + s.subrange(m1, m1 + 1) + s.subrange(m1 + 1, m2)
            + s.subrange(m2, m2 + 1) + s.subrange(m2 + 1, e)
            + s.subrange(e, s.len() as int));
        assert(encode_msg(m) == s);
    }
}

/// Decode one datagram.
///
/// The result is fully determined by `spec_parse`: a message comes back
/// exactly when the datagram is well formed, an empty datagram reports
/// `Empty`, and any other malformed one reports `Invalid`.
pub fn parse_message(packet: &[u8]) -> (r: Result<LcrpMessage, DecodeError>)
    ensures
        r matches Ok(m) ==> spec_parse(packet@) == Some(m@) && valid_msg(m@),
        r matches Err(e) ==> spec_parse(packet@) is None && e == (if packet@.len() == 0 {
            DecodeError::Empty
        } else {
            DecodeError::Invalid
        }),
{
    let n = packet.len();
    if n == 0 {
        return Err(DecodeError::Empty);
    }
    if n < 2 || packet[0] != SLASH || packet[n - 1] != SLASH {
        return Err(DecodeError::Invalid);
    }
    let k = match find_slash(packet, 1) {
        Some(k) => k,
        None => {
            return Err(DecodeError::Invalid);
        },
    };
    if k >= n - 1 {
        return Err(DecodeError::Invalid);
    }
    let kw_connect_lit: [u8; 7] = [0x63, 0x6F, 0x6E, 0x6E, 0x65, 0x63, 0x74];
    let kw_close_lit: [u8; 5] = [0x63, 0x6C, 0x6F, 0x73, 0x65];
    let kw_ack_lit: [u8; 3] = [0x61, 0x63, 0x6B];
    let kw_data_lit: [u8; 4] = [0x64, 0x61, 0x74, 0x61];
    proof {
        assert(kw_connect_lit@ =~= kw_connect());
        assert(kw_close_lit@ =~= kw_close());
        assert(kw_ack_lit@ =~= kw_ack());
        assert(kw_data_lit@ =~= kw_data());
    }
    if region_eq(packet, 1, k, kw_connect_lit.as_slice()) {
        match parse_u31(packet, k + 1, n - 1) {
            Some(v) => {
                let m = LcrpMessage::Connect { session_id: v };
                proof {
                    assert(spec_parse(packet@) == Some(m@));
                }
                Ok(m)
            },
            None => Err(DecodeError::Invalid),
        }
    } else if region_eq(packet, 1, k, kw_close_lit.as_slice()) {
        match parse_u31(packet, k + 1, n - 1) {
            Some(v) => {
                let m = LcrpMessage::Close { session_id: v };
                proof {
                    assert(spec_parse(packet@) == Some(m@));
                }
                Ok(m)
            },
            None => Err(DecodeError::Invalid),
        }
    } else if region_eq(packet, 1, k, kw_ack_lit.as_slice()) {
        let m1 = match find_slash(packet, k + 1) {
            Some(m1) => m1,
            None => {
                return Err(DecodeError::Invalid);
            },
        };
        if m1 >= n - 1 {
            return Err(DecodeError::Invalid);
        }
        match (parse_u31(packet, k + 1, m1), parse_u31(packet, m1 + 1, n - 1)) {
            (Some(v1), Some(v2)) => {
                let m = LcrpMessage::Ack { session_id: v1, len: v2 };
                proof {
                    assert(spec_parse(packet@) == Some(m@));
                }
                Ok(m)
            },
            _ => Err(DecodeError::Invalid),
        }
    } else if region_eq(packet, 1, k, kw_data_lit.as_slice()) {
        let m1 = match find_slash(packet, k + 1) {
            Some(m1) => m1,
            None => {
                return Err(DecodeError::Invalid);
            },
        };
        if m1 >= n - 1 {
            return Err(DecodeError::Invalid);
        }
        let m2 = match find_slash(packet, m1 + 1) {
            Some(m2) => m2,
            None => {
                return Err(DecodeError::Invalid);
            },
        };
        if m2 >= n - 1 {
            return Err(DecodeError::Invalid);
        }
        match (parse_u31(packet, k + 1, m1), parse_u31(packet, m1 + 1, m2)) {
            (Some(v1), Some(v2)) => {
                match unescape_field(packet, m2 + 1, n - 1) {
                    Some(body) => {
                        if !crate::text::utf8_ok(&body) {
                            return Err(DecodeError::Invalid);
                        }
                        let m = LcrpMessage::Data { session_id: v1, pos: v2, data: body };
                        proof {
                            assert(spec_parse(packet@) == Some(m@));
                        }
                        Ok(m)
                    },
                    None => Err(DecodeError::Invalid),
                }
            },
            _ => Err(DecodeError::Invalid),
        }
    } else {
        Err(DecodeError::Invalid)
    }
}

/// Split a payload into chunks of at most `max` bytes: an encoded datagram
/// is capped in size, so a long stream suffix travels as several data
/// messages at increasing positions, one chunk each.
pub fn chunk_payload(data: &Vec<u8>, max: usize) -> (r: Vec<Vec<u8>>)
    requires
        1 <= max,
    ensures
        r@.len() == (data@.len() + max - 1) / (max as int),
        forall|i: int|
            0 <= i < r@.len() ==> (#[trigger] r@[i])@ == data@.subrange(
                i * max,
                if (i + 1) * max <= data@.len() {
                    (i + 1) * (max as int)
                } else {
                    data@.len() as int
                },
            ),
{
    let n = data.len();
    let mut out: Vec<Vec<u8>> = Vec::new();
    let mut off: usize = 0;
    while off < n
        invariant
            1 <= max,
            n == data@.len(),
            off <= n,
            out@.len() == 0 ==> off == 0,
            out@.len() > 0 ==> (out@.len() - 1) * max < off <= out@.len() * max,
            off < n ==> off == out@.len() * max,
            forall|i: int|
                0 <= i < out@.len() ==> (#[trigger] out@[i])@ == data@.subrange(
                    i * max,
                    if (i + 1) * max <= data@.len() {
                        (i + 1) * (max as int)
                    } else {
                        data@.len() as int
                    },
                ),
        decreases n - off,
    {
        let end = if n - off < max {
            n
        } else {
            off + max
        };
        let mut chunk: Vec<u8> = Vec::new();
        let mut j: usize = off;
        proof {
            assert(data@.subrange(off as int, off as int) =~= Seq::<u8>::empty());
        }
        while j < end
            invariant
                off <= j <= end <= n,
                n == data@.len(),
                chunk@ == data@.subrange(off as int, j as int),
            decreases end - j,
        {
            proof {
                assert(data@.subrange(off as int, (j + 1) as int)
                    =~= data@.subrange(off as int, j as int).push(data@[j as int]));
            }
            let b = data[j];
            chunk.push(b);
            j = j + 1;
        }
        let ghost k = out@.len() as int;
        proof {
            assert((k + 1) * max == k * max + max) by (nonlinear_arith);
        }
        out.push(chunk);
        off = end;
    }
    proof {
        let k = out@.len() as int;
        let len = data@.len() as int;
        let m = max as int;
        assert(off == n);
        if len == 0 {
            assert(k == 0);
            assert((len + m - 1) / m == 0) by {
                vstd::arithmetic::div_mod::lemma_basic_div(m - 1, m);
            }
        } else {
            // the loop left exactly the ceiling of len over max chunks
            assert(k >= 1);
            assert((k - 1) * m < len <= k * m);
            assert((len + m - 1) / m == k) by {
                assert(len + m - 1 == m * k + (len - 1 - (k - 1) * m)) by (nonlinear_arith);
                vstd::arithmetic::div_mod::lemma_fundamental_div_mod_converse(
                    len + m - 1,
                    m,
                    k,
                    len - 1 - (k - 1) * m,
                );
            }
        }
    }
    out
}

/// Powers of ten.
spec fn pow10(k: nat) -> int
    decreases k,
{
    if k == 0 {
        1
    } else {
        10 * pow10((k - 1) as nat)
    }
}

/// A number below the k-th power of ten spells in at most k digits.
proof fn lemma_dec_rep_len(n: int, k: nat)
    requires
        0 <= n,
        1 <= k,
        n < pow10(k),
    ensures
        dec_rep(n).len() <= k,
    decreases k,
{
    if n <= 9 {
        assert(dec_rep(n).len() == 1);
    } else {
        assert(pow10(k) == 10 * pow10((k - 1) as nat));
        if k == 1 {
            assert(pow10(0nat) == 1);
            assert(false);
        }
        vstd::arithmetic::div_mod::lemma_multiply_divide_lt(n, 10, pow10((k - 1) as nat));
        lemma_dec_rep_len(n / 10, (k - 1) as nat);
    }
}

/// Escaping at most doubles a payload.
proof fn lemma_escape_len(d: Seq<u8>)
    ensures
        escape_bytes(d).len() <= 2 * d.len(),
    decreases d.len(),
{
    if d.len() > 0 {
        lemma_escape_len(d.drop_last());
    }
}

/// A wire field value spells in at most ten digits.
proof fn lemma_field_digits(n: int)
    requires
        0 <= n <= 0x7FFF_FFFF,
    ensures
        dec_rep(n).len() <= 10,
{
    assert(pow10(0nat) == 1);
    assert(pow10(1nat) == 10);
    assert(pow10(2nat) == 100);
    assert(pow10(3nat) == 1000);
    assert(pow10(4nat) == 10000);
    assert(pow10(5nat) == 100000);
    assert(pow10(6nat) == 1000000);
    assert(pow10(7nat) == 10000000);
    assert(pow10(8nat) == 100000000);
    assert(pow10(9nat) == 1000000000);
    assert(pow10(10nat) == 10000000000);
    lemma_dec_rep_len(n, 10);
}

/// The wire size of a data message: at most 29 bytes of framing and digits
/// on top of twice the payload.  A sender that splits its stream into
/// chunks of at most 400 bytes therefore keeps every datagram within the
/// practical size cap of about a thousand bytes.
pub proof fn lemma_data_datagram_size(m: MessageV)
    requires
        valid_msg(m),
    ensures
        (m matches MessageV::Data { data, .. }
            ==> encode_msg(m).len() <= 29 + 2 * data.len()),
{
    match m {
        MessageV::Data { session_id, pos, data } => {
            lemma_field_digits(session_id);
            lemma_field_digits(pos);
            lemma_escape_len(data);
            assert(encode_msg(m).len() == 9 + dec_rep(session_id).len() + dec_rep(pos).len()
                + escape_bytes(data).len());
        },
        _ => {},
    }
}

// ---------------------------------------------------------------------------
// Escaping as text
// ---------------------------------------------------------------------------

/// Wire spelling of one payload character.
pub open spec fn esc1_char(c: char) -> Seq<char> {
    if c == '\\' {
        seq!['\\', '\\']
    } else if c == '/' {
        seq!['\\', '/']
    } else {
        seq![c]
    }
}

/// Escaped form of a payload string.
pub open spec fn escape_chars(s: Seq<char>) -> Seq<char>
    decreases s.len(),
{
    if s.len() == 0 {
        Seq::empty()
    } else {
        escape_chars(s.drop_last()) + esc1_char(s.last())
    }
}

/// Left-to-right unescaping of a payload string: the character after a `\`
/// is taken literally; a lone trailing `\` stays as it is.
pub open spec fn unescape_chars(s: Seq<char>) -> Seq<char>
    decreases s.len(),
{
    if s.len() == 0 {
        Seq::empty()
    } else if s[0] == '\\' && s.len() >= 2 {
        seq![s[1]] + unescape_chars(s.skip(2))
    } else {
        seq![s[0]] + unescape_chars(s.skip(1))
    }
}

/// Escape a payload string: `\` becomes `\\` and `/` becomes `\/`.
pub fn escape(data: String) -> (r: String)
    ensures
        r@ == escape_chars(data@),
{
    let n = data.as_str().unicode_len();
    let mut out = String::new();
    proof {
        assert(data@.subrange(0, 0) =~= Seq::<char>::empty());
    }
    let mut i: usize = 0;
    while i < n
        invariant
            i <= n,
            n == data@.len(),
            out@ == escape_chars(data@.subrange(0, i as int)),
        decreases n - i,
    {
        let c = data.as_str().get_char(i);
        proof {
            let pre = data@.subrange(0, i as int);
            let cur = data@.subrange(0, (i + 1) as int);
            assert(cur.drop_last() =~= pre);
            assert(cur.last() == c);
        }
        let ghost mid = out@;
        if c == '\\' {
            out.push('\\');
            out.push('\\');
            proof {
                assert(mid.push('\\').push('\\') =~= mid + esc1_char(c));
            }
        } else if c == '/' {
            out.push('\\');
            out.push('/');
            proof {
                assert(mid.push('\\').push('/') =~= mid + esc1_char(c));
            }
        } else {
            out.push(c);
            proof {
                assert(mid.push(c) =~= mid + esc1_char(c));
            }
        }
        i = i + 1;
    }
    proof {
        assert(data@.subrange(0, data@.len() as int) =~= data@);
    }
    out
}

/// Undo the escaping of a payload string.
pub fn unescape(data: String) -> (r: String)
    ensures
        r@ == unescape_chars(data@),
{
    let n = data.as_str().unicode_len();
    let mut out = String::new();
    proof {
        assert(data@.subrange(0, data@.len() as int) =~= data@);
        assert(out@ + unescape_chars(data@) =~= unescape_chars(data@));
    }
    let mut i: usize = 0;
    while i < n
        invariant
            i <= n,
            n == data@.len(),
            unescape_chars(data@) == out@ + unescape_chars(data@.subrange(i as int, n as int)),
        decreases n - i,
    {
        let ghost rest = data@.subrange(i as int, n as int);
        let c = data.as_str().get_char(i);
        proof {
            assert(rest[0] == c);
        }
        let ghost mid = out@;
        if c == '\\' && i + 1 < n {
            let d = data.as_str().get_char(i + 1);
            proof {
                assert(rest[1] == d);
                let next = data@.subrange((i + 2) as int, n as int);
                assert(rest.skip(2) =~= next);
                assert(unescape_chars(rest) == seq![d] + unescape_chars(next));
                assert((mid + seq![d]) + unescape_chars(next)
                    =~= mid + (seq![d] + unescape_chars(next)));
                assert(mid.push(d) =~= mid + seq![d]);
            }
            out.push(d);
            i = i + 2;
        } else {
            proof {
                let next = data@.subrange((i + 1) as int, n as int);
                assert(rest.skip(1) =~= next);
                if c == '\\' {
                    assert(rest.len() == 1);
                }
                assert(unescape_chars(rest) == seq![c] + unescape_chars(next));
                assert((mid + seq![c]) + unescape_chars(next)
                    =~= mid + (seq![c] + unescape_chars(next)));
                assert(mid.push(c) =~= mid + seq![c]);
            }
            out.push(c);
            i = i + 1;
        }
    }
    proof {
        assert(data@.subrange(n as int, n as int) =~= Seq::<char>::empty());
        assert(out@ + unescape_chars(Seq::<char>::empty()) =~= out@);
    }
    out
}

} // verus!
