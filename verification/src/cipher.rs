//! Byte-stream cipher of the toy workshop protocol: a pipeline of
//! reversible byte operations, some keyed by the byte's position in the
//! stream.  Encoding runs the pipeline forward; decoding runs it backward
//! with each operation inverted.

use vstd::prelude::*;

verus! {

/// One step of the cipher pipeline.
#[derive(Clone, Copy, PartialEq, Eq, Debug)]
pub enum Operation {
    ReverseBits,
    XorN(u8),
    XorPos,
    AddN(u8),
    AddPos,
}

/// The byte with its bits in reverse order.
pub open spec fn rev_bits(b: u8) -> u8 {
    ((b & 0x80) >> 7) | ((b & 0x40) >> 5) | ((b & 0x20) >> 3) | ((b & 0x10) >> 1)
        | ((b & 0x08) << 1) | ((b & 0x04) << 3) | ((b & 0x02) << 5) | ((b & 0x01) << 7)
}

/// The low byte of a stream position.
pub open spec fn low_byte(p: i32) -> u8 {
    (p & 0xFF) as u8
}

/// One operation applied in the encoding direction.
pub open spec fn apply_encode(op: Operation, b: u8, pos: u8) -> u8 {
    match op {
        Operation::ReverseBits => rev_bits(b),
        Operation::XorN(n) => b ^ n,
        Operation::XorPos => b ^ pos,
        Operation::AddN(n) => b.wrapping_add(n),
        Operation::AddPos => b.wrapping_add(pos),
    }
}

/// One operation applied in the decoding direction: its inverse.
pub open spec fn apply_decode(op: Operation, b: u8, pos: u8) -> u8 {
    match op {
        Operation::ReverseBits => rev_bits(b),
        Operation::XorN(n) => b ^ n,
        Operation::XorPos => b ^ pos,
        Operation::AddN(n) => b.wrapping_sub(n),
        Operation::AddPos => b.wrapping_sub(pos),
    }
}

/// A byte pushed through the whole pipeline, first operation first.
pub open spec fn encode_fold(ops: Seq<Operation>, b: u8, pos: u8) -> u8
    decreases ops.len(),
{
    if ops.len() == 0 {
        b
    } else {
        apply_encode(ops.last(), encode_fold(ops.drop_last(), b, pos), pos)
    }
}

/// A byte pulled back through the whole pipeline, last operation first.
pub open spec fn decode_fold(ops: Seq<Operation>, b: u8, pos: u8) -> u8
    decreases ops.len(),
{
    if ops.len() == 0 {
        b
    } else {
        apply_decode(ops[0], decode_fold(ops.skip(1), b, pos), pos)
    }
}

/// The cipher pipeline read from a spec: operation codes, two of them with
/// a one-byte argument, unknown codes skipped, terminated by a zero byte.
/// The result carries the operations and the index just past the
/// terminator; a spec with no terminator, or cut short before an argument,
/// has none.
pub open spec fn spec_cipher_ops(s: Seq<u8>, i: int) -> Option<(Seq<Operation>, int)>
    recommends
        0 <= i,
    decreases s.len() - i,
{
    if i < 0 || i >= s.len() {
        None
    } else if s[i] == 0x00 {
        Some((Seq::empty(), i + 1))
    } else if s[i] == 0x01 {
        match spec_cipher_ops(s, i + 1) {
            Some((ops, e)) => Some((seq![Operation::ReverseBits] + ops, e)),
            None => None,
        }
    } else if s[i] == 0x02 {
        if i + 1 >= s.len() {
            None
        } else {
            match spec_cipher_ops(s, i + 2) {
                Some((ops, e)) => Some((seq![Operation::XorN(s[i + 1])] + ops, e)),
                None => None,
            }
        }
    } else if s[i] == 0x03 {
        match spec_cipher_ops(s, i + 1) {
            Some((ops, e)) => Some((seq![Operation::XorPos] + ops, e)),
            None => None,
        }
    } else if s[i] == 0x04 {
        if i + 1 >= s.len() {
            None
        } else {
            match spec_cipher_ops(s, i + 2) {
                Some((ops, e)) => Some((seq![Operation::AddN(s[i + 1])] + ops, e)),
                None => None,
            }
        }
    } else if s[i] == 0x05 {
        match spec_cipher_ops(s, i + 1) {
            Some((ops, e)) => Some((seq![Operation::AddPos] + ops, e)),
            None => None,
        }
    } else {
        match spec_cipher_ops(s, i + 1) {
            Some((ops, e)) => Some((ops, e)),
            None => None,
        }
    }
}

/// A position stepped forward `n` times, wrapping as the stream counter
/// does.
pub open spec fn advanced(p: i32, n: nat) -> i32
    decreases n,
{
    if n == 0 {
        p
    } else {
        advanced(p, (n - 1) as nat).wrapping_add(1)
    }
}

/// A whole byte string pushed through the pipeline, positions counting up
/// from just past `p`.
pub open spec fn encode_seq(ops: Seq<Operation>, bs: Seq<u8>, p: i32) -> Seq<u8>
    decreases bs.len(),
{
    if bs.len() == 0 {
        Seq::empty()
    } else {
        seq![encode_fold(ops, bs[0], low_byte(p.wrapping_add(1)))]
            + encode_seq(ops, bs.skip(1), p.wrapping_add(1))
    }
}

/// The stateful cipher: the pipeline plus one position counter for each
/// direction of the stream.
pub struct Cipher {
    pub ops: Vec<Operation>,
    pub server_pos: i32,
    pub client_pos: i32,
}

impl Cipher {
    /// Read a cipher spec from the head of `input`.  The result also says
    /// where the payload after the spec begins.
    pub fn new(input: &Vec<u8>) -> (r: Option<(Cipher, usize)>)
        ensures
            r matches Some(t) ==> spec_cipher_ops(input@, 0)
                == Some((t.0.ops@, t.1 as int)) && t.0.server_pos == -1 && t.0.client_pos == -1,
            r is None ==> spec_cipher_ops(input@, 0) is None,
    {
        let mut ops: Vec<Operation> = Vec::new();
        let mut i: usize = 0;
        loop
            invariant
                0 <= i <= input@.len(),
                ({
                    let tail = spec_cipher_ops(input@, i as int);
                    let whole = spec_cipher_ops(input@, 0);
                    &&& tail matches Some(t)
                        ==> (whole matches Some(w) && w.0 == ops@ + t.0 && w.1 == t.1)
                    &&& tail is None ==> whole is None
                }),
            decreases input@.len() - i,
        {
            if i >= input.len() {
                return None;
            }
            let c = input[i];
            if c == 0x00 {
                proof {
                    assert(ops@ + Seq::<Operation>::empty() =~= ops@);
                }
                let cipher = Cipher { ops, server_pos: -1, client_pos: -1 };
                return Some((cipher, i + 1));
            } else if c == 0x01 {
                proof {
                    lemma_ops_assoc(ops@, Operation::ReverseBits);
                }
                ops.push(Operation::ReverseBits);
                i = i + 1;
            } else if c == 0x02 {
                if i + 1 >= input.len() {
                    return None;
                }
                let n = input[i + 1];
                proof {
                    lemma_ops_assoc(ops@, Operation::XorN(n));
                }
                ops.push(Operation::XorN(n));
                i = i + 2;
            } else if c == 0x03 {
                proof {
                    lemma_ops_assoc(ops@, Operation::XorPos);
                }
                ops.push(Operation::XorPos);
                i = i + 1;
            } else if c == 0x04 {
                if i + 1 >= input.len() {
                    return None;
                }
                let n = input[i + 1];
                proof {
                    lemma_ops_assoc(ops@, Operation::AddN(n));
                }
                ops.push(Operation::AddN(n));
                i = i + 2;
            } else if c == 0x05 {
                proof {
                    lemma_ops_assoc(ops@, Operation::AddPos);
                }
                ops.push(Operation::AddPos);
                i = i + 1;
            } else {
                i = i + 1;
            }
        }
    }

    /// Encode one outgoing byte, stepping the outgoing position counter.
    pub fn encode_byte(&mut self, byte: u8) -> (r: u8)
        ensures
            final(self).client_pos == old(self).client_pos.wrapping_add(1),
            final(self).ops == old(self).ops,
            final(self).server_pos == old(self).server_pos,
            r == encode_fold(old(self).ops@, byte, low_byte(final(self).client_pos)),
    {
        self.client_pos = self.client_pos.wrapping_add(1);
        let pos = (self.client_pos & 0xFF) as u8;
        let mut acc = byte;
        let n = self.ops.len();
        let mut i: usize = 0;
        while i < n
            invariant
                i <= n,
                n == self.ops@.len(),
                pos == low_byte(self.client_pos),
                acc == encode_fold(self.ops@.subrange(0, i as int), byte, pos),
            decreases n - i,
        {
            proof {
                let cur = self.ops@.subrange(0, (i + 1) as int);
                assert(cur.drop_last() =~= self.ops@.subrange(0, i as int));
                assert(cur.last() == self.ops@[i as int]);
            }
            let op = self.ops[i];
            acc = match op {
                Operation::ReverseBits => ((acc & 0x80) >> 7) | ((acc & 0x40) >> 5)
                    | ((acc & 0x20) >> 3) | ((acc & 0x10) >> 1) | ((acc & 0x08) << 1)
                    | ((acc & 0x04) << 3) | ((acc & 0x02) << 5) | ((acc & 0x01) << 7),
                Operation::XorN(k) => acc ^ k,
                Operation::XorPos => acc ^ pos,
                Operation::AddN(k) => acc.wrapping_add(k),
                Operation::AddPos => acc.wrapping_add(pos),
            };
            i = i + 1;
        }
        proof {
            assert(self.ops@.subrange(0, n as int) =~= self.ops@);
        }
        acc
    }

    /// Decode one incoming byte, stepping the incoming position counter.
    pub fn decode_byte(&mut self, byte: u8) -> (r: u8)
        ensures
            final(self).server_pos == old(self).server_pos.wrapping_add(1),
            final(self).ops == old(self).ops,
            final(self).client_pos == old(self).client_pos,
            r == decode_fold(old(self).ops@, byte, low_byte(final(self).server_pos)),
    {
        self.server_pos = self.server_pos.wrapping_add(1);
        let pos = (self.server_pos & 0xFF) as u8;
        let mut acc = byte;
        let n = self.ops.len();
        let mut i: usize = n;
        while i > 0
            invariant
                i <= n,
                n == self.ops@.len(),
                pos == low_byte(self.server_pos),
                acc == decode_fold(self.ops@.subrange(i as int, n as int), byte, pos),
            decreases i,
        {
            proof {
                let cur = self.ops@.subrange((i - 1) as int, n as int);
                assert(cur[0] == self.ops@[i - 1]);
                assert(cur.skip(1) =~= self.ops@.subrange(i as int, n as int));
            }
            let op = self.ops[i - 1];
            acc = match op {
                Operation::ReverseBits => ((acc & 0x80) >> 7) | ((acc & 0x40) >> 5)
                    | ((acc & 0x20) >> 3) | ((acc & 0x10) >> 1) | ((acc & 0x08) << 1)
                    | ((acc & 0x04) << 3) | ((acc & 0x02) << 5) | ((acc & 0x01) << 7),
                Operation::XorN(k) => acc ^ k,
                Operation::XorPos => acc ^ pos,
                Operation::AddN(k) => acc.wrapping_sub(k),
                Operation::AddPos => acc.wrapping_sub(pos),
            };
            i = i - 1;
        }
        proof {
            assert(self.ops@.subrange(0, n as int) =~= self.ops@);
        }
        acc
    }

    /// Encode a whole outgoing line.
    pub fn encode_string(&mut self, line: &Vec<u8>) -> (r: Vec<u8>)
        ensures
            r@ == encode_seq(old(self).ops@, line@, old(self).client_pos),
            final(self).ops == old(self).ops,
            final(self).server_pos == old(self).server_pos,
            final(self).client_pos == advanced(old(self).client_pos, line@.len()),
    {
        let mut out: Vec<u8> = Vec::new();
        let n = line.len();
        let mut i: usize = 0;
        while i < n
            invariant
                i <= n,
                n == line@.len(),
                self.ops == old(self).ops,
                self.server_pos == old(self).server_pos,
                self.client_pos == advanced(old(self).client_pos, i as nat),
                out@ == encode_seq(old(self).ops@, line@.subrange(0, i as int),
                    old(self).client_pos),
                out@.len() == i,
            decreases n - i,
        {
            proof {
                lemma_encode_seq_snoc(old(self).ops@, line@, i as int, old(self).client_pos);
            }
            let b = line[i];
            let e = self.encode_byte(b);
            out.push(e);
            i = i + 1;
        }
        proof {
            assert(line@.subrange(0, n as int) =~= line@);
        }
        out
    }

    /// Decode buffered incoming bytes up to and including the first byte
    /// that decodes to a line terminator; the result also says where the
    /// rest of the buffer begins.  Nothing decodes — and the position
    /// counter stays put — when no terminator is reached.
    pub fn decode_line(&mut self, input: &Vec<u8>, start: usize) -> (r: Option<(Vec<u8>, usize)>)
        requires
            start <= input@.len(),
        ensures
            final(self).ops == old(self).ops,
            final(self).client_pos == old(self).client_pos,
            r matches Some(t) ==> start < t.1 <= input@.len()
                && t.0@ == decode_run(old(self).ops@, input@, start as int, t.1 as int,
                    old(self).server_pos)
                && t.0@.len() == t.1 - start
                && t.0@.len() > 0
                && t.0@.last() == 0x0A
                && (forall|k: int| 0 <= k < t.0@.len() - 1 ==> t.0@[k] != 0x0A)
                && final(self).server_pos == advanced(old(self).server_pos,
                    (t.1 - start) as nat),
            r is None ==> final(self).server_pos == old(self).server_pos
                && (forall|k: int| 0 <= k < input@.len() - start
                    ==> decode_run(old(self).ops@, input@, start as int, input@.len() as int,
                        old(self).server_pos)[k] != 0x0A),
    {
        // decode into a scratch buffer first; the counter moves only when a
        // full line is found
        let saved_server = self.server_pos;
        let mut out: Vec<u8> = Vec::new();
        let n = input.len();
        let mut i: usize = start;
        while i < n
            invariant
                start <= i <= n,
                n == input@.len(),
                self.ops == old(self).ops,
                self.client_pos == old(self).client_pos,
                saved_server == old(self).server_pos,
                self.server_pos == advanced(saved_server, (i - start) as nat),
                out@ == decode_run(old(self).ops@, input@, start as int, i as int, saved_server),
                out@.len() == i - start,
                forall|k: int| 0 <= k < out@.len() ==> out@[k] != 0x0A,
            decreases n - i,
        {
            proof {
                lemma_decode_run_snoc(old(self).ops@, input@, start as int, i as int,
                    saved_server);
            }
            let b = input[i];
            let d = self.decode_byte(b);
            out.push(d);
            i = i + 1;
            if d == 0x0A {
                return Some((out, i));
            }
        }
        self.server_pos = saved_server;
        None
    }

    /// A cipher pipeline is useless when it encodes a probe text to itself;
    /// such a spec is rejected by the caller.  Probing resets the outgoing
    /// counter.
    pub fn is_redundant(&mut self) -> (r: bool)
        ensures
            final(self).ops == old(self).ops,
            final(self).server_pos == old(self).server_pos,
            final(self).client_pos == -1,
            r == (encode_seq(old(self).ops@, probe_text(), old(self).client_pos) == probe_text()),
    {
        let mut probe: Vec<u8> = Vec::new();
        probe.push(0x61);
        probe.push(0x62);
        probe.push(0x63);
        probe.push(0x64);
        probe.push(0x65);
        probe.push(0x66);
        probe.push(0x67);
        proof {
            assert(probe@ =~= probe_text());
        }
        let encoded = self.encode_string(&probe);
        self.client_pos = -1;
        let same = vecs_eq(&encoded, &probe);
        proof {
            if same {
                assert(encoded@ == probe@);
            }
        }
        same
    }
}

/// The probe text used to detect a do-nothing cipher.
pub open spec fn probe_text() -> Seq<u8> {
    seq![0x61u8, 0x62u8, 0x63u8, 0x64u8, 0x65u8, 0x66u8, 0x67u8]
}

/// Bytes of `input` from `i` up to `e`, each decoded at its stream
/// position.
pub open spec fn decode_run(ops: Seq<Operation>, s: Seq<u8>, i: int, e: int, p: i32) -> Seq<u8>
    recommends
        0 <= i <= e <= s.len(),
    decreases e - i,
{
    if e <= i {
        Seq::empty()
    } else {
        decode_run(ops, s, i, e - 1, p).push(
            decode_fold(ops, s[e - 1], low_byte(advanced(p, (e - i) as nat))),
        )
    }
}

/// Extending a decode run by one byte appends that byte's decoding.
proof fn lemma_decode_run_snoc(ops: Seq<Operation>, s: Seq<u8>, start: int, i: int, p: i32)
    requires
        0 <= start <= i < s.len(),
    ensures
        decode_run(ops, s, start, i + 1, p) == decode_run(ops, s, start, i, p).push(
            decode_fold(ops, s[i], low_byte(advanced(p, (i + 1 - start) as nat))),
        ),
{
}

/// Extending an encode run by one byte appends that byte's encoding.
proof fn lemma_encode_seq_snoc(ops: Seq<Operation>, bs: Seq<u8>, i: int, p: i32)
    requires
        0 <= i < bs.len(),
    ensures
        encode_seq(ops, bs.subrange(0, i + 1), p)
            == encode_seq(ops, bs.subrange(0, i), p).push(
                encode_fold(ops, bs[i], low_byte(advanced(p, (i + 1) as nat))),
            ),
    decreases i,
{
    assert(advanced(p, 0) == p);
    assert(advanced(p, 1) == p.wrapping_add(1));
    if i == 0 {
        let one = bs.subrange(0, 1);
        assert(one[0] == bs[0]);
        assert(one.skip(1) =~= Seq::<u8>::empty());
        assert(encode_seq(ops, Seq::<u8>::empty(), p.wrapping_add(1)) == Seq::<u8>::empty());
        assert(bs.subrange(0, 0) =~= Seq::<u8>::empty());
        assert(encode_seq(ops, Seq::<u8>::empty(), p) == Seq::<u8>::empty());
        assert(encode_seq(ops, one, p)
            =~= encode_seq(ops, bs.subrange(0, 0), p).push(
                encode_fold(ops, bs[0], low_byte(p.wrapping_add(1)))));
    } else {
        lemma_encode_seq_snoc(ops, bs.subrange(1, bs.len() as int), i - 1, p.wrapping_add(1));
        let cur = bs.subrange(0, i + 1);
        let pre = bs.subrange(0, i);
        assert(cur[0] == bs[0]);
        assert(pre[0] == bs[0]);
        assert(cur.skip(1) =~= bs.subrange(1, bs.len() as int).subrange(0, i));
        assert(pre.skip(1) =~= bs.subrange(1, bs.len() as int).subrange(0, i - 1));
        assert(bs.subrange(1, bs.len() as int)[i - 1] == bs[i]);
        assert(advanced(p.wrapping_add(1), i as nat) == advanced(p, (i + 1) as nat)) by {
            lemma_advanced_shift(p, i as nat);
        }
        assert(encode_seq(ops, cur, p)
            =~= encode_seq(ops, pre, p).push(
                encode_fold(ops, bs[i], low_byte(advanced(p, (i + 1) as nat)))));
    }
}

/// Stepping once and then `n` times is stepping `n + 1` times.
proof fn lemma_advanced_shift(p: i32, n: nat)
    ensures
        advanced(p.wrapping_add(1), n) == advanced(p, n + 1),
    decreases n,
{
    if n == 0 {
        assert(advanced(p.wrapping_add(1), 0) == p.wrapping_add(1));
        assert(advanced(p, 0) == p);
        assert(advanced(p, 1) == advanced(p, 0).wrapping_add(1));
    } else {
        lemma_advanced_shift(p, (n - 1) as nat);
        assert(advanced(p.wrapping_add(1), n)
            == advanced(p.wrapping_add(1), (n - 1) as nat).wrapping_add(1));
        assert(advanced(p, n + 1) == advanced(p, n).wrapping_add(1));
    }
}

/// Associativity fact for growing an operation list on the right.
proof fn lemma_ops_assoc(ops: Seq<Operation>, op: Operation)
    ensures
        forall|rest: Seq<Operation>|
            (ops.push(op) + rest) =~= ops + (seq![op] + rest),
{
    assert forall|rest: Seq<Operation>|
        (ops.push(op) + rest) =~= ops + (seq![op] + rest) by {
        assert((ops.push(op) + rest).len() == ops.len() + 1 + rest.len());
    }
}

/// Bytewise equality of two buffers.
fn vecs_eq(a: &Vec<u8>, b: &Vec<u8>) -> (r: bool)
    ensures
        r == (a@ == b@),
{
    if a.len() != b.len() {
        proof {
            assert(a@ != b@);
        }
        return false;
    }
    let n = a.len();
    let mut i: usize = 0;
    while i < n
        invariant
            i <= n,
            n == a@.len() == b@.len(),
            forall|j: int| 0 <= j < i ==> a@[j] == b@[j],
        decreases n - i,
    {
        if a[i] != b[i] {
            return false;
        }
        i = i + 1;
    }
    proof {
        assert(a@ =~= b@);
    }
    true
}

} // verus!
