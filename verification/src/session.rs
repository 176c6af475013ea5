//! Per-peer state of the reliable transport.
//!
//! A session tracks how many in-order bytes it has received and acknowledged
//! (`received_offset`), the received bytes not yet consumed by the
//! application (`received_buffer`), everything the application has written
//! (`sent_buffer`) and how much of it the peer has acknowledged
//! (`sent_offset`).  The transition functions `data_applied`, `data_ack` and
//! `ack_applied` say exactly what each inbound message does to this state;
//! the lemmas at the end state the delivery guarantees.

use vstd::prelude::*;

verus! {

/// One reliable connection to a peer.
///
/// `peer` is an opaque token standing for the datagram source address; the
/// unverified edge assigns one token per distinct address.  Offsets count
/// bytes and stay below 2^31, the range of a wire field.
pub struct Session {
    pub session_id: i32,
    pub peer: u64,
    pub received_offset: i32,
    pub received_buffer: Vec<u8>,
    pub sent_offset: i32,
    pub sent_buffer: Vec<u8>,
    pub last_activity: u64,
    pub open: bool,
}

/// Mathematical form of a session.
#[verifier::ext_equal]
pub struct SessionV {
    pub session_id: int,
    pub peer: u64,
    pub received_offset: int,
    pub received_buffer: Seq<u8>,
    pub sent_offset: int,
    pub sent_buffer: Seq<u8>,
    pub last_activity: u64,
    pub open: bool,
}

impl View for Session {
    type V = SessionV;

    open spec fn view(&self) -> SessionV {
        SessionV {
            session_id: self.session_id as int,
            peer: self.peer,
            received_offset: self.received_offset as int,
            received_buffer: self.received_buffer@,
            sent_offset: self.sent_offset as int,
            sent_buffer: self.sent_buffer@,
            last_activity: self.last_activity,
            open: self.open,
        }
    }
}

/// The state a session starts in: nothing received, nothing sent, open.
pub open spec fn fresh_state(session_id: int, peer: u64, now: u64) -> SessionV {
    SessionV {
        session_id,
        peer,
        received_offset: 0,
        received_buffer: Seq::empty(),
        sent_offset: 0,
        sent_buffer: Seq::empty(),
        last_activity: now,
        open: true,
    }
}

/// Well-formed session state.
pub open spec fn wf_state(s: SessionV) -> bool {
    &&& 0 <= s.session_id <= 0x7FFF_FFFF
    &&& 0 <= s.received_buffer.len() <= s.received_offset <= 0x7FFF_FFFF
    &&& 0 <= s.sent_offset <= s.sent_buffer.len() <= 0x7FFF_FFFF
}

// ---------------------------------------------------------------------------
// Transitions
// ---------------------------------------------------------------------------

/// State after a validated `Data{pos, payload}` arrives.
///
/// Only an in-order message — `pos` equal to the current offset, with the
/// grown offset still in field range — is applied; everything else leaves
/// the state untouched.
pub open spec fn data_applied(s: SessionV, pos: int, payload: Seq<u8>) -> SessionV {
    if s.open && pos == s.received_offset && s.received_offset + payload.len() <= 0x7FFF_FFFF {
        SessionV {
            received_offset: s.received_offset + payload.len(),
            received_buffer: s.received_buffer + payload,
            ..s
        }
    } else {
        s
    }
}

/// The cumulative acknowledgment sent back for a `Data{pos, payload}`:
/// the new offset when the message was applied, the unchanged offset for a
/// gap or a partial overlap, and none for a pure duplicate.
pub open spec fn data_ack(s: SessionV, pos: int, payload: Seq<u8>) -> Option<int> {
    if !s.open {
        None
    } else if pos == s.received_offset && s.received_offset + payload.len() <= 0x7FFF_FFFF {
        Some(s.received_offset + payload.len())
    } else if pos > s.received_offset {
        Some(s.received_offset)
    } else if pos + payload.len() > s.received_offset {
        Some(s.received_offset)
    } else {
        None
    }
}

/// State after a validated `Ack{len}` arrives: a peer acknowledging more
/// than was ever sent closes the session; otherwise the acknowledged count
/// can only move forward.
pub open spec fn ack_applied(s: SessionV, len: int) -> SessionV {
    if !s.open {
        s
    } else if len > s.sent_buffer.len() {
        SessionV { open: false, ..s }
    } else if len > s.sent_offset {
        SessionV { sent_offset: len, ..s }
    } else {
        s
    }
}

/// An `Ack{len}` is a protocol violation when it acknowledges more bytes
/// than were ever sent.
pub open spec fn ack_violation(s: SessionV, len: int) -> bool {
    s.open && len > s.sent_buffer.len()
}

/// Index of the last line terminator in the buffer, or -1.
pub open spec fn last_newline(s: Seq<u8>) -> int
    decreases s.len(),
{
    if s.len() == 0 {
        -1
    } else if s.last() == 0x0A {
        s.len() - 1
    } else {
        last_newline(s.drop_last())
    }
}

/// What a read of the stream adapter yields.
#[derive(Debug)]
pub enum ReadOutcome {
    /// The longest prefix of the buffer that ends with a line terminator.
    Line(Vec<u8>),
    /// No full line is buffered yet; the caller polls again.
    WouldBlock,
    /// The session is closed and nothing is buffered.
    EndOfStream,
}

impl Session {
    pub open spec fn wf(&self) -> bool {
        wf_state(self@)
    }

    /// A fresh session, created from a validated connect.
    pub fn new(session_id: i32, peer: u64, now: u64) -> (s: Session)
        requires
            0 <= session_id,
        ensures
            s.wf(),
            s@ == fresh_state(session_id as int, peer, now),
    {
        Session {
            session_id,
            peer,
            received_offset: 0,
            received_buffer: Vec::new(),
            sent_offset: 0,
            sent_buffer: Vec::new(),
            last_activity: now,
            open: true,
        }
    }

    /// Take in a data message; the result is the cumulative acknowledgment
    /// to send back, if one is owed.
    ///
    /// An in-order message is appended and acknowledged at the new offset; a
    /// gap or a partial overlap is never buffered and re-acknowledges the
    /// old offset; a pure duplicate is ignored outright.
    pub fn on_data(&mut self, pos: i32, payload: &Vec<u8>) -> (r: Option<i32>)
        requires
            old(self).wf(),
            0 <= pos,
        ensures
            final(self).wf(),
            final(self)@ == data_applied(old(self)@, pos as int, payload@),
            r is Some <==> data_ack(old(self)@, pos as int, payload@) is Some,
            r matches Some(a) ==> data_ack(old(self)@, pos as int, payload@) == Some(a as int),
    {
        if !self.open {
            return None;
        }
        if pos == self.received_offset
            && payload.len() <= (0x7FFF_FFFF - self.received_offset) as usize {
            let mut j: usize = 0;
            let ghost pre = self.received_buffer@;
            while j < payload.len()
                invariant
                    j <= payload@.len(),
                    self.received_buffer@ == pre + payload@.subrange(0, j as int),
                    self.session_id == old(self).session_id,
                    self.peer == old(self).peer,
                    self.received_offset == old(self).received_offset,
                    self.sent_offset == old(self).sent_offset,
                    self.sent_buffer == old(self).sent_buffer,
                    self.last_activity == old(self).last_activity,
                    self.open == old(self).open,
                decreases payload@.len() - j,
            {
                proof {
                    assert(payload@.subrange(0, (j + 1) as int)
                        =~= payload@.subrange(0, j as int).push(payload@[j as int]));
                    assert((pre + payload@.subrange(0, j as int)).push(payload@[j as int])
                        =~= pre + payload@.subrange(0, (j + 1) as int));
                }
                let b = payload[j];
                self.received_buffer.push(b);
                j = j + 1;
            }
            proof {
                assert(payload@.subrange(0, payload@.len() as int) =~= payload@);
            }
            self.received_offset = self.received_offset + payload.len() as i32;
            return Some(self.received_offset);
        }
        if pos > self.received_offset {
            return Some(self.received_offset);
        }
        if pos == self.received_offset {
            // in order, but growing past the field range: ask again from the
            // current offset instead of overflowing it
            return Some(self.received_offset);
        }
        if payload.len() > (self.received_offset - pos) as usize {
            return Some(self.received_offset);
        }
        None
    }

    /// Take in a cumulative acknowledgment; true means the peer acknowledged
    /// more than was ever sent, the session is now closed, and the caller
    /// owes the peer a close message.
    pub fn on_ack(&mut self, len: i32) -> (violation: bool)
        requires
            old(self).wf(),
            0 <= len,
        ensures
            final(self).wf(),
            final(self)@ == ack_applied(old(self)@, len as int),
            violation == ack_violation(old(self)@, len as int),
    {
        if !self.open {
            return false;
        }
        if len as usize > self.sent_buffer.len() {
            self.open = false;
            return true;
        }
        if len > self.sent_offset {
            self.sent_offset = len;
        }
        false
    }

    /// Append application bytes to the outgoing stream; the result is the
    /// wire position the new bytes start at.  The caller sends them as one
    /// or more data messages and the retransmission tick repeats them until
    /// the peer acknowledges.
    pub fn write(&mut self, buf: &Vec<u8>) -> (pos: i32)
        requires
            old(self).wf(),
            old(self)@.sent_buffer.len() + buf@.len() <= 0x7FFF_FFFF,
        ensures
            final(self).wf(),
            pos as int == old(self)@.sent_buffer.len(),
            final(self)@ == (SessionV { sent_buffer: old(self)@.sent_buffer + buf@, ..old(self)@ }),
    {
        let pos = self.sent_buffer.len() as i32;
        let mut j: usize = 0;
        let ghost pre = self.sent_buffer@;
        while j < buf.len()
            invariant
                j <= buf@.len(),
                self.sent_buffer@ == pre + buf@.subrange(0, j as int),
                self.session_id == old(self).session_id,
                self.peer == old(self).peer,
                self.received_offset == old(self).received_offset,
                self.received_buffer == old(self).received_buffer,
                self.sent_offset == old(self).sent_offset,
                self.last_activity == old(self).last_activity,
                self.open == old(self).open,
            decreases buf@.len() - j,
        {
            proof {
                assert(buf@.subrange(0, (j + 1) as int)
                    =~= buf@.subrange(0, j as int).push(buf@[j as int]));
                assert((pre + buf@.subrange(0, j as int)).push(buf@[j as int])
                    =~= pre + buf@.subrange(0, (j + 1) as int));
            }
            let b = buf[j];
            self.sent_buffer.push(b);
            j = j + 1;
        }
        proof {
            assert(buf@.subrange(0, buf@.len() as int) =~= buf@);
        }
        pos
    }

    /// The retransmission tick: while unacknowledged bytes are outstanding
    /// on an open session, exactly the unacknowledged suffix is re-sent,
    /// from the acknowledged offset.
    pub fn tick(&self) -> (r: Option<(i32, Vec<u8>)>)
        requires
            self.wf(),
        ensures
            r is Some <==> self@.open && self@.sent_offset < self@.sent_buffer.len(),
            r matches Some(p) ==> p.0 as int == self@.sent_offset
                && p.1@ == self@.sent_buffer.subrange(
                    self@.sent_offset,
                    self@.sent_buffer.len() as int,
                ),
    {
        if !self.open {
            return None;
        }
        if (self.sent_offset as usize) >= self.sent_buffer.len() {
            return None;
        }
        let mut suffix: Vec<u8> = Vec::new();
        let mut j: usize = self.sent_offset as usize;
        proof {
            assert(self@.sent_buffer.subrange(self@.sent_offset, self@.sent_offset)
                =~= Seq::<u8>::empty());
        }
        while j < self.sent_buffer.len()
            invariant
                0 <= self.sent_offset,
                self.sent_offset as usize <= j <= self.sent_buffer@.len(),
                suffix@ == self.sent_buffer@.subrange(self.sent_offset as int, j as int),
            decreases self.sent_buffer@.len() - j,
        {
            proof {
                assert(self.sent_buffer@.subrange(self.sent_offset as int, (j + 1) as int)
                    =~= self.sent_buffer@.subrange(self.sent_offset as int, j as int)
                        .push(self.sent_buffer@[j as int]));
            }
            let b = self.sent_buffer[j];
            suffix.push(b);
            j = j + 1;
        }
        Some((self.sent_offset, suffix))
    }

    /// Mark the session closed; no further sends happen on it.
    pub fn close(&mut self)
        requires
            old(self).wf(),
        ensures
            final(self).wf(),
            final(self)@ == (SessionV { open: false, ..old(self)@ }),
    {
        self.open = false;
    }

    /// One read of the stream adapter: everything up to and including the
    /// last buffered line terminator, a would-block signal while the session
    /// may still deliver one, and end-of-stream once the session is closed
    /// with nothing buffered.
    pub fn read_line(&mut self) -> (r: ReadOutcome)
        requires
            old(self).wf(),
        ensures
            final(self).wf(),
            ({
                let buf = old(self)@.received_buffer;
                let nl = last_newline(buf);
                &&& nl >= 0 ==> (r matches ReadOutcome::Line(line)
                    && line@ == buf.subrange(0, nl + 1)
                    && final(self)@ == (SessionV {
                        received_buffer: buf.subrange(nl + 1, buf.len() as int),
                        ..old(self)@
                    }))
                &&& nl < 0 && !old(self)@.open && buf.len() == 0 ==> r is EndOfStream
                    && final(self)@ == old(self)@
                &&& nl < 0 && (old(self)@.open || buf.len() > 0) ==> r is WouldBlock
                    && final(self)@ == old(self)@
            }),
    {
        let n = self.received_buffer.len();
        let mut idx: usize = n;
        let mut found = false;
        proof {
            assert(self.received_buffer@.subrange(0, n as int) =~= self.received_buffer@);
        }
        while idx > 0 && !found
            invariant
                idx <= n,
                n == self.received_buffer@.len(),
                !found ==> last_newline(self.received_buffer@)
                    == last_newline(self.received_buffer@.subrange(0, idx as int)),
                found ==> idx < n + 1 && 1 <= idx
                    && last_newline(self.received_buffer@) == idx - 1,
            decreases (idx as int) + (if found { 0int } else { 1int }),
        {
            proof {
                let pre = self.received_buffer@.subrange(0, idx as int);
                assert(pre.drop_last() =~= self.received_buffer@.subrange(0, (idx - 1) as int));
                assert(pre.last() == self.received_buffer@[idx - 1]);
            }
            if self.received_buffer[idx - 1] == 0x0A {
                found = true;
            } else {
                idx = idx - 1;
            }
        }
        if !found {
            proof {
                assert(self.received_buffer@.subrange(0, 0) =~= Seq::<u8>::empty());
            }
            if !self.open && n == 0 {
                return ReadOutcome::EndOfStream;
            }
            return ReadOutcome::WouldBlock;
        }
        // the buffer splits at idx: the line is [0, idx), the rest stays
        let mut line: Vec<u8> = Vec::new();
        let mut j: usize = 0;
        proof {
            assert(self.received_buffer@.subrange(0, 0) =~= Seq::<u8>::empty());
        }
        while j < idx
            invariant
                j <= idx <= self.received_buffer@.len(),
                line@ == self.received_buffer@.subrange(0, j as int),
            decreases idx - j,
        {
            proof {
                assert(self.received_buffer@.subrange(0, (j + 1) as int)
                    =~= self.received_buffer@.subrange(0, j as int)
                        .push(self.received_buffer@[j as int]));
            }
            let b = self.received_buffer[j];
            line.push(b);
            j = j + 1;
        }
        let mut rest: Vec<u8> = Vec::new();
        let mut j2: usize = idx;
        proof {
            assert(self.received_buffer@.subrange(idx as int, idx as int)
                =~= Seq::<u8>::empty());
        }
        while j2 < n
            invariant
                idx <= j2 <= n,
                n == self.received_buffer@.len(),
                rest@ == self.received_buffer@.subrange(idx as int, j2 as int),
            decreases n - j2,
        {
            proof {
                assert(self.received_buffer@.subrange(idx as int, (j2 + 1) as int)
                    =~= self.received_buffer@.subrange(idx as int, j2 as int)
                        .push(self.received_buffer@[j2 as int]));
            }
            let b = self.received_buffer[j2];
            rest.push(b);
            j2 = j2 + 1;
        }
        self.received_buffer = rest;
        ReadOutcome::Line(line)
    }
}

// ---------------------------------------------------------------------------
// Delivery guarantees
// ---------------------------------------------------------------------------

/// Concatenation of a list of payloads, in order.
pub open spec fn concat_payloads(ps: Seq<Seq<u8>>) -> Seq<u8>
    decreases ps.len(),
{
    if ps.len() == 0 {
        Seq::empty()
    } else {
        concat_payloads(ps.drop_last()) + ps.last()
    }
}

/// State after a list of payloads is delivered in order, exactly once: each
/// data message arrives at the session's current offset.
pub open spec fn deliver_in_order(s: SessionV, ps: Seq<Seq<u8>>) -> SessionV
    decreases ps.len(),
{
    if ps.len() == 0 {
        s
    } else {
        let mid = deliver_in_order(s, ps.drop_last());
        data_applied(mid, mid.received_offset, ps.last())
    }
}

/// In-order delivery fills the buffer with exactly the concatenation of the
/// payloads, in position order, and advances the offset by their total
/// length.
pub proof fn lemma_in_order_delivery(s: SessionV, ps: Seq<Seq<u8>>)
    requires
        s.open,
        s.received_offset + concat_payloads(ps).len() <= 0x7FFF_FFFF,
        s.received_offset >= 0,
    ensures
        deliver_in_order(s, ps).received_buffer == s.received_buffer + concat_payloads(ps),
        deliver_in_order(s, ps).received_offset == s.received_offset + concat_payloads(ps).len(),
        deliver_in_order(s, ps).open,
    decreases ps.len(),
{
    if ps.len() == 0 {
        assert(s.received_buffer + concat_payloads(ps) =~= s.received_buffer);
    } else {
        lemma_concat_payloads_len(ps.drop_last());
        lemma_concat_payloads_len(ps);
        lemma_in_order_delivery(s, ps.drop_last());
        let mid = deliver_in_order(s, ps.drop_last());
        assert((s.received_buffer + concat_payloads(ps.drop_last())) + ps.last()
            =~= s.received_buffer + (concat_payloads(ps.drop_last()) + ps.last()));
    }
}

/// The concatenation is never shorter than any single payload's share.
proof fn lemma_concat_payloads_len(ps: Seq<Seq<u8>>)
    ensures
        concat_payloads(ps).len() >= 0,
        ps.len() > 0 ==> concat_payloads(ps).len()
            == concat_payloads(ps.drop_last()).len() + ps.last().len(),
    decreases ps.len(),
{
}

/// Re-delivering a previously applied data message — same position, same or
/// shorter payload — changes nothing: not the buffer, not the offset, and no
/// acknowledgment is owed.
pub proof fn lemma_duplicate_ignored(s: SessionV, pos: int, payload: Seq<u8>)
    requires
        s.open,
        0 <= pos,
        pos + payload.len() <= s.received_offset,
    ensures
        data_applied(s, pos, payload) == s,
        !(pos == s.received_offset && payload.len() == 0) ==> data_ack(s, pos, payload) is None,
{
    if s.open && pos == s.received_offset && s.received_offset + payload.len() <= 0x7FFF_FFFF {
        assert(payload.len() == 0);
        assert(payload =~= Seq::<u8>::empty());
        assert(s.received_buffer + payload =~= s.received_buffer);
        assert(data_applied(s, pos, payload) =~= s);
    }
}

/// A data message beyond the current offset is never buffered, and provokes
/// exactly one acknowledgment of the old offset.
pub proof fn lemma_gap_not_buffered(s: SessionV, pos: int, payload: Seq<u8>)
    requires
        s.open,
        pos > s.received_offset,
    ensures
        data_applied(s, pos, payload) == s,
        data_ack(s, pos, payload) == Some(s.received_offset),
{
}

/// After a partial acknowledgment of `k` of the `n` bytes sent, the
/// retransmission tick owes the peer exactly the suffix from `k`, not the
/// whole buffer.
pub proof fn lemma_partial_ack_resend(s: SessionV, k: int)
    requires
        s.open,
        wf_state(s),
        s.sent_offset <= k < s.sent_buffer.len(),
    ensures
        ack_applied(s, k).sent_offset == k,
        ack_applied(s, k).open,
        ack_applied(s, k).sent_buffer == s.sent_buffer,
{
}

} // verus!
