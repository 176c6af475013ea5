//! The session table: demultiplexes decoded datagrams by session id, owns
//! every session, answers connects, routes data and acknowledgments, replies
//! to strays, and expires the idle.
//!
//! The unverified edge decodes each datagram with `parse_message`, hands the
//! message to `route` together with a token for its source address and the
//! current time, sends the datagrams `route` returns, and drives the stream
//! adapter methods `stream_read` and `stream_write` for the application.

use vstd::prelude::*;
use crate::parse::LcrpMessage;
use crate::parse::MessageV;
use crate::parse::valid_msg;
use crate::session::Session;
use crate::session::SessionV;
use crate::session::ReadOutcome;
use crate::session::data_applied;
use crate::session::data_ack;
use crate::session::ack_applied;
use crate::session::ack_violation;
use crate::session::fresh_state;
use crate::session::last_newline;

verus! {

/// A datagram to send: the peer token it goes to, and the message.
pub struct Outgoing {
    pub peer: u64,
    pub msg: LcrpMessage,
}

/// What routing one message produced: replies to send, and the id of a
/// freshly accepted session, if the message opened one.
pub struct Routed {
    pub out: Vec<Outgoing>,
    pub accepted: Option<i32>,
}

/// Index of the session holding `id`, or -1.
pub open spec fn idx_of(ss: Seq<Session>, id: int) -> int
    decreases ss.len(),
{
    if ss.len() == 0 {
        -1
    } else if ss[0].session_id == id {
        0
    } else if idx_of(ss.skip(1), id) < 0 {
        -1
    } else {
        idx_of(ss.skip(1), id) + 1
    }
}

/// `idx_of` finds the first index bearing `id`, and -1 only when none does.
pub proof fn lemma_idx_of(ss: Seq<Session>, id: int)
    ensures
        idx_of(ss, id) >= 0 ==> idx_of(ss, id) < ss.len()
            && ss[idx_of(ss, id)].session_id == id
            && (forall|j: int| 0 <= j < idx_of(ss, id) ==> ss[j].session_id != id),
        idx_of(ss, id) < 0 ==> forall|j: int|
            0 <= j < ss.len() ==> ss[j].session_id != id,
    decreases ss.len(),
{
    if ss.len() > 0 && ss[0].session_id != id {
        lemma_idx_of(ss.skip(1), id);
        assert(forall|j: int| 1 <= j < ss.len() ==> ss[j] == ss.skip(1)[j - 1]);
    }
}

/// A session refreshed by a valid inbound message at time `now`.
pub open spec fn refreshed(s: SessionV, now: u64) -> SessionV {
    SessionV { last_activity: now, ..s }
}

/// A session survives the sweep at `now` when its idle time is within the
/// limit.
pub open spec fn keep_at(now: u64, idle_limit: u64) -> spec_fn(Session) -> bool {
    |s: Session| now <= s.last_activity + idle_limit
}

/// Owner of every session, keyed by the 31-bit session id.
pub struct SessionTable {
    pub sessions: Vec<Session>,
}

impl SessionTable {
    /// Sessions are well formed and no id occurs twice.
    pub open spec fn wf(&self) -> bool {
        &&& forall|i: int|
            0 <= i < self.sessions@.len() ==> (#[trigger] self.sessions@[i]).wf()
        &&& forall|i: int, j: int|
            0 <= i < j < self.sessions@.len()
                ==> (#[trigger] self.sessions@[i]).session_id
                    != (#[trigger] self.sessions@[j]).session_id
    }

    pub open spec fn has_id(&self, id: int) -> bool {
        idx_of(self.sessions@, id) >= 0
    }

    pub fn new() -> (t: SessionTable)
        ensures
            t.wf(),
            t.sessions@.len() == 0,
    {
        SessionTable { sessions: Vec::new() }
    }

    /// Find the session holding `id`.
    fn find(&self, id: i32) -> (r: Option<usize>)
        requires
            self.wf(),
        ensures
            r matches Some(i) ==> idx_of(self.sessions@, id as int) == i
                && i < self.sessions@.len()
                && self.sessions@[i as int].session_id == id,
            r is None ==> idx_of(self.sessions@, id as int) < 0,
    {
        proof {
            lemma_idx_of(self.sessions@, id as int);
        }
        let n = self.sessions.len();
        let mut i: usize = 0;
        while i < n
            invariant
                i <= n,
                n == self.sessions@.len(),
                forall|j: int| 0 <= j < i ==> self.sessions@[j].session_id != id,
            decreases n - i,
        {
            if self.sessions[i].session_id == id {
                proof {
                    lemma_idx_of(self.sessions@, id as int);
                    if idx_of(self.sessions@, id as int) < 0 {
                        assert(false);
                    }
                    if idx_of(self.sessions@, id as int) < i {
                        assert(false);
                    }
                    if idx_of(self.sessions@, id as int) > i {
                        assert(false);
                    }
                }
                return Some(i);
            }
            i = i + 1;
        }
        proof {
            lemma_idx_of(self.sessions@, id as int);
            if idx_of(self.sessions@, id as int) >= 0 {
                assert(false);
            }
        }
        None
    }

    /// Route one decoded datagram.
    ///
    /// A connect for an unknown id opens a session and is acknowledged at
    /// zero; a connect for a known id is acknowledged again and opens
    /// nothing.  Data and acknowledgments for a known id refresh its
    /// activity and step the session's state machine, sending back whatever
    /// it owes.  A close for a known id is answered with a close and the
    /// session is removed.  Any data, acknowledgment or close for an unknown
    /// id is answered with exactly one close and nothing else happens.
    pub fn route(&mut self, src: u64, msg: &LcrpMessage, now: u64) -> (r: Routed)
        requires
            old(self).wf(),
            valid_msg(msg@),
        ensures
            final(self).wf(),
            ({
                let ss = old(self).sessions@;
                match msg@ {
                    MessageV::Connect { session_id } => {
                        &&& r.out@.len() == 1
                        &&& r.out@[0].peer == src
                        &&& r.out@[0].msg@ == (MessageV::Ack { session_id, len: 0 })
                        &&& idx_of(ss, session_id) >= 0 ==> final(self).sessions@ == ss
                            && r.accepted is None
                        &&& idx_of(ss, session_id) < 0 ==> {
                            &&& final(self).sessions@.len() == ss.len() + 1
                            &&& (forall|j: int| 0 <= j < ss.len()
                                ==> final(self).sessions@[j] == ss[j])
                            &&& final(self).sessions@.last()@
                                == fresh_state(session_id, src, now)
                            &&& (r.accepted matches Some(a) && a as int == session_id)
                        }
                    },
                    MessageV::Data { session_id, pos, data } => {
                        let i = idx_of(ss, session_id);
                        &&& r.accepted is None
                        &&& i < 0 ==> final(self).sessions@ == ss && r.out@.len() == 1
                            && r.out@[0].peer == src
                            && r.out@[0].msg@ == (MessageV::Close { session_id })
                        &&& i >= 0 ==> {
                            let s1 = refreshed(ss[i]@, now);
                            &&& final(self).sessions@.len() == ss.len()
                            &&& (forall|j: int| 0 <= j < ss.len() && j != i
                                ==> final(self).sessions@[j] == ss[j])
                            &&& final(self).sessions@[i]@ == data_applied(s1, pos, data)
                            &&& match data_ack(s1, pos, data) {
                                Some(a) => r.out@.len() == 1 && r.out@[0].peer == ss[i].peer
                                    && r.out@[0].msg@ == (MessageV::Ack {
                                        session_id,
                                        len: a,
                                    }),
                                None => r.out@.len() == 0,
                            }
                        }
                    },
                    MessageV::Ack { session_id, len } => {
                        let i = idx_of(ss, session_id);
                        &&& r.accepted is None
                        &&& i < 0 ==> final(self).sessions@ == ss && r.out@.len() == 1
                            && r.out@[0].peer == src
                            && r.out@[0].msg@ == (MessageV::Close { session_id })
                        &&& i >= 0 ==> {
                            let s1 = refreshed(ss[i]@, now);
                            &&& final(self).sessions@.len() == ss.len()
                            &&& (forall|j: int| 0 <= j < ss.len() && j != i
                                ==> final(self).sessions@[j] == ss[j])
                            &&& final(self).sessions@[i]@ == ack_applied(s1, len)
                            &&& ack_violation(s1, len) ==> r.out@.len() == 1
                                && r.out@[0].peer == ss[i].peer
                                && r.out@[0].msg@ == (MessageV::Close { session_id })
                            &&& !ack_violation(s1, len) ==> r.out@.len() == 0
                        }
                    },
                    MessageV::Close { session_id } => {
                        let i = idx_of(ss, session_id);
                        &&& r.accepted is None
                        &&& r.out@.len() == 1
                        &&& r.out@[0].msg@ == (MessageV::Close { session_id })
                        &&& i < 0 ==> final(self).sessions@ == ss && r.out@[0].peer == src
                        &&& i >= 0 ==> final(self).sessions@ == ss.remove(i)
                            && r.out@[0].peer == ss[i].peer
                    },
                }
            }),
    {
        let mut out: Vec<Outgoing> = Vec::new();
        match msg {
            LcrpMessage::Connect { session_id } => {
                let id = *session_id;
                out.push(Outgoing { peer: src, msg: LcrpMessage::Ack { session_id: id, len: 0 } });
                match self.find(id) {
                    Some(_) => Routed { out, accepted: None },
                    None => {
                        proof {
                            lemma_idx_of(self.sessions@, id as int);
                        }
                        let s = Session::new(id, src, now);
                        self.sessions.push(s);
                        Routed { out, accepted: Some(id) }
                    },
                }
            },
            LcrpMessage::Data { session_id, pos, data } => {
                let id = *session_id;
                match self.find(id) {
                    Some(i) => {
                        let peer = self.sessions[i].peer;
                        let s = &mut self.sessions[i];
                        s.last_activity = now;
                        let ack = s.on_data(*pos, data);
                        match ack {
                            Some(a) => {
                                out.push(Outgoing {
                                    peer,
                                    msg: LcrpMessage::Ack { session_id: id, len: a },
                                });
                            },
                            None => {},
                        }
                        Routed { out, accepted: None }
                    },
                    None => {
                        out.push(Outgoing { peer: src, msg: LcrpMessage::Close { session_id: id } });
                        Routed { out, accepted: None }
                    },
                }
            },
            LcrpMessage::Ack { session_id, len } => {
                let id = *session_id;
                match self.find(id) {
                    Some(i) => {
                        let peer = self.sessions[i].peer;
                        let s = &mut self.sessions[i];
                        s.last_activity = now;
                        let violation = s.on_ack(*len);
                        if violation {
                            out.push(Outgoing { peer, msg: LcrpMessage::Close { session_id: id } });
                        }
                        Routed { out, accepted: None }
                    },
                    None => {
                        out.push(Outgoing { peer: src, msg: LcrpMessage::Close { session_id: id } });
                        Routed { out, accepted: None }
                    },
                }
            },
            LcrpMessage::Close { session_id } => {
                let id = *session_id;
                match self.find(id) {
                    Some(i) => {
                        let peer = self.sessions[i].peer;
                        out.push(Outgoing { peer, msg: LcrpMessage::Close { session_id: id } });
                        self.sessions.remove(i);
                        Routed { out, accepted: None }
                    },
                    None => {
                        out.push(Outgoing { peer: src, msg: LcrpMessage::Close { session_id: id } });
                        Routed { out, accepted: None }
                    },
                }
            },
        }
    }
    /// Remove every session that has seen no valid inbound message for
    /// longer than the idle limit.  No peer is notified.
    pub fn sweep(&mut self, now: u64, idle_limit: u64)
        requires
            old(self).wf(),
        ensures
            final(self).wf(),
            final(self).sessions@ == old(self).sessions@.filter(keep_at(now, idle_limit)),
    {
        let ghost orig = self.sessions@;
        let ghost pred = keep_at(now, idle_limit);
        let ghost n = orig.len();
        let mut kept: Vec<Session> = Vec::new();
        let ghost c = 0int;
        proof {
            assert(orig.subrange(0, 0) =~= Seq::<Session>::empty());
            assert(orig.subrange(0, orig.len() as int) =~= orig);
            reveal(Seq::<Session>::filter);
            assert(Seq::<Session>::empty().filter(pred) =~= Seq::<Session>::empty());
        }
        while self.sessions.len() > 0
            invariant
                0 <= c <= n,
                n == orig.len(),
                self.sessions@ == orig.subrange(c, n as int),
                old(self).wf(),
                orig == old(self).sessions@,
                pred == keep_at(now, idle_limit),
                kept@ == orig.subrange(0, c).filter(pred),
                forall|k: int| 0 <= k < kept@.len() ==> (#[trigger] kept@[k]).wf(),
                forall|a: int, b: int|
                    0 <= a < b < kept@.len()
                        ==> (#[trigger] kept@[a]).session_id != (#[trigger] kept@[b]).session_id,
                forall|k: int, j: int|
                    0 <= k < kept@.len() && c <= j < n
                        ==> (#[trigger] kept@[k]).session_id != (#[trigger] orig[j]).session_id,
            decreases self.sessions@.len(),
        {
            let ghost pre = orig.subrange(0, c);
            let ghost cur = orig.subrange(0, c + 1);
            proof {
                assert(cur.drop_last() =~= pre);
                assert(cur.last() == orig[c]);
                assert(self.sessions@[0] == orig[c]);
            }
            let s = self.sessions.remove(0);
            let keep = now <= s.last_activity || now - s.last_activity <= idle_limit;
            proof {
                reveal(Seq::<Session>::filter);
                assert(keep == pred(orig[c]));
                if pred(cur.last()) {
                    assert(cur.filter(pred) =~= pre.filter(pred).push(cur.last()));
                } else {
                    assert(cur.filter(pred) =~= pre.filter(pred));
                }
                assert(self.sessions@ =~= orig.subrange(c + 1, n as int));
            }
            if keep {
                kept.push(s);
            }
            proof {
                c = c + 1;
            }
        }
        proof {
            assert(orig.subrange(c, n as int).len() == 0);
            assert(c == n);
            assert(orig.subrange(0, c) =~= orig);
        }
        self.sessions = kept;
    }

    /// The ids of every session in the table, in table order.
    pub fn session_ids(&self) -> (r: Vec<i32>)
        ensures
            r@.len() == self.sessions@.len(),
            forall|k: int| 0 <= k < r@.len() ==> r@[k] == self.sessions@[k].session_id,
    {
        let n = self.sessions.len();
        let mut out: Vec<i32> = Vec::new();
        let mut i: usize = 0;
        while i < n
            invariant
                i <= n,
                n == self.sessions@.len(),
                out@.len() == i,
                forall|k: int| 0 <= k < i ==> out@[k] == self.sessions@[k].session_id,
            decreases n - i,
        {
            let id = self.sessions[i].session_id;
            out.push(id);
            i = i + 1;
        }
        out
    }

    /// The retransmission tick for one session: the peer, the position and
    /// the unacknowledged suffix to re-send, while one is outstanding.
    pub fn tick_by_id(&self, id: i32) -> (r: Option<(u64, i32, Vec<u8>)>)
        requires
            self.wf(),
        ensures
            ({
                let i = idx_of(self.sessions@, id as int);
                &&& i < 0 ==> r is None
                &&& i >= 0 ==> {
                    let s = self.sessions@[i]@;
                    &&& (r is Some <==> s.open && s.sent_offset < s.sent_buffer.len())
                    &&& (r matches Some(t) ==> t.0 == s.peer && t.1 as int == s.sent_offset
                        && t.2@ == s.sent_buffer.subrange(
                            s.sent_offset,
                            s.sent_buffer.len() as int,
                        ))
                }
            }),
    {
        match self.find(id) {
            Some(i) => {
                let s = &self.sessions[i];
                match s.tick() {
                    Some((pos, suffix)) => Some((s.peer, pos, suffix)),
                    None => None,
                }
            },
            None => None,
        }
    }

    /// One read on the stream adapter of session `id`: a full line when one
    /// is buffered, end-of-stream when the session is gone or closed and
    /// drained, and would-block otherwise.
    pub fn stream_read(&mut self, id: i32) -> (r: ReadOutcome)
        requires
            old(self).wf(),
        ensures
            final(self).wf(),
            ({
                let ss = old(self).sessions@;
                let i = idx_of(ss, id as int);
                &&& i < 0 ==> r is EndOfStream && final(self).sessions@ == ss
                &&& i >= 0 ==> {
                    let buf = ss[i]@.received_buffer;
                    let nl = last_newline(buf);
                    &&& final(self).sessions@.len() == ss.len()
                    &&& (forall|j: int| 0 <= j < ss.len() && j != i
                        ==> final(self).sessions@[j] == ss[j])
                    &&& nl >= 0 ==> (r matches ReadOutcome::Line(line)
                        && line@ == buf.subrange(0, nl + 1)
                        && final(self).sessions@[i]@ == (SessionV {
                            received_buffer: buf.subrange(nl + 1, buf.len() as int),
                            ..ss[i]@
                        }))
                    &&& nl < 0 ==> final(self).sessions@[i]@ == ss[i]@
                    &&& nl < 0 && !ss[i]@.open && buf.len() == 0 ==> r is EndOfStream
                    &&& nl < 0 && (ss[i]@.open || buf.len() > 0) ==> r is WouldBlock
                }
            }),
    {
        match self.find(id) {
            Some(i) => {
                let s = &mut self.sessions[i];
                s.read_line()
            },
            None => ReadOutcome::EndOfStream,
        }
    }

    /// One write on the stream adapter of session `id`: append the bytes to
    /// the outgoing stream and hand back the wire position they start at.
    /// Nothing happens — and no position comes back — when the session is
    /// gone, closed, or the stream would outgrow the 31-bit field range.
    pub fn stream_write(&mut self, id: i32, buf: &Vec<u8>) -> (r: Option<i32>)
        requires
            old(self).wf(),
        ensures
            final(self).wf(),
            ({
                let ss = old(self).sessions@;
                let i = idx_of(ss, id as int);
                &&& i < 0 ==> r is None && final(self).sessions@ == ss
                &&& i >= 0 ==> {
                    let s0 = ss[i]@;
                    let writable = s0.open && s0.sent_buffer.len() + buf@.len() <= 0x7FFF_FFFF;
                    &&& !writable ==> r is None && final(self).sessions@ == ss
                    &&& writable ==> {
                        &&& (r matches Some(p) && p as int == s0.sent_buffer.len())
                        &&& final(self).sessions@.len() == ss.len()
                        &&& (forall|j: int| 0 <= j < ss.len() && j != i
                            ==> final(self).sessions@[j] == ss[j])
                        &&& final(self).sessions@[i]@ == (SessionV {
                            sent_buffer: s0.sent_buffer + buf@,
                            ..s0
                        })
                    }
                }
            }),
    {
        match self.find(id) {
            Some(i) => {
                let open_now = self.sessions[i].open;
                let sent_len = self.sessions[i].sent_buffer.len();
                if !open_now {
                    return None;
                }
                if buf.len() > 0x7FFF_FFFF - sent_len {
                    return None;
                }
                let s = &mut self.sessions[i];
                let pos = s.write(buf);
                Some(pos)
            },
            None => None,
        }
    }
}

} // verus!
