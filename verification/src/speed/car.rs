//! Per-car bookkeeping: sightings sorted by time for each road, the
//! infractions they witness, and which days have already been ticketed.
//!
//! Speeds are kept in exact integer arithmetic: a pair of sightings is an
//! infraction when the distance covered, scaled to miles per hour, exceeds
//! the limit by more than half a unit — `7200 * distance > (2 * limit + 1)
//! * seconds` — and the recorded speed is one hundred times the average
//! speed, saturated to a 16-bit field.  Two sightings at the same instant
//! count as an infraction at the largest representable speed.

use vstd::prelude::*;
use crate::speed::models::Sighting;
use crate::speed::models::Ticket;

verus! {

/// A road as the car has seen it: just its speed limit.
#[derive(Clone, PartialEq, Debug)]
pub struct Road {
    pub limit: u16,
}

/// One observation: a mile marker at a time.
#[derive(Clone, Copy, PartialEq, Debug)]
pub struct Point {
    pub mile: u16,
    pub timestamp: u32,
}

/// Mathematical form of a ticket.
#[verifier::ext_equal]
pub struct TicketV {
    pub plate: Seq<char>,
    pub road: u16,
    pub mile1: u16,
    pub timestamp1: u32,
    pub mile2: u16,
    pub timestamp2: u32,
    pub speed: u16,
}

impl View for Ticket {
    type V = TicketV;

    open spec fn view(&self) -> TicketV {
        TicketV {
            plate: self.plate@,
            road: self.road,
            mile1: self.mile1,
            timestamp1: self.timestamp1,
            mile2: self.mile2,
            timestamp2: self.timestamp2,
            speed: self.speed,
        }
    }
}

/// Distance between two mile markers.
pub open spec fn dist_of(a: u16, b: u16) -> int {
    if a >= b {
        a - b
    } else {
        b - a
    }
}

/// Whether two consecutive sightings prove speeding on a road with this
/// limit.
pub open spec fn is_infraction(p1: Point, p2: Point, limit: u16) -> bool {
    let dt = p2.timestamp - p1.timestamp;
    dt == 0 || 7200 * dist_of(p2.mile, p1.mile) > (2 * limit + 1) * dt
}

/// One hundred times the average speed between two sightings, saturated to
/// 16 bits.
pub open spec fn speed_of(p1: Point, p2: Point) -> u16 {
    let dt = p2.timestamp - p1.timestamp;
    if dt == 0 {
        0xFFFF
    } else if 360000 * dist_of(p2.mile, p1.mile) / dt > 0xFFFF {
        0xFFFF
    } else {
        (360000 * dist_of(p2.mile, p1.mile) / dt) as u16
    }
}

/// The ticket two sightings earn.
pub open spec fn ticket_for(plate: Seq<char>, road: u16, p1: Point, p2: Point) -> TicketV {
    TicketV {
        plate,
        road,
        mile1: p1.mile,
        timestamp1: p1.timestamp,
        mile2: p2.mile,
        timestamp2: p2.timestamp,
        speed: speed_of(p1, p2),
    }
}

/// Tickets earned by consecutive sightings on one road, oldest pair first.
pub open spec fn road_tickets(plate: Seq<char>, road: u16, limit: u16, ps: Seq<Point>)
    -> Seq<TicketV>
    decreases ps.len(),
{
    if ps.len() < 2 {
        Seq::empty()
    } else {
        road_tickets(plate, road, limit, ps.drop_last()) + if is_infraction(
            ps[ps.len() - 2],
            ps.last(),
            limit,
        ) {
            seq![ticket_for(plate, road, ps[ps.len() - 2], ps.last())]
        } else {
            Seq::empty()
        }
    }
}

/// Tickets earned across all roads, in table order.
pub open spec fn all_tickets(
    plate: Seq<char>,
    roads: Seq<(u16, Road)>,
    logs: Seq<(u16, Vec<Point>)>,
) -> Seq<TicketV>
    recommends
        roads.len() == logs.len(),
    decreases logs.len(),
{
    if logs.len() == 0 {
        Seq::empty()
    } else {
        all_tickets(plate, roads.drop_last(), logs.drop_last()) + road_tickets(
            plate,
            logs.last().0,
            roads.last().1.limit,
            logs.last().1@,
        )
    }
}

/// Sightings are kept in time order.
pub open spec fn sorted_by_time(ps: Seq<Point>) -> bool {
    forall|a: int, b: int|
        0 <= a < b < ps.len() ==> (#[trigger] ps[a]).timestamp <= (#[trigger] ps[b]).timestamp
}

/// Where a new sighting at time `t` goes: before the first point that is
/// not older.
pub open spec fn insert_pos(ps: Seq<Point>, t: u32) -> int
    decreases ps.len(),
{
    if ps.len() == 0 {
        0
    } else if ps[0].timestamp >= t {
        0
    } else {
        1 + insert_pos(ps.skip(1), t)
    }
}

/// Days for which a ticket went out, each as a count of whole days.
pub open spec fn day_of(t: u32) -> u32 {
    (t / 86400) as u32
}

/// Tickets left after holding back every one that touches an already
/// ticketed day; each ticket sent books both of its days.
pub open spec fn outstanding_from(ts: Seq<TicketV>, days: Seq<u32>) -> Seq<TicketV>
    decreases ts.len(),
{
    if ts.len() == 0 {
        Seq::empty()
    } else {
        let d1 = day_of(ts[0].timestamp1);
        let d2 = day_of(ts[0].timestamp2);
        if !days.contains(d1) && !days.contains(d2) {
            seq![ts[0]] + outstanding_from(ts.skip(1), days.push(d1).push(d2))
        } else {
            outstanding_from(ts.skip(1), days)
        }
    }
}

/// Everything known about one car.
pub struct Car {
    pub plate: String,
    pub roads: Vec<(u16, Road)>,
    pub sightings: Vec<(u16, Vec<Point>)>,
    pub ticket_days: Vec<u32>,
}

impl Car {
    /// Roads and sighting logs line up, no road occurs twice, and every log
    /// is in time order.
    pub open spec fn wf(&self) -> bool {
        &&& self.roads@.len() == self.sightings@.len()
        &&& forall|i: int|
            0 <= i < self.roads@.len()
                ==> (#[trigger] self.roads@[i]).0 == (#[trigger] self.sightings@[i]).0
        &&& forall|i: int, j: int|
            0 <= i < j < self.roads@.len()
                ==> (#[trigger] self.roads@[i]).0 != (#[trigger] self.roads@[j]).0
        &&& forall|i: int|
            0 <= i < self.sightings@.len()
                ==> sorted_by_time((#[trigger] self.sightings@[i]).1@)
    }

    /// A car that has not been seen anywhere.
    pub fn new(plate: String) -> (c: Car)
        ensures
            c.wf(),
            c.plate == plate,
            c.roads@.len() == 0,
            c.sightings@.len() == 0,
            c.ticket_days@.len() == 0,
    {
        Car { plate, roads: Vec::new(), sightings: Vec::new(), ticket_days: Vec::new() }
    }

    /// Record a sighting: the point joins its road's log in time order — a
    /// tie goes in front of the sightings already there — and an unseen
    /// road opens a new log.
    pub fn add_sighting(&mut self, sighting: Sighting)
        requires
            old(self).wf(),
        ensures
            final(self).wf(),
            final(self).plate == old(self).plate,
            final(self).ticket_days == old(self).ticket_days,
            ({
                let rs = old(self).roads@;
                let ls = old(self).sightings@;
                let p = (Point { mile: sighting.mile, timestamp: sighting.timestamp });
                match found_road(rs, sighting.road) {
                    Some(i) => {
                        &&& final(self).roads@ == rs
                        &&& final(self).sightings@.len() == ls.len()
                        &&& (forall|j: int| 0 <= j < ls.len() && j != i
                            ==> final(self).sightings@[j] == ls[j])
                        &&& final(self).sightings@[i].0 == ls[i].0
                        &&& final(self).sightings@[i].1@ == ls[i].1@.insert(
                            insert_pos(ls[i].1@, sighting.timestamp),
                            p,
                        )
                    },
                    None => {
                        &&& final(self).roads@.len() == rs.len() + 1
                        &&& (forall|j: int| 0 <= j < rs.len()
                            ==> final(self).roads@[j] == rs[j])
                        &&& final(self).roads@.last().0 == sighting.road
                        &&& final(self).roads@.last().1 == (Road { limit: sighting.limit })
                        &&& final(self).sightings@.len() == ls.len() + 1
                        &&& (forall|j: int| 0 <= j < ls.len()
                            ==> final(self).sightings@[j] == ls[j])
                        &&& final(self).sightings@.last().0 == sighting.road
                        &&& final(self).sightings@.last().1@ == seq![p]
                    },
                }
            }),
    {
        let n = self.roads.len();
        let mut i: usize = 0;
        while i < n
            invariant
                i <= n,
                n == self.roads@.len(),
                self == old(self),
                old(self).wf(),
                forall|j: int| 0 <= j < i ==> self.roads@[j].0 != sighting.road,
            decreases n - i,
        {
            if self.roads[i].0 == sighting.road {
                proof {
                    lemma_found_road(self.roads@, sighting.road, i as int);
                }
                let p = Point { mile: sighting.mile, timestamp: sighting.timestamp };
                let mut entry = self.sightings.remove(i);
                let m = entry.1.len();
                proof {
                    assert(entry.1@.subrange(0, m as int) =~= entry.1@);
                }
                let mut pos: usize = 0;
                while pos < m && entry.1[pos].timestamp < sighting.timestamp
                    invariant
                        pos <= m,
                        m == entry.1@.len(),
                        insert_pos(entry.1@, sighting.timestamp)
                            == pos + insert_pos(
                            entry.1@.subrange(pos as int, m as int),
                            sighting.timestamp,
                        ),
                        forall|j: int| 0 <= j < pos
                            ==> (#[trigger] entry.1@[j]).timestamp < sighting.timestamp,
                    decreases m - pos,
                {
                    proof {
                        let rest = entry.1@.subrange(pos as int, m as int);
                        assert(rest[0] == entry.1@[pos as int]);
                        assert(rest.skip(1) =~= entry.1@.subrange((pos + 1) as int, m as int));
                    }
                    pos = pos + 1;
                }
                proof {
                    let rest = entry.1@.subrange(pos as int, m as int);
                    if pos < m {
                        assert(rest[0] == entry.1@[pos as int]);
                        assert(insert_pos(rest, sighting.timestamp) == 0);
                    } else {
                        assert(rest =~= Seq::<Point>::empty());
                    }
                    assert(insert_pos(entry.1@, sighting.timestamp) == pos);
                }
                let ghost old_points = entry.1@;
                entry.1.insert(pos, p);
                proof {
                    assert(sorted_by_time(entry.1@)) by {
                        assert(forall|j: int| 0 <= j < pos
                            ==> entry.1@[j] == old_points[j]);
                        assert(forall|j: int| pos < j < entry.1@.len()
                            ==> entry.1@[j] == old_points[j - 1]);
                        assert(entry.1@[pos as int] == p);
                        assert(forall|j: int| pos <= j < old_points.len()
                            ==> (#[trigger] old_points[j]).timestamp >= sighting.timestamp);
                    }
                }
                self.sightings.insert(i, entry);
                proof {
                    let ls = old(self).sightings@;
                    assert(self.sightings@.len() == ls.len());
                    assert(forall|j: int| 0 <= j < i ==> self.sightings@[j] == ls[j]);
                    assert(forall|j: int| i < j < ls.len() ==> self.sightings@[j] == ls[j]);
                    assert(self.sightings@[i as int] == entry);
                }
                return ;
            }
            i = i + 1;
        }
        proof {
            lemma_no_road(self.roads@, sighting.road);
        }
        let p = Point { mile: sighting.mile, timestamp: sighting.timestamp };
        self.roads.push((sighting.road, Road { limit: sighting.limit }));
        let mut points: Vec<Point> = Vec::new();
        points.push(p);
        proof {
            assert(points@ =~= seq![p]);
        }
        self.sightings.push((sighting.road, points));
    }
}

impl Car {
    /// Every ticket the recorded sightings earn, road by road in table
    /// order, oldest pair first within a road.
    pub fn get_infractions(&self) -> (r: Vec<Ticket>)
        requires
            self.wf(),
        ensures
            r@.len() == all_tickets(self.plate@, self.roads@, self.sightings@).len(),
            forall|k: int|
                0 <= k < r@.len()
                    ==> r@[k]@ == all_tickets(self.plate@, self.roads@, self.sightings@)[k],
    {
        let mut out: Vec<Ticket> = Vec::new();
        let ghost mut outv: Seq<TicketV> = Seq::empty();
        let n = self.sightings.len();
        proof {
            assert(self.roads@.subrange(0, 0) =~= Seq::<(u16, Road)>::empty());
            assert(self.sightings@.subrange(0, 0) =~= Seq::<(u16, Vec<Point>)>::empty());
        }
        let mut i: usize = 0;
        while i < n
            invariant
                i <= n,
                n == self.sightings@.len(),
                n == self.roads@.len(),
                self.wf(),
                outv == all_tickets(
                    self.plate@,
                    self.roads@.subrange(0, i as int),
                    self.sightings@.subrange(0, i as int),
                ),
                out@.len() == outv.len(),
                forall|k: int| 0 <= k < out@.len() ==> out@[k]@ == outv[k],
            decreases n - i,
        {
            proof {
                let rcur = self.roads@.subrange(0, (i + 1) as int);
                let scur = self.sightings@.subrange(0, (i + 1) as int);
                assert(rcur.drop_last() =~= self.roads@.subrange(0, i as int));
                assert(scur.drop_last() =~= self.sightings@.subrange(0, i as int));
                assert(rcur.last() == self.roads@[i as int]);
                assert(scur.last() == self.sightings@[i as int]);
                assert(self.sightings@[i as int].1@.subrange(0, 1)
                    =~= self.sightings@[i as int].1@.take(1));
            }
            let road = self.sightings[i].0;
            let limit = self.roads[i].1.limit;
            let m = self.sightings[i].1.len();
            let ghost points = self.sightings@[i as int].1@;
            let ghost pre_outv = outv;
            if m >= 1 {
                let mut j: usize = 1;
                proof {
                    assert(points.subrange(0, 1).len() < 2);
                    assert(road_tickets(self.plate@, road, limit, points.subrange(0, 1))
                        =~= Seq::<TicketV>::empty());
                    assert(pre_outv + Seq::<TicketV>::empty() =~= pre_outv);
                }
                while j < m
                    invariant
                        1 <= j <= m,
                        i < n,
                        n == self.sightings@.len(),
                        n == self.roads@.len(),
                        self.wf(),
                        points == self.sightings@[i as int].1@,
                        m == points.len(),
                        road == self.sightings@[i as int].0,
                        limit == self.roads@[i as int].1.limit,
                        outv == pre_outv + road_tickets(
                            self.plate@,
                            road,
                            limit,
                            points.subrange(0, j as int),
                        ),
                        out@.len() == outv.len(),
                        forall|k: int| 0 <= k < out@.len() ==> out@[k]@ == outv[k],
                    decreases m - j,
                {
                    let ghost cur = points.subrange(0, (j + 1) as int);
                    proof {
                        assert(cur.drop_last() =~= points.subrange(0, j as int));
                        assert(cur.last() == points[j as int]);
                        assert(cur[cur.len() - 2] == points[j - 1]);
                        assert(sorted_by_time(points));
                        assert(points[j - 1].timestamp <= points[j as int].timestamp);
                    }
                    let p1 = self.sightings[i].1[j - 1];
                    let p2 = self.sightings[i].1[j];
                    let dt: u32 = p2.timestamp - p1.timestamp;
                    let dist: u16 = if p2.mile >= p1.mile {
                        p2.mile - p1.mile
                    } else {
                        p1.mile - p2.mile
                    };
                    proof {
                        assert((2 * (limit as int) + 1) * (dt as int)
                            < 0x1_0000_0000_0000_0000) by (nonlinear_arith)
                            requires
                                limit <= 0xFFFF,
                                dt < 0x1_0000_0000,
                        ;
                    }
                    let speeding = dt == 0 || 7200u64 * (dist as u64) > (2 * (limit as u64) + 1)
                        * (dt as u64);
                    proof {
                        assert(speeding == is_infraction(points[j - 1], points[j as int], limit));
                    }
                    if speeding {
                        let speed: u16 = if dt == 0 {
                            0xFFFF
                        } else {
                            let s = 360000u64 * (dist as u64) / (dt as u64);
                            if s > 0xFFFF {
                                0xFFFF
                            } else {
                                s as u16
                            }
                        };
                        let t = Ticket {
                            plate: self.plate.clone(),
                            road,
                            mile1: p1.mile,
                            timestamp1: p1.timestamp,
                            mile2: p2.mile,
                            timestamp2: p2.timestamp,
                            speed,
                        };
                        proof {
                            assert(speed == speed_of(points[j - 1], points[j as int]));
                            assert(t@ == ticket_for(self.plate@, road, points[j - 1],
                                points[j as int]));
                            outv = outv.push(t@);
                            assert(outv =~= pre_outv + road_tickets(self.plate@, road, limit,
                                cur));
                        }
                        out.push(t);
                    } else {
                        proof {
                            assert(road_tickets(self.plate@, road, limit, cur)
                                =~= road_tickets(self.plate@, road, limit,
                                    points.subrange(0, j as int)));
                        }
                    }
                    j = j + 1;
                }
                proof {
                    assert(points.subrange(0, m as int) =~= points);
                }
            } else {
                proof {
                    assert(road_tickets(self.plate@, road, limit, points)
                        =~= Seq::<TicketV>::empty());
                    assert(pre_outv + Seq::<TicketV>::empty() =~= pre_outv);
                }
            }
            i = i + 1;
        }
        proof {
            assert(self.roads@.subrange(0, n as int) =~= self.roads@);
            assert(self.sightings@.subrange(0, n as int) =~= self.sightings@);
        }
        out
    }

    /// The infractions not yet covered by a ticketed day, each one booking
    /// both of its days as it goes out.
    pub fn get_outstanding_tickets(&self) -> (r: Vec<Ticket>)
        requires
            self.wf(),
        ensures
            ({
                let pending = outstanding_from(
                    all_tickets(self.plate@, self.roads@, self.sightings@),
                    self.ticket_days@,
                );
                r@.len() == pending.len() && (forall|k: int|
                    0 <= k < r@.len() ==> r@[k]@ == pending[k])
            }),
    {
        let infractions = self.get_infractions();
        let ghost allv = all_tickets(self.plate@, self.roads@, self.sightings@);
        let mut sent: Vec<u32> = clone_u32s(&self.ticket_days);
        let mut out: Vec<Ticket> = Vec::new();
        let ghost mut outv: Seq<TicketV> = Seq::empty();
        let n = infractions.len();
        proof {
            assert(allv.subrange(0, allv.len() as int) =~= allv);
            assert(allv.skip(0) =~= allv);
            assert(outv + outstanding_from(allv, self.ticket_days@)
                =~= outstanding_from(allv, self.ticket_days@));
        }
        let mut i: usize = 0;
        while i < n
            invariant
                i <= n,
                n == infractions@.len(),
                n == allv.len(),
                forall|k: int| 0 <= k < n ==> infractions@[k]@ == allv[k],
                outstanding_from(allv, self.ticket_days@)
                    == outv + outstanding_from(allv.skip(i as int), sent@),
                out@.len() == outv.len(),
                forall|k: int| 0 <= k < out@.len() ==> out@[k]@ == outv[k],
            decreases n - i,
        {
            let ghost rest = allv.skip(i as int);
            proof {
                assert(rest[0] == allv[i as int]);
                assert(rest.skip(1) =~= allv.skip((i + 1) as int));
            }
            let d1 = infractions[i].timestamp1 / 86400;
            let d2 = infractions[i].timestamp2 / 86400;
            proof {
                assert(d1 == day_of(rest[0].timestamp1));
                assert(d2 == day_of(rest[0].timestamp2));
            }
            let fresh1 = !contains_u32(&sent, d1);
            let fresh2 = !contains_u32(&sent, d2);
            if fresh1 && fresh2 {
                let t = Ticket {
                    plate: infractions[i].plate.clone(),
                    road: infractions[i].road,
                    mile1: infractions[i].mile1,
                    timestamp1: infractions[i].timestamp1,
                    mile2: infractions[i].mile2,
                    timestamp2: infractions[i].timestamp2,
                    speed: infractions[i].speed,
                };
                proof {
                    assert(t@ == allv[i as int]);
                    outv = outv.push(t@);
                    assert(outstanding_from(rest, sent@)
                        == seq![rest[0]] + outstanding_from(rest.skip(1),
                            sent@.push(d1).push(d2)));
                    assert((outv.drop_last() + (seq![rest[0]]
                        + outstanding_from(rest.skip(1), sent@.push(d1).push(d2))))
                        =~= outv + outstanding_from(rest.skip(1), sent@.push(d1).push(d2)));
                }
                out.push(t);
                sent.push(d1);
                sent.push(d2);
            }
            i = i + 1;
        }
        proof {
            assert(allv.skip(n as int) =~= Seq::<TicketV>::empty());
            assert(outv + Seq::<TicketV>::empty() =~= outv);
        }
        out
    }

    /// Book both days of a dispatched ticket.
    pub fn mark_ticket_dispatched(&mut self, ticket: &Ticket)
        ensures
            final(self).plate == old(self).plate,
            final(self).roads == old(self).roads,
            final(self).sightings == old(self).sightings,
            final(self).ticket_days@ == old(self).ticket_days@.push(
                day_of(ticket.timestamp1),
            ).push(day_of(ticket.timestamp2)),
    {
        let d1 = ticket.timestamp1 / 86400;
        let d2 = ticket.timestamp2 / 86400;
        self.ticket_days.push(d1);
        self.ticket_days.push(d2);
    }
}

/// Whether a day is already booked.
fn contains_u32(v: &Vec<u32>, x: u32) -> (r: bool)
    ensures
        r == v@.contains(x),
{
    let n = v.len();
    let mut i: usize = 0;
    while i < n
        invariant
            i <= n,
            n == v@.len(),
            forall|j: int| 0 <= j < i ==> v@[j] != x,
        decreases n - i,
    {
        if v[i] == x {
            return true;
        }
        i = i + 1;
    }
    proof {
        if v@.contains(x) {
            let w = choose|j: int| 0 <= j < v@.len() && v@[j] == x;
            assert(v@[w] != x);
        }
    }
    false
}

/// Byte-for-byte copy of the day list.
fn clone_u32s(v: &Vec<u32>) -> (r: Vec<u32>)
    ensures
        r@ == v@,
{
    let n = v.len();
    let mut out: Vec<u32> = Vec::new();
    proof {
        assert(v@.subrange(0, 0) =~= Seq::<u32>::empty());
    }
    let mut i: usize = 0;
    while i < n
        invariant
            i <= n,
            n == v@.len(),
            out@ == v@.subrange(0, i as int),
        decreases n - i,
    {
        proof {
            assert(v@.subrange(0, (i + 1) as int)
                =~= v@.subrange(0, i as int).push(v@[i as int]));
        }
        let b = v[i];
        out.push(b);
        i = i + 1;
    }
    proof {
        assert(v@.subrange(0, n as int) =~= v@);
    }
    out
}

/// First index carrying this road, if any.
pub open spec fn found_road(rs: Seq<(u16, Road)>, road: u16) -> Option<int>
    decreases rs.len(),
{
    if rs.len() == 0 {
        None
    } else if rs[0].0 == road {
        Some(0int)
    } else {
        match found_road(rs.skip(1), road) {
            Some(i) => Some(i + 1),
            None => None,
        }
    }
}

/// A scan that stops at a road with none before found its first index.
proof fn lemma_found_road(rs: Seq<(u16, Road)>, road: u16, i: int)
    requires
        0 <= i < rs.len(),
        rs[i].0 == road,
        forall|j: int| 0 <= j < i ==> rs[j].0 != road,
    ensures
        found_road(rs, road) == Some(i),
    decreases i,
{
    if i > 0 {
        lemma_found_road(rs.skip(1), road, i - 1);
        assert(forall|j: int| 0 <= j < rs.len() - 1 ==> rs.skip(1)[j] == rs[j + 1]);
    }
}

/// A scan that saw every road and none matched found nothing.
proof fn lemma_no_road(rs: Seq<(u16, Road)>, road: u16)
    requires
        forall|j: int| 0 <= j < rs.len() ==> rs[j].0 != road,
    ensures
        found_road(rs, road) is None,
    decreases rs.len(),
{
    if rs.len() > 0 {
        assert(forall|j: int| 0 <= j < rs.len() - 1 ==> rs.skip(1)[j] == rs[j + 1]);
        lemma_no_road(rs.skip(1), road);
    }
}

} // verus!
