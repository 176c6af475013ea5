//! The job queue: named queues of prioritized jobs, with allocation,
//! deletion and a pick of the best job across several queues.
//!
//! A job's body is carried verbatim as the text it arrived in; the
//! unverified edge turns wire payloads into that text and back.  Fresh job
//! identifiers are drawn by the edge and handed in.

use vstd::prelude::*;
use vstd::string::StringExecFns;

verus! {

/// One queued job.
#[derive(Clone, PartialEq, Debug)]
pub struct Job {
    pub id: u32,
    pub queue_id: String,
    pub pri: u32,
    pub job: String,
}

/// Mathematical form of a job.
#[verifier::ext_equal]
pub struct JobV {
    pub id: u32,
    pub queue_id: Seq<char>,
    pub pri: u32,
    pub job: Seq<char>,
}

impl View for Job {
    type V = JobV;

    open spec fn view(&self) -> JobV {
        JobV { id: self.id, queue_id: self.queue_id@, pri: self.pri, job: self.job@ }
    }
}

/// All queues, each a name and its jobs in priority order, lowest first,
/// plus which job identifiers are checked out and which are gone.
pub struct QueueManager {
    pub queues: Vec<(String, Vec<Job>)>,
    pub allocated: Vec<u32>,
    pub deleted: Vec<u32>,
}

/// First index holding a queue of this name, or -1.
pub open spec fn queue_idx(qs: Seq<(String, Vec<Job>)>, name: Seq<char>) -> int
    decreases qs.len(),
{
    if qs.len() == 0 {
        -1
    } else if qs[0].0@ == name {
        0
    } else if queue_idx(qs.skip(1), name) < 0 {
        -1
    } else {
        queue_idx(qs.skip(1), name) + 1
    }
}

/// Where a job of priority `pri` goes in a queue sorted by rising
/// priority: after everything of the same or lower priority.
pub open spec fn job_slot(jobs: Seq<Job>, pri: u32) -> int
    decreases jobs.len(),
{
    if jobs.len() == 0 {
        0
    } else if jobs[0].pri > pri {
        0
    } else {
        1 + job_slot(jobs.skip(1), pri)
    }
}

/// Every job sits in the queue its own name points at.
pub open spec fn jobs_in_place(qs: Seq<(String, Vec<Job>)>) -> bool {
    forall|i: int, j: int|
        0 <= i < qs.len() && 0 <= j < qs[i].1@.len()
            ==> (#[trigger] qs[i].1@[j]).queue_id@ == qs[i].0@
}

/// The job every listed queue would offer first, the best priority
/// winning and a later queue winning ties.
pub open spec fn best_first(qs: Seq<(String, Vec<Job>)>, ids: Seq<String>) -> Option<Job>
    decreases ids.len(),
{
    if ids.len() == 0 {
        None
    } else {
        let rest = best_first(qs, ids.drop_last());
        let i = queue_idx(qs, ids.last()@);
        if i >= 0 && qs[i].1@.len() > 0 {
            match rest {
                None => Some(qs[i].1@[0]),
                Some(b) => if qs[i].1@[0].pri >= b.pri {
                    Some(qs[i].1@[0])
                } else {
                    Some(b)
                },
            }
        } else {
            rest
        }
    }
}

impl QueueManager {
    /// No queue occurs twice, and every job names the queue it sits in.
    pub open spec fn wf(&self) -> bool {
        &&& forall|i: int, j: int|
            0 <= i < j < self.queues@.len()
                ==> (#[trigger] self.queues@[i]).0@ != (#[trigger] self.queues@[j]).0@
        &&& jobs_in_place(self.queues@)
    }

    /// An empty job centre.
    pub fn new() -> (m: QueueManager)
        ensures
            m.wf(),
            m.queues@.len() == 0,
            m.allocated@.len() == 0,
            m.deleted@.len() == 0,
    {
        QueueManager { queues: Vec::new(), allocated: Vec::new(), deleted: Vec::new() }
    }

    /// Put a job with a fresh identifier into its queue, keeping the queue
    /// in priority order; an unknown queue name opens a new queue.  The
    /// identifier is handed back.
    pub fn add_job(&mut self, queue_id: String, job: String, pri: u32, id: u32) -> (r: u32)
        requires
            old(self).wf(),
        ensures
            final(self).wf(),
            r == id,
            final(self).allocated == old(self).allocated,
            final(self).deleted == old(self).deleted,
            ({
                let qs = old(self).queues@;
                let i = queue_idx(qs, queue_id@);
                &&& i < 0 ==> final(self).queues@.len() == qs.len() + 1
                    && (forall|j: int| 0 <= j < qs.len() ==> final(self).queues@[j] == qs[j])
                    && final(self).queues@.last().0@ == queue_id@
                    && final(self).queues@.last().1@.len() == 1
                    && final(self).queues@.last().1@[0]@ == (JobV {
                        id,
                        queue_id: queue_id@,
                        pri,
                        job: job@,
                    })
                &&& i >= 0 ==> final(self).queues@.len() == qs.len()
                    && (forall|j: int| 0 <= j < qs.len() && j != i
                        ==> final(self).queues@[j] == qs[j])
                    && final(self).queues@[i].0 == qs[i].0
                    && final(self).queues@[i].1@.len() == qs[i].1@.len() + 1
                    && (forall|j: int| 0 <= j < job_slot(qs[i].1@, pri)
                        ==> final(self).queues@[i].1@[j] == qs[i].1@[j])
                    && final(self).queues@[i].1@[job_slot(qs[i].1@, pri)]@ == (JobV {
                        id,
                        queue_id: queue_id@,
                        pri,
                        job: job@,
                    })
                    && (forall|j: int| job_slot(qs[i].1@, pri) < j < final(self).queues@[i].1@.len()
                        ==> final(self).queues@[i].1@[j] == qs[i].1@[j - 1])
            }),
    {
        let n = self.queues.len();
        let mut i: usize = 0;
        while i < n
            invariant
                i <= n,
                n == self.queues@.len(),
                self == old(self),
                old(self).wf(),
                forall|j: int| 0 <= j < i ==> self.queues@[j].0@ != queue_id@,
            decreases n - i,
        {
            if self.queues[i].0 == queue_id {
                proof {
                    lemma_queue_idx(self.queues@, queue_id@, i as int);
                }
                let new_job = Job { id, queue_id, pri, job };
                let mut entry = self.queues.remove(i);
                let m = entry.1.len();
                proof {
                    assert(entry.1@.subrange(0, m as int) =~= entry.1@);
                }
                let mut slot: usize = 0;
                while slot < m && entry.1[slot].pri <= pri
                    invariant
                        slot <= m,
                        m == entry.1@.len(),
                        job_slot(entry.1@, pri)
                            == slot + job_slot(entry.1@.subrange(slot as int, m as int), pri),
                        forall|j: int| 0 <= j < slot
                            ==> (#[trigger] entry.1@[j]).pri <= pri,
                    decreases m - slot,
                {
                    proof {
                        let rest = entry.1@.subrange(slot as int, m as int);
                        assert(rest[0] == entry.1@[slot as int]);
                        assert(rest.skip(1) =~= entry.1@.subrange((slot + 1) as int, m as int));
                    }
                    slot = slot + 1;
                }
                proof {
                    let rest = entry.1@.subrange(slot as int, m as int);
                    if slot < m {
                        assert(rest[0] == entry.1@[slot as int]);
                        assert(job_slot(rest, pri) == 0);
                    } else {
                        assert(rest =~= Seq::<Job>::empty());
                    }
                    assert(job_slot(entry.1@, pri) == slot);
                }
                entry.1.insert(slot, new_job);
                self.queues.insert(i, entry);
                proof {
                    let qs = old(self).queues@;
                    assert(forall|j: int| 0 <= j < i ==> self.queues@[j] == qs[j]);
                    assert(forall|j: int| i < j < qs.len() ==> self.queues@[j] == qs[j]);
                    assert(self.queues@[i as int] == entry);
                }
                return id;
            }
            i = i + 1;
        }
        proof {
            lemma_no_queue(self.queues@, queue_id@);
        }
        let new_job = Job { id, queue_id: queue_id.clone(), pri, job };
        let mut jobs: Vec<Job> = Vec::new();
        jobs.push(new_job);
        self.queues.push((queue_id, jobs));
        id
    }

    /// Give an aborted job back to its queue, at the end, unless it was
    /// deleted while it was checked out.
    pub fn abort_job(&mut self, job: Job) -> (r: String)
        requires
            old(self).wf(),
            old(self).deleted@.contains(job.id) || queue_idx(
                old(self).queues@,
                job.queue_id@,
            ) >= 0,
        ensures
            final(self).wf(),
            final(self).allocated == old(self).allocated,
            final(self).deleted == old(self).deleted,
            old(self).deleted@.contains(job.id) ==> r@ == "no-job"@
                && final(self).queues == old(self).queues,
            !old(self).deleted@.contains(job.id) ==> r@ == "ok"@ && ({
                let qs = old(self).queues@;
                let i = queue_idx(qs, job.queue_id@);
                &&& final(self).queues@.len() == qs.len()
                &&& (forall|j: int| 0 <= j < qs.len() && j != i
                    ==> final(self).queues@[j] == qs[j])
                &&& final(self).queues@[i].0 == qs[i].0
                &&& final(self).queues@[i].1@ == qs[i].1@.push(job)
            }),
    {
        proof {
            reveal_strlit("ok");
            reveal_strlit("no-job");
            assert(("ok"@).len() == 2);
            assert(("no-job"@).len() == 6);
        }
        if contains_id(&self.deleted, job.id) {
            return String::from_str("no-job");
        }
        let n = self.queues.len();
        let mut i: usize = 0;
        while i < n
            invariant
                i <= n,
                n == self.queues@.len(),
                self == old(self),
                old(self).wf(),
                !old(self).deleted@.contains(job.id),
                queue_idx(self.queues@, job.queue_id@) >= 0,
                forall|j: int| 0 <= j < i ==> self.queues@[j].0@ != job.queue_id@,
            decreases n - i,
        {
            if self.queues[i].0 == job.queue_id {
                proof {
                    lemma_queue_idx(self.queues@, job.queue_id@, i as int);
                }
                let mut entry = self.queues.remove(i);
                entry.1.push(job);
                self.queues.insert(i, entry);
                proof {
                    reveal_strlit("ok");
                    reveal_strlit("no-job");
                    assert(("ok"@).len() == 2);
                    assert(("no-job"@).len() == 6);
                    let qs = old(self).queues@;
                    assert(forall|j: int| 0 <= j < i ==> self.queues@[j] == qs[j]);
                    assert(forall|j: int| i < j < qs.len() ==> self.queues@[j] == qs[j]);
                    assert(self.queues@[i as int] == entry);
                }
                return String::from_str("ok");
            }
            i = i + 1;
        }
        proof {
            lemma_no_queue(self.queues@, job.queue_id@);
            assert(false);
        }
        String::from_str("no-job")
    }

    /// Forget a job wherever it is: checked out, or still waiting in some
    /// queue.  A job nobody knows is reported missing.
    pub fn delete_job(&mut self, job_id: u32) -> (r: String)
        requires
            old(self).wf(),
        ensures
            final(self).wf(),
            r@ == "ok"@ || r@ == "no-job"@,
            r@ == "no-job"@ ==> final(self).queues == old(self).queues
                && final(self).allocated == old(self).allocated
                && final(self).deleted == old(self).deleted
                && !old(self).allocated@.contains(job_id),
            r@ == "ok"@ ==> final(self).deleted@ == old(self).deleted@.push(job_id),
    {
        proof {
            reveal_strlit("ok");
            reveal_strlit("no-job");
            assert(("ok"@).len() == 2);
            assert(("no-job"@).len() == 6);
        }
        if contains_id(&self.allocated, job_id) {
            remove_id(&mut self.allocated, job_id);
            self.deleted.push(job_id);
            return String::from_str("ok");
        }
        let n = self.queues.len();
        let mut i: usize = 0;
        while i < n
            invariant
                i <= n,
                n == self.queues@.len(),
                self == old(self),
                old(self).wf(),
                !old(self).allocated@.contains(job_id),
            decreases n - i,
        {
            let m = self.queues[i].1.len();
            let mut j: usize = 0;
            while j < m
                invariant
                    j <= m,
                    i < n,
                    n == self.queues@.len(),
                    m == self.queues@[i as int].1@.len(),
                    self == old(self),
                    old(self).wf(),
                    !old(self).allocated@.contains(job_id),
                decreases m - j,
            {
                if self.queues[i].1[j].id == job_id {
                    let mut entry = self.queues.remove(i);
                    entry.1.remove(j);
                    self.queues.insert(i, entry);
                    self.deleted.push(job_id);
                    proof {
                        reveal_strlit("ok");
                        reveal_strlit("no-job");
                        assert(("ok"@).len() == 2);
                        assert(("no-job"@).len() == 6);
                        let qs = old(self).queues@;
                        assert(forall|a: int| 0 <= a < i ==> self.queues@[a] == qs[a]);
                        assert(forall|a: int| i < a < qs.len() ==> self.queues@[a] == qs[a]);
                        assert(self.queues@[i as int] == entry);
                    }
                    return String::from_str("ok");
                }
                j = j + 1;
            }
            i = i + 1;
        }
        String::from_str("no-job")
    }

    /// Hand out the first job of the named queue.
    pub fn pop_job(&mut self, queue_id: &String) -> (r: Option<Job>)
        requires
            old(self).wf(),
            queue_idx(old(self).queues@, queue_id@) >= 0,
            old(self).queues@[queue_idx(old(self).queues@, queue_id@)].1@.len() > 0,
        ensures
            final(self).wf(),
            final(self).allocated == old(self).allocated,
            final(self).deleted == old(self).deleted,
            ({
                let qs = old(self).queues@;
                let i = queue_idx(qs, queue_id@);
                &&& (r matches Some(job) && job == qs[i].1@[0])
                &&& final(self).queues@.len() == qs.len()
                &&& (forall|j: int| 0 <= j < qs.len() && j != i
                    ==> final(self).queues@[j] == qs[j])
                &&& final(self).queues@[i].0 == qs[i].0
                &&& final(self).queues@[i].1@ == qs[i].1@.skip(1)
            }),
    {
        let n = self.queues.len();
        let mut i: usize = 0;
        while i < n
            invariant
                i <= n,
                n == self.queues@.len(),
                self == old(self),
                old(self).wf(),
                queue_idx(self.queues@, queue_id@) >= 0,
                old(self).queues@[queue_idx(old(self).queues@, queue_id@)].1@.len() > 0,
                forall|j: int| 0 <= j < i ==> self.queues@[j].0@ != queue_id@,
            decreases n - i,
        {
            if self.queues[i].0 == *queue_id {
                proof {
                    lemma_queue_idx(self.queues@, queue_id@, i as int);
                }
                let mut entry = self.queues.remove(i);
                let job = entry.1.remove(0);
                self.queues.insert(i, entry);
                proof {
                    let qs = old(self).queues@;
                    assert(forall|j: int| 0 <= j < i ==> self.queues@[j] == qs[j]);
                    assert(forall|j: int| i < j < qs.len() ==> self.queues@[j] == qs[j]);
                    assert(self.queues@[i as int] == entry);
                    assert(entry.1@ =~= qs[i as int].1@.skip(1));
                }
                return Some(job);
            }
            i = i + 1;
        }
        proof {
            lemma_no_queue(self.queues@, queue_id@);
            assert(false);
        }
        None
    }

    /// Hand out the best job across the listed queues: highest priority
    /// wins, a later listed queue wins a tie, and the winner leaves its
    /// queue.
    pub fn get_highest_priority_job(&mut self, queue_ids: &Vec<String>) -> (r: Option<Job>)
        requires
            old(self).wf(),
        ensures
            final(self).wf(),
            final(self).allocated == old(self).allocated,
            final(self).deleted == old(self).deleted,
            r == best_first(old(self).queues@, queue_ids@),
            r is None ==> final(self).queues == old(self).queues,
            (r matches Some(job) ==> ({
                let qs = old(self).queues@;
                let i = queue_idx(qs, job.queue_id@);
                &&& 0 <= i < qs.len()
                &&& job == qs[i].1@[0]
                &&& final(self).queues@.len() == qs.len()
                &&& (forall|j: int| 0 <= j < qs.len() && j != i
                    ==> final(self).queues@[j] == qs[j])
                &&& final(self).queues@[i].0 == qs[i].0
                &&& final(self).queues@[i].1@ == qs[i].1@.skip(1)
            })),
    {
        let k_total = queue_ids.len();
        let mut best: Option<usize> = None;
        proof {
            assert(queue_ids@.subrange(0, 0) =~= Seq::<String>::empty());
        }
        let mut k: usize = 0;
        while k < k_total
            invariant
                k <= k_total,
                k_total == queue_ids@.len(),
                self == old(self),
                old(self).wf(),
                ({
                    let sofar = best_first(self.queues@, queue_ids@.subrange(0, k as int));
                    match best {
                        None => sofar is None,
                        Some(qi) => qi < self.queues@.len()
                            && self.queues@[qi as int].1@.len() > 0
                            && sofar == Some(self.queues@[qi as int].1@[0]),
                    }
                }),
            decreases k_total - k,
        {
            proof {
                let cur = queue_ids@.subrange(0, (k + 1) as int);
                assert(cur.drop_last() =~= queue_ids@.subrange(0, k as int));
                assert(cur.last() == queue_ids@[k as int]);
            }
            match self.find_queue(&queue_ids[k]) {
                Some(qi) => {
                    if self.queues[qi].1.len() > 0 {
                        let cur_pri = self.queues[qi].1[0].pri;
                        let take = match best {
                            None => true,
                            Some(bi) => cur_pri >= self.queues[bi].1[0].pri,
                        };
                        if take {
                            best = Some(qi);
                        }
                    }
                },
                None => {},
            }
            k = k + 1;
        }
        proof {
            assert(queue_ids@.subrange(0, k_total as int) =~= queue_ids@);
        }
        match best {
            None => None,
            Some(bi) => {
                proof {
                    // the winner names the queue it sits in, and names are
                    // unique, so its queue index is the one we tracked
                    let qs = self.queues@;
                    let job = qs[bi as int].1@[0];
                    assert(job.queue_id@ == qs[bi as int].0@);
                    lemma_queue_idx_of_entry(qs, bi as int);
                }
                let mut entry = self.queues.remove(bi);
                let job = entry.1.remove(0);
                self.queues.insert(bi, entry);
                proof {
                    let qs = old(self).queues@;
                    assert(forall|j: int| 0 <= j < bi ==> self.queues@[j] == qs[j]);
                    assert(forall|j: int| bi < j < qs.len() ==> self.queues@[j] == qs[j]);
                    assert(self.queues@[bi as int] == entry);
                    assert(entry.1@ =~= qs[bi as int].1@.skip(1));
                }
                Some(job)
            },
        }
    }

    /// Find the queue with this name.
    fn find_queue(&self, name: &String) -> (r: Option<usize>)
        requires
            self.wf(),
        ensures
            r matches Some(i) ==> queue_idx(self.queues@, name@) == i
                && i < self.queues@.len() && self.queues@[i as int].0@ == name@,
            r is None ==> queue_idx(self.queues@, name@) < 0,
    {
        let n = self.queues.len();
        let mut i: usize = 0;
        while i < n
            invariant
                i <= n,
                n == self.queues@.len(),
                forall|j: int| 0 <= j < i ==> self.queues@[j].0@ != name@,
            decreases n - i,
        {
            if self.queues[i].0 == *name {
                proof {
                    lemma_queue_idx(self.queues@, name@, i as int);
                }
                return Some(i);
            }
            i = i + 1;
        }
        proof {
            lemma_no_queue(self.queues@, name@);
        }
        None
    }
}

/// In a table with unique names, an entry's own name finds its index.
proof fn lemma_queue_idx_of_entry(qs: Seq<(String, Vec<Job>)>, i: int)
    requires
        0 <= i < qs.len(),
        forall|a: int, b: int|
            0 <= a < b < qs.len() ==> (#[trigger] qs[a]).0@ != (#[trigger] qs[b]).0@,
    ensures
        queue_idx(qs, qs[i].0@) == i,
{
    assert(forall|j: int| 0 <= j < i ==> qs[j].0@ != qs[i].0@);
    lemma_queue_idx(qs, qs[i].0@, i);
}

/// First index of a queue with this name.
proof fn lemma_queue_idx(qs: Seq<(String, Vec<Job>)>, name: Seq<char>, i: int)
    requires
        0 <= i < qs.len(),
        qs[i].0@ == name,
        forall|j: int| 0 <= j < i ==> qs[j].0@ != name,
    ensures
        queue_idx(qs, name) == i,
    decreases i,
{
    if i > 0 {
        lemma_queue_idx(qs.skip(1), name, i - 1);
        assert(forall|j: int| 0 <= j < qs.len() - 1 ==> qs.skip(1)[j] == qs[j + 1]);
    }
}

/// A name no queue bears is not found.
proof fn lemma_no_queue(qs: Seq<(String, Vec<Job>)>, name: Seq<char>)
    requires
        forall|j: int| 0 <= j < qs.len() ==> qs[j].0@ != name,
    ensures
        queue_idx(qs, name) < 0,
    decreases qs.len(),
{
    if qs.len() > 0 {
        assert(forall|j: int| 0 <= j < qs.len() - 1 ==> qs.skip(1)[j] == qs[j + 1]);
        lemma_no_queue(qs.skip(1), name);
    }
}

/// Whether an identifier is in the list.
fn contains_id(v: &Vec<u32>, x: u32) -> (r: bool)
    ensures
        r == v@.contains(x),
{
    let n = v.len();
    let mut i: usize = 0;
    while i < n
        invariant
            i <= n,
            n == v@.len(),
            forall|j: int| 0 <= j < i ==> v@[j] != x,
        decreases n - i,
    {
        if v[i] == x {
            return true;
        }
        i = i + 1;
    }
    proof {
        if v@.contains(x) {
            let w = choose|j: int| 0 <= j < v@.len() && v@[j] == x;
            assert(v@[w] != x);
        }
    }
    false
}

/// Drop the first occurrence of an identifier, if any.
fn remove_id(v: &mut Vec<u32>, x: u32)
    ensures
        final(v)@.len() <= old(v)@.len(),
        !old(v)@.contains(x) ==> *final(v) == *old(v),
{
    let n = v.len();
    let mut i: usize = 0;
    while i < n
        invariant
            i <= n,
            n == v@.len(),
            v == old(v),
            forall|j: int| 0 <= j < i ==> v@[j] != x,
        decreases n - i,
    {
        if v[i] == x {
            v.remove(i);
            return ;
        }
        i = i + 1;
    }
    proof {
        if v@.contains(x) {
            let w = choose|j: int| 0 <= j < v@.len() && v@[j] == x;
            assert(v@[w] != x);
        }
    }
}

} // verus!
