//! Discrete events of the simulation and the queue that orders them.

use vstd::prelude::*;

use crate::sort::{lemma_str_le_total, lemma_str_le_trans, str_le, string_le};

verus! {

#[derive(Debug, Clone, Copy, PartialEq, Eq, Structural)]
pub enum EventKind {
    JobArrival,
    JobComplete,
    GangTimeout,
}

/// Something that happens to a job at a whole second.
#[derive(Debug, Clone)]
pub struct Event {
    pub time: u64,
    pub kind: EventKind,
    pub job_id: String,
    /// For a completion: the run of the job it completes; a job restarted in the
    /// meantime has moved on, and the stale completion is ignored. For a gang
    /// timeout: the timeout generation it belongs to. Unused for arrivals.
    pub run_generation: u32,
}

/// `a` leaves the queue no later than `b`: at an earlier time, or at the same
/// time with a job id that is not smaller in byte order.
pub open spec fn pops_before(a: Event, b: Event) -> bool {
    a.time < b.time || (a.time == b.time && str_le(b.job_id@, a.job_id@))
}

/// `a` leaves the queue strictly before `b`.
pub open spec fn beats(a: Event, b: Event) -> bool {
    a.time < b.time || (a.time == b.time && !str_le(a.job_id@, b.job_id@))
}

/// Index of the event that leaves `s` next: the first one that no later one beats.
pub open spec fn next_index(s: Seq<Event>) -> int
    decreases s.len(),
{
    if s.len() <= 1 {
        0
    } else {
        let k = next_index(s.drop_last());
        if beats(s.last(), s[k]) {
            s.len() - 1
        } else {
            k
        }
    }
}

/// The next event of a non-empty sequence leaves no later than any of them.
pub proof fn lemma_next_first(s: Seq<Event>)
    requires
        s.len() > 0,
    ensures
        0 <= next_index(s) < s.len(),
        forall|k: int| 0 <= k < s.len() ==> pops_before(s[next_index(s)], #[trigger] s[k]),
    decreases s.len(),
{
    if s.len() == 1 {
        lemma_str_le_total(s[0].job_id@, s[0].job_id@);
    } else {
        let d = s.drop_last();
        lemma_next_first(d);
        let k = next_index(d);
        let last = s.last();
        lemma_str_le_total(last.job_id@, s[k].job_id@);
        lemma_str_le_total(last.job_id@, last.job_id@);
        if beats(last, s[k]) {
            assert forall|j: int| 0 <= j < s.len() implies pops_before(last, #[trigger] s[j]) by {
                if j < s.len() - 1 {
                    assert(s[j] == d[j]);
                    assert(pops_before(d[k], d[j]));
                    if last.time == s[j].time {
                        lemma_str_le_trans(s[j].job_id@, s[k].job_id@, last.job_id@);
                    }
                }
            }
        } else {
            assert forall|j: int| 0 <= j < s.len() implies pops_before(s[k], #[trigger] s[j]) by {
                if j < s.len() - 1 {
                    assert(s[j] == d[j]);
                }
            }
        }
    }
}

/// Events in a queue; the earliest leaves first, and at equal times the larger
/// job id leaves first.
#[derive(Debug)]
pub struct EventQueue {
    events: Vec<Event>,
}

impl View for EventQueue {
    type V = Seq<Event>;

    closed spec fn view(&self) -> Seq<Event> {
        self.events@
    }
}

impl EventQueue {
    pub fn new() -> (q: EventQueue)
        ensures
            q@ == Seq::<Event>::empty(),
    {
        EventQueue { events: Vec::new() }
    }

    pub fn push(&mut self, event: Event)
        ensures
            final(self)@ == old(self)@.push(event),
    {
        self.events.push(event);
    }

    /// Removes and returns the next event, `None` when the queue is empty.
    pub fn pop(&mut self) -> (r: Option<Event>)
        ensures
            old(self)@.len() == 0 ==> r is None && final(self)@ == old(self)@,
            old(self)@.len() > 0 ==> r == Some(old(self)@[next_index(old(self)@)])
                && final(self)@ == old(self)@.remove(next_index(old(self)@)),
    {
        match self.next_position() {
            None => None,
            Some(best) => Some(self.events.remove(best)),
        }
    }

    /// Time of the next event, `None` when the queue is empty.
    pub fn next_time(&self) -> (r: Option<u64>)
        ensures
            self@.len() == 0 ==> r is None,
            self@.len() > 0 ==> r == Some(self@[next_index(self@)].time),
    {
        match self.next_position() {
            None => None,
            Some(best) => {
                proof {
                    assert(self@[best as int] == self.events@[best as int]);
                }
                Some(self.events[best].time)
            },
        }
    }

    fn next_position(&self) -> (r: Option<usize>)
        ensures
            self@.len() == 0 ==> r is None,
            self@.len() > 0 ==> (r matches Some(b) && b as int == next_index(self@) && b < self@.len()),
    {
        if self.events.len() == 0 {
            return None;
        }
        let mut best: usize = 0;
        let mut i: usize = 1;
        while i < self.events.len()
            invariant
                1 <= i <= self.events@.len(),
                best == next_index(self.events@.take(i as int)),
                best < i,
            decreases self.events.len() - i,
        {
            let a = &self.events[i];
            let b = &self.events[best];
            let wins = a.time < b.time || (a.time == b.time && !string_le(&a.job_id, &b.job_id));
            proof {
                let t = self.events@.take(i as int + 1);
                assert(t.drop_last() == self.events@.take(i as int));
                assert(t.last() == self.events@[i as int]);
                assert(t[best as int] == self.events@[best as int]);
            }
            if wins {
                best = i;
            }
            i = i + 1;
        }
        proof {
            assert(self.events@.take(i as int) == self.events@);
        }
        Some(best)
    }

    pub fn is_empty(&self) -> (r: bool)
        ensures
            r == (self@.len() == 0),
    {
        self.events.len() == 0
    }

    pub fn len(&self) -> (n: usize)
        ensures
            n == self@.len(),
    {
        self.events.len()
    }
}

/// Events leave the queue in time order: after the next event is taken, no
/// remaining event is earlier, and at the same time none has a larger job id.
pub proof fn law_pop_order(q: Seq<Event>)
    requires
        q.len() > 0,
    ensures
        ({
            let e = q[next_index(q)];
            let rest = q.remove(next_index(q));
            forall|k: int| 0 <= k < rest.len() ==> pops_before(e, #[trigger] rest[k])
        }),
{
    lemma_next_first(q);
    let i = next_index(q);
    let rest = q.remove(i);
    assert forall|k: int| 0 <= k < rest.len() implies pops_before(q[i], #[trigger] rest[k]) by {
        if k < i {
            assert(rest[k] == q[k]);
        } else {
            assert(rest[k] == q[k + 1]);
        }
    }
}

/// Two events taken one after the other come in non-decreasing time.
pub proof fn law_successive_pops(q: Seq<Event>)
    requires
        q.len() > 1,
    ensures
        q[next_index(q)].time <= q.remove(next_index(q))[next_index(q.remove(next_index(q)))].time,
{
    lemma_next_first(q);
    law_pop_order(q);
    let rest = q.remove(next_index(q));
    lemma_next_first(rest);
    let k = next_index(rest);
    assert(pops_before(q[next_index(q)], rest[k]));
}

} // verus!
