//! An interactive simulation for learning agents: it pauses whenever a waiting
//! job could be placed, and the agent picks which of the first queued jobs to
//! place, or lets time pass.

use vstd::prelude::*;

use crate::cluster::Cluster;
use crate::copies::{is_copy, lemma_copy_wf};
use crate::decision::SchedulerDecision;
use crate::engine::{commit_placement, event_handled, handle_event, placement_committed};
use crate::error::SimError;
use crate::model::Placement;
use crate::events::{next_index, Event, EventKind, EventQueue};
use crate::job::Job;
use crate::lifecycle::{by_arrival, by_priority, ArrivalKey};
use crate::resource::{mig_outcome, whole_allocation, ResourceManager};
use crate::scheduler::job_views;
use crate::snapshot::{current_wait, job_current_cumulative_wait, obs_size, ClusterSnapshot};
use crate::sort::{sort_by_rank, Ranked};

verus! {

/// Current waiting seconds of all jobs of `q` at `clock`, summed.
pub open spec fn wait_total(q: Seq<Job>, clock: u64) -> nat
    decreases q.len(),
{
    if q.len() == 0 {
        0
    } else {
        wait_total(q.drop_last(), clock) + current_wait(q.last(), clock) as nat
    }
}

/// Mean current waiting time of the waiting jobs as `(seconds, jobs)`; `(0, 1)`
/// when nothing waits.
pub open spec fn mean_wait(c: Cluster) -> (u128, u128) {
    if c.waiting_queue@.len() == 0 {
        (0, 1)
    } else {
        (wait_total(c.waiting_queue@, c.clock) as u128, c.waiting_queue@.len() as u128)
    }
}

proof fn lemma_wait_total_bound(q: Seq<Job>, clock: u64)
    ensures
        wait_total(q, clock) <= q.len() * 0xffff_ffff_ffff_ffff,
    decreases q.len(),
{
    if q.len() > 0 {
        lemma_wait_total_bound(q.drop_last(), clock);
        assert((q.len() - 1) * 0xffff_ffff_ffff_ffff + 0xffff_ffff_ffff_ffff == q.len() * 0xffff_ffff_ffff_ffff)
            by (nonlinear_arith);
    }
}

pub fn mean_cumulative_wait(cluster: &Cluster) -> (r: (u128, u128))
    ensures
        r == mean_wait(*cluster),
{
    let q = &cluster.waiting_queue;
    if q.len() == 0 {
        return (0, 1);
    }
    let n = q.len();
    let mut total: u128 = 0;
    let mut i: usize = 0;
    proof {
        lemma_wait_total_bound(q@, cluster.clock);
    }
    while i < n
        invariant
            n == q@.len(),
            q == &cluster.waiting_queue,
            i <= n,
            total == wait_total(q@.take(i as int), cluster.clock),
        decreases n - i,
    {
        proof {
            let t = q@.take(i as int + 1);
            assert(t.drop_last() == q@.take(i as int));
            assert(t.last() == q@[i as int]);
            lemma_wait_total_bound(t, cluster.clock);
            assert(t.len() * 0xffff_ffff_ffff_ffff <= 0xffff_ffff_ffff_ffff * 0xffff_ffff_ffff_ffff) by (nonlinear_arith)
                requires t.len() <= 0xffff_ffff_ffff_ffff;
        }
        total = total + job_current_cumulative_wait(&q[i], cluster.clock) as u128;
        i = i + 1;
    }
    proof {
        assert(q@.take(i as int) == q@);
    }
    (total, n as u128)
}

/// What one action did.
pub struct StepResult {
    pub observation: ClusterSnapshot,
    /// Mean waiting time recorded before the reward is taken, as `(seconds, jobs)`.
    pub mean_wait_before: (u128, u128),
    /// Mean waiting time now, as `(seconds, jobs)`; the reward is the decrease.
    pub mean_wait_after: (u128, u128),
    pub done: bool,
    pub placed: bool,
    pub invalid_action: bool,
}

/// A simulation paused at scheduling decisions, driven by discrete actions.
pub struct RlSession {
    pub template_cluster: Cluster,
    pub cluster: Cluster,
    pub resource_manager: ResourceManager,
    pub event_queue: EventQueue,
    pub pending_arrivals: Vec<Job>,
    pub initial_jobs: Vec<Job>,
    pub jobs_total: usize,
    pub top_k: usize,
    pub last_mean_wait: (u128, u128),
    pub done: bool,
}

/// Session `b` is `a` after its next event was taken off the queue and handled
/// at its time.
pub open spec fn event_advanced(a: RlSession, b: RlSession) -> bool {
    &&& a.event_queue@.len() > 0
    &&& event_handled(
        (Cluster { clock: a.event_queue@[next_index(a.event_queue@)].time, ..a.cluster }),
        a.event_queue@.remove(next_index(a.event_queue@)),
        a.pending_arrivals@,
        a.event_queue@[next_index(a.event_queue@)],
        b.cluster,
        b.event_queue@,
        b.pending_arrivals@,
    )
    &&& b == (RlSession { cluster: b.cluster, event_queue: b.event_queue, pending_arrivals: b.pending_arrivals, ..a })
}

/// Session `b` is `a` after `n` events were handled one after the other.
pub open spec fn events_advanced(a: RlSession, n: nat, b: RlSession) -> bool
    decreases n,
{
    if n == 0 {
        b == a
    } else {
        exists|m: RlSession| events_advanced(a, (n - 1) as nat, m) && #[trigger] event_advanced(m, b)
    }
}

/// Session `s` with waiting queue `q`.
pub open spec fn with_waiting(s: RlSession, q: Vec<Job>) -> RlSession {
    RlSession { cluster: Cluster { waiting_queue: q, ..s.cluster }, ..s }
}

/// Session `b` is `a` after every remaining event was handled (stopping only
/// after `u64::MAX` of them), then marked done when all jobs have ended.
pub open spec fn drained(a: RlSession, b: RlSession) -> bool {
    exists|n: nat, x: RlSession|
        #[trigger] events_advanced(a, n, x) && (x.event_queue@.len() == 0 || n == u64::MAX) && b == (RlSession {
            done: x.cluster.finished_jobs@.len() >= x.jobs_total,
            event_queue: b.event_queue,
            ..x
        }) && b.event_queue@ == x.event_queue@
}

/// Session `b` is `a` advanced to its next decision: the queue ordered by
/// priority, then events handled until a waiting job can be placed; with no
/// event left first, the session is done (handling stops after `u64::MAX`
/// events).
pub open spec fn decided(a: RlSession, b: RlSession) -> bool {
    exists|q: Vec<Job>, n: nat, x: RlSession|
        #[trigger] events_advanced(with_waiting(a, q), n, x) && q@ == by_priority(a.cluster.waiting_queue@) && (n
            < u64::MAX ==> at_decision(x) || x.event_queue@.len() == 0) && b == (RlSession {
            done: a.done || (n < u64::MAX && !at_decision(x) && x.event_queue@.len() == 0),
            last_mean_wait: mean_wait(x.cluster),
            event_queue: b.event_queue,
            ..x
        }) && b.event_queue@ == x.event_queue@
}

/// Session `b` is `a` moved on after an action that placed a job or not: with
/// everything placed and nothing pending the remaining events play out;
/// otherwise, unless a fresh placement left a decision open, time moves on by
/// one event (or all remaining ones play out when there is none), and the
/// session advances to its next decision.
pub open spec fn after_action(a: RlSession, b: RlSession, placed: bool) -> bool {
    if placed && a.cluster.waiting_queue@.len() == 0 && a.pending_arrivals@.len() == 0 && a.event_queue@.len() == 0 {
        drained(a, b)
    } else {
        exists|m: RlSession|
            #[trigger] decided(m, b) && if !placed || !at_decision(a) {
                if a.event_queue@.len() == 0 {
                    drained(a, m)
                } else {
                    event_advanced(a, m)
                }
            } else {
                m == a
            }
    }
}

/// Arrival events of `js`, in order.
pub open spec fn arrival_events(js: Seq<Job>) -> Seq<Event> {
    js.map_values(|j: Job| Event { time: j.arrival_time, kind: EventKind::JobArrival, job_id: j.id, run_generation: 0 })
}

/// Session `b` is `a` started over: a copy of the template cluster, copies of
/// the jobs pending arrival in arrival order with one arrival event each, then
/// advanced to the first decision.
pub open spec fn reset_from(a: RlSession, b: RlSession) -> bool {
    exists|cs: Seq<Job>, x: RlSession|
        #![trigger decided(x, b), by_arrival(cs)]
        decided(x, b) && job_views(cs) == job_views(a.initial_jobs@) && x.pending_arrivals@ == by_arrival(cs)
            && x.event_queue@ == arrival_events(by_arrival(cs)) && is_copy(x.cluster, a.template_cluster) && x == (
        RlSession {
            cluster: x.cluster,
            event_queue: x.event_queue,
            pending_arrivals: x.pending_arrivals,
            done: false,
            last_mean_wait: (0u128, 1u128),
            ..a
        })
}

/// Some waiting job of the session can be placed now.
pub open spec fn at_decision(s: RlSession) -> bool {
    s.cluster.waiting_queue@.len() > 0 && any_placeable(s.resource_manager, s.cluster)
}

/// `mask` marks which of the first `top_k` waiting jobs of `c` can be placed now.
pub open spec fn placeable_mask_of(rm: ResourceManager, c: Cluster, top_k: usize, mask: Seq<bool>) -> bool {
    &&& mask.len() == if top_k <= c.waiting_queue@.len() { top_k as int } else { c.waiting_queue@.len() as int }
    &&& forall|i: int| 0 <= i < mask.len() ==> #[trigger] mask[i] == rm.spec_can_place(c, c.waiting_queue@[i])
}

/// Which of the first `top_k` waiting jobs of `cluster` can be placed now.
pub fn placeable_mask(rm: &ResourceManager, cluster: &Cluster, top_k: usize) -> (mask: Vec<bool>)
    ensures
        placeable_mask_of(*rm, *cluster, top_k, mask@),
{
    let q = &cluster.waiting_queue;
    let mut mask: Vec<bool> = Vec::new();
    let mut i: usize = 0;
    while i < q.len() && i < top_k
        invariant
            q == &cluster.waiting_queue,
            i <= q@.len(),
            i <= top_k,
            mask@.len() == i,
            forall|k: int| 0 <= k < i ==> #[trigger] mask@[k] == rm.spec_can_place(*cluster, q@[k]),
        decreases q.len() - i,
    {
        mask.push(rm.can_place(cluster, &q[i]));
        i = i + 1;
    }
    mask
}

/// Some waiting job of `c` can be placed now.
pub open spec fn any_placeable(rm: ResourceManager, c: Cluster) -> bool {
    exists|i: int| 0 <= i < c.waiting_queue@.len() && rm.spec_can_place(c, #[trigger] c.waiting_queue@[i])
}

/// Index of the first true entry of `m`, or -1.
pub open spec fn first_true(m: Seq<bool>) -> int
    decreases m.len(),
{
    if m.len() == 0 {
        -1
    } else {
        let k = first_true(m.drop_last());
        if k >= 0 { k } else if m.last() { m.len() - 1 } else { -1 }
    }
}

proof fn lemma_first_true_prefix(m: Seq<bool>, n: int)
    requires
        0 <= n <= m.len(),
        first_true(m.take(n)) >= 0,
    ensures
        first_true(m) == first_true(m.take(n)),
    decreases m.len() - n,
{
    if n == m.len() {
        assert(m.take(n) == m);
    } else {
        assert(m.drop_last().take(n) == m.take(n));
        lemma_first_true_prefix(m.drop_last(), n);
    }
}

/// The action the first-fit policy takes: the first shown job that can be
/// placed, or letting time pass.
pub open spec fn fifo_action(s: RlSession) -> usize {
    let m = Seq::new(
        if s.top_k <= s.cluster.waiting_queue@.len() { s.top_k as nat } else { s.cluster.waiting_queue@.len() },
        |i: int| s.resource_manager.spec_can_place(s.cluster, s.cluster.waiting_queue@[i]),
    );
    if first_true(m) >= 0 { first_true(m) as usize } else { s.top_k }
}

/// What allocating `j` at `start` under `rm` does: cluster `c0` becomes `c1`, with result `r`.
pub open spec fn allocated(rm: ResourceManager, c0: Cluster, c1: Cluster, j: Job, start: u64, r: Result<Placement, SimError>) -> bool {
    if j.spec_is_mig_job() {
        mig_outcome(rm.mig_registry, c0, c1, j, start, r)
    } else {
        whole_allocation(rm.gpu_selection, c0, c1, j, start, r)
    }
}

/// Trying to place waiting job `index` of `a` gave `b`: only a shown job that
/// can be placed is tried; it is allocated at the current time and, when that
/// succeeds, committed.
pub open spec fn try_placed(a: RlSession, b: RlSession, index: usize, placed: bool) -> bool {
    if index >= a.cluster.waiting_queue@.len() || !a.resource_manager.spec_can_place(
        a.cluster,
        a.cluster.waiting_queue@[index as int],
    ) {
        !placed && b == a
    } else {
        exists|j: Job, c1: Cluster, r: Result<Placement, SimError>|
            #[trigger] allocated(a.resource_manager, a.cluster, c1, j, a.cluster.clock, r) && j@
                == a.cluster.waiting_queue@[index as int]@ && match r {
                Ok(pl) => placed && b == (RlSession { cluster: b.cluster, event_queue: b.event_queue, ..a })
                    && exists|k: bool| #[trigger] placement_committed(c1, a.event_queue@, pl, b.cluster, b.event_queue@, k),
                Err(_) => !placed && b == (RlSession { cluster: c1, ..a }),
            }
    }
}

/// The action's own effect on `a`, before time moves on: placing a shown
/// waiting job, or nothing for any other action.
pub open spec fn acted(a: RlSession, m: RlSession, action: usize, placed: bool) -> bool {
    if action >= a.top_k || action >= a.cluster.waiting_queue@.len() {
        !placed && m == a
    } else {
        try_placed(a, m, action, placed)
    }
}

/// What taking `action` on session `a` gave: session `b` and result `r`.
pub open spec fn stepped(a: RlSession, b: RlSession, action: usize, r: StepResult) -> bool {
    if a.done {
        &&& r.done && !r.placed && !r.invalid_action && b == a
        &&& r.mean_wait_before == (0u128, 0u128) && r.mean_wait_after == (0u128, 0u128)
        &&& exists|mask: Seq<bool>|
            placeable_mask_of(a.resource_manager, a.cluster, a.top_k, mask) && #[trigger] crate::snapshot::snapshot_of(
                r.observation,
                a.cluster,
                a.top_k,
                mask,
            )
    } else {
        &&& r.placed ==> action < a.top_k && action < a.cluster.waiting_queue@.len() && a.resource_manager.spec_can_place(
            a.cluster,
            a.cluster.waiting_queue@[action as int],
        )
        &&& r.invalid_action == (action < a.top_k && !r.placed)
        &&& r.done == b.done
        &&& r.mean_wait_after == mean_wait(b.cluster)
        &&& b.last_mean_wait == r.mean_wait_after
        &&& b.top_k == a.top_k
        &&& b.jobs_total == a.jobs_total
        &&& b.template_cluster == a.template_cluster
        &&& b.initial_jobs == a.initial_jobs
        &&& b.resource_manager == a.resource_manager
        &&& exists|m: RlSession, b0: RlSession|
            #[trigger] after_action(m, b0, r.placed) && acted(a, m, action, r.placed) && b == (RlSession {
                last_mean_wait: mean_wait(b.cluster),
                ..b0
            }) && r.mean_wait_before == b0.last_mean_wait
        &&& exists|mask: Seq<bool>|
            placeable_mask_of(b.resource_manager, b.cluster, b.top_k, mask) && #[trigger] crate::snapshot::snapshot_of(
                r.observation,
                b.cluster,
                b.top_k,
                mask,
            )
    }
}

impl RlSession {
    pub open spec fn wf(&self) -> bool {
        &&& self.template_cluster.running_jobs.wf()
        &&& self.template_cluster.topology.nvlink_bw_gbs >= 1
        &&& self.cluster.running_jobs.wf()
        &&& self.cluster.topology.nvlink_bw_gbs >= 1
        &&& 1 <= self.top_k
        &&& 5 + self.top_k * 7 <= usize::MAX
    }

    /// A session over `cluster` with `jobs` to arrive, showing `top_k` queued
    /// jobs (at least one), already advanced to its first decision.
    pub fn new(cluster: Cluster, resource_manager: ResourceManager, jobs: Vec<Job>, top_k: usize) -> (s: RlSession)
        requires
            cluster.running_jobs.wf(),
            cluster.topology.nvlink_bw_gbs >= 1,
            5 + top_k * 7 <= usize::MAX,
        ensures
            s.wf(),
            s.jobs_total == jobs@.len(),
            s.top_k == if top_k >= 1 { top_k } else { 1 },
            s.resource_manager == resource_manager,
            s.template_cluster == cluster,
            s.initial_jobs == jobs,
            exists|a: RlSession|
                #[trigger] reset_from(a, s) && a.template_cluster == cluster && a.initial_jobs == jobs && a.resource_manager
                    == resource_manager && a.jobs_total == jobs@.len() && a.top_k == s.top_k,
    {
        let jobs_total = jobs.len();
        let working = cluster.duplicate();
        proof {
            lemma_copy_wf(working, cluster);
        }
        let mut session = RlSession {
            template_cluster: cluster,
            cluster: working,
            resource_manager,
            event_queue: EventQueue::new(),
            pending_arrivals: Vec::new(),
            initial_jobs: jobs,
            jobs_total,
            top_k: if top_k >= 1 { top_k } else { 1 },
            last_mean_wait: (0, 1),
            done: false,
        };
        let ghost a = session;
        session.reset();
        proof {
            assert(reset_from(a, session));
        }
        session
    }

    /// Starts over from the template cluster with every job pending arrival,
    /// advances to the first decision and returns the observation.
    pub fn reset(&mut self) -> (obs: ClusterSnapshot)
        requires
            old(self).wf(),
        ensures
            final(self).wf(),
            final(self).template_cluster == old(self).template_cluster,
            final(self).initial_jobs == old(self).initial_jobs,
            final(self).jobs_total == old(self).jobs_total,
            final(self).top_k == old(self).top_k,
            final(self).resource_manager == old(self).resource_manager,
            reset_from(*old(self), *final(self)),
            exists|mask: Seq<bool>|
                placeable_mask_of(final(self).resource_manager, final(self).cluster, final(self).top_k, mask) && #[trigger]
                crate::snapshot::snapshot_of(obs, final(self).cluster, final(self).top_k, mask),
    {
        let fresh = self.template_cluster.duplicate();
        proof {
            lemma_copy_wf(fresh, self.template_cluster);
        }
        self.cluster = fresh;
        self.event_queue = EventQueue::new();
        self.pending_arrivals = Vec::new();
        self.done = false;
        self.last_mean_wait = (0, 1);
        let copies = crate::copies::copy_jobs(&self.initial_jobs);
        let ghost cs = copies@;
        let jobs = sort_jobs_by_arrival(copies);
        let ghost all = jobs@;
        let mut rest = jobs;
        while rest.len() > 0
            invariant
                self.wf(),
                self.template_cluster == old(self).template_cluster,
                self.initial_jobs == old(self).initial_jobs,
                self.jobs_total == old(self).jobs_total,
                self.top_k == old(self).top_k,
                self.resource_manager == old(self).resource_manager,
                self.done == false,
                self.last_mean_wait == (0u128, 1u128),
                is_copy(self.cluster, old(self).template_cluster),
                rest@.len() <= all.len(),
                rest@ == all.skip(all.len() - rest@.len()),
                self.pending_arrivals@ == all.take(all.len() - rest@.len()),
                self.event_queue@ == arrival_events(all.take(all.len() - rest@.len())),
            decreases rest.len(),
        {
            let ghost done = all.len() - rest@.len();
            let job = rest.remove(0);
            proof {
                assert(job == all[done]);
                assert(rest@ == all.skip(done + 1));
                assert(all.take(done + 1) == all.take(done).push(all[done]));
            }
            self.event_queue.push(Event { time: job.arrival_time, kind: EventKind::JobArrival, job_id: job.id.clone(), run_generation: 0 });
            self.pending_arrivals.push(job);
            proof {
                assert(self.event_queue@ =~= arrival_events(all.take(done + 1)));
            }
        }
        proof {
            assert(all.take(all.len() as int) == all);
        }
        let ghost x = *self;
        self.advance_to_decision();
        proof {
            assert(decided(x, *self));
            assert(x == (RlSession {
                cluster: x.cluster,
                event_queue: x.event_queue,
                pending_arrivals: x.pending_arrivals,
                done: false,
                last_mean_wait: (0u128, 1u128),
                ..*old(self)
            }));
        }
        self.observe()
    }

    pub fn is_done(&self) -> (r: bool)
        ensures
            r == self.done,
    {
        self.done
    }

    pub fn obs_size(&self) -> (n: usize)
        requires
            self.wf(),
        ensures
            n == 5 + self.top_k * 7,
    {
        obs_size(self.top_k)
    }

    /// One action per shown job, plus letting time pass.
    pub fn action_space_n(&self) -> (n: usize)
        requires
            self.wf(),
        ensures
            n == self.top_k + 1,
    {
        self.top_k + 1
    }

    /// The cluster as the agent sees it now.
    pub fn observe(&self) -> (obs: ClusterSnapshot)
        ensures
            exists|mask: Seq<bool>|
                placeable_mask_of(self.resource_manager, self.cluster, self.top_k, mask) && #[trigger]
                crate::snapshot::snapshot_of(obs, self.cluster, self.top_k, mask),
    {
        let mask = placeable_mask(&self.resource_manager, &self.cluster, self.top_k);
        ClusterSnapshot::from_cluster(&self.cluster, self.top_k, &mask)
    }

    pub fn feature_vector(&self) -> (v: Vec<u64>)
        ensures
            v@.len() == 5 + 7 * (if self.top_k <= self.cluster.waiting_queue@.len() {
                self.top_k as int
            } else {
                self.cluster.waiting_queue@.len() as int
            }),
    {
        self.observe().to_feature_vector()
    }

    pub fn decisions(&self) -> (d: &Vec<SchedulerDecision>)
        ensures
            *d == self.cluster.decision_log,
    {
        &self.cluster.decision_log
    }

    /// Places the first placeable shown job, or lets time pass when none is.
    pub fn step_fifo(&mut self) -> (r: StepResult)
        requires
            old(self).wf(),
        ensures
            final(self).wf(),
            stepped(*old(self), *final(self), fifo_action(*old(self)), r),
    {
        if self.done {
            return self.finished_result();
        }
        let mask = placeable_mask(&self.resource_manager, &self.cluster, self.top_k);
        let mut action = self.top_k;
        let mut i: usize = 0;
        proof {
            assert(mask@.take(0) =~= Seq::<bool>::empty());
            if mask@.len() == 0 {
                assert(mask@ =~= Seq::<bool>::empty());
            }
        }
        while i < mask.len()
            invariant_except_break
                action == self.top_k,
            invariant
                i <= mask@.len(),
                first_true(mask@.take(i as int)) < 0,
                i == mask@.len() ==> first_true(mask@) < 0,
            ensures
                (action == self.top_k && first_true(mask@) < 0) || (first_true(mask@) >= 0 && action == first_true(mask@)),
            decreases mask.len() - i,
        {
            proof {
                assert(mask@.take(i as int + 1).drop_last() == mask@.take(i as int));
                assert(mask@.take(i as int + 1).last() == mask@[i as int]);
            }
            if mask[i] {
                action = i;
                proof {
                    assert(first_true(mask@.take(i as int + 1)) == i);
                    lemma_first_true_prefix(mask@, i as int + 1);
                }
                break;
            }
            i = i + 1;
            proof {
                if i == mask.len() {
                    assert(mask@.take(i as int) == mask@);
                }
            }
        }
        proof {
            let m = Seq::new(
                if self.top_k <= self.cluster.waiting_queue@.len() { self.top_k as nat } else { self.cluster.waiting_queue@.len() },
                |k: int| self.resource_manager.spec_can_place(self.cluster, self.cluster.waiting_queue@[k]),
            );
            assert(mask@ =~= m);
        }
        self.step(action)
    }

    fn finished_result(&self) -> (r: StepResult)
        ensures
            r.done && !r.placed && !r.invalid_action,
            r.mean_wait_before == (0u128, 0u128),
            r.mean_wait_after == (0u128, 0u128),
            exists|mask: Seq<bool>|
                placeable_mask_of(self.resource_manager, self.cluster, self.top_k, mask) && #[trigger]
                crate::snapshot::snapshot_of(r.observation, self.cluster, self.top_k, mask),
    {
        let observation = self.observe();
        let ghost mask = choose|mask: Seq<bool>|
            placeable_mask_of(self.resource_manager, self.cluster, self.top_k, mask) && #[trigger]
            crate::snapshot::snapshot_of(observation, self.cluster, self.top_k, mask);
        let r = StepResult {
            observation,
            mean_wait_before: (0, 0),
            mean_wait_after: (0, 0),
            done: true,
            placed: false,
            invalid_action: false,
        };
        proof {
            assert(crate::snapshot::snapshot_of(r.observation, self.cluster, self.top_k, mask));
        }
        r
    }

    /// Applies `action`: an index below `top_k` asks to place that queued job (an
    /// invalid action when there is no such job or it does not fit), anything
    /// else lets time pass. Then the session advances to its next decision.
    pub fn step(&mut self, action: usize) -> (r: StepResult)
        requires
            old(self).wf(),
        ensures
            final(self).wf(),
            stepped(*old(self), *final(self), action, r),
    {
        if self.done {
            return self.finished_result();
        }
        let noop = action >= self.top_k;
        let mut placed = false;
        let mut invalid_action = false;
        let ghost mut m = *self;
        if noop {
            self.advance_after_action(false);
        } else if action < self.cluster.waiting_queue.len() {
            placed = self.try_place_waiting_index(action);
            proof {
                m = *self;
            }
            if !placed {
                invalid_action = true;
            }
            self.advance_after_action(placed);
        } else {
            invalid_action = true;
            self.advance_after_action(false);
        }
        let ghost b0 = *self;
        let observation = self.observe();
        let ghost mask = choose|mask: Seq<bool>|
            placeable_mask_of(self.resource_manager, self.cluster, self.top_k, mask) && #[trigger]
            crate::snapshot::snapshot_of(observation, self.cluster, self.top_k, mask);
        let mean = mean_cumulative_wait(&self.cluster);
        let before = self.last_mean_wait;
        self.last_mean_wait = mean;
        proof {
            assert(placeable_mask_of(self.resource_manager, self.cluster, self.top_k, mask));
            assert(crate::snapshot::snapshot_of(observation, self.cluster, self.top_k, mask));
            assert(after_action(m, b0, placed));
            assert(acted(*old(self), m, action, placed));
            assert(*self == (RlSession { last_mean_wait: mean_wait(self.cluster), ..b0 }));
        }
        let r = StepResult { observation, mean_wait_before: before, mean_wait_after: mean, done: self.done, placed, invalid_action };
        proof {
            assert(crate::snapshot::snapshot_of(r.observation, self.cluster, self.top_k, mask));
        }
        r
    }

    fn has_placeable_waiting(&self) -> (r: bool)
        ensures
            r == any_placeable(self.resource_manager, self.cluster),
    {
        let q = &self.cluster.waiting_queue;
        let mut i: usize = 0;
        while i < q.len()
            invariant
                q == &self.cluster.waiting_queue,
                i <= q@.len(),
                forall|k: int| 0 <= k < i ==> !self.resource_manager.spec_can_place(self.cluster, #[trigger] q@[k]),
            decreases q.len() - i,
        {
            if self.resource_manager.can_place(&self.cluster, &q[i]) {
                return true;
            }
            i = i + 1;
        }
        false
    }

    /// Places queued job `index` now if it fits.
    fn try_place_waiting_index(&mut self, index: usize) -> (placed: bool)
        requires
            old(self).wf(),
        ensures
            final(self).wf(),
            placed ==> index < old(self).cluster.waiting_queue@.len() && old(self).resource_manager.spec_can_place(
                old(self).cluster,
                old(self).cluster.waiting_queue@[index as int],
            ),
            final(self).done == old(self).done,
            final(self).top_k == old(self).top_k,
            final(self).template_cluster == old(self).template_cluster,
            final(self).resource_manager == old(self).resource_manager,
            final(self).jobs_total == old(self).jobs_total,
            final(self).last_mean_wait == old(self).last_mean_wait,
            final(self).initial_jobs == old(self).initial_jobs,
            try_placed(*old(self), *final(self), index, placed),
    {
        if index >= self.cluster.waiting_queue.len() {
            return false;
        }
        let job = self.cluster.waiting_queue[index].duplicate();
        proof {
            assert(job@ == self.cluster.waiting_queue@[index as int]@);
        }
        if !self.resource_manager.can_place(&self.cluster, &self.cluster.waiting_queue[index]) {
            return false;
        }
        let clock = self.cluster.clock;
        let ghost a = *self;
        let res = self.resource_manager.allocate(&mut self.cluster, &job, clock);
        let ghost rv = res;
        let ghost c1 = self.cluster;
        proof {
            assert(allocated(a.resource_manager, a.cluster, c1, job, a.cluster.clock, rv));
        }
        match res {
            Ok(placement) => {
                let ghost pl = placement;
                let k = commit_placement(&mut self.cluster, &mut self.event_queue, placement);
                proof {
                    assert(placement_committed(c1, a.event_queue@, pl, self.cluster, self.event_queue@, k));
                }
                true
            },
            Err(_) => false,
        }
    }

    /// Sorts the queue by priority, then handles events until a waiting job can
    /// be placed; with no event left, the session is done.
    fn advance_to_decision(&mut self)
        requires
            old(self).wf(),
        ensures
            final(self).wf(),
            final(self).template_cluster == old(self).template_cluster,
            final(self).initial_jobs == old(self).initial_jobs,
            final(self).jobs_total == old(self).jobs_total,
            final(self).top_k == old(self).top_k,
            final(self).resource_manager == old(self).resource_manager,
            final(self).last_mean_wait == mean_wait(final(self).cluster),
            decided(*old(self), *final(self)),
    {
        self.cluster.sort_waiting_by_priority();
        let ghost s0 = *self;
        let ghost mut n: nat = 0;
        let ghost mut x = *self;
        let mut fuel: u64 = u64::MAX;
        while fuel > 0
            invariant_except_break
                self.done == old(self).done,
            invariant
                self.wf(),
                self.template_cluster == old(self).template_cluster,
                self.initial_jobs == old(self).initial_jobs,
                self.jobs_total == old(self).jobs_total,
                self.top_k == old(self).top_k,
                self.resource_manager == old(self).resource_manager,
                n + fuel == u64::MAX,
                events_advanced(s0, n, x),
                *self == (RlSession { done: self.done, event_queue: self.event_queue, ..x }),
                self.event_queue@ == x.event_queue@,
                x.done == old(self).done,
            ensures
                self.wf(),
                self.template_cluster == old(self).template_cluster,
                self.initial_jobs == old(self).initial_jobs,
                self.jobs_total == old(self).jobs_total,
                self.top_k == old(self).top_k,
                self.resource_manager == old(self).resource_manager,
                events_advanced(s0, n, x),
                n < u64::MAX ==> at_decision(x) || x.event_queue@.len() == 0,
                *self == (RlSession {
                    done: old(self).done || (n < u64::MAX && !at_decision(x) && x.event_queue@.len() == 0),
                    event_queue: self.event_queue,
                    ..x
                }),
                self.event_queue@ == x.event_queue@,
            decreases fuel,
        {
            if self.at_decision_point() {
                break;
            }
            if !self.advance_time_one_event() {
                self.done = true;
                break;
            }
            proof {
                assert(event_advanced(x, *self));
                assert(events_advanced(s0, n + 1, *self));
                n = n + 1;
                x = *self;
            }
            fuel = fuel - 1;
        }
        self.last_mean_wait = mean_cumulative_wait(&self.cluster);
        proof {
            assert(s0 == with_waiting(*old(self), s0.cluster.waiting_queue));
            assert(events_advanced(with_waiting(*old(self), s0.cluster.waiting_queue), n, x));
        }
    }

    /// After an action: when everything is placed and nothing is pending, the
    /// remaining events play out; otherwise time moves on by one event unless a
    /// fresh placement left another decision open, and the session advances to
    /// its next decision.
    fn advance_after_action(&mut self, placed: bool)
        requires
            old(self).wf(),
        ensures
            final(self).wf(),
            final(self).template_cluster == old(self).template_cluster,
            final(self).initial_jobs == old(self).initial_jobs,
            final(self).jobs_total == old(self).jobs_total,
            final(self).top_k == old(self).top_k,
            final(self).resource_manager == old(self).resource_manager,
            after_action(*old(self), *final(self), placed),
    {
        if placed && self.cluster.waiting_queue.len() == 0 && !self.has_pending_work() {
            self.drain_events();
            return;
        }
        if !placed || !self.at_decision_point() {
            if self.event_queue.is_empty() {
                self.drain_events();
            } else {
                self.advance_time_one_event();
            }
        }
        let ghost m = *self;
        self.advance_to_decision();
        proof {
            assert(decided(m, *self));
        }
    }

    fn at_decision_point(&self) -> (r: bool)
        ensures
            r == (self.cluster.waiting_queue@.len() > 0 && any_placeable(self.resource_manager, self.cluster)),
    {
        self.cluster.waiting_queue.len() > 0 && self.has_placeable_waiting()
    }

    fn has_pending_work(&self) -> (r: bool)
        ensures
            r == (self.pending_arrivals@.len() > 0 || self.event_queue@.len() > 0),
    {
        self.pending_arrivals.len() > 0 || !self.event_queue.is_empty()
    }

    /// Handles every remaining event, then the session is done once all jobs ended.
    fn drain_events(&mut self)
        requires
            old(self).wf(),
        ensures
            final(self).wf(),
            final(self).template_cluster == old(self).template_cluster,
            final(self).initial_jobs == old(self).initial_jobs,
            final(self).jobs_total == old(self).jobs_total,
            final(self).top_k == old(self).top_k,
            final(self).resource_manager == old(self).resource_manager,
            final(self).done == (final(self).cluster.finished_jobs@.len() >= final(self).jobs_total),
            drained(*old(self), *final(self)),
    {
        let ghost s0 = *self;
        let ghost mut n: nat = 0;
        let ghost mut x = *self;
        let mut fuel: u64 = u64::MAX;
        while fuel > 0
            invariant
                self.wf(),
                self.template_cluster == old(self).template_cluster,
                self.initial_jobs == old(self).initial_jobs,
                self.jobs_total == old(self).jobs_total,
                self.top_k == old(self).top_k,
                self.resource_manager == old(self).resource_manager,
                s0 == *old(self),
                n + fuel == u64::MAX,
                events_advanced(s0, n, x),
                *self == (RlSession { event_queue: self.event_queue, ..x }),
                self.event_queue@ == x.event_queue@,
            ensures
                self.wf(),
                self.template_cluster == old(self).template_cluster,
                self.initial_jobs == old(self).initial_jobs,
                self.jobs_total == old(self).jobs_total,
                self.top_k == old(self).top_k,
                self.resource_manager == old(self).resource_manager,
                events_advanced(s0, n, x),
                x.event_queue@.len() == 0 || n == u64::MAX,
                *self == (RlSession { event_queue: self.event_queue, ..x }),
                self.event_queue@ == x.event_queue@,
            decreases fuel,
        {
            let ghost before = *self;
            if !self.advance_time_one_event() {
                break;
            }
            proof {
                assert(event_advanced(x, *self));
                assert(events_advanced(s0, n + 1, *self));
                n = n + 1;
                x = *self;
            }
            fuel = fuel - 1;
        }
        self.done = self.cluster.finished_jobs.len() >= self.jobs_total;
        proof {
            assert(events_advanced(*old(self), n, x));
        }
    }

    /// Handles the next event at its time; false when there is none.
    fn advance_time_one_event(&mut self) -> (r: bool)
        requires
            old(self).wf(),
        ensures
            final(self).wf(),
            r == (old(self).event_queue@.len() > 0),
            final(self).template_cluster == old(self).template_cluster,
            final(self).initial_jobs == old(self).initial_jobs,
            final(self).jobs_total == old(self).jobs_total,
            final(self).top_k == old(self).top_k,
            final(self).resource_manager == old(self).resource_manager,
            final(self).done == old(self).done,
            r ==> event_advanced(*old(self), *final(self)),
            !r ==> *final(self) == (RlSession { event_queue: final(self).event_queue, ..*old(self) })
                && final(self).event_queue@ == old(self).event_queue@,
    {
        match self.event_queue.pop() {
            Some(e) => {
                self.cluster.clock = e.time;
                handle_event(&mut self.cluster, &mut self.event_queue, &mut self.pending_arrivals, &e);
                true
            },
            None => false,
        }
    }
}

/// `jobs` in arrival order, stable.
fn sort_jobs_by_arrival(jobs: Vec<Job>) -> (r: Vec<Job>)
    ensures
        r@ == by_arrival(jobs@),
{
    let mut q = jobs;
    let ghost q0 = q@;
    let mut pairs: Vec<(ArrivalKey, Job)> = Vec::new();
    while q.len() > 0
        invariant
            q@.len() <= q0.len(),
            q@ == q0.skip(q0.len() - q@.len()),
            pairs@ == crate::lifecycle::arrival_pairs(q0.take(q0.len() - q@.len())),
        decreases q.len(),
    {
        let ghost done = q0.len() - q@.len();
        let j = q.remove(0);
        proof {
            assert(j == q0[done]);
            assert(q0.take(done + 1) == q0.take(done).push(q0[done]));
            assert(q@ == q0.skip(done + 1));
        }
        pairs.push((ArrivalKey { arrival: j.arrival_time }, j));
        proof {
            assert(pairs@ =~= crate::lifecycle::arrival_pairs(q0.take(done + 1)));
        }
    }
    proof {
        assert(q0.take(q0.len() as int) == q0);
    }
    let sorted = sort_by_rank(pairs);
    let mut rest = sorted;
    let ghost s0 = rest@;
    let mut out: Vec<Job> = Vec::new();
    while rest.len() > 0
        invariant
            rest@.len() <= s0.len(),
            rest@ == s0.skip(s0.len() - rest@.len()),
            out@ == s0.take(s0.len() - rest@.len()).map_values(|p: (ArrivalKey, Job)| p.1),
        decreases rest.len(),
    {
        let ghost done = s0.len() - rest@.len();
        let (_, j) = rest.remove(0);
        proof {
            assert(s0.take(done + 1) == s0.take(done).push(s0[done]));
            assert(rest@ == s0.skip(done + 1));
        }
        out.push(j);
        proof {
            assert(out@ =~= s0.take(done + 1).map_values(|p: (ArrivalKey, Job)| p.1));
        }
    }
    proof {
        assert(s0.take(s0.len() as int) == s0);
    }
    out
}

} // verus!
