//! The discrete-event engine: events change the cluster, then the scheduler
//! decides, and its placements are committed.

use vstd::prelude::*;

use crate::cluster::Cluster;
use crate::decision::SchedulerDecision;
use crate::events::{next_index, Event, EventKind, EventQueue};
use crate::job::{sat_add, sat_add_exec, sat_add_u32, sat_add_u32_exec, Job, JobView};
use crate::lifecycle::{ended, failed, find_job, first_with_id, started, resource_nodes, set_resources};
use crate::model::{copy_strings, JobState, Placement};
use crate::resource::ResourceManager;
use crate::scheduler::Scheduler;
use crate::rl::{placeable_mask, placeable_mask_of};
use crate::seqs::strs;
use crate::snapshot::{snapshot_of, ClusterSnapshot, DEFAULT_OBS_TOP_K};
use crate::text::{decimal, push_decimal, push_str};
use crate::topology::{scale_duration, scaled_duration};

verus! {

/// A gang job whose timeout starts counting when it arrives.
pub open spec fn gang_timeout_armed(j: JobView) -> bool {
    j.gang_enabled && (j.gang_timeout_secs matches Some(t) && t > 0)
}

/// A job as it arrives at `clock`: waiting from the later of `clock` and its
/// arrival time; a gang job with a positive timeout gets a deadline counted from
/// its arrival, under the next timeout generation.
pub open spec fn arrived(j: JobView, clock: u64) -> JobView {
    let w = JobView {
        state: JobState::Waiting,
        waiting_since: Some(if clock >= j.arrival_time { clock } else { j.arrival_time }),
        ..j
    };
    if gang_timeout_armed(j) {
        JobView {
            gang_deadline: Some(sat_add(j.arrival_time, j.gang_timeout_secs->0)),
            gang_timeout_generation: sat_add_u32(j.gang_timeout_generation, 1),
            ..w
        }
    } else {
        w
    }
}

/// Timeout event for waiting gang job `j`, at its deadline.
pub open spec fn timeout_event(j: Job) -> Event {
    Event { time: j.gang_deadline->0, kind: EventKind::GangTimeout, job_id: j.id, run_generation: j.gang_timeout_generation }
}

/// Admitting pending job `job_id` takes `(c0, e0, p0)` to `(c1, e1, p1)`.
pub open spec fn admitted(
    c0: Cluster,
    e0: Seq<Event>,
    p0: Seq<Job>,
    job_id: Seq<char>,
    c1: Cluster,
    e1: Seq<Event>,
    p1: Seq<Job>,
) -> bool {
    let i = first_with_id(p0, job_id);
    if i < 0 {
        c1 == c0 && e1 == e0 && p1 == p0
    } else {
        let j = p0[i];
        let a = arrived(j@, c0.clock);
        &&& p1 == p0.remove(i)
        &&& c1.waiting_queue@.len() == c0.waiting_queue@.len() + 1
        &&& c1.waiting_queue@.drop_last() == c0.waiting_queue@
        &&& c1.waiting_queue@.last()@ == a
        &&& c1 == (Cluster {
            waiting_queue: c1.waiting_queue,
            queue_max_length: c1.queue_max_length,
            ..c0
        })
        &&& c1.queue_max_length == if c0.queue_max_length >= c1.waiting_queue@.len() {
            c0.queue_max_length as int
        } else {
            c1.waiting_queue@.len() as int
        }
        &&& e1 == if gang_timeout_armed(j@) {
            e0.push(
                Event {
                    time: a.gang_deadline->0,
                    kind: EventKind::GangTimeout,
                    job_id: j.id,
                    run_generation: a.gang_timeout_generation,
                },
            )
        } else {
            e0
        }
    }
}

/// Admits pending job `job_id` into the waiting queue at the cluster clock, and
/// schedules its gang timeout when one applies. Unknown ids change nothing.
pub fn admit_arrival(cluster: &mut Cluster, events: &mut EventQueue, pending: &mut Vec<Job>, job_id: &String)
    ensures
        admitted(*old(cluster), old(events)@, old(pending)@, job_id@, *final(cluster), final(events)@, final(pending)@),
{
    match find_job(pending, job_id) {
        None => {},
        Some(i) => {
            let mut job = pending.remove(i);
            let clock = cluster.clock;
            let since = if clock >= job.arrival_time { clock } else { job.arrival_time };
            job.enter_waiting(since);
            if job.gang_enabled {
                match job.gang_timeout_secs {
                    Some(t) => {
                        if t > 0 {
                            job.gang_deadline = Some(sat_add_exec(job.arrival_time, t));
                            job.gang_timeout_generation = sat_add_u32_exec(job.gang_timeout_generation, 1);
                            events.push(
                                Event {
                                    time: sat_add_exec(job.arrival_time, t),
                                    kind: EventKind::GangTimeout,
                                    job_id: job.id.clone(),
                                    run_generation: job.gang_timeout_generation,
                                },
                            );
                        }
                    },
                    None => {},
                }
            }
            let ghost q0 = cluster.waiting_queue@;
            cluster.enqueue_job(job);
            proof {
                assert(cluster.waiting_queue@.drop_last() =~= q0);
            }
        },
    }
}

/// Completing run `generation` of `job_id` takes `c0` to `c1`; `fired` tells
/// whether it was the job's current run.
pub open spec fn completed(c0: Cluster, job_id: Seq<char>, generation: u32, c1: Cluster, fired: bool) -> bool {
    &&& fired == (c0.running_jobs.lookup(job_id) matches Some(j) && j.run_generation == generation)
    &&& !fired ==> c1 == c0
    &&& fired ==> ({
        let j = c0.running_jobs.lookup(job_id)->0;
        &&& c1.gpu_views() == set_resources(c0.gpu_views(), strs(j.assigned_gpus@), None)
        &&& c1.running_jobs.lookup(job_id) is None
        &&& forall|q: Seq<char>| q != job_id ==> c1.running_jobs.lookup(q) == c0.running_jobs.lookup(q)
        &&& c1.finished_jobs@.drop_last() == c0.finished_jobs@
        &&& c1.finished_jobs@.len() == c0.finished_jobs@.len() + 1
        &&& c1.finished_jobs@.last()@ == ended(j@, JobState::Finished, c0.clock)
        &&& c1 == (Cluster {
            nodes: c1.nodes,
            running_jobs: c1.running_jobs,
            finished_jobs: c1.finished_jobs,
            ..c0
        })
    })
}

/// Finishes running job `job_id` at the cluster clock when its current run is
/// run `generation`; a completion of an earlier run is ignored.
pub fn complete_run(cluster: &mut Cluster, job_id: &String, generation: u32) -> (fired: bool)
    requires
        old(cluster).running_jobs.wf(),
    ensures
        final(cluster).running_jobs.wf(),
        completed(*old(cluster), job_id@, generation, *final(cluster), fired),
{
    let current = match cluster.running_jobs.get(job_id) {
        Some(j) => j.run_generation == generation,
        None => false,
    };
    if current {
        let clock = cluster.clock;
        cluster.finish_job(job_id, clock);
    }
    current
}

/// A waiting job `job_id` still under timeout generation `generation`.
pub open spec fn still_waiting(q: Seq<Job>, job_id: Seq<char>, generation: u32) -> bool {
    exists|i: int|
        0 <= i < q.len() && (#[trigger] q[i]).id@ == job_id && q[i].state == JobState::Waiting
            && q[i].gang_timeout_generation == generation
}

/// Expiring timeout `generation` of `job_id` takes `c0` to `c1`; `fired` tells
/// whether the job still waited under that timeout.
pub open spec fn expired(c0: Cluster, job_id: Seq<char>, generation: u32, c1: Cluster, fired: bool) -> bool {
    &&& fired == still_waiting(c0.waiting_queue@, job_id, generation)
    &&& !fired ==> c1 == c0
    &&& fired ==> ({
        let i = first_with_id(c0.waiting_queue@, job_id);
        &&& 0 <= i < c0.waiting_queue@.len()
        &&& c1.waiting_queue@ == c0.waiting_queue@.remove(i)
        &&& c1.finished_jobs@.drop_last() == c0.finished_jobs@
        &&& c1.finished_jobs@.len() == c0.finished_jobs@.len() + 1
        &&& c1.finished_jobs@.last()@ == failed(c0.waiting_queue@[i]@, c0.clock)
        &&& c1 == (Cluster {
            waiting_queue: c1.waiting_queue,
            finished_jobs: c1.finished_jobs,
            ..c0
        })
    })
}

/// Fails waiting gang job `job_id` at the cluster clock when its timeout of
/// generation `generation` is still current.
pub fn expire_gang(cluster: &mut Cluster, job_id: &String, generation: u32) -> (fired: bool)
    ensures
        expired(*old(cluster), job_id@, generation, *final(cluster), fired),
{
    let mut i: usize = 0;
    let mut found = false;
    while i < cluster.waiting_queue.len()
        invariant
            i <= cluster.waiting_queue@.len(),
            *cluster == *old(cluster),
            found == exists|k: int|
                0 <= k < i && (#[trigger] cluster.waiting_queue@[k]).id@ == job_id@ && cluster.waiting_queue@[k].state
                    == JobState::Waiting && cluster.waiting_queue@[k].gang_timeout_generation == generation,
        decreases cluster.waiting_queue.len() - i,
    {
        let j = &cluster.waiting_queue[i];
        if j.id == *job_id && j.state == JobState::Waiting && j.gang_timeout_generation == generation {
            found = true;
        }
        i = i + 1;
    }
    if found {
        proof {
            crate::lifecycle::lemma_first_bounds(cluster.waiting_queue@, job_id@);
            let k = choose|k: int|
                0 <= k < i && (#[trigger] cluster.waiting_queue@[k]).id@ == job_id@ && cluster.waiting_queue@[k].state
                    == JobState::Waiting && cluster.waiting_queue@[k].gang_timeout_generation == generation;
            assert(cluster.waiting_queue@[k].id@ == job_id@);
        }
        let clock = cluster.clock;
        let failed_one = cluster.fail_waiting_job(job_id, clock);
        assert(failed_one);
    }
    found
}

/// Timeout events of the gang jobs named by `ids` that still wait with a deadline, in order.
pub open spec fn rearm_events(q: Seq<Job>, ids: Seq<String>) -> Seq<Event>
    decreases ids.len(),
{
    if ids.len() == 0 {
        Seq::empty()
    } else {
        let d = rearm_events(q, ids.drop_last());
        let k = first_with_id(q, ids.last()@);
        if k >= 0 && q[k].gang_deadline is Some {
            d.push(timeout_event(q[k]))
        } else {
            d
        }
    }
}

/// Re-arming the requested gang timeouts takes `(c0, e0)` to `(c1, e1)`.
pub open spec fn rearmed(c0: Cluster, e0: Seq<Event>, c1: Cluster, e1: Seq<Event>) -> bool {
    &&& e1 == e0 + rearm_events(c0.waiting_queue@, c0.gang_timeout_rearm_ids@)
    &&& c1.gang_timeout_rearm_ids@.len() == 0
    &&& c1 == (Cluster { gang_timeout_rearm_ids: c1.gang_timeout_rearm_ids, ..c0 })
}

/// Schedules again the timeouts the cluster asked to re-arm, and clears the request list.
pub fn rearm_gang_timeouts(cluster: &mut Cluster, events: &mut EventQueue)
    ensures
        rearmed(*old(cluster), old(events)@, *final(cluster), final(events)@),
{
    let mut ids: Vec<String> = Vec::new();
    std::mem::swap(&mut ids, &mut cluster.gang_timeout_rearm_ids);
    let ghost e0 = events@;
    let mut i: usize = 0;
    while i < ids.len()
        invariant
            i <= ids@.len(),
            ids@ == old(cluster).gang_timeout_rearm_ids@,
            cluster.waiting_queue == old(cluster).waiting_queue,
            events@ == e0 + rearm_events(cluster.waiting_queue@, ids@.take(i as int)),
        decreases ids.len() - i,
    {
        proof {
            assert(ids@.take(i as int + 1).drop_last() == ids@.take(i as int));
            assert(ids@.take(i as int + 1).last() == ids@[i as int]);
        }
        match find_job(&cluster.waiting_queue, &ids[i]) {
            Some(k) => {
                let j = &cluster.waiting_queue[k];
                match j.gang_deadline {
                    Some(d) => {
                        events.push(
                            Event {
                                time: d,
                                kind: EventKind::GangTimeout,
                                job_id: j.id.clone(),
                                run_generation: j.gang_timeout_generation,
                            },
                        );
                        proof {
                            assert(events@ =~= e0 + rearm_events(cluster.waiting_queue@, ids@.take(i as int + 1)));
                        }
                    },
                    None => {},
                }
            },
            None => {},
        }
        i = i + 1;
    }
    proof {
        assert(ids@.take(i as int) == ids@);
    }
}

/// Handling event `e` takes `(c0, e0, p0)` to `(c1, e1, p1)`: the event's own
/// change, then the re-arming of requested gang timeouts.
pub open spec fn event_handled(
    c0: Cluster,
    e0: Seq<Event>,
    p0: Seq<Job>,
    e: Event,
    c1: Cluster,
    e1: Seq<Event>,
    p1: Seq<Job>,
) -> bool {
    exists|cm: Cluster, em: Seq<Event>|
        #[trigger] rearmed(cm, em, c1, e1) && match e.kind {
            EventKind::JobArrival => admitted(c0, e0, p0, e.job_id@, cm, em, p1),
            EventKind::JobComplete => em == e0 && p1 == p0 && exists|fired: bool|
                #[trigger] completed(c0, e.job_id@, e.run_generation, cm, fired),
            EventKind::GangTimeout => em == e0 && p1 == p0 && exists|fired: bool|
                #[trigger] expired(c0, e.job_id@, e.run_generation, cm, fired),
        }
}

/// Changes the cluster for event `e` at the cluster clock: an arrival joins the
/// waiting queue, a current completion finishes its run, a current gang timeout
/// fails its still-waiting job; then requested gang timeouts are re-armed.
pub fn handle_event(cluster: &mut Cluster, events: &mut EventQueue, pending: &mut Vec<Job>, e: &Event)
    requires
        old(cluster).running_jobs.wf(),
    ensures
        final(cluster).running_jobs.wf(),
        final(cluster).clock == old(cluster).clock,
        final(cluster).topology == old(cluster).topology,
        final(cluster).gang_timeout_rearm_ids@.len() == 0,
        e.kind != EventKind::JobArrival ==> final(pending)@ == old(pending)@,
        event_handled(*old(cluster), old(events)@, old(pending)@, *e, *final(cluster), final(events)@, final(pending)@),
{
    match e.kind {
        EventKind::JobArrival => {
            admit_arrival(cluster, events, pending, &e.job_id);
        },
        EventKind::JobComplete => {
            complete_run(cluster, &e.job_id, e.run_generation);
        },
        EventKind::GangTimeout => {
            expire_gang(cluster, &e.job_id, e.run_generation);
        },
    }
    let ghost cm = *cluster;
    let ghost em = events@;
    rearm_gang_timeouts(cluster, events);
    proof {
        assert(rearmed(cm, em, *cluster, events@));
    }
}

/// "Scheduled '<name>' on <n> GPU(s)".
pub open spec fn scheduled_message(name: Seq<char>, n: nat) -> Seq<char> {
    "Scheduled '"@ + name + "' on "@ + decimal(n) + " GPU(s)"@
}

fn scheduled_text(name: &String, n: usize) -> (s: String)
    ensures
        s@ == scheduled_message(name@, n as nat),
{
    let mut s = String::new();
    push_str(&mut s, "Scheduled '");
    push_str(&mut s, name.as_str());
    push_str(&mut s, "' on ");
    push_decimal(&mut s, n as u64);
    push_str(&mut s, " GPU(s)");
    s
}

/// How long a run of `remaining` seconds lasts under placement `p`: scaled by
/// the placement's runtime multiplier when it is a valid ratio.
pub open spec fn run_length(remaining: u64, p: Placement) -> u64 {
    if 0 < p.runtime_den < 0x40_0000_0000 {
        scaled_duration(remaining, p.runtime_num, p.runtime_den)
    } else {
        remaining
    }
}

/// Committing placement `p` takes `(c0, e0)` to `(c1, e1)`; `committed` tells
/// whether its job was waiting.
pub open spec fn placement_committed(c0: Cluster, e0: Seq<Event>, p: Placement, c1: Cluster, e1: Seq<Event>, committed: bool) -> bool {
    &&& c1.topology == c0.topology
    &&& c1.clock == c0.clock
    &&& committed == (first_with_id(c0.waiting_queue@, p.job_id@) >= 0)
    &&& !committed ==> c1 == c0 && e1 == e0
    &&& committed ==> ({
        let k = first_with_id(c0.waiting_queue@, p.job_id@);
        let j = c0.waiting_queue@[k];
        let next = JobView { run_generation: sat_add_u32(j.run_generation, 1), ..j@ };
        let base = j.spec_duration_remaining();
        let dur = run_length(base, p);
        &&& c1.waiting_queue@ == c0.waiting_queue@.remove(k)
        &&& c1.running_jobs.lookup(j.id@) matches Some(r) && r@ == started(
            next,
            p.gpu_ids@,
            resource_nodes(c0.gpu_views(), strs(p.gpu_ids@)),
            p.start_time,
        )
        &&& forall|q: Seq<char>| q != j.id@ ==> c1.running_jobs.lookup(q) == c0.running_jobs.lookup(q)
        &&& c1.gpu_views() == set_resources(c0.gpu_views(), strs(p.gpu_ids@), Some(j.id))
        &&& c1.topology_runtime_inflation == if dur > base {
            sat_add(c0.topology_runtime_inflation, (dur - base) as u64)
        } else {
            c0.topology_runtime_inflation
        }
        &&& c1.decision_log@.drop_last() == c0.decision_log@
        &&& c1.decision_log@.len() == c0.decision_log@.len() + 1
        &&& c1.decision_log@.last().time == p.start_time
        &&& c1.decision_log@.last().kind@ == "job_scheduled"@
        &&& c1.decision_log@.last().message@ == scheduled_message(j.name@, p.gpu_ids@.len())
        &&& c1.decision_log@.last().gpu_ids@ == p.gpu_ids@
        &&& e1 == e0.push(
            Event {
                time: sat_add(p.start_time, dur),
                kind: EventKind::JobComplete,
                job_id: j.id,
                run_generation: next.run_generation,
            },
        )
    })
}

/// Committing `ps` in order takes `(c0, e0)` to `(c1, e1)`.
pub open spec fn commit_all(c0: Cluster, e0: Seq<Event>, ps: Seq<Placement>, c1: Cluster, e1: Seq<Event>) -> bool
    decreases ps.len(),
{
    if ps.len() == 0 {
        c1 == c0 && e1 == e0
    } else {
        exists|cm: Cluster, em: Seq<Event>, b: bool|
            commit_all(c0, e0, ps.drop_last(), cm, em) && #[trigger] placement_committed(cm, em, ps.last(), c1, e1, b)
    }
}

/// Commits placement `p`: its job leaves the waiting queue under its next run
/// generation, starts on the placement's resources at the placement's start
/// time, the decision is logged, and its completion is scheduled. Extra runtime
/// from topology inflation is accounted. A placement for a job that is not
/// waiting changes nothing.
pub fn commit_placement(cluster: &mut Cluster, events: &mut EventQueue, p: Placement) -> (committed: bool)
    requires
        old(cluster).running_jobs.wf(),
    ensures
        final(cluster).running_jobs.wf(),
        placement_committed(*old(cluster), old(events)@, p, *final(cluster), final(events)@, committed),

{
    let k = match find_job(&cluster.waiting_queue, &p.job_id) {
        Some(k) => k,
        None => return false,
    };
    let ghost c0 = *cluster;
    let mut job = cluster.waiting_queue.remove(k);
    job.run_generation = sat_add_u32_exec(job.run_generation, 1);
    let base = job.duration_remaining();
    let dur = if 0 < p.runtime_den && p.runtime_den < 0x40_0000_0000 {
        scale_duration(base, p.runtime_num, p.runtime_den)
    } else {
        base
    };
    if dur > base {
        cluster.topology_runtime_inflation = sat_add_exec(cluster.topology_runtime_inflation, dur - base);
    }
    let id = job.id.clone();
    let name = job.name.clone();
    let generation = job.run_generation;
    let ghost nodes = resource_nodes(cluster.gpu_views(), strs(p.gpu_ids@));
    cluster.start_job(job, &p.gpu_ids, p.start_time);
    let text = scheduled_text(&name, p.gpu_ids.len());
    let d = SchedulerDecision::new(p.start_time, "job_scheduled", text).with_job(id.as_str(), name.as_str()).with_gpus(
        copy_strings(&p.gpu_ids),
    );
    let ghost log0 = cluster.decision_log@;
    cluster.record_decision(d);
    proof {
        assert(cluster.decision_log@.drop_last() =~= log0);
    }
    events.push(Event { time: sat_add_exec(p.start_time, dur), kind: EventKind::JobComplete, job_id: id, run_generation: generation });
    true
}

/// What one step of a simulation reports: the event it handled and the
/// placements the scheduler made after it.
pub struct StepOutcome {
    pub event_time: u64,
    pub event_kind: EventKind,
    pub job_id: String,
    pub placements: Vec<Placement>,
}

/// A simulation that can be advanced one event at a time.
pub trait SteppableSimulation: Sized {
    /// The events still to be handled.
    spec fn pending_events(&self) -> Seq<Event>;

    /// What the simulation needs to step safely.
    spec fn inv(&self) -> bool;

    /// The simulated cluster.
    spec fn sim_cluster(&self) -> Cluster;

    /// Snapshots captured for replay and not yet taken.
    spec fn replay(&self) -> Seq<ClusterSnapshot>;

    /// One step from this simulation gave `next` and reported `r`.
    spec fn stepped_to(&self, next: Self, r: Option<StepOutcome>) -> bool;

    /// Time of the next event, `None` when there is none.
    fn peek_next_event_time(&self) -> (r: Option<u64>)
        ensures
            self.pending_events().len() == 0 ==> r is None,
            self.pending_events().len() > 0 ==> r == Some(self.pending_events()[next_index(self.pending_events())].time),
    ;

    /// Handles the next event; `None` when there is none.
    fn step_once(&mut self) -> (r: Option<StepOutcome>)
        requires
            old(self).inv(),
        ensures
            final(self).inv(),
            old(self).pending_events().len() == 0 ==> r is None && final(self).pending_events() == old(self).pending_events(),
            old(self).pending_events().len() > 0 ==> (r matches Some(o) && o.event_time == old(self).pending_events()[next_index(
                old(self).pending_events(),
            )].time),
            old(self).stepped_to(*final(self), r),
    ;

    /// Whether no event is left.
    fn is_done(&self) -> (r: bool)
        ensures
            r == (self.pending_events().len() == 0),
    ;

    fn cluster(&self) -> (r: &Cluster)
        ensures
            *r == self.sim_cluster(),
    ;

    /// Hands out the snapshots captured so far and forgets them.
    fn take_replay_snapshots(&mut self) -> (r: Vec<ClusterSnapshot>)
        requires
            old(self).inv(),
        ensures
            final(self).inv(),
            r@ == old(self).replay(),
            final(self).replay().len() == 0,
            final(self).pending_events() == old(self).pending_events(),
            final(self).sim_cluster() == old(self).sim_cluster(),
    ;
}

/// Discrete-event simulation of a cluster under scheduler `S`.
pub struct SimulationEngine<S> {
    pub cluster: Cluster,
    pub scheduler: S,
    pub resource_manager: ResourceManager,
    pub events: EventQueue,
    pub pending_arrivals: Vec<Job>,
    pub capture_replay: bool,
    pub replay_snapshots: Vec<ClusterSnapshot>,
}

/// `s` is the replay snapshot of `c` under `rm`: the first `DEFAULT_OBS_TOP_K`
/// waiting jobs shown, each marked with whether it can be placed now.
pub open spec fn replay_snapshot(rm: ResourceManager, c: Cluster, s: ClusterSnapshot) -> bool {
    exists|mask: Seq<bool>| placeable_mask_of(rm, c, DEFAULT_OBS_TOP_K, mask) && #[trigger] snapshot_of(s, c, DEFAULT_OBS_TOP_K, mask)
}

/// One step of engine `s0` gave `s1` and reported `r`.
pub open spec fn engine_stepped<S: Scheduler>(s0: SimulationEngine<S>, s1: SimulationEngine<S>, r: Option<StepOutcome>) -> bool {
    &&& s1.capture_replay == s0.capture_replay
    &&& s1.resource_manager == s0.resource_manager
    &&& s0.queued().len() == 0 ==> r is None && s1.queued() == s0.queued()
        && s1.cluster == s0.cluster && s1.replay_snapshots == s0.replay_snapshots
    &&& s0.queued().len() > 0 ==> ({
        let e = s0.queued()[next_index(s0.queued())];
        &&& r matches Some(o)
        &&& o.event_time == e.time
        &&& o.event_kind == e.kind
        &&& o.job_id == e.job_id
        &&& s1.cluster.clock == e.time
        &&& step_effect(s0, s1, e, o.placements@)
        &&& if s0.capture_replay {
            &&& s1.replay_snapshots@.len() == s0.replay_snapshots@.len() + 1
            &&& s1.replay_snapshots@.drop_last() == s0.replay_snapshots@
            &&& replay_snapshot(s1.resource_manager, s1.cluster, s1.replay_snapshots@.last())
        } else {
            s1.replay_snapshots == s0.replay_snapshots
        }
    })
}

/// One step of `s0` handles event `e` (already taken off the queue) at its time,
/// lets the scheduler pass over the result, and commits its placements `ps`,
/// ending in `s1`.
pub open spec fn step_effect<S: Scheduler>(s0: SimulationEngine<S>, s1: SimulationEngine<S>, e: Event, ps: Seq<Placement>) -> bool {
    exists|ch: Cluster, eh: Seq<Event>, cs: Cluster|
        #![trigger event_handled(
            (Cluster { clock: e.time, ..s0.cluster }),
            s0.queued().remove(next_index(s0.queued())),
            s0.pending(),
            e,
            ch,
            eh,
            s1.pending(),
        ), commit_all(cs, eh, ps, s1.cluster, s1.queued())]
        event_handled(
            (Cluster { clock: e.time, ..s0.cluster }),
            s0.queued().remove(next_index(s0.queued())),
            s0.pending(),
            e,
            ch,
            eh,
            s1.pending(),
        ) && s0.scheduler.pass(s0.resource_manager, ch, cs, ps) && commit_all(cs, eh, ps, s1.cluster, s1.queued())
}

impl<S: Scheduler> SimulationEngine<S> {
    /// The events still to be handled.
    pub open spec fn queued(&self) -> Seq<Event> {
        self.events@
    }

    /// Jobs submitted whose arrival has not been handled yet.
    pub open spec fn pending(&self) -> Seq<Job> {
        self.pending_arrivals@
    }

    /// The running jobs are a proper map and the NVLink bandwidth is positive.
    pub open spec fn wf(&self) -> bool {
        self.cluster.running_jobs.wf() && self.cluster.topology.nvlink_bw_gbs >= 1
    }

    /// An engine with nothing submitted, whole-GPU first-fit placement.
    pub fn new(cluster: Cluster, scheduler: S) -> (e: Self)
        requires
            cluster.running_jobs.wf(),
            cluster.topology.nvlink_bw_gbs >= 1,
        ensures
            e.wf(),
            e.cluster == cluster,
            e.scheduler == scheduler,
            e.resource_manager.mig_registry is None,
            e.queued().len() == 0,
            e.pending().len() == 0,
            !e.capture_replay,
            e.replay_snapshots@.len() == 0,
    {
        SimulationEngine {
            cluster,
            scheduler,
            resource_manager: ResourceManager::new(),
            events: EventQueue::new(),
            pending_arrivals: Vec::new(),
            capture_replay: false,
            replay_snapshots: Vec::new(),
        }
    }

    /// The same engine, capturing a snapshot of the cluster after every step.
    pub fn with_replay_capture(self) -> (e: Self)
        ensures
            self.wf() ==> e.wf(),
            e == (SimulationEngine { capture_replay: true, ..self }),
    {
        let mut e = self;
        e.capture_replay = true;
        e
    }

    /// The same engine placing with `resource_manager`.
    pub fn with_resource_manager(self, resource_manager: ResourceManager) -> (e: Self)
        ensures
            self.wf() ==> e.wf(),
            e.cluster == self.cluster,
            e == (SimulationEngine { resource_manager, ..self }),
    {
        let mut e = self;
        e.resource_manager = resource_manager;
        e
    }

    /// Submits `jobs`: each arrives at its arrival time.
    pub fn submit_jobs(&mut self, jobs: Vec<Job>)
        ensures
            old(self).wf() ==> final(self).wf(),
            final(self).cluster == old(self).cluster,
            final(self).capture_replay == old(self).capture_replay,
            final(self).replay_snapshots == old(self).replay_snapshots,
            final(self).pending() == old(self).pending() + jobs@,
            final(self).queued() == old(self).queued() + jobs@.map_values(
                |j: Job| Event { time: j.arrival_time, kind: EventKind::JobArrival, job_id: j.id, run_generation: 0 },
            ),
    {
        let ghost e0 = self.events@;
        let ghost p0 = self.pending_arrivals@;
        let mut rest = jobs;
        let ghost all = rest@;
        while rest.len() > 0
            invariant
                rest@.len() <= all.len(),
                rest@ == all.skip(all.len() - rest@.len()),
                self.pending_arrivals@ == p0 + all.take(all.len() - rest@.len()),
                self.events@ == e0 + all.take(all.len() - rest@.len()).map_values(
                    |j: Job| Event { time: j.arrival_time, kind: EventKind::JobArrival, job_id: j.id, run_generation: 0 },
                ),
                self.cluster == old(self).cluster,
                self.capture_replay == old(self).capture_replay,
                self.replay_snapshots == old(self).replay_snapshots,
            decreases rest.len(),
        {
            let ghost done = all.len() - rest@.len();
            let job = rest.remove(0);
            proof {
                assert(job == all[done]);
                assert(rest@ == all.skip(done + 1));
                assert(all.take(done + 1) == all.take(done).push(all[done]));
            }
            self.events.push(Event { time: job.arrival_time, kind: EventKind::JobArrival, job_id: job.id.clone(), run_generation: 0 });
            self.pending_arrivals.push(job);
            proof {
                assert(self.pending_arrivals@ =~= p0 + all.take(done + 1));
                assert(self.events@ =~= e0 + all.take(done + 1).map_values(
                    |j: Job| Event { time: j.arrival_time, kind: EventKind::JobArrival, job_id: j.id, run_generation: 0 },
                ));
            }
        }
        proof {
            assert(all.take(all.len() as int) == all);
        }
    }

    /// Handles the next event at its time, lets the scheduler decide and commits
    /// its placements. `None` when no event is left.
    pub fn step(&mut self) -> (r: Option<StepOutcome>)
        requires
            old(self).wf(),
        ensures
            final(self).wf(),
            engine_stepped(*old(self), *final(self), r),
    {
        let e = match self.events.pop() {
            None => return None,
            Some(e) => e,
        };
        self.cluster.clock = e.time;
        let ghost c_at = self.cluster;
        let ghost q1 = self.events@;
        let ghost p0 = self.pending_arrivals@;
        handle_event(&mut self.cluster, &mut self.events, &mut self.pending_arrivals, &e);
        let ghost ch = self.cluster;
        let ghost eh = self.events@;
        let ghost sched0 = self.scheduler;
        let placements = self.scheduler.schedule(&mut self.cluster, &self.resource_manager);
        proof {
            assert(sched0.pass(self.resource_manager, ch, self.cluster, placements@));
        }
        let ghost cs = self.cluster;
        let ghost r0 = self.replay_snapshots;
        let ghost rm0 = self.resource_manager;
        let ghost cap = self.capture_replay;
        let ghost p1 = self.pending_arrivals@;
        let mut i: usize = 0;
        proof {
            assert(placements@.take(0) == Seq::<Placement>::empty());
        }
        while i < placements.len()
            invariant
                self.wf(),
                i <= placements@.len(),
                self.cluster.clock == e.time,
                self.replay_snapshots == r0,
                self.resource_manager == rm0,
                self.capture_replay == cap,
                self.pending_arrivals@ == p1,
                commit_all(cs, eh, placements@.take(i as int), self.cluster, self.events@),
            decreases placements.len() - i,
        {
            let p = crate::model::copy_placement(&placements[i]);
            let ghost cb = self.cluster;
            let ghost eb = self.events@;
            let b = commit_placement(&mut self.cluster, &mut self.events, p);
            proof {
                assert(placements@.take(i as int + 1).drop_last() == placements@.take(i as int));
                assert(placements@.take(i as int + 1).last() == placements@[i as int]);
                assert(placement_committed(cb, eb, placements@[i as int], self.cluster, self.events@, b));
            }
            i = i + 1;
        }
        proof {
            assert(placements@.take(placements@.len() as int) == placements@);
        }
        if self.capture_replay {
            let mask = placeable_mask(&self.resource_manager, &self.cluster, DEFAULT_OBS_TOP_K);
            let snap = ClusterSnapshot::from_cluster(&self.cluster, DEFAULT_OBS_TOP_K, &mask);
            self.replay_snapshots.push(snap);
            proof {
                assert(self.replay_snapshots@.drop_last() == r0@);
            }
        }
        proof {
            assert(c_at == (Cluster { clock: e.time, ..old(self).cluster }));
            assert(event_handled(c_at, q1, p0, e, ch, eh, self.pending_arrivals@));
            assert(commit_all(cs, eh, placements@, self.cluster, self.events@));
            assert(q1 == old(self).queued().remove(next_index(old(self).queued())));
            assert(p0 == old(self).pending());
            assert(sched0 == old(self).scheduler);
            assert(old(self).scheduler.pass(old(self).resource_manager, ch, cs, placements@));
            assert(event_handled(
                (Cluster { clock: e.time, ..old(self).cluster }),
                old(self).queued().remove(next_index(old(self).queued())),
                old(self).pending(),
                e,
                ch,
                eh,
                self.pending(),
            ));
            assert(commit_all(cs, eh, placements@, self.cluster, self.queued()));
            assert(step_effect(*old(self), *self, e, placements@));
        }
        Some(StepOutcome { event_time: e.time, event_kind: e.kind, job_id: e.job_id, placements })
    }
}

impl<S: Scheduler> SteppableSimulation for SimulationEngine<S> {
    open spec fn pending_events(&self) -> Seq<Event> {
        self.queued()
    }

    open spec fn inv(&self) -> bool {
        self.wf()
    }

    open spec fn sim_cluster(&self) -> Cluster {
        self.cluster
    }

    open spec fn replay(&self) -> Seq<ClusterSnapshot> {
        self.replay_snapshots@
    }

    open spec fn stepped_to(&self, next: Self, r: Option<StepOutcome>) -> bool {
        engine_stepped(*self, next, r)
    }

    fn peek_next_event_time(&self) -> (r: Option<u64>) {
        self.events.next_time()
    }

    fn step_once(&mut self) -> (r: Option<StepOutcome>) {
        self.step()
    }

    fn is_done(&self) -> (r: bool) {
        self.events.is_empty()
    }

    fn cluster(&self) -> (r: &Cluster) {
        &self.cluster
    }

    fn take_replay_snapshots(&mut self) -> (r: Vec<ClusterSnapshot>) {
        let mut out: Vec<ClusterSnapshot> = Vec::new();
        std::mem::swap(&mut out, &mut self.replay_snapshots);
        out
    }
}

} // verus!
