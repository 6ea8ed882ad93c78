//! Run metrics: totals and exact ratios computed from the cluster after (or
//! during) a simulation, and the per-job timeline.

use vstd::prelude::*;

use crate::cluster::Cluster;
use crate::job::Job;
use crate::model::{copy_opt_string, copy_strings, JobRunSegment, JobState, SegmentView};
use crate::job::{copy_segments, segment_views};
use crate::snapshot::{job_state_str, state_name};
use crate::sort::{
    lemma_sort_forall, lemma_sort_len, lemma_sort_multiset, lemma_sort_sorted, lemma_str_le_total, lemma_str_le_trans,
    rank_total, rank_transitive, sort_by_rank, sort_ranked, str_le, string_le, Ranked,
};

verus! {

/// Latest finish time among `fs`, zero when none has one.
pub open spec fn latest_finish(fs: Seq<Job>) -> u64
    decreases fs.len(),
{
    if fs.len() == 0 {
        0
    } else {
        let d = latest_finish(fs.drop_last());
        match fs.last().finish_time {
            Some(t) => if t > d { t } else { d },
            None => d,
        }
    }
}

/// Number of jobs of `fs` in state `s`.
pub open spec fn count_in_state(fs: Seq<Job>, s: JobState) -> nat
    decreases fs.len(),
{
    if fs.len() == 0 {
        0
    } else {
        count_in_state(fs.drop_last(), s) + if fs.last().state == s { 1nat } else { 0nat }
    }
}

/// Total waiting seconds of the jobs of `fs` that finished successfully.
pub open spec fn finished_wait(fs: Seq<Job>) -> nat
    decreases fs.len(),
{
    if fs.len() == 0 {
        0
    } else {
        finished_wait(fs.drop_last()) + if fs.last().state == JobState::Finished {
            fs.last().cumulative_wait_secs as nat
        } else {
            0nat
        }
    }
}

/// Total GPU-seconds of the jobs of `fs` that finished successfully.
pub open spec fn finished_gpu_seconds(fs: Seq<Job>) -> nat
    decreases fs.len(),
{
    if fs.len() == 0 {
        0
    } else {
        finished_gpu_seconds(fs.drop_last()) + if fs.last().state == JobState::Finished {
            fs.last().gpu_seconds_consumed as nat
        } else {
            0nat
        }
    }
}

/// A finished job that carried token counts, i.e. an inference request.
pub open spec fn is_inference(j: Job) -> bool {
    j.state == JobState::Finished && j.input_tokens is Some && j.output_tokens is Some
}

pub open spec fn inference_count(fs: Seq<Job>) -> nat
    decreases fs.len(),
{
    if fs.len() == 0 {
        0
    } else {
        inference_count(fs.drop_last()) + if is_inference(fs.last()) { 1nat } else { 0nat }
    }
}

proof fn lemma_counts_bounded(fs: Seq<Job>)
    ensures
        count_in_state(fs, JobState::Finished) <= fs.len(),
        count_in_state(fs, JobState::Failed) <= fs.len(),
        inference_count(fs) <= fs.len(),
        finished_wait(fs) <= fs.len() * 0xffff_ffff_ffff_ffff,
        finished_gpu_seconds(fs) <= fs.len() * 0xffff_ffff_ffff_ffff,
    decreases fs.len(),
{
    if fs.len() > 0 {
        lemma_counts_bounded(fs.drop_last());
        assert((fs.len() - 1) * 0xffff_ffff_ffff_ffff + 0xffff_ffff_ffff_ffff == fs.len() * 0xffff_ffff_ffff_ffff)
            by (nonlinear_arith);
    }
}

/// Totals of a run, from which means and rates are exact ratios.
#[derive(Debug, Clone)]
pub struct SimulationMetrics {
    /// Latest finish time of any finished or failed job.
    pub makespan: u64,
    /// Waiting seconds summed over successfully finished jobs.
    pub total_cumulative_wait_secs: u128,
    /// GPU-seconds consumed by successfully finished jobs.
    pub gpu_seconds_busy: u128,
    /// GPUs of the cluster, at least one.
    pub gpu_count: usize,
    pub jobs_completed: usize,
    pub jobs_total: usize,
    pub queue_max_length: usize,
    /// Jobs still waiting.
    pub jobs_unschedulable: usize,
    pub mig_reconfigs: u32,
    pub preemptions: u32,
    pub topology_penalties: u32,
    pub topology_runtime_inflation: u64,
    pub jobs_failed: usize,
    pub inference_jobs: usize,
}

/// `m` holds the metrics of cluster `c` for `jobs_total` submitted jobs.
pub open spec fn metrics_of(m: SimulationMetrics, c: Cluster, jobs_total: usize) -> bool {
    let fs = c.finished_jobs@;
    &&& m.makespan == latest_finish(fs)
    &&& m.total_cumulative_wait_secs == finished_wait(fs)
    &&& m.gpu_seconds_busy == finished_gpu_seconds(fs)
    &&& m.gpu_count == if c.gpu_views().len() >= 1 { c.gpu_views().len() as int } else { 1 }
    &&& m.jobs_completed == count_in_state(fs, JobState::Finished)
    &&& m.jobs_failed == count_in_state(fs, JobState::Failed)
    &&& m.jobs_total == jobs_total
    &&& m.queue_max_length == c.queue_max_length
    &&& m.jobs_unschedulable == c.waiting_queue@.len()
    &&& m.mig_reconfigs == c.mig_reconfigs
    &&& m.preemptions == c.total_preemptions
    &&& m.topology_penalties == c.topology_penalties
    &&& m.topology_runtime_inflation == c.topology_runtime_inflation
    &&& m.inference_jobs == inference_count(fs)
}

impl SimulationMetrics {
    pub fn from_cluster(cluster: &Cluster, jobs_total: usize) -> (m: SimulationMetrics)
        ensures
            metrics_of(m, *cluster, jobs_total),
    {
        let fs = &cluster.finished_jobs;
        let mut makespan: u64 = 0;
        let mut completed: usize = 0;
        let mut failed: usize = 0;
        let mut inference: usize = 0;
        let mut wait: u128 = 0;
        let mut busy: u128 = 0;
        let mut i: usize = 0;
        let count = fs.len();
        proof {
            lemma_counts_bounded(fs@);
        }
        while i < fs.len()
            invariant
                i <= fs@.len(),
                fs == &cluster.finished_jobs,
                fs@.len() == count,
                makespan == latest_finish(fs@.take(i as int)),
                completed == count_in_state(fs@.take(i as int), JobState::Finished),
                failed == count_in_state(fs@.take(i as int), JobState::Failed),
                inference == inference_count(fs@.take(i as int)),
                wait == finished_wait(fs@.take(i as int)),
                busy == finished_gpu_seconds(fs@.take(i as int)),
            decreases fs.len() - i,
        {
            let ghost t = fs@.take(i as int + 1);
            proof {
                assert(t.drop_last() == fs@.take(i as int));
                assert(t.last() == fs@[i as int]);
                lemma_counts_bounded(t);
                assert(i + 1 <= usize::MAX);
                assert(t.len() * 0xffff_ffff_ffff_ffff <= 0xffff_ffff_ffff_ffff * 0xffff_ffff_ffff_ffff) by (nonlinear_arith)
                    requires t.len() <= 0xffff_ffff_ffff_ffff;
            }
            let j = &fs[i];
            match j.finish_time {
                Some(t) => {
                    if t > makespan {
                        makespan = t;
                    }
                },
                None => {},
            }
            if j.state == JobState::Finished {
                completed = completed + 1;
                wait = wait + j.cumulative_wait_secs as u128;
                busy = busy + j.gpu_seconds_consumed as u128;
                if j.input_tokens.is_some() && j.output_tokens.is_some() {
                    inference = inference + 1;
                }
            }
            if j.state == JobState::Failed {
                failed = failed + 1;
            }
            i = i + 1;
        }
        proof {
            assert(fs@.take(i as int) == fs@);
        }
        let gpus = cluster.gpu_count();
        SimulationMetrics {
            makespan,
            total_cumulative_wait_secs: wait,
            gpu_seconds_busy: busy,
            gpu_count: if gpus >= 1 { gpus } else { 1 },
            jobs_completed: completed,
            jobs_total,
            queue_max_length: cluster.queue_max_length,
            jobs_unschedulable: cluster.waiting_queue.len(),
            mig_reconfigs: cluster.mig_reconfigs,
            preemptions: cluster.total_preemptions,
            topology_penalties: cluster.topology_penalties,
            topology_runtime_inflation: cluster.topology_runtime_inflation,
            jobs_failed: failed,
            inference_jobs: inference,
        }
    }

    /// Mean waiting time of finished jobs as `(seconds, jobs)`; `(0, 1)` when none finished.
    pub fn mean_cumulative_wait(&self) -> (r: (u128, u128))
        ensures
            self.jobs_completed == 0 ==> r == (0u128, 1u128),
            self.jobs_completed > 0 ==> r == (self.total_cumulative_wait_secs, self.jobs_completed as u128),
    {
        if self.jobs_completed == 0 {
            (0, 1)
        } else {
            (self.total_cumulative_wait_secs, self.jobs_completed as u128)
        }
    }

    /// Busy GPU-seconds over GPU-seconds available until the makespan, capped at 1;
    /// `(0, 1)` before anything finished.
    pub fn gpu_utilization(&self) -> (r: (u128, u128))
        ensures
            self.makespan == 0 ==> r == (0u128, 1u128),
            self.makespan > 0 ==> ({
                let cap = self.makespan as int * self.gpu_count as int;
                if self.gpu_seconds_busy >= cap {
                    r == (1u128, 1u128)
                } else {
                    r.0 == self.gpu_seconds_busy && r.1 == cap
                }
            }),
    {
        if self.makespan == 0 {
            return (0, 1);
        }
        let m = self.makespan as u128;
        let g = self.gpu_count as u128;
        assert(m * g <= 0xffff_ffff_ffff_ffff * 0xffff_ffff_ffff_ffff) by (nonlinear_arith)
            requires m <= 0xffff_ffff_ffff_ffff, g <= 0xffff_ffff_ffff_ffff;
        let cap = m * g;
        if self.gpu_seconds_busy >= cap {
            (1, 1)
        } else {
            (self.gpu_seconds_busy, cap)
        }
    }

    /// Share of submitted jobs served as inference requests; `(0, 1)` when none were.
    pub fn goodput(&self) -> (r: (u128, u128))
        ensures
            self.inference_jobs == 0 ==> r == (0u128, 1u128),
            self.inference_jobs > 0 ==> r == (self.inference_jobs as u128, if self.jobs_total >= 1 {
                self.jobs_total as u128
            } else {
                1u128
            }),
    {
        if self.inference_jobs == 0 {
            (0, 1)
        } else {
            (self.inference_jobs as u128, if self.jobs_total >= 1 { self.jobs_total as u128 } else { 1 })
        }
    }

    /// Idle share of the GPU-seconds available until the makespan, within [0, 1];
    /// `(0, 1)` before anything finished.
    pub fn fragmentation(&self) -> (r: (u128, u128))
        ensures
            self.makespan == 0 ==> r == (0u128, 1u128),
            self.makespan > 0 ==> ({
                let cap = self.makespan as int * self.gpu_count as int;
                if self.gpu_seconds_busy >= cap {
                    r == (0u128, 1u128)
                } else {
                    r.0 == cap - self.gpu_seconds_busy && r.1 == cap
                }
            }),
    {
        if self.makespan == 0 {
            return (0, 1);
        }
        let m = self.makespan as u128;
        let g = self.gpu_count as u128;
        assert(m * g <= 0xffff_ffff_ffff_ffff * 0xffff_ffff_ffff_ffff) by (nonlinear_arith)
            requires m <= 0xffff_ffff_ffff_ffff, g <= 0xffff_ffff_ffff_ffff;
        let cap = m * g;
        if self.gpu_seconds_busy >= cap {
            (0, 1)
        } else {
            (cap - self.gpu_seconds_busy, cap)
        }
    }
}

/// Utilization and fragmentation share the available GPU-seconds: while some
/// are idle, the two ratios have the same denominator and add up to one.
pub proof fn law_utilization_plus_fragmentation(m: SimulationMetrics, u: (u128, u128), f: (u128, u128))
    requires
        m.makespan > 0,
        m.gpu_seconds_busy < m.makespan as int * m.gpu_count as int,
        u.0 == m.gpu_seconds_busy && u.1 == m.makespan as int * m.gpu_count as int,
        f.0 == m.makespan as int * m.gpu_count as int - m.gpu_seconds_busy && f.1 == m.makespan as int * m.gpu_count as int,
    ensures
        u.1 == f.1,
        u.0 + f.0 == u.1,
{
}

/// One job of the timeline.
#[derive(Debug, Clone)]
pub struct JobTimelineRecord {
    pub job_id: String,
    pub name: String,
    pub arrival_time: u64,
    pub start_time: Option<u64>,
    pub finish_time: Option<u64>,
    pub runtime: u64,
    pub gpu_count: u32,
    pub assigned_gpus: Vec<String>,
    /// Closed run segments, plus the open one of a running job.
    pub segments: Vec<JobRunSegment>,
    pub priority: u32,
    pub tenant: Option<String>,
    pub state: String,
}

/// Segments of `j` for the timeline: its closed ones, plus, for a running job
/// holding GPUs, the open one from its start (ending at its finish time, or at
/// its start when it has none).
pub open spec fn timeline_segments(j: Job) -> Seq<SegmentView> {
    let closed = segment_views(j.run_segments@);
    if j.state == JobState::Running && j.start_time is Some && j.assigned_gpus@.len() > 0 {
        let start = j.start_time->0;
        closed.push(
            SegmentView {
                gpu_ids: j.assigned_gpus@,
                node_ids: j.assigned_nodes@,
                start,
                end: match j.finish_time {
                    Some(f) => f,
                    None => start,
                },
            },
        )
    } else {
        closed
    }
}

/// `r` records job `j`.
pub open spec fn records(r: JobTimelineRecord, j: Job) -> bool {
    &&& r.job_id == j.id
    &&& r.name == j.name
    &&& r.arrival_time == j.arrival_time
    &&& r.start_time == j.start_time
    &&& r.finish_time == j.finish_time
    &&& r.runtime == j.runtime
    &&& r.gpu_count == j.gpu_count
    &&& r.assigned_gpus@ == j.assigned_gpus@
    &&& segment_views(r.segments@) == timeline_segments(j)
    &&& r.priority == j.priority
    &&& r.tenant == j.tenant
    &&& r.state@ == state_name(j.state)
}

pub fn job_to_timeline_record(job: &Job) -> (r: JobTimelineRecord)
    ensures
        records(r, *job),
{
    let mut segments = copy_segments(&job.run_segments);
    if job.state == JobState::Running && job.assigned_gpus.len() > 0 {
        match job.start_time {
            Some(start) => {
                let ghost before = segments@;
                segments.push(
                    JobRunSegment {
                        gpu_ids: copy_strings(&job.assigned_gpus),
                        node_ids: copy_strings(&job.assigned_nodes),
                        start,
                        end: match job.finish_time {
                            Some(f) => f,
                            None => start,
                        },
                    },
                );
                proof {
                    assert(segment_views(segments@) =~= segment_views(before).push(segments@.last()@));
                }
            },
            None => {},
        }
    }
    JobTimelineRecord {
        job_id: job.id.clone(),
        name: job.name.clone(),
        arrival_time: job.arrival_time,
        start_time: job.start_time,
        finish_time: job.finish_time,
        runtime: job.runtime,
        gpu_count: job.gpu_count,
        assigned_gpus: copy_strings(&job.assigned_gpus),
        segments,
        priority: job.priority,
        tenant: copy_opt_string(&job.tenant),
        state: job_state_str(job.state),
    }
}

/// Timeline order: earlier arrival first, ties by job id in byte order.
pub struct TimelineKey {
    pub arrival: u64,
    pub id: String,
}

impl Ranked for TimelineKey {
    open spec fn rank_le(&self, other: &Self) -> bool {
        self.arrival < other.arrival || (self.arrival == other.arrival && str_le(self.id@, other.id@))
    }

    fn le(&self, other: &Self) -> (r: bool) {
        if self.arrival != other.arrival {
            self.arrival < other.arrival
        } else {
            string_le(&self.id, &other.id)
        }
    }
}

/// All jobs of the cluster: finished, then running, then waiting.
pub open spec fn all_jobs(c: Cluster) -> Seq<Job> {
    c.finished_jobs@ + c.running_jobs.entries@.map_values(|e: (String, Job)| e.1) + c.waiting_queue@
}

/// Each job of `js` keyed for the timeline, with its position.
pub open spec fn timeline_pairs(js: Seq<Job>) -> Seq<(TimelineKey, usize)> {
    Seq::new(js.len(), |i: int| (TimelineKey { arrival: js[i].arrival_time, id: js[i].id }, i as usize))
}

/// Jobs of the cluster in timeline order.
pub open spec fn timeline_order(c: Cluster) -> Seq<Job> {
    let all = all_jobs(c);
    sort_ranked(timeline_pairs(all)).map_values(|p: (TimelineKey, usize)| all[p.1 as int])
}

/// Every job of a cluster, in arrival order.
#[derive(Debug, Clone)]
pub struct JobsTimeline {
    pub makespan: u64,
    pub gpu_count: usize,
    pub jobs: Vec<JobTimelineRecord>,
}

/// Job `idx` of `all_jobs(c)`.
fn job_at(c: &Cluster, idx: usize) -> (r: &Job)
    requires
        idx < all_jobs(*c).len(),
    ensures
        *r == all_jobs(*c)[idx as int],
{
    let f = c.finished_jobs.len();
    let n = c.running_jobs.entries.len();
    if idx < f {
        &c.finished_jobs[idx]
    } else if idx - f < n {
        &c.running_jobs.entries[idx - f].1
    } else {
        &c.waiting_queue[idx - f - n]
    }
}

impl JobsTimeline {
    pub fn from_cluster(cluster: &Cluster) -> (t: JobsTimeline)
        requires
            cluster.finished_jobs@.len() + cluster.running_jobs.entries@.len() + cluster.waiting_queue@.len() <= usize::MAX,
        ensures
            t.gpu_count == cluster.gpu_views().len(),
            t.jobs@.len() == timeline_order(*cluster).len(),
            forall|i: int| 0 <= i < t.jobs@.len() ==> records(#[trigger] t.jobs@[i], timeline_order(*cluster)[i]),
            t.makespan == latest_finish(timeline_order(*cluster)),
            forall|i: int, k: int|
                0 <= i < k < t.jobs@.len() ==> (#[trigger] t.jobs@[i]).arrival_time < (#[trigger] t.jobs@[k]).arrival_time
                    || (t.jobs@[i].arrival_time == t.jobs@[k].arrival_time && str_le(t.jobs@[i].job_id@, t.jobs@[k].job_id@)),
    {
        let ghost all = all_jobs(*cluster);
        let total = cluster.finished_jobs.len() + cluster.running_jobs.entries.len() + cluster.waiting_queue.len();
        let mut pairs: Vec<(TimelineKey, usize)> = Vec::new();
        let mut i: usize = 0;
        while i < total
            invariant
                total == all.len(),
                all == all_jobs(*cluster),
                i <= total,
                pairs@ == timeline_pairs(all).take(i as int),
            decreases total - i,
        {
            let j = job_at(cluster, i);
            pairs.push((TimelineKey { arrival: j.arrival_time, id: j.id.clone() }, i));
            proof {
                assert(pairs@ =~= timeline_pairs(all).take(i as int + 1));
            }
            i = i + 1;
        }
        proof {
            assert(timeline_pairs(all).take(i as int) == timeline_pairs(all));
        }
        let sorted = sort_by_rank(pairs);
        let ghost order = timeline_order(*cluster);
        proof {
            crate::sort::lemma_sort_len(timeline_pairs(all));
            crate::sort::lemma_sort_forall(timeline_pairs(all), |p: (TimelineKey, usize)| (p.1 as int) < all.len());
        }
        let mut jobs: Vec<JobTimelineRecord> = Vec::new();
        let mut makespan: u64 = 0;
        let mut n: usize = 0;
        while n < sorted.len()
            invariant
                n <= sorted@.len(),
                all == all_jobs(*cluster),
                sorted@ == sort_ranked(timeline_pairs(all)),
                forall|x: int| 0 <= x < sorted@.len() ==> (#[trigger] sorted@[x]).1 < all.len(),
                order == sorted@.map_values(|p: (TimelineKey, usize)| all[p.1 as int]),
                jobs@.len() == n,
                forall|x: int| 0 <= x < n ==> records(#[trigger] jobs@[x], order[x]),
                makespan == latest_finish(order.take(n as int)),
            decreases sorted.len() - n,
        {
            let j = job_at(cluster, sorted[n].1);
            proof {
                assert(order.take(n as int + 1).drop_last() == order.take(n as int));
                assert(order.take(n as int + 1).last() == order[n as int]);
                assert(order[n as int] == *j);
            }
            jobs.push(job_to_timeline_record(j));
            match j.finish_time {
                Some(t) => {
                    if t > makespan {
                        makespan = t;
                    }
                },
                None => {},
            }
            n = n + 1;
        }
        proof {
            assert(order.take(n as int) == order);
            law_timeline_order(*cluster);
            assert forall|i: int, k: int| 0 <= i < k < jobs@.len() implies (#[trigger] jobs@[i]).arrival_time < (
            #[trigger] jobs@[k]).arrival_time || (jobs@[i].arrival_time == jobs@[k].arrival_time && str_le(
                jobs@[i].job_id@,
                jobs@[k].job_id@,
            )) by {
                assert(records(jobs@[i], order[i]));
                assert(records(jobs@[k], order[k]));
            }
        }
        JobsTimeline { makespan, gpu_count: cluster.gpu_count(), jobs }
    }
}

/// The timeline has one record for each job of the cluster (finished, running
/// and waiting) and lists them by arrival, ties by job id.
pub proof fn law_timeline_order(c: Cluster)
    requires
        all_jobs(c).len() <= usize::MAX,
    ensures
        timeline_order(c).to_multiset() == all_jobs(c).to_multiset(),
        forall|i: int, k: int|
            0 <= i < k < timeline_order(c).len() ==> (#[trigger] timeline_order(c)[i]).arrival_time < (
            #[trigger] timeline_order(c)[k]).arrival_time || (timeline_order(c)[i].arrival_time
                == timeline_order(c)[k].arrival_time && str_le(timeline_order(c)[i].id@, timeline_order(c)[k].id@)),
{
    let all = all_jobs(c);
    let ps = timeline_pairs(all);
    let out = timeline_order(c);
    assert forall|a: TimelineKey, b: TimelineKey| #[trigger] a.rank_le(&b) || #[trigger] b.rank_le(&a) by {
        lemma_str_le_total(a.id@, b.id@);
    }
    assert forall|a: TimelineKey, b: TimelineKey, d: TimelineKey| #[trigger] a.rank_le(&b) && #[trigger] b.rank_le(&d)
        implies a.rank_le(&d) by {
        if a.arrival == b.arrival && b.arrival == d.arrival {
            lemma_str_le_trans(a.id@, b.id@, d.id@);
        }
    }
    assert(rank_total::<TimelineKey>());
    assert(rank_transitive::<TimelineKey>());
    lemma_sort_sorted(ps);
    lemma_sort_len(ps);
    let keyed = |e: (TimelineKey, usize)| (e.1 as int) < all.len() && e.0 == TimelineKey {
        arrival: all[e.1 as int].arrival_time,
        id: all[e.1 as int].id,
    };
    assert forall|i: int| 0 <= i < ps.len() implies keyed(#[trigger] ps[i]) by {
        assert((i as usize) as int == i);
    }
    lemma_sort_forall(ps, keyed);
    let sorted = sort_ranked(ps);
    assert forall|i: int, k: int| 0 <= i < k < out.len() implies (#[trigger] out[i]).arrival_time < (
    #[trigger] out[k]).arrival_time || (out[i].arrival_time == out[k].arrival_time && str_le(out[i].id@, out[k].id@)) by {
        assert(keyed(sorted[i]));
        assert(keyed(sorted[k]));
        assert(sorted[i].0.rank_le(&sorted[k].0));
    }
    let pick = |p: (TimelineKey, usize)| all[p.1 as int];
    lemma_sort_multiset(ps, pick);
    assert(sorted.map_values(pick) == out);
    assert forall|i: int| 0 <= i < all.len() implies ps.map_values(pick)[i] == all[i] by {
        assert((i as usize) as int == i);
    }
    assert(ps.map_values(pick) =~= all);
}


/// The makespan is the latest finish: no finish time exceeds it, and it is the
/// finish time of some job, unless no job has finished (then it is zero).
pub proof fn law_latest_finish(fs: Seq<Job>)
    ensures
        forall|i: int| 0 <= i < fs.len() && (#[trigger] fs[i]).finish_time is Some ==> fs[i].finish_time->0 <= latest_finish(fs),
        latest_finish(fs) == 0 || exists|i: int| 0 <= i < fs.len() && (#[trigger] fs[i]).finish_time == Some(latest_finish(fs)),
    decreases fs.len(),
{
    if fs.len() > 0 {
        let d = fs.drop_last();
        law_latest_finish(d);
        assert forall|i: int| 0 <= i < fs.len() && (#[trigger] fs[i]).finish_time is Some implies fs[i].finish_time->0
            <= latest_finish(fs) by {
            if i < d.len() {
                assert(d[i] == fs[i]);
            } else {
                assert(fs.last() == fs[i]);
            }
        }
        if latest_finish(fs) != 0 {
            if latest_finish(fs) == latest_finish(d) {
                let i = choose|i: int| 0 <= i < d.len() && (#[trigger] d[i]).finish_time == Some(latest_finish(d));
                assert(fs[i] == d[i]);
            } else {
                assert(fs[fs.len() - 1] == fs.last());
            }
        }
    }
}

} // verus!
