//! Jobs and their lifecycle bookkeeping.

use vstd::prelude::*;

use crate::model::{copy_opt_string, copy_strings, JobRunSegment, JobState, SegmentView};

verus! {

/// A GPU job. All times are whole seconds.
#[derive(Debug, Clone)]
pub struct Job {
    pub id: String,
    pub name: String,
    pub arrival_time: u64,
    pub runtime: u64,
    pub gpu_count: u32,
    pub priority: u32,
    pub tenant: Option<String>,
    pub site: Option<String>,
    pub state: JobState,
    pub gpu_type: Option<String>,
    /// Minimum GPU memory in GB; zero means any GPU will do.
    pub gpu_memory_gb: u64,
    pub gang_enabled: bool,
    pub gang_size_nodes: Option<u32>,
    pub gang_timeout_secs: Option<u64>,
    pub gang_deadline: Option<u64>,
    pub gang_timeout_generation: u32,
    pub network_bw_gbps: Option<u16>,
    pub mig_profile: Option<String>,
    pub mig_count: Option<u32>,
    pub run_generation: u32,
    pub preemption_count: u32,
    /// Seconds of `runtime` already executed in earlier run segments.
    pub progress_secs: u64,
    pub assigned_gpus: Vec<String>,
    pub assigned_nodes: Vec<String>,
    pub start_time: Option<u64>,
    pub finish_time: Option<u64>,
    pub cumulative_wait_secs: u64,
    pub waiting_since: Option<u64>,
    pub gpu_seconds_consumed: u64,
    pub run_segments: Vec<JobRunSegment>,
    pub model_id: Option<String>,
    pub input_tokens: Option<u32>,
    pub output_tokens: Option<u32>,
    pub batch_size: Option<u32>,
    pub concurrency: Option<u32>,
}

/// Views of a sequence of run segments.
pub open spec fn segment_views(v: Seq<JobRunSegment>) -> Seq<SegmentView> {
    v.map_values(|s: JobRunSegment| s@)
}

/// Copies a vector of run segments element by element.
pub fn copy_segments(v: &Vec<JobRunSegment>) -> (r: Vec<JobRunSegment>)
    ensures
        segment_views(r@) == segment_views(v@),
{
    let mut out: Vec<JobRunSegment> = Vec::new();
    let mut i: usize = 0;
    while i < v.len()
        invariant
            i <= v.len(),
            segment_views(out@) == segment_views(v@.take(i as int)),
        decreases v.len() - i,
    {
        out.push(v[i].duplicate());
        assert(segment_views(v@.take(i as int + 1)) == segment_views(v@.take(i as int)).push(v@[i as int]@));
        i = i + 1;
    }
    assert(v@.take(v.len() as int) == v@);
    out
}

/// Mathematical view of a job: vectors become sequences.
pub struct JobView {
    pub id: String,
    pub name: String,
    pub arrival_time: u64,
    pub runtime: u64,
    pub gpu_count: u32,
    pub priority: u32,
    pub tenant: Option<String>,
    pub site: Option<String>,
    pub state: JobState,
    pub gpu_type: Option<String>,
    pub gpu_memory_gb: u64,
    pub gang_enabled: bool,
    pub gang_size_nodes: Option<u32>,
    pub gang_timeout_secs: Option<u64>,
    pub gang_deadline: Option<u64>,
    pub gang_timeout_generation: u32,
    pub network_bw_gbps: Option<u16>,
    pub mig_profile: Option<String>,
    pub mig_count: Option<u32>,
    pub run_generation: u32,
    pub preemption_count: u32,
    pub progress_secs: u64,
    pub assigned_gpus: Seq<String>,
    pub assigned_nodes: Seq<String>,
    pub start_time: Option<u64>,
    pub finish_time: Option<u64>,
    pub cumulative_wait_secs: u64,
    pub waiting_since: Option<u64>,
    pub gpu_seconds_consumed: u64,
    pub run_segments: Seq<SegmentView>,
    pub model_id: Option<String>,
    pub input_tokens: Option<u32>,
    pub output_tokens: Option<u32>,
    pub batch_size: Option<u32>,
    pub concurrency: Option<u32>,
}

impl View for Job {
    type V = JobView;

    open spec fn view(&self) -> JobView {
        JobView {
            id: self.id,
            name: self.name,
            arrival_time: self.arrival_time,
            runtime: self.runtime,
            gpu_count: self.gpu_count,
            priority: self.priority,
            tenant: self.tenant,
            site: self.site,
            state: self.state,
            gpu_type: self.gpu_type,
            gpu_memory_gb: self.gpu_memory_gb,
            gang_enabled: self.gang_enabled,
            gang_size_nodes: self.gang_size_nodes,
            gang_timeout_secs: self.gang_timeout_secs,
            gang_deadline: self.gang_deadline,
            gang_timeout_generation: self.gang_timeout_generation,
            network_bw_gbps: self.network_bw_gbps,
            mig_profile: self.mig_profile,
            mig_count: self.mig_count,
            run_generation: self.run_generation,
            preemption_count: self.preemption_count,
            progress_secs: self.progress_secs,
            assigned_gpus: self.assigned_gpus@,
            assigned_nodes: self.assigned_nodes@,
            start_time: self.start_time,
            finish_time: self.finish_time,
            cumulative_wait_secs: self.cumulative_wait_secs,
            waiting_since: self.waiting_since,
            gpu_seconds_consumed: self.gpu_seconds_consumed,
            run_segments: segment_views(self.run_segments@),
            model_id: self.model_id,
            input_tokens: self.input_tokens,
            output_tokens: self.output_tokens,
            batch_size: self.batch_size,
            concurrency: self.concurrency,
        }
    }
}

impl Job {
    /// A pending job with default scheduling attributes.
    pub fn new(id: &str, name: &str, arrival_time: u64, runtime: u64, gpu_count: u32) -> (j: Job)
        ensures
            j.id@ == id@,
            j.name@ == name@,
            j.arrival_time == arrival_time,
            j.runtime == runtime,
            j.gpu_count == gpu_count,
            j.priority == 0,
            j.tenant is None,
            j.site is None,
            j.state == JobState::Pending,
            j.gpu_type is None,
            j.gpu_memory_gb == 0,
            !j.gang_enabled,
            j.gang_size_nodes is None,
            j.gang_timeout_secs is None,
            j.gang_deadline is None,
            j.gang_timeout_generation == 0,
            j.network_bw_gbps is None,
            j.mig_profile is None,
            j.mig_count is None,
            j.run_generation == 0,
            j.preemption_count == 0,
            j.progress_secs == 0,
            j.assigned_gpus@.len() == 0,
            j.assigned_nodes@.len() == 0,
            j.start_time is None,
            j.finish_time is None,
            j.cumulative_wait_secs == 0,
            j.waiting_since is None,
            j.gpu_seconds_consumed == 0,
            j.run_segments@.len() == 0,
            j.model_id is None,
            j.input_tokens is None,
            j.output_tokens is None,
            j.batch_size is None,
            j.concurrency is None,
    {
        Job {
            id: id.to_owned(),
            name: name.to_owned(),
            arrival_time,
            runtime,
            gpu_count,
            priority: 0,
            tenant: None,
            site: None,
            state: JobState::Pending,
            gpu_type: None,
            gpu_memory_gb: 0,
            gang_enabled: false,
            gang_size_nodes: None,
            gang_timeout_secs: None,
            gang_deadline: None,
            gang_timeout_generation: 0,
            network_bw_gbps: None,
            mig_profile: None,
            mig_count: None,
            run_generation: 0,
            preemption_count: 0,
            progress_secs: 0,
            assigned_gpus: Vec::new(),
            assigned_nodes: Vec::new(),
            start_time: None,
            finish_time: None,
            cumulative_wait_secs: 0,
            waiting_since: None,
            gpu_seconds_consumed: 0,
            run_segments: Vec::new(),
            model_id: None,
            input_tokens: None,
            output_tokens: None,
            batch_size: None,
            concurrency: None,
        }
    }

    pub fn duplicate(&self) -> (r: Job)
        ensures
            r@ == self@,
    {
        Job {
            id: self.id.clone(),
            name: self.name.clone(),
            arrival_time: self.arrival_time,
            runtime: self.runtime,
            gpu_count: self.gpu_count,
            priority: self.priority,
            tenant: copy_opt_string(&self.tenant),
            site: copy_opt_string(&self.site),
            state: self.state,
            gpu_type: copy_opt_string(&self.gpu_type),
            gpu_memory_gb: self.gpu_memory_gb,
            gang_enabled: self.gang_enabled,
            gang_size_nodes: self.gang_size_nodes,
            gang_timeout_secs: self.gang_timeout_secs,
            gang_deadline: self.gang_deadline,
            gang_timeout_generation: self.gang_timeout_generation,
            network_bw_gbps: self.network_bw_gbps,
            mig_profile: copy_opt_string(&self.mig_profile),
            mig_count: self.mig_count,
            run_generation: self.run_generation,
            preemption_count: self.preemption_count,
            progress_secs: self.progress_secs,
            assigned_gpus: copy_strings(&self.assigned_gpus),
            assigned_nodes: copy_strings(&self.assigned_nodes),
            start_time: self.start_time,
            finish_time: self.finish_time,
            cumulative_wait_secs: self.cumulative_wait_secs,
            waiting_since: self.waiting_since,
            gpu_seconds_consumed: self.gpu_seconds_consumed,
            run_segments: copy_segments(&self.run_segments),
            model_id: copy_opt_string(&self.model_id),
            input_tokens: self.input_tokens,
            output_tokens: self.output_tokens,
            batch_size: self.batch_size,
            concurrency: self.concurrency,
        }
    }

    /// A job asks for MIG slices exactly when it names a MIG profile.
    pub open spec fn spec_is_mig_job(&self) -> bool {
        self.mig_profile is Some
    }

    pub fn is_mig_job(&self) -> (r: bool)
        ensures
            r == self.spec_is_mig_job(),
    {
        self.mig_profile.is_some()
    }

    /// Number of MIG slices the job needs: `mig_count`, one when unset.
    pub open spec fn spec_mig_slices_needed(&self) -> u32 {
        match self.mig_count {
            Some(c) => c,
            None => 1,
        }
    }

    pub fn mig_slices_needed(&self) -> (r: u32)
        ensures
            r == self.spec_mig_slices_needed(),
    {
        match self.mig_count {
            Some(c) => c,
            None => 1,
        }
    }

    /// Seconds of work still to run.
    pub open spec fn spec_duration_remaining(&self) -> u64 {
        if self.progress_secs <= self.runtime {
            (self.runtime - self.progress_secs) as u64
        } else {
            0
        }
    }

    pub fn duration_remaining(&self) -> (r: u64)
        ensures
            r == self.spec_duration_remaining(),
    {
        if self.progress_secs <= self.runtime {
            self.runtime - self.progress_secs
        } else {
            0
        }
    }

    /// Total seconds spent waiting in closed waiting periods.
    pub fn cumulative_wait_time(&self) -> (r: u64)
        ensures
            r == self.cumulative_wait_secs,
    {
        self.cumulative_wait_secs
    }

    /// Marks the job as queued from time `at`.
    pub fn enter_waiting(&mut self, at: u64)
        ensures
            final(self).state == JobState::Waiting,
            final(self).waiting_since == Some(at),
            final(self)@ == (JobView { state: JobState::Waiting, waiting_since: Some(at), ..old(self)@ }),
    {
        self.state = JobState::Waiting;
        self.waiting_since = Some(at);
    }

    pub fn requeue_after_preemption(&mut self, at: u64)
        ensures
            final(self)@ == requeued(old(self)@, at),
    {
        let started = match self.start_time {
            Some(s) => s,
            None => at,
        };
        let elapsed: u64 = if started <= at { at - started } else { 0 };
        let mut gpus: Vec<String> = Vec::new();
        std::mem::swap(&mut gpus, &mut self.assigned_gpus);
        let mut nodes: Vec<String> = Vec::new();
        std::mem::swap(&mut nodes, &mut self.assigned_nodes);
        let ghost segs = self.run_segments@;
        self.run_segments.push(JobRunSegment { gpu_ids: gpus, node_ids: nodes, start: started, end: at });
        proof {
            assert(segment_views(self.run_segments@) =~= segment_views(segs).push(
                SegmentView { gpu_ids: old(self).assigned_gpus@, node_ids: old(self).assigned_nodes@, start: started, end: at },
            ));
            assert(self.assigned_gpus@ =~= Seq::<String>::empty());
            assert(self.assigned_nodes@ =~= Seq::<String>::empty());
        }
        self.state = JobState::Waiting;
        self.waiting_since = Some(at);
        self.preemption_count = sat_add_u32_exec(self.preemption_count, 1);
        self.progress_secs = sat_add_exec(self.progress_secs, elapsed);
        self.gpu_seconds_consumed = sat_add_exec(
            self.gpu_seconds_consumed,
            sat_mul_exec(elapsed, self.gpu_count as u64),
        );
        if self.gang_enabled {
            if let Some(t) = self.gang_timeout_secs {
                self.gang_deadline = Some(sat_add_exec(at, t));
                self.gang_timeout_generation = sat_add_u32_exec(self.gang_timeout_generation, 1);
            }
        }
    }
}

/// A job after being evicted at time `at`: the elapsed part of the current run
/// counts as progress and is closed as a run segment, the job holds nothing and
/// waits again from `at`. A gang job with a timeout gets a fresh deadline from `at`.
pub open spec fn requeued(j: JobView, at: u64) -> JobView {
    let started = match j.start_time {
        Some(s) => s,
        None => at,
    };
    let elapsed: u64 = if started <= at { (at - started) as u64 } else { 0 };
    let gang_rearm = j.gang_enabled && j.gang_timeout_secs is Some;
    JobView {
        state: JobState::Waiting,
        waiting_since: Some(at),
        preemption_count: sat_add_u32(j.preemption_count, 1),
        progress_secs: sat_add(j.progress_secs, elapsed),
        gpu_seconds_consumed: sat_add(j.gpu_seconds_consumed, sat_mul(elapsed, j.gpu_count as u64)),
        gang_deadline: if gang_rearm {
            Some(sat_add(at, j.gang_timeout_secs.unwrap()))
        } else {
            j.gang_deadline
        },
        gang_timeout_generation: if gang_rearm {
            sat_add_u32(j.gang_timeout_generation, 1)
        } else {
            j.gang_timeout_generation
        },
        assigned_gpus: Seq::empty(),
        assigned_nodes: Seq::empty(),
        run_segments: j.run_segments.push(
            SegmentView { gpu_ids: j.assigned_gpus, node_ids: j.assigned_nodes, start: started, end: at },
        ),
        ..j
    }
}

/// Saturating addition on seconds.
pub open spec fn sat_add(a: u64, b: u64) -> u64 {
    if a + b <= u64::MAX { (a + b) as u64 } else { u64::MAX }
}

pub open spec fn sat_add_u32(a: u32, b: u32) -> u32 {
    if a + b <= u32::MAX { (a + b) as u32 } else { u32::MAX }
}

pub open spec fn sat_mul(a: u64, b: u64) -> u64 {
    if a * b <= u64::MAX { (a * b) as u64 } else { u64::MAX }
}

pub fn sat_add_exec(a: u64, b: u64) -> (r: u64)
    ensures
        r == sat_add(a, b),
{
    a.saturating_add(b)
}

pub fn sat_add_u32_exec(a: u32, b: u32) -> (r: u32)
    ensures
        r == sat_add_u32(a, b),
{
    a.saturating_add(b)
}

pub fn sat_mul_exec(a: u64, b: u64) -> (r: u64)
    ensures
        r == sat_mul(a, b),
{
    match a.checked_mul(b) {
        Some(p) => p,
        None => u64::MAX,
    }
}


/// Preempting at `at` a job whose current run started at `s <= at` credits it
/// with exactly the `at - s` seconds it ran (and the GPU-seconds of that run),
/// whatever its arrival time: the time it has left drops by `at - s`, and it is
/// waiting again with its runtime unchanged.
pub proof fn law_preemption_keeps_progress(j: JobView, s: u64, at: u64)
    requires
        j.start_time == Some(s),
        s <= at,
        j.progress_secs + (at - s) <= u64::MAX,
        j.gpu_seconds_consumed + (at - s) * j.gpu_count <= u64::MAX,
    ensures
        requeued(j, at).progress_secs == j.progress_secs + (at - s),
        requeued(j, at).gpu_seconds_consumed == j.gpu_seconds_consumed + (at - s) * j.gpu_count,
        requeued(j, at).runtime == j.runtime,
        requeued(j, at).arrival_time == j.arrival_time,
        requeued(j, at).state == JobState::Waiting,
        j.progress_secs + (at - s) <= j.runtime ==> requeued(j, at).runtime - requeued(j, at).progress_secs == (j.runtime
            - j.progress_secs) - (at - s),
{
    let e = (at - s) as u64;
    assert(e * j.gpu_count as u64 <= u64::MAX) by (nonlinear_arith)
        requires
            j.gpu_seconds_consumed + e * j.gpu_count <= u64::MAX,
    ;
}

} // verus!
