//! Point-in-time views of the cluster for observers and learning agents, and
//! their flat feature vectors. Times are whole seconds.

use vstd::prelude::*;

use crate::cluster::{count_whole_free, Cluster};
use crate::job::{sat_add, sat_add_exec, Job};
use crate::model::{copy_opt_string, copy_strings, Gpu, GpuView, JobState};

verus! {

/// Number of queued jobs an observation shows by default.
pub const DEFAULT_OBS_TOP_K: usize = 8;

pub fn default_top_k() -> (k: usize)
    ensures
        k == DEFAULT_OBS_TOP_K,
{
    DEFAULT_OBS_TOP_K
}

/// Size of the observation vector for `top_k` queued jobs: five cluster-wide
/// features followed by seven features per job.
pub fn obs_size(top_k: usize) -> (n: usize)
    requires
        5 + top_k * 7 <= usize::MAX,
    ensures
        n == 5 + top_k * 7,
{
    5 + top_k * 7
}

/// Seconds job `j` has waited by `clock`: closed waiting periods plus the open
/// one, if it is waiting now.
pub open spec fn current_wait(j: Job, clock: u64) -> u64 {
    match j.waiting_since {
        Some(since) => sat_add(j.cumulative_wait_secs, if clock >= since { (clock - since) as u64 } else { 0 }),
        None => j.cumulative_wait_secs,
    }
}

pub fn job_current_cumulative_wait(job: &Job, clock: u64) -> (w: u64)
    ensures
        w == current_wait(*job, clock),
{
    match job.waiting_since {
        Some(since) => sat_add_exec(job.cumulative_wait_secs, if clock >= since { clock - since } else { 0 }),
        None => job.cumulative_wait_secs,
    }
}

/// How long the job has been kept waiting; the same as its current waiting time.
pub fn job_wait_proxy(job: &Job, clock: u64) -> (w: u64)
    ensures
        w == current_wait(*job, clock),
{
    job_current_cumulative_wait(job, clock)
}

/// Lower-case name of a job state.
pub open spec fn state_name(s: JobState) -> Seq<char> {
    match s {
        JobState::Pending => "pending"@,
        JobState::Waiting => "waiting"@,
        JobState::Running => "running"@,
        JobState::Finished => "finished"@,
        JobState::Failed => "failed"@,
    }
}

pub fn job_state_str(state: JobState) -> (s: String)
    ensures
        s@ == state_name(state),
{
    let t = match state {
        JobState::Pending => "pending",
        JobState::Waiting => "waiting",
        JobState::Running => "running",
        JobState::Finished => "finished",
        JobState::Failed => "failed",
    };
    t.to_owned()
}

/// A queued job as an observer sees it.
#[derive(Debug, Clone)]
pub struct JobSnapshot {
    pub id: String,
    pub name: String,
    pub arrival_time: u64,
    pub runtime: u64,
    pub gpu_count: u32,
    pub priority: u32,
    pub tenant: Option<String>,
    pub state: String,
    pub wait_proxy: u64,
    pub cumulative_wait: u64,
    pub gang_enabled: bool,
    pub placeable: bool,
}

/// A running job as an observer sees it.
#[derive(Debug, Clone)]
pub struct RunningJobSnapshot {
    pub id: String,
    pub name: String,
    pub gpu_count: u32,
    pub assigned_gpus: Vec<String>,
    pub priority: u32,
    pub tenant: Option<String>,
}

/// A GPU as an observer sees it.
#[derive(Debug, Clone)]
pub struct GpuSnapshot {
    pub id: String,
    pub node_id: String,
    pub busy: bool,
    /// 1 when busy, 0 when free.
    pub utilization: u64,
    pub job_id: Option<String>,
    pub job_name: Option<String>,
    pub nvlink_group: Option<u32>,
}

#[derive(Debug, Clone)]
pub struct NodeSnapshot {
    pub id: String,
    pub gpus: Vec<GpuSnapshot>,
}

/// The cluster at one moment.
#[derive(Debug, Clone)]
pub struct ClusterSnapshot {
    pub clock: u64,
    pub free_gpus: u32,
    pub waiting: u32,
    pub running: u32,
    pub finished: u32,
    pub node_count: u32,
    pub gpu_count: u32,
    pub top_jobs: Vec<JobSnapshot>,
    pub queue_jobs: Vec<JobSnapshot>,
    pub running_jobs: Vec<RunningJobSnapshot>,
    pub nodes: Vec<NodeSnapshot>,
}

/// `s` shows job `j` at `clock`, marked placeable or not.
pub open spec fn shows_job(s: JobSnapshot, j: Job, clock: u64, placeable: bool) -> bool {
    &&& s.id == j.id
    &&& s.name == j.name
    &&& s.arrival_time == j.arrival_time
    &&& s.runtime == j.runtime
    &&& s.gpu_count == j.gpu_count
    &&& s.priority == j.priority
    &&& s.tenant == j.tenant
    &&& s.state@ == state_name(j.state)
    &&& s.wait_proxy == current_wait(j, clock)
    &&& s.cumulative_wait == current_wait(j, clock)
    &&& s.gang_enabled == j.gang_enabled
    &&& s.placeable == placeable
}

/// `s` shows running job `j`.
pub open spec fn shows_running(s: RunningJobSnapshot, j: Job) -> bool {
    &&& s.id == j.id
    &&& s.name == j.name
    &&& s.gpu_count == j.gpu_count
    &&& s.assigned_gpus@ == j.assigned_gpus@
    &&& s.priority == j.priority
    &&& s.tenant == j.tenant
}

/// Whether `ids` names `id`.
pub open spec fn names(ids: Seq<String>, id: Seq<char>) -> bool {
    exists|i: int| 0 <= i < ids.len() && (#[trigger] ids[i])@ == id
}

/// The last running entry that lists GPU `id` among its assigned GPUs.
pub open spec fn gpu_owner(e: Seq<(String, Job)>, id: Seq<char>) -> Option<Job>
    decreases e.len(),
{
    if e.len() == 0 {
        None
    } else if names(e.last().1.assigned_gpus@, id) {
        Some(e.last().1)
    } else {
        gpu_owner(e.drop_last(), id)
    }
}

/// `s` shows GPU `g` of node `node_id`, with the running job that lists it.
pub open spec fn shows_gpu(s: GpuSnapshot, g: GpuView, node_id: String, e: Seq<(String, Job)>) -> bool {
    &&& s.id == g.id
    &&& s.node_id == node_id
    &&& s.busy == !g.whole_free()
    &&& s.utilization == if s.busy { 1u64 } else { 0u64 }
    &&& s.nvlink_group == g.nvlink_group
    &&& match gpu_owner(e, g.id@) {
        Some(j) => s.job_id == Some(j.id) && s.job_name == Some(j.name),
        None => s.job_id is None && s.job_name is None,
    }
}

/// Whether queued job `i` is marked placeable: its mask entry, false past the mask.
pub open spec fn mask_at(mask: Seq<bool>, i: int) -> bool {
    if 0 <= i < mask.len() {
        mask[i]
    } else {
        false
    }
}

/// `s` is the snapshot of cluster `c` showing `top_k` queued jobs with placeability `mask`.
pub open spec fn snapshot_of(s: ClusterSnapshot, c: Cluster, top_k: usize, mask: Seq<bool>) -> bool {
    let q = c.waiting_queue@;
    let e = c.running_jobs.entries@;
    &&& s.clock == c.clock
    &&& s.free_gpus == count_whole_free(c.gpu_views()) as u32
    &&& s.waiting == q.len() as u32
    &&& s.running == e.len() as u32
    &&& s.finished == c.finished_jobs@.len() as u32
    &&& s.node_count == c.nodes@.len() as u32
    &&& s.gpu_count == c.gpu_views().len() as u32
    &&& s.queue_jobs@.len() == q.len()
    &&& forall|i: int| 0 <= i < q.len() ==> shows_job(#[trigger] s.queue_jobs@[i], q[i], c.clock, mask_at(mask, i))
    &&& s.top_jobs@.len() == if top_k <= q.len() { top_k as int } else { q.len() as int }
    &&& forall|i: int| 0 <= i < s.top_jobs@.len() ==> shows_job(#[trigger] s.top_jobs@[i], q[i], c.clock, mask_at(mask, i))
    &&& s.running_jobs@.len() == e.len()
    &&& forall|i: int| 0 <= i < e.len() ==> shows_running(#[trigger] s.running_jobs@[i], e[i].1)
    &&& s.nodes@.len() == c.nodes@.len()
    &&& forall|n: int| 0 <= n < c.nodes@.len() ==> (#[trigger] s.nodes@[n]).id == c.nodes@[n].id
        && s.nodes@[n].gpus@.len() == c.nodes@[n].gpus@.len()
    &&& forall|n: int, k: int|
        0 <= n < c.nodes@.len() && 0 <= k < c.nodes@[n].gpus@.len() ==> shows_gpu(
            #[trigger] s.nodes@[n].gpus@[k],
            c.nodes@[n].gpus@[k]@,
            c.nodes@[n].id,
            e,
        )
}

fn job_to_snapshot(job: &Job, clock: u64, placeable: bool) -> (s: JobSnapshot)
    ensures
        shows_job(s, *job, clock, placeable),
{
    JobSnapshot {
        id: job.id.clone(),
        name: job.name.clone(),
        arrival_time: job.arrival_time,
        runtime: job.runtime,
        gpu_count: job.gpu_count,
        priority: job.priority,
        tenant: copy_opt_string(&job.tenant),
        state: job_state_str(job.state),
        wait_proxy: job_wait_proxy(job, clock),
        cumulative_wait: job_current_cumulative_wait(job, clock),
        gang_enabled: job.gang_enabled,
        placeable,
    }
}

fn copy_job_snapshot(s: &JobSnapshot) -> (r: JobSnapshot)
    ensures
        r == *s,
{
    JobSnapshot {
        id: s.id.clone(),
        name: s.name.clone(),
        arrival_time: s.arrival_time,
        runtime: s.runtime,
        gpu_count: s.gpu_count,
        priority: s.priority,
        tenant: copy_opt_string(&s.tenant),
        state: s.state.clone(),
        wait_proxy: s.wait_proxy,
        cumulative_wait: s.cumulative_wait,
        gang_enabled: s.gang_enabled,
        placeable: s.placeable,
    }
}

fn lists(ids: &Vec<String>, id: &String) -> (r: bool)
    ensures
        r == names(ids@, id@),
{
    let mut i: usize = 0;
    while i < ids.len()
        invariant
            i <= ids@.len(),
            forall|k: int| 0 <= k < i ==> (#[trigger] ids@[k])@ != id@,
        decreases ids.len() - i,
    {
        if ids[i] == *id {
            return true;
        }
        i = i + 1;
    }
    false
}

fn owner_of(e: &Vec<(String, Job)>, id: &String) -> (r: Option<usize>)
    ensures
        match r {
            Some(k) => k < e@.len() && gpu_owner(e@, id@) == Some(e@[k as int].1),
            None => gpu_owner(e@, id@) is None,
        },
{
    let mut k: usize = e.len();
    proof {
        assert(e@.take(k as int) == e@);
    }
    while k > 0
        invariant
            k <= e@.len(),
            gpu_owner(e@, id@) == gpu_owner(e@.take(k as int), id@),
        decreases k,
    {
        let ghost t = e@.take(k as int);
        proof {
            assert(t.drop_last() == e@.take(k as int - 1));
            assert(t.last() == e@[k as int - 1]);
        }
        if lists(&e[k - 1].1.assigned_gpus, id) {
            return Some(k - 1);
        }
        k = k - 1;
    }
    None
}

fn snapshot_gpu(g: &Gpu, node_id: &String, e: &Vec<(String, Job)>) -> (s: GpuSnapshot)
    ensures
        shows_gpu(s, g@, *node_id, e@),
{
    let busy = !g.is_whole_gpu_free();
    let (job_id, job_name) = match owner_of(e, &g.id) {
        Some(k) => (Some(e[k].1.id.clone()), Some(e[k].1.name.clone())),
        None => (None, None),
    };
    GpuSnapshot {
        id: g.id.clone(),
        node_id: node_id.clone(),
        busy,
        utilization: if busy { 1 } else { 0 },
        job_id,
        job_name,
        nvlink_group: g.nvlink_group,
    }
}

impl ClusterSnapshot {
    /// The snapshot of `cluster` showing its first `top_k` queued jobs; queued job
    /// `i` is placeable when `placeable_mask[i]` is true (false past the mask).
    pub fn from_cluster(cluster: &Cluster, top_k: usize, placeable_mask: &Vec<bool>) -> (s: ClusterSnapshot)
        ensures
            snapshot_of(s, *cluster, top_k, placeable_mask@),
    {
        let q = &cluster.waiting_queue;
        let clock = cluster.clock;
        let mut queue_jobs: Vec<JobSnapshot> = Vec::new();
        let mut i: usize = 0;
        while i < q.len()
            invariant
                i <= q@.len(),
                q == &cluster.waiting_queue,
                clock == cluster.clock,
                queue_jobs@.len() == i,
                forall|k: int| 0 <= k < i ==> shows_job(#[trigger] queue_jobs@[k], q@[k], clock, mask_at(placeable_mask@, k)),
            decreases q.len() - i,
        {
            let placeable = if i < placeable_mask.len() { placeable_mask[i] } else { false };
            queue_jobs.push(job_to_snapshot(&q[i], clock, placeable));
            i = i + 1;
        }
        let mut top_jobs: Vec<JobSnapshot> = Vec::new();
        let mut t: usize = 0;
        while t < top_k && t < queue_jobs.len()
            invariant
                t <= queue_jobs@.len(),
                t <= top_k,
                top_jobs@ == queue_jobs@.take(t as int),
            decreases queue_jobs.len() - t,
        {
            top_jobs.push(copy_job_snapshot(&queue_jobs[t]));
            proof {
                assert(queue_jobs@.take(t as int + 1) == queue_jobs@.take(t as int).push(queue_jobs@[t as int]));
            }
            t = t + 1;
        }
        let e = &cluster.running_jobs.entries;
        let mut running_jobs: Vec<RunningJobSnapshot> = Vec::new();
        let mut r: usize = 0;
        while r < e.len()
            invariant
                r <= e@.len(),
                e == &cluster.running_jobs.entries,
                running_jobs@.len() == r,
                forall|k: int| 0 <= k < r ==> shows_running(#[trigger] running_jobs@[k], e@[k].1),
            decreases e.len() - r,
        {
            let j = &e[r].1;
            running_jobs.push(
                RunningJobSnapshot {
                    id: j.id.clone(),
                    name: j.name.clone(),
                    gpu_count: j.gpu_count,
                    assigned_gpus: copy_strings(&j.assigned_gpus),
                    priority: j.priority,
                    tenant: copy_opt_string(&j.tenant),
                },
            );
            r = r + 1;
        }
        let mut nodes: Vec<NodeSnapshot> = Vec::new();
        let mut n: usize = 0;
        while n < cluster.nodes.len()
            invariant
                n <= cluster.nodes@.len(),
                e == &cluster.running_jobs.entries,
                nodes@.len() == n,
                forall|m: int| 0 <= m < n ==> (#[trigger] nodes@[m]).id == cluster.nodes@[m].id
                    && nodes@[m].gpus@.len() == cluster.nodes@[m].gpus@.len(),
                forall|m: int, k: int|
                    0 <= m < n && 0 <= k < cluster.nodes@[m].gpus@.len() ==> shows_gpu(
                        #[trigger] nodes@[m].gpus@[k],
                        cluster.nodes@[m].gpus@[k]@,
                        cluster.nodes@[m].id,
                        e@,
                    ),
            decreases cluster.nodes.len() - n,
        {
            let node = &cluster.nodes[n];
            let mut gpus: Vec<GpuSnapshot> = Vec::new();
            let mut k: usize = 0;
            while k < node.gpus.len()
                invariant
                    k <= node.gpus@.len(),
                    gpus@.len() == k,
                    forall|x: int| 0 <= x < k ==> shows_gpu(#[trigger] gpus@[x], node.gpus@[x]@, node.id, e@),
                decreases node.gpus.len() - k,
            {
                gpus.push(snapshot_gpu(&node.gpus[k], &node.id, e));
                k = k + 1;
            }
            nodes.push(NodeSnapshot { id: node.id.clone(), gpus });
            proof {
                assert forall|m: int, x: int|
                    0 <= m < n + 1 && 0 <= x < cluster.nodes@[m].gpus@.len() implies shows_gpu(
                        #[trigger] nodes@[m].gpus@[x],
                        cluster.nodes@[m].gpus@[x]@,
                        cluster.nodes@[m].id,
                        e@,
                    ) by {
                    if m < n {
                    } else {
                        assert(nodes@[m].gpus@[x] == gpus@[x]);
                    }
                }
            }
            n = n + 1;
        }
        let free = cluster.free_gpu_count();
        let gpu_total = cluster.gpu_count();
        ClusterSnapshot {
            clock,
            free_gpus: free as u32,
            waiting: q.len() as u32,
            running: e.len() as u32,
            finished: cluster.finished_jobs.len() as u32,
            node_count: cluster.nodes.len() as u32,
            gpu_count: gpu_total as u32,
            top_jobs,
            queue_jobs,
            running_jobs,
            nodes,
        }
    }
}

/// The feature vector of a snapshot: clock, free GPUs, waiting, running and
/// finished counts, then per shown job its arrival, runtime, GPU count,
/// priority, waiting time, gang flag and placeability (flags as 0 or 1).
pub open spec fn features(s: ClusterSnapshot) -> Seq<u64> {
    seq![s.clock, s.free_gpus as u64, s.waiting as u64, s.running as u64, s.finished as u64] + job_features(s.top_jobs@)
}

pub open spec fn job_features(js: Seq<JobSnapshot>) -> Seq<u64>
    decreases js.len(),
{
    if js.len() == 0 {
        Seq::empty()
    } else {
        let j = js.last();
        job_features(js.drop_last()) + seq![
            j.arrival_time,
            j.runtime,
            j.gpu_count as u64,
            j.priority as u64,
            j.cumulative_wait,
            if j.gang_enabled { 1u64 } else { 0u64 },
            if j.placeable { 1u64 } else { 0u64 },
        ]
    }
}

proof fn lemma_job_features_len(js: Seq<JobSnapshot>)
    ensures
        job_features(js).len() == 7 * js.len(),
    decreases js.len(),
{
    if js.len() > 0 {
        lemma_job_features_len(js.drop_last());
    }
}

impl ClusterSnapshot {
    pub fn to_feature_vector(&self) -> (v: Vec<u64>)
        ensures
            v@ == features(*self),
            v@.len() == 5 + 7 * self.top_jobs@.len(),
    {
        let mut v: Vec<u64> = Vec::new();
        v.push(self.clock);
        v.push(self.free_gpus as u64);
        v.push(self.waiting as u64);
        v.push(self.running as u64);
        v.push(self.finished as u64);
        let ghost head = v@;
        proof {
            assert(head == seq![self.clock, self.free_gpus as u64, self.waiting as u64, self.running as u64, self.finished as u64]);
            assert(self.top_jobs@.take(0) == Seq::<JobSnapshot>::empty());
            assert(head + job_features(Seq::<JobSnapshot>::empty()) == head);
        }
        let mut i: usize = 0;
        while i < self.top_jobs.len()
            invariant
                i <= self.top_jobs@.len(),
                v@ == head + job_features(self.top_jobs@.take(i as int)),
            decreases self.top_jobs.len() - i,
        {
            let j = &self.top_jobs[i];
            v.push(j.arrival_time);
            v.push(j.runtime);
            v.push(j.gpu_count as u64);
            v.push(j.priority as u64);
            v.push(j.cumulative_wait);
            v.push(if j.gang_enabled { 1 } else { 0 });
            v.push(if j.placeable { 1 } else { 0 });
            proof {
                let t = self.top_jobs@.take(i as int + 1);
                assert(t.drop_last() == self.top_jobs@.take(i as int));
                assert(t.last() == self.top_jobs@[i as int]);
                assert(v@ =~= head + job_features(t));
            }
            i = i + 1;
        }
        proof {
            assert(self.top_jobs@.take(i as int) == self.top_jobs@);
            lemma_job_features_len(self.top_jobs@);
        }
        v
    }
}

/// The feature vector of a snapshot showing `k` jobs has the observation size for `k`.
pub proof fn law_feature_vector_size(s: ClusterSnapshot)
    ensures
        features(s).len() == 5 + 7 * s.top_jobs@.len(),
{
    lemma_job_features_len(s.top_jobs@);
}

} // verus!
