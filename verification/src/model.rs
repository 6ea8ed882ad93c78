//! Cluster domain model: GPUs, MIG slices, nodes, jobs and placements.
//!
//! Times, durations and sizes are whole units (seconds, GB, Gbps).

use vstd::prelude::*;

verus! {

/// Copies an optional string.
pub fn copy_opt_string(o: &Option<String>) -> (r: Option<String>)
    ensures
        r == *o,
{
    match o {
        Some(s) => Some(s.clone()),
        None => None,
    }
}

/// Copies a vector of strings element by element.
pub fn copy_strings(v: &Vec<String>) -> (r: Vec<String>)
    ensures
        r@ == v@,
{
    let mut out: Vec<String> = Vec::new();
    let mut i: usize = 0;
    while i < v.len()
        invariant
            i <= v.len(),
            out@ == v@.take(i as int),
        decreases v.len() - i,
    {
        out.push(v[i].clone());
        assert(v@.take(i as int + 1) == v@.take(i as int).push(v@[i as int]));
        i = i + 1;
    }
    assert(v@.take(v.len() as int) == v@);
    out
}

/// One MIG partition of a GPU.
#[derive(Debug, Clone)]
pub struct MigSlice {
    pub id: String,
    pub profile: String,
    pub memory_gb: u64,
    pub running_job_id: Option<String>,
}

impl MigSlice {
    pub fn is_free(&self) -> (r: bool)
        ensures
            r == (self.running_job_id is None),
    {
        self.running_job_id.is_none()
    }

    pub fn duplicate(&self) -> (r: MigSlice)
        ensures
            r == *self,
    {
        MigSlice {
            id: self.id.clone(),
            profile: self.profile.clone(),
            memory_gb: self.memory_gb,
            running_job_id: copy_opt_string(&self.running_job_id),
        }
    }
}

/// Copies a vector of MIG slices element by element.
pub fn copy_slices(v: &Vec<MigSlice>) -> (r: Vec<MigSlice>)
    ensures
        r@ == v@,
{
    let mut out: Vec<MigSlice> = Vec::new();
    let mut i: usize = 0;
    while i < v.len()
        invariant
            i <= v.len(),
            out@ == v@.take(i as int),
        decreases v.len() - i,
    {
        out.push(v[i].duplicate());
        assert(v@.take(i as int + 1) == v@.take(i as int).push(v@[i as int]));
        i = i + 1;
    }
    assert(v@.take(v.len() as int) == v@);
    out
}

/// A physical GPU: either used whole by one job or partitioned into MIG slices.
#[derive(Debug, Clone)]
pub struct Gpu {
    pub id: String,
    pub node_id: String,
    pub profile: String,
    pub memory_gb: u64,
    pub nvlink_group: Option<u32>,
    pub running_job_id: Option<String>,
    pub mig_capable: bool,
    pub active_mig_profile: Option<String>,
    pub slices: Vec<MigSlice>,
}

/// Mathematical view of a GPU: its slices as a sequence.
pub struct GpuView {
    pub id: String,
    pub node_id: String,
    pub profile: String,
    pub memory_gb: u64,
    pub nvlink_group: Option<u32>,
    pub running_job_id: Option<String>,
    pub mig_capable: bool,
    pub active_mig_profile: Option<String>,
    pub slices: Seq<MigSlice>,
}

impl View for Gpu {
    type V = GpuView;

    open spec fn view(&self) -> GpuView {
        GpuView {
            id: self.id,
            node_id: self.node_id,
            profile: self.profile,
            memory_gb: self.memory_gb,
            nvlink_group: self.nvlink_group,
            running_job_id: self.running_job_id,
            mig_capable: self.mig_capable,
            active_mig_profile: self.active_mig_profile,
            slices: self.slices@,
        }
    }
}

/// Number of slices in `s` of profile `p` that no job holds.
pub open spec fn count_free_slices(s: Seq<MigSlice>, p: Seq<char>) -> nat
    decreases s.len(),
{
    if s.len() == 0 {
        0
    } else {
        count_free_slices(s.drop_last(), p) + (if s.last().profile@ == p && s.last().running_job_id is None {
            1nat
        } else {
            0nat
        })
    }
}

pub proof fn lemma_count_free_slices_le(s: Seq<MigSlice>, p: Seq<char>)
    ensures
        count_free_slices(s, p) <= s.len(),
    decreases s.len(),
{
    if s.len() > 0 {
        lemma_count_free_slices_le(s.drop_last(), p);
    }
}

impl GpuView {
    /// Usable as a whole GPU: no job holds it and it is not partitioned.
    pub open spec fn whole_free(&self) -> bool {
        self.running_job_id is None && self.slices.len() == 0
    }

    /// Nothing runs on the GPU, whether whole or partitioned.
    pub open spec fn fully_idle(&self) -> bool {
        if !self.mig_capable {
            self.running_job_id is None
        } else if self.slices.len() > 0 {
            forall|k: int| 0 <= k < self.slices.len() ==> (#[trigger] self.slices[k]).running_job_id is None
        } else {
            self.running_job_id is None
        }
    }

    /// Free slices of MIG profile `p`.
    pub open spec fn free_slices(&self, p: Seq<char>) -> nat {
        count_free_slices(self.slices, p)
    }
}

impl Gpu {
    /// A whole, idle, non-MIG GPU.
    pub fn new(id: &str, node_id: &str, profile: &str, memory_gb: u64) -> (g: Gpu)
        ensures
            g.id@ == id@,
            g.node_id@ == node_id@,
            g.profile@ == profile@,
            g.memory_gb == memory_gb,
            g.nvlink_group is None,
            g.running_job_id is None,
            !g.mig_capable,
            g.active_mig_profile is None,
            g.slices@.len() == 0,
    {
        Gpu {
            id: id.to_owned(),
            node_id: node_id.to_owned(),
            profile: profile.to_owned(),
            memory_gb,
            nvlink_group: None,
            running_job_id: None,
            mig_capable: false,
            active_mig_profile: None,
            slices: Vec::new(),
        }
    }

    /// No job holds this GPU through its whole-GPU slot.
    pub fn is_free(&self) -> (r: bool)
        ensures
            r == (self.running_job_id is None),
    {
        self.running_job_id.is_none()
    }

    pub fn duplicate(&self) -> (r: Gpu)
        ensures
            r@ == self@,
    {
        Gpu {
            id: self.id.clone(),
            node_id: self.node_id.clone(),
            profile: self.profile.clone(),
            memory_gb: self.memory_gb,
            nvlink_group: self.nvlink_group,
            running_job_id: copy_opt_string(&self.running_job_id),
            mig_capable: self.mig_capable,
            active_mig_profile: copy_opt_string(&self.active_mig_profile),
            slices: copy_slices(&self.slices),
        }
    }
}

/// A machine holding GPUs.
#[derive(Debug, Clone)]
pub struct Node {
    pub id: String,
    pub gpus: Vec<Gpu>,
}

/// Mathematical view of a node.
pub struct NodeView {
    pub id: String,
    pub gpus: Seq<GpuView>,
}

impl View for Node {
    type V = NodeView;

    open spec fn view(&self) -> NodeView {
        NodeView { id: self.id, gpus: self.gpus@.map_values(|g: Gpu| g@) }
    }
}

/// Lifecycle of a job.
#[derive(Debug, Clone, Copy, PartialEq, Eq, Structural)]
pub enum JobState {
    Pending,
    Waiting,
    Running,
    Finished,
    Failed,
}

/// One closed interval during which a job held GPUs.
#[derive(Debug, Clone)]
pub struct JobRunSegment {
    pub gpu_ids: Vec<String>,
    pub node_ids: Vec<String>,
    pub start: u64,
    pub end: u64,
}

/// Mathematical view of a run segment.
pub struct SegmentView {
    pub gpu_ids: Seq<String>,
    pub node_ids: Seq<String>,
    pub start: u64,
    pub end: u64,
}

impl View for JobRunSegment {
    type V = SegmentView;

    open spec fn view(&self) -> SegmentView {
        SegmentView { gpu_ids: self.gpu_ids@, node_ids: self.node_ids@, start: self.start, end: self.end }
    }
}

impl JobRunSegment {
    pub fn duplicate(&self) -> (r: JobRunSegment)
        ensures
            r@ == self@,
    {
        JobRunSegment {
            gpu_ids: copy_strings(&self.gpu_ids),
            node_ids: copy_strings(&self.node_ids),
            start: self.start,
            end: self.end,
        }
    }
}

/// Where a job was placed: whole GPU ids or MIG slice ids.
#[derive(Debug, Clone)]
pub struct Placement {
    pub job_id: String,
    pub gpu_ids: Vec<String>,
    pub start_time: u64,
    /// Runtime inflation, as a ratio `runtime_num / runtime_den`.
    pub runtime_num: u128,
    pub runtime_den: u128,
}

/// Copies a placement.
pub fn copy_placement(p: &Placement) -> (r: Placement)
    ensures
        r.job_id == p.job_id,
        r.gpu_ids@ == p.gpu_ids@,
        r.start_time == p.start_time,
        r.runtime_num == p.runtime_num,
        r.runtime_den == p.runtime_den,
{
    Placement {
        job_id: p.job_id.clone(),
        gpu_ids: copy_strings(&p.gpu_ids),
        start_time: p.start_time,
        runtime_num: p.runtime_num,
        runtime_den: p.runtime_den,
    }
}

} // verus!
