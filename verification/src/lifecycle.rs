//! Job lifecycle on the cluster: marking resources, starting, finishing,
//! evicting and failing jobs, and ordering the waiting queue.

use vstd::prelude::*;

use crate::cluster::{node_views, Cluster};
use crate::job::{sat_add, sat_add_exec, sat_mul, sat_mul_exec, Job, JobView};
use crate::model::{copy_strings, Gpu, GpuView, JobRunSegment, JobState, MigSlice, SegmentView};
use crate::seqs::{gpu_views, strs};
use crate::sort::{
    lemma_sort_forall, lemma_sort_len, lemma_sort_multiset, lemma_sort_sorted, rank_total,
    rank_transitive, sort_by_rank, sort_ranked, Ranked,
};
use crate::strmap::{entries_after_insert, key_index};

verus! {

/// Index of the first slice of `s` with id `id`, or -1.
pub open spec fn slice_index(s: Seq<MigSlice>, id: Seq<char>) -> int
    decreases s.len(),
{
    if s.len() == 0 {
        -1
    } else {
        let k = slice_index(s.drop_last(), id);
        if k >= 0 { k } else if s.last().id@ == id { s.len() - 1 } else { -1 }
    }
}

/// Index of the first GPU holding a slice with id `id`, or -1.
pub open spec fn slice_owner(gv: Seq<GpuView>, id: Seq<char>) -> int
    decreases gv.len(),
{
    if gv.len() == 0 {
        -1
    } else {
        let k = slice_owner(gv.drop_last(), id);
        if k >= 0 { k } else if slice_index(gv.last().slices, id) >= 0 { gv.len() - 1 } else { -1 }
    }
}

/// Index of the first GPU with id `id`, or -1.
pub open spec fn gpu_index(gv: Seq<GpuView>, id: Seq<char>) -> int
    decreases gv.len(),
{
    if gv.len() == 0 {
        -1
    } else {
        let k = gpu_index(gv.drop_last(), id);
        if k >= 0 { k } else if gv.last().id@ == id { gv.len() - 1 } else { -1 }
    }
}

pub proof fn lemma_index_bounds(gv: Seq<GpuView>, id: Seq<char>)
    ensures
        -1 <= gpu_index(gv, id) < gv.len(),
        gpu_index(gv, id) >= 0 ==> gv[gpu_index(gv, id)].id@ == id,
        -1 <= slice_owner(gv, id) < gv.len(),
        slice_owner(gv, id) >= 0 ==> slice_index(gv[slice_owner(gv, id)].slices, id) >= 0,
    decreases gv.len(),
{
    if gv.len() > 0 {
        lemma_index_bounds(gv.drop_last(), id);
    }
}

/// `gv` with resource `id` set to be held by `holder`: the first slice with that
/// id if any slice has it, otherwise the first whole GPU with that id.
pub open spec fn set_resource(gv: Seq<GpuView>, id: Seq<char>, holder: Option<String>) -> Seq<GpuView> {
    let o = slice_owner(gv, id);
    if o >= 0 {
        let g = gv[o];
        let k = slice_index(g.slices, id);
        gv.update(o, GpuView { slices: g.slices.update(k, MigSlice { running_job_id: holder, ..g.slices[k] }), ..g })
    } else {
        let i = gpu_index(gv, id);
        if i >= 0 {
            gv.update(i, GpuView { running_job_id: holder, ..gv[i] })
        } else {
            gv
        }
    }
}

/// `set_resource` applied to every id of `ids` in order.
pub open spec fn set_resources(gv: Seq<GpuView>, ids: Seq<Seq<char>>, holder: Option<String>) -> Seq<GpuView>
    decreases ids.len(),
{
    if ids.len() == 0 {
        gv
    } else {
        set_resource(set_resources(gv, ids.drop_last(), holder), ids.last(), holder)
    }
}

/// Node of resource `id`: the node of the GPU owning the slice, else of the GPU.
pub open spec fn resource_node(gv: Seq<GpuView>, id: Seq<char>) -> Option<String> {
    let o = slice_owner(gv, id);
    if o >= 0 {
        Some(gv[o].node_id)
    } else {
        let i = gpu_index(gv, id);
        if i >= 0 { Some(gv[i].node_id) } else { None }
    }
}

/// Nodes of the resources named by `ids` that exist, in order.
pub open spec fn resource_nodes(gv: Seq<GpuView>, ids: Seq<Seq<char>>) -> Seq<String>
    decreases ids.len(),
{
    if ids.len() == 0 {
        Seq::empty()
    } else {
        let d = resource_nodes(gv, ids.drop_last());
        match resource_node(gv, ids.last()) {
            Some(n) => d.push(n),
            None => d,
        }
    }
}

/// Position of the first slice with id `id` among `gpus`: (GPU index, slice index).
fn find_slice(gpus: &Vec<Gpu>, id: &String) -> (r: Option<(usize, usize)>)
    ensures
        match r {
            Some((o, k)) => o as int == slice_owner(gpu_views(gpus@), id@) && o < gpus@.len() && k as int
                == slice_index(gpus@[o as int].slices@, id@) && k < gpus@[o as int].slices@.len(),
            None => slice_owner(gpu_views(gpus@), id@) < 0,
        },
{
    let ghost gv = gpu_views(gpus@);
    let mut o: usize = 0;
    while o < gpus.len()
        invariant
            gv == gpu_views(gpus@),
            o <= gpus@.len(),
            slice_owner(gv.take(o as int), id@) < 0,
        decreases gpus.len() - o,
    {
        proof {
            assert(gv.take(o as int + 1).drop_last() == gv.take(o as int));
            assert(gv.take(o as int + 1).last() == gpus@[o as int]@);
        }
        let slices = &gpus[o].slices;
        let mut k: usize = 0;
        while k < slices.len()
            invariant
                gv == gpu_views(gpus@),
                o < gpus@.len(),
                slice_owner(gv.take(o as int), id@) < 0,
                slices@ == gpus@[o as int].slices@,
                k <= slices@.len(),
                slice_index(slices@.take(k as int), id@) < 0,
            decreases slices.len() - k,
        {
            proof {
                assert(slices@.take(k as int + 1).drop_last() == slices@.take(k as int));
            }
            if slices[k].id == *id {
                proof {
                    lemma_slice_index_prefix(slices@, k as int + 1, id@);
                    assert(gv[o as int].slices == slices@);
                    lemma_slice_owner_prefix(gv, o as int + 1, id@);
                }
                return Some((o, k));
            }
            k = k + 1;
        }
        proof {
            assert(slices@.take(k as int) == slices@);
        }
        o = o + 1;
    }
    proof {
        assert(gv.take(o as int) == gv);
    }
    None
}

proof fn lemma_slice_index_prefix(s: Seq<MigSlice>, k: int, id: Seq<char>)
    requires
        0 < k <= s.len(),
        slice_index(s.take(k - 1), id) < 0,
        s[k - 1].id@ == id,
    ensures
        slice_index(s, id) == k - 1,
    decreases s.len(),
{
    assert(s.take(k).drop_last() == s.take(k - 1));
    if k < s.len() {
        assert(s.drop_last().take(k) == s.take(k));
        assert(s.drop_last().take(k - 1) == s.take(k - 1));
        lemma_slice_index_prefix(s.drop_last(), k, id);
    } else {
        assert(s.take(k) == s);
    }
}

proof fn lemma_slice_owner_prefix(gv: Seq<GpuView>, o: int, id: Seq<char>)
    requires
        0 < o <= gv.len(),
        slice_owner(gv.take(o - 1), id) < 0,
        slice_index(gv[o - 1].slices, id) >= 0,
    ensures
        slice_owner(gv, id) == o - 1,
    decreases gv.len(),
{
    if o < gv.len() {
        assert(gv.drop_last().take(o - 1) == gv.take(o - 1));
        assert(gv.drop_last()[o - 1] == gv[o - 1]);
        lemma_slice_owner_prefix(gv.drop_last(), o, id);
    } else {
        assert(gv.drop_last() == gv.take(o - 1));
    }
}

/// Position of the first GPU of `gpus` with id `id`.
fn find_gpu_index(gpus: &Vec<Gpu>, id: &String) -> (r: Option<usize>)
    ensures
        match r {
            Some(i) => i as int == gpu_index(gpu_views(gpus@), id@) && i < gpus@.len(),
            None => gpu_index(gpu_views(gpus@), id@) < 0,
        },
{
    let ghost gv = gpu_views(gpus@);
    let mut i: usize = 0;
    while i < gpus.len()
        invariant
            gv == gpu_views(gpus@),
            i <= gpus@.len(),
            gpu_index(gv.take(i as int), id@) < 0,
        decreases gpus.len() - i,
    {
        proof {
            assert(gv.take(i as int + 1).drop_last() == gv.take(i as int));
            assert(gv.take(i as int + 1).last() == gpus@[i as int]@);
        }
        if gpus[i].id == *id {
            proof {
                lemma_gpu_index_prefix(gv, i as int + 1, id@);
            }
            return Some(i);
        }
        i = i + 1;
    }
    proof {
        assert(gv.take(i as int) == gv);
    }
    None
}

proof fn lemma_gpu_index_prefix(gv: Seq<GpuView>, i: int, id: Seq<char>)
    requires
        0 < i <= gv.len(),
        gpu_index(gv.take(i - 1), id) < 0,
        gv[i - 1].id@ == id,
    ensures
        gpu_index(gv, id) == i - 1,
    decreases gv.len(),
{
    if i < gv.len() {
        assert(gv.drop_last().take(i - 1) == gv.take(i - 1));
        assert(gv.drop_last()[i - 1] == gv[i - 1]);
        lemma_gpu_index_prefix(gv.drop_last(), i, id);
    } else {
        assert(gv.drop_last() == gv.take(i - 1));
    }
}

/// Stable order: higher priority first, then earlier arrival.
pub struct PriorityKey {
    pub priority: u32,
    pub arrival: u64,
}

impl Ranked for PriorityKey {
    open spec fn rank_le(&self, other: &Self) -> bool {
        self.priority > other.priority || (self.priority == other.priority && self.arrival <= other.arrival)
    }

    fn le(&self, other: &Self) -> (r: bool) {
        self.priority > other.priority || (self.priority == other.priority && self.arrival <= other.arrival)
    }
}

/// Stable order by arrival time.
pub struct ArrivalKey {
    pub arrival: u64,
}

impl Ranked for ArrivalKey {
    open spec fn rank_le(&self, other: &Self) -> bool {
        self.arrival <= other.arrival
    }

    fn le(&self, other: &Self) -> (r: bool) {
        self.arrival <= other.arrival
    }
}

pub open spec fn priority_pairs(q: Seq<Job>) -> Seq<(PriorityKey, Job)> {
    q.map_values(|j: Job| (PriorityKey { priority: j.priority, arrival: j.arrival_time }, j))
}

pub open spec fn arrival_pairs(q: Seq<Job>) -> Seq<(ArrivalKey, Job)> {
    q.map_values(|j: Job| (ArrivalKey { arrival: j.arrival_time }, j))
}

/// The waiting queue ordered by priority, highest first, ties by earliest arrival.
pub open spec fn by_priority(q: Seq<Job>) -> Seq<Job> {
    sort_ranked(priority_pairs(q)).map_values(|p: (PriorityKey, Job)| p.1)
}

/// The waiting queue ordered by arrival, earliest first.
pub open spec fn by_arrival(q: Seq<Job>) -> Seq<Job> {
    sort_ranked(arrival_pairs(q)).map_values(|p: (ArrivalKey, Job)| p.1)
}

/// Ordering the waiting queue by priority keeps every job and puts each job
/// before every job of lower priority, and before every job of equal priority
/// that arrived later.
pub proof fn law_priority_order(q: Seq<Job>)
    ensures
        by_priority(q).to_multiset() == q.to_multiset(),
        forall|i: int, j: int|
            0 <= i < j < by_priority(q).len() ==> (#[trigger] by_priority(q)[i]).priority > (
            #[trigger] by_priority(q)[j]).priority || (by_priority(q)[i].priority
                == by_priority(q)[j].priority && by_priority(q)[i].arrival_time
                <= by_priority(q)[j].arrival_time),
{
    let ps = priority_pairs(q);
    let out = by_priority(q);
    assert(rank_total::<PriorityKey>());
    assert(rank_transitive::<PriorityKey>());
    lemma_sort_sorted(ps);
    lemma_sort_len(ps);
    let keyed = |e: (PriorityKey, Job)| e.0 == PriorityKey { priority: e.1.priority, arrival: e.1.arrival_time };
    assert forall|i: int| 0 <= i < ps.len() implies keyed(#[trigger] ps[i]) by {}
    lemma_sort_forall(ps, keyed);
    let sorted = sort_ranked(ps);
    assert forall|i: int, j: int| 0 <= i < j < out.len() implies (#[trigger] out[i]).priority > (
    #[trigger] out[j]).priority || (out[i].priority == out[j].priority && out[i].arrival_time
        <= out[j].arrival_time) by {
        assert(keyed(sorted[i]));
        assert(keyed(sorted[j]));
        assert(sorted[i].0.rank_le(&sorted[j].0));
    }
    let second = |p: (PriorityKey, Job)| p.1;
    lemma_sort_multiset(ps, second);
    assert(sorted.map_values(second) == out);
    assert(ps.map_values(second) == q);
}

/// Ordering the waiting queue by arrival keeps every job and puts earlier
/// arrivals first.
pub proof fn law_arrival_order(q: Seq<Job>)
    ensures
        by_arrival(q).to_multiset() == q.to_multiset(),
        forall|i: int, j: int|
            0 <= i < j < by_arrival(q).len() ==> (#[trigger] by_arrival(q)[i]).arrival_time <= (
            #[trigger] by_arrival(q)[j]).arrival_time,
{
    let ps = arrival_pairs(q);
    let out = by_arrival(q);
    assert(rank_total::<ArrivalKey>());
    assert(rank_transitive::<ArrivalKey>());
    lemma_sort_sorted(ps);
    lemma_sort_len(ps);
    let keyed = |e: (ArrivalKey, Job)| e.0 == ArrivalKey { arrival: e.1.arrival_time };
    assert forall|i: int| 0 <= i < ps.len() implies keyed(#[trigger] ps[i]) by {}
    lemma_sort_forall(ps, keyed);
    let sorted = sort_ranked(ps);
    assert forall|i: int, j: int| 0 <= i < j < out.len() implies (#[trigger] out[i]).arrival_time
        <= (#[trigger] out[j]).arrival_time by {
        assert(keyed(sorted[i]));
        assert(keyed(sorted[j]));
        assert(sorted[i].0.rank_le(&sorted[j].0));
    }
    let second = |p: (ArrivalKey, Job)| p.1;
    lemma_sort_multiset(ps, second);
    assert(sorted.map_values(second) == out);
    assert(ps.map_values(second) == q);
}

/// The job after being started at `start` on `gpus`, located on `nodes`.
pub open spec fn started(j: JobView, gpus: Seq<String>, nodes: Seq<String>, start: u64) -> JobView {
    JobView {
        state: JobState::Running,
        start_time: Some(start),
        cumulative_wait_secs: match j.waiting_since {
            Some(since) => sat_add(j.cumulative_wait_secs, if since <= start { (start - since) as u64 } else { 0 }),
            None => j.cumulative_wait_secs,
        },
        waiting_since: None,
        assigned_gpus: gpus,
        assigned_nodes: nodes,
        ..j
    }
}

impl Cluster {
    /// Sets the holder of resource `id` (a MIG slice, else a whole GPU).
    pub fn set_resource_holder(&mut self, id: &String, holder: Option<String>)
        ensures
            final(self).gpu_views() == set_resource(old(self).gpu_views(), id@, holder),
            final(self).same_jobs_and_counters(*old(self)),
            final(self).nodes@.len() == old(self).nodes@.len(),
            final(self).same_shape(*old(self)),
            *final(self) == (Cluster { nodes: final(self).nodes, ..*old(self) }),
    {
        let gpus = self.all_gpus();
        let ghost gv = self.gpu_views();
        proof {
            lemma_index_bounds(gv, id@);
        }
        match find_slice(&gpus, id) {
            Some((o, k)) => {
                let mut g = gpus[o].duplicate();
                let old_slice = g.slices[k].duplicate();
                g.slices.set(k, MigSlice { running_job_id: holder, ..old_slice });
                proof {
                    assert(g@ == GpuView {
                        slices: gv[o as int].slices.update(k as int, MigSlice { running_job_id: holder, ..gv[o as int].slices[k as int] }),
                        ..gv[o as int]
                    });
                }
                self.replace_gpu_at(o, g);
            },
            None => match find_gpu_index(&gpus, id) {
                Some(i) => {
                    let mut g = gpus[i].duplicate();
                    g.running_job_id = holder;
                    proof {
                        assert(g@ == GpuView { running_job_id: holder, ..gv[i as int] });
                    }
                    self.replace_gpu_at(i, g);
                },
                None => {},
            },
        }
    }

    /// Marks resource `id` as held by job `job_id`.
    pub fn mark_resource_busy(&mut self, id: &String, job_id: &String)
        ensures
            final(self).gpu_views() == set_resource(old(self).gpu_views(), id@, Some(*job_id)),
            final(self).same_jobs_and_counters(*old(self)),
            final(self).same_shape(*old(self)),
            *final(self) == (Cluster { nodes: final(self).nodes, ..*old(self) }),
    {
        self.set_resource_holder(id, Some(job_id.clone()));
    }

    /// Marks resource `id` as free.
    pub fn mark_resource_free(&mut self, id: &String)
        ensures
            final(self).gpu_views() == set_resource(old(self).gpu_views(), id@, None),
            final(self).same_jobs_and_counters(*old(self)),
            final(self).same_shape(*old(self)),
            *final(self) == (Cluster { nodes: final(self).nodes, ..*old(self) }),
    {
        self.set_resource_holder(id, None);
    }

    /// Sets the holder of every resource of `ids`, in order.
    pub fn set_holders(&mut self, ids: &Vec<String>, holder: &Option<String>)
        ensures
            final(self).gpu_views() == set_resources(old(self).gpu_views(), strs(ids@), *holder),
            final(self).same_jobs_and_counters(*old(self)),
            final(self).same_shape(*old(self)),
            *final(self) == (Cluster { nodes: final(self).nodes, ..*old(self) }),
    {
        let mut i: usize = 0;
        while i < ids.len()
            invariant
                i <= ids@.len(),
                self.gpu_views() == set_resources(old(self).gpu_views(), strs(ids@).take(i as int), *holder),
                self.same_jobs_and_counters(*old(self)),
                self.same_shape(*old(self)),
                *self == (Cluster { nodes: self.nodes, ..*old(self) }),
            decreases ids.len() - i,
        {
            proof {
                assert(strs(ids@).take(i as int + 1).drop_last() == strs(ids@).take(i as int));
                assert(strs(ids@).take(i as int + 1).last() == ids@[i as int]@);
            }
            let h = crate::model::copy_opt_string(holder);
            self.set_resource_holder(&ids[i], h);
            i = i + 1;
        }
        proof {
            assert(strs(ids@).take(i as int) == strs(ids@));
        }
    }

    /// Nodes of the resources `ids` that exist.
    pub fn nodes_of(&self, ids: &Vec<String>) -> (r: Vec<String>)
        ensures
            r@ == resource_nodes(self.gpu_views(), strs(ids@)),
    {
        let gpus = self.all_gpus();
        let ghost gv = self.gpu_views();
        let mut out: Vec<String> = Vec::new();
        let mut i: usize = 0;
        proof {
            lemma_index_bounds(gv, Seq::empty());
        }
        while i < ids.len()
            invariant
                gv == self.gpu_views(),
                gpu_views(gpus@) == gv,
                i <= ids@.len(),
                out@ == resource_nodes(gv, strs(ids@).take(i as int)),
            decreases ids.len() - i,
        {
            proof {
                assert(strs(ids@).take(i as int + 1).drop_last() == strs(ids@).take(i as int));
                assert(strs(ids@).take(i as int + 1).last() == ids@[i as int]@);
                lemma_index_bounds(gv, ids@[i as int]@);
            }
            match find_slice(&gpus, &ids[i]) {
                Some((o, _k)) => out.push(gpus[o].node_id.clone()),
                None => match find_gpu_index(&gpus, &ids[i]) {
                    Some(g) => out.push(gpus[g].node_id.clone()),
                    None => {},
                },
            }
            i = i + 1;
        }
        proof {
            assert(strs(ids@).take(i as int) == strs(ids@));
        }
        out
    }

    /// A copy of the first GPU with id `id`.
    pub fn gpu(&self, id: &str) -> (r: Option<Gpu>)
        ensures
            match r {
                Some(g) => gpu_index(self.gpu_views(), id@) >= 0 && g@ == self.gpu_views()[gpu_index(self.gpu_views(), id@)],
                None => gpu_index(self.gpu_views(), id@) < 0,
            },
    {
        let key = id.to_owned();
        let gpus = self.all_gpus();
        match find_gpu_index(&gpus, &key) {
            Some(i) => Some(gpus[i].duplicate()),
            None => None,
        }
    }

    /// Starts `job` at `start` on resources `gpu_ids`: the resources become held by
    /// it, its waiting time is closed, and it joins the running jobs.
    pub fn start_job(&mut self, job: Job, gpu_ids: &Vec<String>, start: u64)
        requires
            old(self).running_jobs.wf(),
        ensures
            final(self).gpu_views() == set_resources(old(self).gpu_views(), strs(gpu_ids@), Some(job.id)),
            final(self).running_jobs.wf(),
            final(self).running_jobs.lookup(job.id@) matches Some(r) && r@ == started(
                job@,
                gpu_ids@,
                resource_nodes(old(self).gpu_views(), strs(gpu_ids@)),
                start,
            ),
            forall|q: Seq<char>| q != job.id@ ==> final(self).running_jobs.lookup(q) == old(self).running_jobs.lookup(q),
            final(self).waiting_queue == old(self).waiting_queue,
            final(self).finished_jobs == old(self).finished_jobs,
            final(self).clock == old(self).clock,
            final(self).decision_log == old(self).decision_log,
            final(self).tenant_quotas == old(self).tenant_quotas,
            final(self).node_sites == old(self).node_sites,
            final(self).topology == old(self).topology,
            final(self).same_shape(*old(self)),
            *final(self) == (Cluster { nodes: final(self).nodes, running_jobs: final(self).running_jobs, ..*old(self) }),
    {
        let nodes = self.nodes_of(gpu_ids);
        let mut j = job;
        let waited: u64 = match j.waiting_since {
            Some(since) => if since <= start { start - since } else { 0 },
            None => 0,
        };
        if j.waiting_since.is_some() {
            j.cumulative_wait_secs = sat_add_exec(j.cumulative_wait_secs, waited);
        }
        j.waiting_since = None;
        j.state = JobState::Running;
        j.start_time = Some(start);
        j.assigned_gpus = copy_strings(gpu_ids);
        j.assigned_nodes = nodes;
        let holder = Some(j.id.clone());
        self.set_holders(gpu_ids, &holder);
        let ghost mid = *self;
        let key = j.id.clone();
        self.running_jobs.insert(key, j);
        proof {
            assert(mid.same_shape(*old(self)));
            assert(self.nodes == mid.nodes);
            assert(self.nodes@.len() == old(self).nodes@.len());
            assert forall|i: int| 0 <= i < self.nodes@.len() implies #[trigger] self.nodes@[i].id == old(self).nodes@[i].id
                && self.nodes@[i].gpus@.len() == old(self).nodes@[i].gpus@.len() by {
                assert(mid.nodes@[i].id == old(self).nodes@[i].id);
            }
            assert(self.same_shape(*old(self)));
        }
    }

    /// Finishes running job `job_id` at `at`: frees its resources, closes its run
    /// segment, accounts GPU-seconds and moves it to the finished jobs.
    /// Returns whether the job was running.
    pub fn finish_job(&mut self, job_id: &String, at: u64) -> (found: bool)
        requires
            old(self).running_jobs.wf(),
        ensures
            found == (old(self).running_jobs.lookup(job_id@) is Some),
            final(self).running_jobs.wf(),
            !found ==> *final(self) == *old(self),
            found ==> ({
                let j = old(self).running_jobs.lookup(job_id@)->0;
                &&& final(self).gpu_views() == set_resources(old(self).gpu_views(), strs(j.assigned_gpus@), None)
                &&& final(self).running_jobs.lookup(job_id@) is None
                &&& forall|q: Seq<char>| q != job_id@ ==> final(self).running_jobs.lookup(q) == old(self).running_jobs.lookup(q)
                &&& final(self).finished_jobs@.len() == old(self).finished_jobs@.len() + 1
                &&& final(self).finished_jobs@.drop_last() == old(self).finished_jobs@
                &&& final(self).finished_jobs@.last()@ == ended(j@, JobState::Finished, at)
                &&& final(self).waiting_queue == old(self).waiting_queue
                &&& final(self).clock == old(self).clock
                &&& *final(self) == (Cluster {
                    nodes: final(self).nodes,
                    running_jobs: final(self).running_jobs,
                    finished_jobs: final(self).finished_jobs,
                    ..*old(self)
                })
            }),
    {
        match self.running_jobs.remove(job_id) {
            None => false,
            Some(job) => {
                let mut j = job;
                let holder: Option<String> = None;
                self.set_holders(&j.assigned_gpus, &holder);
                close_run(&mut j, at);
                j.state = JobState::Finished;
                j.finish_time = Some(at);
                self.finished_jobs.push(j);
                true
            },
        }
    }

    /// Takes running job `job_id` off its resources and out of the running jobs,
    /// returning it unchanged otherwise.
    pub fn evict_job(&mut self, job_id: &String) -> (r: Option<Job>)
        requires
            old(self).running_jobs.wf(),
        ensures
            r == old(self).running_jobs.lookup(job_id@),
            final(self).running_jobs.wf(),
            final(self).running_jobs.lookup(job_id@) is None,
            forall|q: Seq<char>| q != job_id@ ==> final(self).running_jobs.lookup(q) == old(self).running_jobs.lookup(q),
            r matches Some(j) ==> final(self).gpu_views() == set_resources(old(self).gpu_views(), strs(j.assigned_gpus@), None),
            r is None ==> final(self).gpu_views() == old(self).gpu_views(),
            r is None ==> *final(self) == *old(self),
            r is Some ==> final(self).running_jobs.entries@ == old(self).running_jobs.entries@.remove(
                key_index(old(self).running_jobs.entries@, job_id@),
            ),
            final(self).same_shape(*old(self)),
            *final(self) == (Cluster { nodes: final(self).nodes, running_jobs: final(self).running_jobs, ..*old(self) }),
            final(self).waiting_queue == old(self).waiting_queue,
            final(self).finished_jobs == old(self).finished_jobs,
            final(self).clock == old(self).clock,
            final(self).decision_log == old(self).decision_log,
            final(self).total_preemptions == old(self).total_preemptions,
            final(self).queue_max_length == old(self).queue_max_length,
            final(self).gang_timeout_rearm_ids == old(self).gang_timeout_rearm_ids,
            final(self).tenant_quotas == old(self).tenant_quotas,
            final(self).node_sites == old(self).node_sites,
            final(self).topology == old(self).topology,
    {
        match self.running_jobs.remove(job_id) {
            None => None,
            Some(j) => {
                let holder: Option<String> = None;
                self.set_holders(&j.assigned_gpus, &holder);
                Some(j)
            },
        }
    }

    /// Puts an evicted job back on its resources and among the running jobs.
    pub fn resume_evicted_job(&mut self, job: Job)
        requires
            old(self).running_jobs.wf(),
        ensures
            final(self).running_jobs.wf(),
            final(self).gpu_views() == set_resources(old(self).gpu_views(), strs(job.assigned_gpus@), Some(job.id)),
            final(self).running_jobs.lookup(job.id@) == Some(job),
            final(self).running_jobs.entries@ == entries_after_insert(old(self).running_jobs.entries@, job.id, job),
            final(self).same_shape(*old(self)),
            *final(self) == (Cluster { nodes: final(self).nodes, running_jobs: final(self).running_jobs, ..*old(self) }),
            forall|q: Seq<char>| q != job.id@ ==> final(self).running_jobs.lookup(q) == old(self).running_jobs.lookup(q),
            final(self).waiting_queue == old(self).waiting_queue,
            final(self).finished_jobs == old(self).finished_jobs,
            final(self).clock == old(self).clock,
            final(self).decision_log == old(self).decision_log,
            final(self).total_preemptions == old(self).total_preemptions,
            final(self).queue_max_length == old(self).queue_max_length,
            final(self).gang_timeout_rearm_ids == old(self).gang_timeout_rearm_ids,
            final(self).tenant_quotas == old(self).tenant_quotas,
            final(self).node_sites == old(self).node_sites,
            final(self).topology == old(self).topology,
    {
        let holder = Some(job.id.clone());
        self.set_holders(&job.assigned_gpus, &holder);
        let key = job.id.clone();
        self.running_jobs.insert(key, job);
    }

    /// Fails the first waiting job with id `job_id` at `at` (a gang timeout):
    /// it leaves the queue and joins the finished jobs as failed.
    pub fn fail_waiting_job(&mut self, job_id: &String, at: u64) -> (found: bool)
        ensures
            found == (exists|i: int| 0 <= i < old(self).waiting_queue@.len() && (#[trigger] old(self).waiting_queue@[i]).id@ == job_id@),
            !found ==> *final(self) == *old(self),
            found ==> ({
                let i = first_with_id(old(self).waiting_queue@, job_id@);
                &&& final(self).waiting_queue@ == old(self).waiting_queue@.remove(i)
                &&& final(self).finished_jobs@.drop_last() == old(self).finished_jobs@
                &&& final(self).finished_jobs@.len() == old(self).finished_jobs@.len() + 1
                &&& final(self).finished_jobs@.last()@ == failed(old(self).waiting_queue@[i]@, at)
                &&& final(self).nodes == old(self).nodes
                &&& final(self).running_jobs == old(self).running_jobs
                &&& *final(self) == (Cluster {
                    waiting_queue: final(self).waiting_queue,
                    finished_jobs: final(self).finished_jobs,
                    ..*old(self)
                })
            }),
    {
        let mut i: usize = 0;
        while i < self.waiting_queue.len()
            invariant
                i <= self.waiting_queue@.len(),
                self.waiting_queue == old(self).waiting_queue,
                forall|k: int| 0 <= k < i ==> (#[trigger] self.waiting_queue@[k]).id@ != job_id@,
                *self == *old(self),
            decreases self.waiting_queue.len() - i,
        {
            if self.waiting_queue[i].id == *job_id {
                proof {
                    lemma_first_with_id(old(self).waiting_queue@, job_id@, i as int);
                }
                let mut j = self.waiting_queue.remove(i);
                match j.waiting_since {
                    Some(since) => {
                        let waited = if since <= at { at - since } else { 0 };
                        j.cumulative_wait_secs = sat_add_exec(j.cumulative_wait_secs, waited);
                    },
                    None => {},
                }
                j.waiting_since = None;
                j.state = JobState::Failed;
                j.finish_time = Some(at);
                self.finished_jobs.push(j);
                return true;
            }
            i = i + 1;
        }
        false
    }

    /// Orders the waiting queue by priority (highest first), ties by earliest arrival.
    pub fn sort_waiting_by_priority(&mut self)
        ensures
            final(self).waiting_queue@ == by_priority(old(self).waiting_queue@),
            *final(self) == (Cluster { waiting_queue: final(self).waiting_queue, ..*old(self) }),
            final(self).nodes == old(self).nodes,
            final(self).running_jobs == old(self).running_jobs,
            final(self).finished_jobs == old(self).finished_jobs,
            final(self).clock == old(self).clock,
    {
        let mut q: Vec<Job> = Vec::new();
        std::mem::swap(&mut q, &mut self.waiting_queue);
        let ghost q0 = q@;
        let mut pairs: Vec<(PriorityKey, Job)> = Vec::new();
        while q.len() > 0
            invariant
                q@.len() <= q0.len(),
                q@ == q0.skip(q0.len() - q@.len()),
                pairs@ == priority_pairs(q0.take(q0.len() - q@.len())),
            decreases q.len(),
        {
            let ghost done = q0.len() - q@.len();
            let j = q.remove(0);
            proof {
                assert(j == q0[done]);
                assert(q0.take(done + 1) == q0.take(done).push(q0[done]));
                assert(q@ == q0.skip(done + 1));
            }
            pairs.push((PriorityKey { priority: j.priority, arrival: j.arrival_time }, j));
            proof {
                assert(pairs@ =~= priority_pairs(q0.take(done + 1)));
            }
        }
        proof {
            assert(q0.take(q0.len() as int) == q0);
        }
        let sorted = sort_by_rank(pairs);
        let jobs = unzip_jobs(sorted);
        self.waiting_queue = jobs;
    }

    /// Orders the waiting queue by arrival, earliest first.
    pub fn sort_waiting_by_arrival(&mut self)
        ensures
            final(self).waiting_queue@ == by_arrival(old(self).waiting_queue@),
            *final(self) == (Cluster { waiting_queue: final(self).waiting_queue, ..*old(self) }),
            final(self).nodes == old(self).nodes,
            final(self).running_jobs == old(self).running_jobs,
            final(self).finished_jobs == old(self).finished_jobs,
            final(self).clock == old(self).clock,
    {
        let mut q: Vec<Job> = Vec::new();
        std::mem::swap(&mut q, &mut self.waiting_queue);
        let ghost q0 = q@;
        let mut pairs: Vec<(ArrivalKey, Job)> = Vec::new();
        while q.len() > 0
            invariant
                q@.len() <= q0.len(),
                q@ == q0.skip(q0.len() - q@.len()),
                pairs@ == arrival_pairs(q0.take(q0.len() - q@.len())),
            decreases q.len(),
        {
            let ghost done = q0.len() - q@.len();
            let j = q.remove(0);
            proof {
                assert(j == q0[done]);
                assert(q0.take(done + 1) == q0.take(done).push(q0[done]));
                assert(q@ == q0.skip(done + 1));
            }
            pairs.push((ArrivalKey { arrival: j.arrival_time }, j));
            proof {
                assert(pairs@ =~= arrival_pairs(q0.take(done + 1)));
            }
        }
        proof {
            assert(q0.take(q0.len() as int) == q0);
        }
        let sorted = sort_by_rank(pairs);
        let jobs = unzip_jobs(sorted);
        self.waiting_queue = jobs;
    }
}

/// The payloads of `v`, in order.
fn unzip_jobs<K>(v: Vec<(K, Job)>) -> (r: Vec<Job>)
    ensures
        r@ == v@.map_values(|p: (K, Job)| p.1),
{
    let mut rest = v;
    let ghost v0 = rest@;
    let mut out: Vec<Job> = Vec::new();
    while rest.len() > 0
        invariant
            rest@.len() <= v0.len(),
            rest@ == v0.skip(v0.len() - rest@.len()),
            out@ == v0.take(v0.len() - rest@.len()).map_values(|p: (K, Job)| p.1),
        decreases rest.len(),
    {
        let ghost done = v0.len() - rest@.len();
        let (_, j) = rest.remove(0);
        proof {
            assert(v0.take(done + 1) == v0.take(done).push(v0[done]));
            assert(rest@ == v0.skip(done + 1));
        }
        out.push(j);
        proof {
            assert(out@ =~= v0.take(done + 1).map_values(|p: (K, Job)| p.1));
        }
    }
    proof {
        assert(v0.take(v0.len() as int) == v0);
    }
    out
}

/// Position of the first job of `q` with id `id`.
pub fn find_job(q: &Vec<Job>, id: &String) -> (r: Option<usize>)
    ensures
        match r {
            Some(i) => i < q@.len() && first_with_id(q@, id@) == i,
            None => first_with_id(q@, id@) == -1,
        },
{
    let mut i: usize = 0;
    while i < q.len()
        invariant
            i <= q@.len(),
            forall|k: int| 0 <= k < i ==> (#[trigger] q@[k]).id@ != id@,
        decreases q.len() - i,
    {
        if q[i].id == *id {
            proof {
                lemma_first_with_id(q@, id@, i as int);
            }
            return Some(i);
        }
        i = i + 1;
    }
    proof {
        lemma_first_none(q@, id@);
    }
    None
}

/// Index of the first job of `q` with id `id`.
pub open spec fn first_with_id(q: Seq<Job>, id: Seq<char>) -> int
    decreases q.len(),
{
    if q.len() == 0 {
        -1
    } else {
        let k = first_with_id(q.drop_last(), id);
        if k >= 0 { k } else if q.last().id@ == id { q.len() - 1 } else { -1 }
    }
}

pub proof fn lemma_first_bounds(q: Seq<Job>, id: Seq<char>)
    ensures
        -1 <= first_with_id(q, id) < q.len(),
        first_with_id(q, id) >= 0 ==> q[first_with_id(q, id)].id@ == id,
        (exists|i: int| 0 <= i < q.len() && (#[trigger] q[i]).id@ == id) ==> first_with_id(q, id) >= 0,
    decreases q.len(),
{
    if q.len() > 0 {
        lemma_first_bounds(q.drop_last(), id);
        if exists|i: int| 0 <= i < q.len() && (#[trigger] q[i]).id@ == id {
            let i = choose|i: int| 0 <= i < q.len() && (#[trigger] q[i]).id@ == id;
            if i < q.len() - 1 {
                assert(q.drop_last()[i] == q[i]);
            }
        }
    }
}

pub proof fn lemma_first_with_id(q: Seq<Job>, id: Seq<char>, i: int)
    requires
        0 <= i < q.len(),
        q[i].id@ == id,
        forall|k: int| 0 <= k < i ==> (#[trigger] q[k]).id@ != id,
    ensures
        first_with_id(q, id) == i,
    decreases q.len(),
{
    if i < q.len() - 1 {
        lemma_first_with_id(q.drop_last(), id, i);
    } else {
        lemma_first_none(q.drop_last(), id);
    }
}

pub proof fn lemma_first_none(q: Seq<Job>, id: Seq<char>)
    requires
        forall|k: int| 0 <= k < q.len() ==> (#[trigger] q[k]).id@ != id,
    ensures
        first_with_id(q, id) == -1,
    decreases q.len(),
{
    if q.len() > 0 {
        lemma_first_none(q.drop_last(), id);
    }
}

/// Closes the current run at `at`: elapsed time counts as progress and
/// GPU-seconds, and the run is recorded as a segment.
pub open spec fn closed_run(j: JobView, at: u64) -> JobView {
    let started = match j.start_time {
        Some(s) => s,
        None => at,
    };
    let elapsed: u64 = if started <= at { (at - started) as u64 } else { 0 };
    JobView {
        progress_secs: sat_add(j.progress_secs, elapsed),
        gpu_seconds_consumed: sat_add(j.gpu_seconds_consumed, sat_mul(elapsed, j.gpu_count as u64)),
        run_segments: j.run_segments.push(
            SegmentView { gpu_ids: j.assigned_gpus, node_ids: j.assigned_nodes, start: started, end: at },
        ),
        ..j
    }
}

/// The job after its run ends at `at` in state `state`.
pub open spec fn ended(j: JobView, state: JobState, at: u64) -> JobView {
    JobView { state, finish_time: Some(at), ..closed_run(j, at) }
}

/// A waiting job failed at `at`: its waiting time is closed.
pub open spec fn failed(j: JobView, at: u64) -> JobView {
    JobView {
        state: JobState::Failed,
        finish_time: Some(at),
        cumulative_wait_secs: match j.waiting_since {
            Some(since) => sat_add(j.cumulative_wait_secs, if since <= at { (at - since) as u64 } else { 0 }),
            None => j.cumulative_wait_secs,
        },
        waiting_since: None,
        ..j
    }
}

fn close_run(j: &mut Job, at: u64)
    ensures
        final(j)@ == closed_run(old(j)@, at),
{
    let started = match j.start_time {
        Some(s) => s,
        None => at,
    };
    let elapsed: u64 = if started <= at { at - started } else { 0 };
    j.progress_secs = sat_add_exec(j.progress_secs, elapsed);
    j.gpu_seconds_consumed = sat_add_exec(j.gpu_seconds_consumed, sat_mul_exec(elapsed, j.gpu_count as u64));
    let seg = JobRunSegment {
        gpu_ids: copy_strings(&j.assigned_gpus),
        node_ids: copy_strings(&j.assigned_nodes),
        start: started,
        end: at,
    };
    let ghost segs = j.run_segments@;
    j.run_segments.push(seg);
    proof {
        assert(crate::job::segment_views(j.run_segments@) =~= crate::job::segment_views(segs).push(seg@));
    }
}

} // verus!
