//! Queue policies: which waiting jobs get placed, in which order.
//!
//! A scheduler marks the resources of each placement it makes as held, so that
//! later placements of the same pass cannot take them again, and frees those
//! marks before returning: committing a placement is the engine's business.

use vstd::prelude::*;

use crate::cluster::Cluster;
use crate::error::SimError;
use crate::job::{Job, JobView};
use crate::cluster::{flat_gpus, node_views};
use crate::holders::{
    hold, lemma_loc_same, lemma_same_holders_equal, lemma_same_refl, lemma_same_trans, lemma_set_resources,
    lemma_slice_index_bounds, lemma_writes_same, loc, same_but_holders, valid_slot, writes,
};
use crate::lifecycle::{by_arrival, by_priority, gpu_index, lemma_index_bounds, set_resources, slice_index, slice_owner};
use crate::model::{GpuView, NodeView};
use crate::model::Placement;
use crate::resource::{
    ids_distinct, law_whole_ids_distinct, mig_outcome, nodes_well_named, spec_gang_nodes_needed, whole_allocation, whole_choice,
    within, ResourceManager,
};
use crate::seqs::strs;
use crate::sort::{
    lemma_sort_forall, lemma_sort_len, lemma_sort_multiset, lemma_sort_sorted, rank_total, rank_transitive, sort_by_rank,
    sort_ranked, Ranked,
};

verus! {

/// `b` is `a` with every resource of `ids` held by `holder`; nothing else changes.
pub open spec fn holders_set(a: Cluster, b: Cluster, ids: Seq<Seq<char>>, holder: Option<String>) -> bool {
    &&& b.gpu_views() == set_resources(a.gpu_views(), ids, holder)
    &&& b.same_shape(a)
    &&& b == Cluster { nodes: b.nodes, ..a }
}

/// What allocating `j` on `c0` at the cluster clock may give: the cluster `c1`
/// afterwards and the result `r`.
pub open spec fn allocation(rm: ResourceManager, c0: Cluster, c1: Cluster, j: Job, r: Result<Placement, SimError>) -> bool {
    if j.spec_is_mig_job() {
        mig_outcome(rm.mig_registry, c0, c1, j, c0.clock, r)
    } else {
        whole_allocation(rm.gpu_selection, c0, c1, j, c0.clock, r)
    }
}

/// One job of a pass: skipped when it cannot be placed; otherwise allocated and,
/// on success, its resources marked as held by it and its placement appended.
pub open spec fn place_step(
    rm: ResourceManager,
    c0: Cluster,
    j: Job,
    c1: Cluster,
    p0: Seq<Placement>,
    p1: Seq<Placement>,
) -> bool {
    if !rm.spec_can_place(c0, j) {
        c1 == c0 && p1 == p0
    } else {
        exists|ca: Cluster, r: Result<Placement, SimError>|
            #[trigger] allocation(rm, c0, ca, j, r) && match r {
                Ok(pl) => holders_set(ca, c1, strs(pl.gpu_ids@), Some(j.id)) && p1 == p0.push(pl),
                Err(_) => c1 == ca && p1 == p0,
            }
    }
}

/// A pass over `js` in order, from `c0` to `c1`, making placements `ps`.
pub open spec fn place_run(rm: ResourceManager, c0: Cluster, js: Seq<Job>, c1: Cluster, ps: Seq<Placement>) -> bool
    decreases js.len(),
{
    if js.len() == 0 {
        c1 == c0 && ps == Seq::<Placement>::empty()
    } else {
        exists|cm: Cluster, pm: Seq<Placement>|
            place_run(rm, c0, js.drop_last(), cm, pm) && #[trigger] place_step(rm, cm, js.last(), c1, pm, ps)
    }
}

/// `ps` places some of the jobs of `js`, each at most once, in the order of `js`.
pub open spec fn one_per_job(js: Seq<Job>, ps: Seq<Placement>) -> bool
    decreases js.len(),
{
    if js.len() == 0 {
        ps.len() == 0
    } else {
        one_per_job(js.drop_last(), ps) || (ps.len() > 0 && ps.last().job_id == js.last().id && one_per_job(
            js.drop_last(),
            ps.drop_last(),
        ))
    }
}

proof fn lemma_one_per_job_len(js: Seq<Job>, ps: Seq<Placement>)
    requires
        one_per_job(js, ps),
    ensures
        ps.len() <= js.len(),
    decreases js.len(),
{
    if js.len() > 0 {
        if one_per_job(js.drop_last(), ps) {
            lemma_one_per_job_len(js.drop_last(), ps);
        } else {
            lemma_one_per_job_len(js.drop_last(), ps.drop_last());
        }
    }
}

/// A pass places each job at most once, each placement for the job it follows,
/// in the order the jobs were given; so it makes no more placements than jobs.
pub proof fn law_place_run_one_per_job(rm: ResourceManager, c0: Cluster, js: Seq<Job>, c1: Cluster, ps: Seq<Placement>)
    ensures
        place_run(rm, c0, js, c1, ps) ==> one_per_job(js, ps) && ps.len() <= js.len(),
    decreases js.len(),
{
    if place_run(rm, c0, js, c1, ps) {
        if js.len() > 0 {
            let (cm, pm) = choose|cm: Cluster, pm: Seq<Placement>|
                place_run(rm, c0, js.drop_last(), cm, pm) && #[trigger] place_step(rm, cm, js.last(), c1, pm, ps);
            law_place_run_one_per_job(rm, c0, js.drop_last(), cm, pm);
            if rm.spec_can_place(cm, js.last()) {
                let (ca, r) = choose|ca: Cluster, r: Result<Placement, SimError>|
                    #[trigger] allocation(rm, cm, ca, js.last(), r) && match r {
                        Ok(pl) => holders_set(ca, c1, strs(pl.gpu_ids@), Some(js.last().id)) && ps == pm.push(pl),
                        Err(_) => c1 == ca && ps == pm,
                    };
                if r is Ok {
                    assert(ps.drop_last() == pm);
                }
            }
        }
        lemma_one_per_job_len(js, ps);
    }
}

/// Resource ids of all placements, placement by placement.
pub open spec fn flat_ids(ps: Seq<Placement>) -> Seq<Seq<char>>
    decreases ps.len(),
{
    if ps.len() == 0 {
        Seq::empty()
    } else {
        flat_ids(ps.drop_last()) + strs(ps.last().gpu_ids@)
    }
}

/// `c` with waiting queue `q`.
pub open spec fn with_queue(c: Cluster, q: Vec<Job>) -> Cluster {
    Cluster { waiting_queue: q, ..c }
}

/// Views of a sequence of jobs.
pub open spec fn job_views(q: Seq<Job>) -> Seq<JobView> {
    q.map_values(|j: Job| j@)
}

pub proof fn lemma_set_resources_append(g: Seq<crate::model::GpuView>, a: Seq<Seq<char>>, b: Seq<Seq<char>>, h: Option<String>)
    ensures
        set_resources(g, a + b, h) == set_resources(set_resources(g, a, h), b, h),
    decreases b.len(),
{
    if b.len() == 0 {
        assert(a + b == a);
    } else {
        assert((a + b).drop_last() == a + b.drop_last());
        assert((a + b).last() == b.last());
        lemma_set_resources_append(g, a, b.drop_last(), h);
    }
}

pub proof fn lemma_holders_trans(a: Cluster, b: Cluster, c: Cluster, x: Seq<Seq<char>>, y: Seq<Seq<char>>, h: Option<String>)
    requires
        holders_set(a, b, x, h),
        holders_set(b, c, y, h),
    ensures
        holders_set(a, c, x + y, h),
{
    lemma_set_resources_append(a.gpu_views(), x, y, h);
    assert forall|i: int| 0 <= i < c.nodes@.len() implies #[trigger] c.nodes@[i].id == a.nodes@[i].id
        && c.nodes@[i].gpus@.len() == a.nodes@[i].gpus@.len() by {
        assert(c.nodes@[i].id == b.nodes@[i].id);
        assert(b.nodes@[i].id == a.nodes@[i].id);
    }
}

/// Frees the resources of every placement of `placements`, in order.
pub fn release_marks(cluster: &mut Cluster, placements: &Vec<Placement>)
    ensures
        holders_set(*old(cluster), *final(cluster), flat_ids(placements@), None),
{
    let ghost c0 = *cluster;
    let mut k: usize = 0;
    proof {
        assert(flat_ids(placements@.take(0)) == Seq::<Seq<char>>::empty());
        assert(set_resources(c0.gpu_views(), Seq::<Seq<char>>::empty(), None) == c0.gpu_views());
    }
    while k < placements.len()
        invariant
            k <= placements@.len(),
            holders_set(c0, *cluster, flat_ids(placements@.take(k as int)), None),
        decreases placements.len() - k,
    {
        let ghost before = *cluster;
        let none: Option<String> = None;
        cluster.set_holders(&placements[k].gpu_ids, &none);
        proof {
            assert(placements@.take(k as int + 1).drop_last() == placements@.take(k as int));
            assert(placements@.take(k as int + 1).last() == placements@[k as int]);
            lemma_holders_trans(c0, before, *cluster, flat_ids(placements@.take(k as int)), strs(placements@[k as int].gpu_ids@), None);
        }
        k = k + 1;
    }
    proof {
        assert(placements@.take(k as int) == placements@);
    }
}

/// Places each job of `ordered` that fits, in order, skipping those that do not
/// fit or whose allocation fails; later jobs may still run ahead of a blocked one.
/// Returns the placements; the resources they name are free again on return.
pub fn place_in_order(cluster: &mut Cluster, resource_manager: &ResourceManager, ordered: Vec<Job>) -> (r: Vec<Placement>)
    requires
        old(cluster).topology.nvlink_bw_gbs >= 1,
    ensures
        exists|cm: Cluster|
            #[trigger] place_run(*resource_manager, *old(cluster), ordered@, cm, r@)
                && holders_set(cm, *final(cluster), flat_ids(r@), None),
        one_per_job(ordered@, r@),
        *final(cluster) == (Cluster {
            nodes: final(cluster).nodes,
            topology_penalties: final(cluster).topology_penalties,
            mig_reconfigs: final(cluster).mig_reconfigs,
            ..*old(cluster)
        }),
{
    let ghost c_start = *cluster;
    let mut placements: Vec<Placement> = Vec::new();
    let mut i: usize = 0;
    proof {
        assert(ordered@.take(0) == Seq::<Job>::empty());
    }
    while i < ordered.len()
        invariant
            i <= ordered@.len(),
            c_start.topology.nvlink_bw_gbs >= 1,
            place_run(*resource_manager, c_start, ordered@.take(i as int), *cluster, placements@),
            *cluster == (Cluster {
                nodes: cluster.nodes,
                topology_penalties: cluster.topology_penalties,
                mig_reconfigs: cluster.mig_reconfigs,
                ..c_start
            }),
        decreases ordered.len() - i,
    {
        let ghost c_before = *cluster;
        let ghost p_before = placements@;
        let job = &ordered[i];
        placement_step(cluster, resource_manager, job, &mut placements);
        proof {
            assert(ordered@.take(i as int + 1).drop_last() == ordered@.take(i as int));
            assert(ordered@.take(i as int + 1).last() == ordered@[i as int]);
            assert(place_run(*resource_manager, c_start, ordered@.take(i as int + 1).drop_last(), c_before, p_before)
                && place_step(*resource_manager, c_before, ordered@.take(i as int + 1).last(), *cluster, p_before, placements@));
            assert(place_run(*resource_manager, c_start, ordered@.take(i as int + 1), *cluster, placements@));
        }
        i = i + 1;
    }
    proof {
        assert(ordered@.take(i as int) == ordered@);
        law_place_run_one_per_job(*resource_manager, c_start, ordered@, *cluster, placements@);
    }
    let ghost cm = *cluster;
    release_marks(cluster, &placements);
    placements
}

/// Tries to place `job` now; on success its resources are marked as held by it
/// and its placement is appended. Returns whether it was placed.
pub(crate) fn placement_step(cluster: &mut Cluster, resource_manager: &ResourceManager, job: &Job, placements: &mut Vec<Placement>) -> (placed: bool)
    requires
        old(cluster).topology.nvlink_bw_gbs >= 1,
    ensures
        place_step(*resource_manager, *old(cluster), *job, *final(cluster), old(placements)@, final(placements)@),
        placed == (final(placements)@.len() == old(placements)@.len() + 1),
        final(placements)@.len() <= old(placements)@.len() + 1,
        *final(cluster) == (Cluster {
            nodes: final(cluster).nodes,
            topology_penalties: final(cluster).topology_penalties,
            mig_reconfigs: final(cluster).mig_reconfigs,
            ..*old(cluster)
        }),
{
    if !resource_manager.can_place(cluster, job) {
        return false;
    }
    let clock = cluster.clock;
    let res = resource_manager.allocate(cluster, job, clock);
    let ghost ca = *cluster;
    let ghost r0 = res;
    proof {
        assert(allocation(*resource_manager, *old(cluster), ca, *job, r0));
    }
    match res {
        Ok(pl) => {
            let holder = Some(job.id.clone());
            cluster.set_holders(&pl.gpu_ids, &holder);
            placements.push(pl);
            true
        },
        Err(_) => false,
    }
}

/// Moves the waiting jobs out of the cluster, leaving copies in their place.
pub(crate) fn take_queue(cluster: &mut Cluster) -> (r: Vec<Job>)
    ensures
        r@ == old(cluster).waiting_queue@,
        job_views(final(cluster).waiting_queue@) == job_views(old(cluster).waiting_queue@),
        *final(cluster) == (Cluster { waiting_queue: final(cluster).waiting_queue, ..*old(cluster) }),
{
    let mut q: Vec<Job> = Vec::new();
    std::mem::swap(&mut q, &mut cluster.waiting_queue);
    let mut copies: Vec<Job> = Vec::new();
    let mut i: usize = 0;
    while i < q.len()
        invariant
            i <= q@.len(),
            job_views(copies@) == job_views(q@.take(i as int)),
        decreases q.len() - i,
    {
        copies.push(q[i].duplicate());
        proof {
            assert(job_views(q@.take(i as int + 1)) =~= job_views(q@.take(i as int)).push(q@[i as int]@));
        }
        i = i + 1;
    }
    proof {
        assert(q@.take(i as int) == q@);
    }
    cluster.waiting_queue = copies;
    q
}

/// A queue policy: given the cluster and a resource manager, decide which
/// waiting jobs to place now.
pub trait Scheduler {
    /// What one pass of this policy does: from cluster `c0` to `c1`, placing `placements`.
    spec fn pass(&self, rm: ResourceManager, c0: Cluster, c1: Cluster, placements: Seq<Placement>) -> bool;

    fn schedule(&mut self, cluster: &mut Cluster, resource_manager: &ResourceManager) -> (placements: Vec<Placement>)
        requires
            old(cluster).running_jobs.wf(),
            old(cluster).topology.nvlink_bw_gbs >= 1,
        ensures
            final(cluster).running_jobs.wf(),
            final(cluster).topology == old(cluster).topology,
            final(cluster).clock == old(cluster).clock,
            old(self).pass(*resource_manager, *old(cluster), *final(cluster), placements@),
    ;
}

/// First come, first served with backfill: jobs in arrival order, but a job that
/// does not fit is skipped so that later, smaller jobs may run first.
#[derive(Debug, Default, Clone)]
pub struct FifoScheduler;

impl Scheduler for FifoScheduler {
    open spec fn pass(&self, rm: ResourceManager, c0: Cluster, c1: Cluster, placements: Seq<Placement>) -> bool {
        &&& job_views(c1.waiting_queue@) == job_views(by_arrival(c0.waiting_queue@))
        &&& exists|cm: Cluster|
            #[trigger] place_run(rm, with_queue(c0, c1.waiting_queue), by_arrival(c0.waiting_queue@), cm, placements) && holders_set(
                cm,
                c1,
                flat_ids(placements),
                None,
            )
    }

    fn schedule(&mut self, cluster: &mut Cluster, resource_manager: &ResourceManager) -> (placements: Vec<Placement>)
        ensures
            job_views(final(cluster).waiting_queue@) == job_views(by_arrival(old(cluster).waiting_queue@)),
            exists|cm: Cluster|
                #[trigger] place_run(
                    *resource_manager,
                    with_queue(*old(cluster), final(cluster).waiting_queue),
                    by_arrival(old(cluster).waiting_queue@),
                    cm,
                    placements@,
                ) && holders_set(cm, *final(cluster), flat_ids(placements@), None),
    {
        cluster.sort_waiting_by_arrival();
        let waiting = take_queue(cluster);
        let ghost c_call = *cluster;
        let ghost jobs = waiting@;
        let r = place_in_order(cluster, resource_manager, waiting);
        proof {
            let cm = choose|cm: Cluster| #[trigger] place_run(*resource_manager, c_call, jobs, cm, r@) && holders_set(cm, *cluster, flat_ids(r@), None);
            assert(with_queue(*old(cluster), cluster.waiting_queue) == c_call);
            assert(jobs == by_arrival(old(cluster).waiting_queue@));
            assert(place_run(*resource_manager, with_queue(*old(cluster), cluster.waiting_queue), by_arrival(old(cluster).waiting_queue@), cm, r@));
        }
        r
    }
}

/// Highest priority first, ties by earliest arrival; jobs that do not fit are skipped.
#[derive(Debug, Default, Clone)]
pub struct PriorityScheduler;

impl Scheduler for PriorityScheduler {
    open spec fn pass(&self, rm: ResourceManager, c0: Cluster, c1: Cluster, placements: Seq<Placement>) -> bool {
        &&& job_views(c1.waiting_queue@) == job_views(by_priority(c0.waiting_queue@))
        &&& exists|cm: Cluster|
            #[trigger] place_run(rm, with_queue(c0, c1.waiting_queue), by_priority(c0.waiting_queue@), cm, placements) && holders_set(
                cm,
                c1,
                flat_ids(placements),
                None,
            )
    }

    fn schedule(&mut self, cluster: &mut Cluster, resource_manager: &ResourceManager) -> (placements: Vec<Placement>)
        ensures
            job_views(final(cluster).waiting_queue@) == job_views(by_priority(old(cluster).waiting_queue@)),
            exists|cm: Cluster|
                #[trigger] place_run(
                    *resource_manager,
                    with_queue(*old(cluster), final(cluster).waiting_queue),
                    by_priority(old(cluster).waiting_queue@),
                    cm,
                    placements@,
                ) && holders_set(cm, *final(cluster), flat_ids(placements@), None),
    {
        cluster.sort_waiting_by_priority();
        let waiting = take_queue(cluster);
        let ghost c_call = *cluster;
        let ghost jobs = waiting@;
        let r = place_in_order(cluster, resource_manager, waiting);
        proof {
            let cm = choose|cm: Cluster| #[trigger] place_run(*resource_manager, c_call, jobs, cm, r@) && holders_set(cm, *cluster, flat_ids(r@), None);
            assert(with_queue(*old(cluster), cluster.waiting_queue) == c_call);
            assert(jobs == by_priority(old(cluster).waiting_queue@));
            assert(place_run(*resource_manager, with_queue(*old(cluster), cluster.waiting_queue), by_priority(old(cluster).waiting_queue@), cm, r@));
        }
        r
    }
}

/// Larger jobs first: more GPUs first, ties by earliest arrival.
pub struct SizeKey {
    pub gpu_count: u32,
    pub arrival: u64,
}

impl Ranked for SizeKey {
    open spec fn rank_le(&self, other: &Self) -> bool {
        self.gpu_count > other.gpu_count || (self.gpu_count == other.gpu_count && self.arrival <= other.arrival)
    }

    fn le(&self, other: &Self) -> (r: bool) {
        self.gpu_count > other.gpu_count || (self.gpu_count == other.gpu_count && self.arrival <= other.arrival)
    }
}

pub open spec fn size_pairs(q: Seq<Job>) -> Seq<(SizeKey, Job)> {
    q.map_values(|j: Job| (SizeKey { gpu_count: j.gpu_count, arrival: j.arrival_time }, j))
}

/// `q` ordered by GPU count, largest first, ties by earliest arrival.
pub open spec fn by_size(q: Seq<Job>) -> Seq<Job> {
    sort_ranked(size_pairs(q)).map_values(|p: (SizeKey, Job)| p.1)
}

/// Ordering the waiting queue by size keeps every job and puts each job before
/// every job that asks for fewer GPUs, and before every job of the same size
/// that arrived later.
pub proof fn law_size_order(q: Seq<Job>)
    ensures
        by_size(q).to_multiset() == q.to_multiset(),
        forall|i: int, j: int|
            0 <= i < j < by_size(q).len() ==> (#[trigger] by_size(q)[i]).gpu_count > (#[trigger] by_size(
                q,
            )[j]).gpu_count || (by_size(q)[i].gpu_count == by_size(q)[j].gpu_count && by_size(q)[i].arrival_time
                <= by_size(q)[j].arrival_time),
{
    let ps = size_pairs(q);
    let out = by_size(q);
    assert(rank_total::<SizeKey>());
    assert(rank_transitive::<SizeKey>());
    lemma_sort_sorted(ps);
    lemma_sort_len(ps);
    let keyed = |e: (SizeKey, Job)| e.0 == SizeKey { gpu_count: e.1.gpu_count, arrival: e.1.arrival_time };
    assert forall|i: int| 0 <= i < ps.len() implies keyed(#[trigger] ps[i]) by {}
    lemma_sort_forall(ps, keyed);
    let sorted = sort_ranked(ps);
    assert forall|i: int, j: int| 0 <= i < j < out.len() implies (#[trigger] out[i]).gpu_count > (
    #[trigger] out[j]).gpu_count || (out[i].gpu_count == out[j].gpu_count && out[i].arrival_time
        <= out[j].arrival_time) by {
        assert(keyed(sorted[i]));
        assert(keyed(sorted[j]));
        assert(sorted[i].0.rank_le(&sorted[j].0));
    }
    let second = |p: (SizeKey, Job)| p.1;
    lemma_sort_multiset(ps, second);
    assert(sorted.map_values(second) == out);
    assert(ps.map_values(second) == q);
}

/// Orders `jobs` by GPU count, largest first, ties by earliest arrival (stable).
fn sort_by_size(jobs: Vec<Job>) -> (r: Vec<Job>)
    ensures
        r@ == by_size(jobs@),
{
    let mut q = jobs;
    let ghost q0 = q@;
    let mut pairs: Vec<(SizeKey, Job)> = Vec::new();
    while q.len() > 0
        invariant
            q@.len() <= q0.len(),
            q@ == q0.skip(q0.len() - q@.len()),
            pairs@ == size_pairs(q0.take(q0.len() - q@.len())),
        decreases q.len(),
    {
        let ghost done = q0.len() - q@.len();
        let j = q.remove(0);
        proof {
            assert(j == q0[done]);
            assert(q0.take(done + 1) == q0.take(done).push(q0[done]));
            assert(q@ == q0.skip(done + 1));
        }
        pairs.push((SizeKey { gpu_count: j.gpu_count, arrival: j.arrival_time }, j));
        proof {
            assert(pairs@ =~= size_pairs(q0.take(done + 1)));
        }
    }
    proof {
        assert(q0.take(q0.len() as int) == q0);
    }
    let sorted = sort_by_rank(pairs);
    let mut rest = sorted;
    let ghost s0 = rest@;
    let mut out: Vec<Job> = Vec::new();
    while rest.len() > 0
        invariant
            rest@.len() <= s0.len(),
            rest@ == s0.skip(s0.len() - rest@.len()),
            out@ == s0.take(s0.len() - rest@.len()).map_values(|p: (SizeKey, Job)| p.1),
        decreases rest.len(),
    {
        let ghost done = s0.len() - rest@.len();
        let (_, j) = rest.remove(0);
        proof {
            assert(s0.take(done + 1) == s0.take(done).push(s0[done]));
            assert(rest@ == s0.skip(done + 1));
        }
        out.push(j);
        proof {
            assert(out@ =~= s0.take(done + 1).map_values(|p: (SizeKey, Job)| p.1));
        }
    }
    proof {
        assert(s0.take(s0.len() as int) == s0);
    }
    out
}

/// Best fit: larger jobs first, then earliest arrival; the waiting queue keeps its
/// order. Pair with the best-fit GPU selection policy for tightest-node placement.
#[derive(Debug, Default, Clone)]
pub struct BestFitScheduler;

impl Scheduler for BestFitScheduler {
    open spec fn pass(&self, rm: ResourceManager, c0: Cluster, c1: Cluster, placements: Seq<Placement>) -> bool {
        &&& job_views(c1.waiting_queue@) == job_views(c0.waiting_queue@)
        &&& exists|cm: Cluster|
            #[trigger] place_run(rm, with_queue(c0, c1.waiting_queue), by_size(c0.waiting_queue@), cm, placements) && holders_set(
                cm,
                c1,
                flat_ids(placements),
                None,
            )
    }

    fn schedule(&mut self, cluster: &mut Cluster, resource_manager: &ResourceManager) -> (placements: Vec<Placement>)
        ensures
            job_views(final(cluster).waiting_queue@) == job_views(old(cluster).waiting_queue@),
            exists|cm: Cluster|
                #[trigger] place_run(
                    *resource_manager,
                    with_queue(*old(cluster), final(cluster).waiting_queue),
                    by_size(old(cluster).waiting_queue@),
                    cm,
                    placements@,
                ) && holders_set(cm, *final(cluster), flat_ids(placements@), None),
    {
        let waiting = take_queue(cluster);
        let ordered = sort_by_size(waiting);
        let ghost c_call = *cluster;
        let ghost jobs = ordered@;
        let r = place_in_order(cluster, resource_manager, ordered);
        proof {
            let cm = choose|cm: Cluster| #[trigger] place_run(*resource_manager, c_call, jobs, cm, r@) && holders_set(cm, *cluster, flat_ids(r@), None);
            assert(with_queue(*old(cluster), cluster.waiting_queue) == c_call);
            assert(place_run(*resource_manager, with_queue(*old(cluster), cluster.waiting_queue), by_size(old(cluster).waiting_queue@), cm, r@));
        }
        r
    }
}


proof fn lemma_same_concat(x1: Seq<GpuView>, y1: Seq<GpuView>, x2: Seq<GpuView>, y2: Seq<GpuView>)
    requires
        x1.len() == x2.len(),
        same_but_holders(x1 + y1, x2 + y2),
    ensures
        same_but_holders(x1, x2),
        same_but_holders(y1, y2),
{
    let a = x1 + y1;
    let b = x2 + y2;
    assert forall|i: int| 0 <= i < x1.len() implies #[trigger] x1[i] == (GpuView {
        running_job_id: x1[i].running_job_id,
        slices: x1[i].slices,
        ..x2[i]
    }) && x1[i].slices.len() == x2[i].slices.len() by {
        assert(a[i] == x1[i] && b[i] == x2[i]);
    }
    assert forall|i: int, k: int| 0 <= i < x1.len() && 0 <= k < x1[i].slices.len() implies #[trigger] x1[i].slices[k]
        == (crate::model::MigSlice { running_job_id: x1[i].slices[k].running_job_id, ..x2[i].slices[k] }) by {
        assert(a[i] == x1[i] && b[i] == x2[i]);
        assert(a[i].slices[k] == (crate::model::MigSlice { running_job_id: a[i].slices[k].running_job_id, ..b[i].slices[k] }));
    }
    assert forall|i: int| 0 <= i < y1.len() implies #[trigger] y1[i] == (GpuView {
        running_job_id: y1[i].running_job_id,
        slices: y1[i].slices,
        ..y2[i]
    }) && y1[i].slices.len() == y2[i].slices.len() by {
        assert(a[x1.len() + i] == y1[i] && b[x1.len() + i] == y2[i]);
    }
    assert forall|i: int, k: int| 0 <= i < y1.len() && 0 <= k < y1[i].slices.len() implies #[trigger] y1[i].slices[k]
        == (crate::model::MigSlice { running_job_id: y1[i].slices[k].running_job_id, ..y2[i].slices[k] }) by {
        let m = x1.len() + i;
        assert(a[m] == y1[i] && b[m] == y2[i]);
        assert(a[m].slices[k] == (crate::model::MigSlice { running_job_id: a[m].slices[k].running_job_id, ..b[m].slices[k] }));
    }
}

/// Nodes of the same shape whose GPUs differ at most in holders, node by node.
proof fn lemma_nodes_same(na: Seq<NodeView>, nb: Seq<NodeView>)
    requires
        na.len() == nb.len(),
        forall|i: int| 0 <= i < na.len() ==> (#[trigger] na[i]).gpus.len() == nb[i].gpus.len(),
        same_but_holders(flat_gpus(nb), flat_gpus(na)),
    ensures
        flat_gpus(na).len() == flat_gpus(nb).len(),
        forall|i: int| 0 <= i < na.len() ==> same_but_holders((#[trigger] nb[i]).gpus, na[i].gpus),
    decreases na.len(),
{
    if na.len() > 0 {
        let da = na.drop_last();
        let db = nb.drop_last();
        lemma_flat_len_same(da, db);
        assert(flat_gpus(na) == flat_gpus(da) + na.last().gpus);
        assert(flat_gpus(nb) == flat_gpus(db) + nb.last().gpus);
        assert(na.last() == na[na.len() - 1] && nb.last() == nb[nb.len() - 1]);
        lemma_same_concat(flat_gpus(db), nb.last().gpus, flat_gpus(da), na.last().gpus);
        assert forall|i: int| 0 <= i < da.len() implies (#[trigger] da[i]).gpus.len() == db[i].gpus.len() by {
            assert(da[i] == na[i] && db[i] == nb[i]);
        }
        lemma_nodes_same(da, db);
        assert forall|i: int| 0 <= i < na.len() implies same_but_holders((#[trigger] nb[i]).gpus, na[i].gpus) by {
            if i < da.len() {
                assert(da[i] == na[i] && db[i] == nb[i]);
            }
        }
    }
}

proof fn lemma_flat_len_same(na: Seq<NodeView>, nb: Seq<NodeView>)
    requires
        na.len() == nb.len(),
        forall|i: int| 0 <= i < na.len() ==> (#[trigger] na[i]).gpus.len() == nb[i].gpus.len(),
    ensures
        flat_gpus(na).len() == flat_gpus(nb).len(),
    decreases na.len(),
{
    if na.len() > 0 {
        let da = na.drop_last();
        let db = nb.drop_last();
        assert forall|i: int| 0 <= i < da.len() implies (#[trigger] da[i]).gpus.len() == db[i].gpus.len() by {
            assert(da[i] == na[i] && db[i] == nb[i]);
        }
        lemma_flat_len_same(da, db);
        assert(na.last() == na[na.len() - 1] && nb.last() == nb[nb.len() - 1]);
    }
}

/// Changing only holders keeps nodes well named.
proof fn lemma_named_kept(a: Cluster, b: Cluster)
    requires
        b.same_shape(a),
        same_but_holders(b.gpu_views(), a.gpu_views()),
        nodes_well_named(node_views(a.nodes@)),
    ensures
        nodes_well_named(node_views(b.nodes@)),
{
    let na = node_views(a.nodes@);
    let nb = node_views(b.nodes@);
    assert(b.nodes@.len() == a.nodes@.len());
    assert(na.len() == a.nodes@.len() && nb.len() == b.nodes@.len());
    assert forall|i: int| 0 <= i < na.len() implies (#[trigger] na[i]).gpus.len() == nb[i].gpus.len() by {
        assert(0 <= i < b.nodes@.len());
        assert(b.nodes@[i].id == a.nodes@[i].id);
        assert(b.nodes@[i].gpus@.len() == a.nodes@[i].gpus@.len());
        assert(na[i] == a.nodes@[i]@ && nb[i] == b.nodes@[i]@);
    }
    lemma_nodes_same(na, nb);
    assert forall|i: int| 0 <= i < nb.len() implies crate::resource::all_on((#[trigger] nb[i]).gpus, nb[i].id@) by {
        assert(b.nodes@[i].id == a.nodes@[i].id);
        assert(na[i] == a.nodes@[i]@ && nb[i] == b.nodes@[i]@);
        assert(same_but_holders(nb[i].gpus, na[i].gpus));
        assert(crate::resource::all_on(na[i].gpus, na[i].id@));
        assert forall|t: int| 0 <= t < nb[i].gpus.len() implies (#[trigger] nb[i].gpus[t]).node_id@ == nb[i].id@ by {
            assert(nb[i].gpus[t] == (GpuView { running_job_id: nb[i].gpus[t].running_job_id, slices: nb[i].gpus[t].slices, ..na[i].gpus[t] }));
        }
    }
    assert forall|i: int, k: int| 0 <= i < k < nb.len() implies (#[trigger] nb[i]).id@ != (#[trigger] nb[k]).id@ by {
        assert(b.nodes@[i].id == a.nodes@[i].id);
        assert(b.nodes@[k].id == a.nodes@[k].id);
        assert(na[i] == a.nodes@[i]@ && nb[i] == b.nodes@[i]@);
        assert(na[k] == a.nodes@[k]@ && nb[k] == b.nodes@[k]@);
        assert(na[i].id@ != na[k].id@);
    }
}


/// No MIG slice of `gv` carries the id of a GPU of `gv`.
pub open spec fn slices_apart(gv: Seq<GpuView>) -> bool {
    forall|t: int, k: int, i: int|
        0 <= t < gv.len() && 0 <= k < gv[t].slices.len() && 0 <= i < gv.len() ==> (#[trigger] gv[t].slices[k]).id@
            != (#[trigger] gv[i]).id@
}

/// `id` names a GPU of `gv` that is free as a whole, and no MIG slice.
pub open spec fn whole_free_gpu(gv: Seq<GpuView>, id: Seq<char>) -> bool {
    let p = gpu_index(gv, id);
    &&& p >= 0
    &&& gv[p].whole_free()
    &&& loc(gv, id) == (p, -1int)
}

/// A pass over whole-GPU jobs that started from `c0` stands at `c`, having handed
/// out the resources `ids`: distinct GPUs free at the start, now held; every
/// other slot as at the start.
pub open spec fn pass_state(c0: Cluster, c: Cluster, ids: Seq<Seq<char>>) -> bool {
    &&& same_but_holders(c.gpu_views(), c0.gpu_views())
    &&& c.same_shape(c0)
    &&& c == Cluster { nodes: c.nodes, topology_penalties: c.topology_penalties, ..c0 }
    &&& (nodes_well_named(node_views(c0.nodes@)) ==> nodes_well_named(node_views(c.nodes@)))
    &&& ids.no_duplicates()
    &&& forall|j: int| 0 <= j < ids.len() ==> whole_free_gpu(c0.gpu_views(), #[trigger] ids[j])
    &&& forall|i: int, k: int|
        valid_slot(c0.gpu_views(), i, k) ==> (writes(c0.gpu_views(), ids, i, k) ==> #[trigger] hold(c.gpu_views(), i, k) is Some)
            && (!writes(c0.gpu_views(), ids, i, k) ==> hold(c.gpu_views(), i, k) == hold(c0.gpu_views(), i, k))
}

proof fn lemma_gpu_index_at(gv: Seq<GpuView>, p: int)
    requires
        ids_distinct(gv),
        0 <= p < gv.len(),
    ensures
        gpu_index(gv, gv[p].id@) == p,
    decreases gv.len(),
{
    let d = gv.drop_last();
    assert forall|i: int, k: int| 0 <= i < k < d.len() implies (#[trigger] d[i]).id@ != (#[trigger] d[k]).id@ by {
        assert(d[i] == gv[i] && d[k] == gv[k]);
    }
    if p < gv.len() - 1 {
        assert(d[p] == gv[p]);
        lemma_gpu_index_at(d, p);
    } else {
        lemma_index_bounds(d, gv[p].id@);
        let q = gpu_index(d, gv[p].id@);
        if q >= 0 {
            assert(d[q] == gv[q]);
            assert(gv[q].id@ != gv[p].id@);
        }
        assert(gv.last() == gv[p]);
    }
}

proof fn lemma_gpu_named(gv: Seq<GpuView>, p: int)
    requires
        ids_distinct(gv),
        slices_apart(gv),
        0 <= p < gv.len(),
    ensures
        loc(gv, gv[p].id@) == (p, -1int),
{
    let x = gv[p].id@;
    lemma_gpu_index_at(gv, p);
    lemma_index_bounds(gv, x);
    let o = slice_owner(gv, x);
    if o >= 0 {
        lemma_slice_index_bounds(gv[o].slices, x);
        let k = slice_index(gv[o].slices, x);
        assert(gv[o].slices[k].id@ != gv[p].id@);
    }
}

proof fn lemma_same_ids(a: Seq<GpuView>, b: Seq<GpuView>)
    requires
        same_but_holders(a, b),
    ensures
        forall|i: int| 0 <= i < a.len() ==> (#[trigger] a[i]).id == b[i].id && a[i].slices.len() == b[i].slices.len(),
        forall|i: int, k: int| 0 <= i < a.len() && 0 <= k < a[i].slices.len() ==> (#[trigger] a[i].slices[k]).id == b[i].slices[k].id,
        ids_distinct(b) ==> ids_distinct(a),
        slices_apart(b) ==> slices_apart(a),
{
    assert forall|i: int| 0 <= i < a.len() implies (#[trigger] a[i]).id == b[i].id && a[i].slices.len() == b[i].slices.len() by {
        assert(a[i] == (GpuView { running_job_id: a[i].running_job_id, slices: a[i].slices, ..b[i] }));
    }
    assert forall|i: int, k: int| 0 <= i < a.len() && 0 <= k < a[i].slices.len() implies (#[trigger] a[i].slices[k]).id
        == b[i].slices[k].id by {
        assert(a[i].slices[k] == (crate::model::MigSlice { running_job_id: a[i].slices[k].running_job_id, ..b[i].slices[k] }));
    }
    if ids_distinct(b) {
        assert forall|i: int, k: int| 0 <= i < k < a.len() implies (#[trigger] a[i]).id@ != (#[trigger] a[k]).id@ by {
            assert(b[i].id@ != b[k].id@);
        }
    }
    if slices_apart(b) {
        assert forall|t: int, k: int, i: int|
            0 <= t < a.len() && 0 <= k < a[t].slices.len() && 0 <= i < a.len() implies (#[trigger] a[t].slices[k]).id@
            != (#[trigger] a[i]).id@ by {
            assert(b[t].slices[k].id@ != b[i].id@);
        }
    }
}

proof fn lemma_pass_start(c0: Cluster)
    ensures
        pass_state(c0, c0, Seq::empty()),
{
    lemma_same_refl(c0.gpu_views());
    assert forall|i: int| 0 <= i < c0.nodes@.len() implies #[trigger] c0.nodes@[i].id == c0.nodes@[i].id
        && c0.nodes@[i].gpus@.len() == c0.nodes@[i].gpus@.len() by {}
}

proof fn lemma_pass_step(
    rm: ResourceManager,
    c0: Cluster,
    cm: Cluster,
    j: Job,
    c1: Cluster,
    pm: Seq<Placement>,
    ps: Seq<Placement>,
)
    requires
        !j.spec_is_mig_job(),
        ids_distinct(c0.gpu_views()),
        slices_apart(c0.gpu_views()),
        spec_gang_nodes_needed(j) is Some ==> nodes_well_named(node_views(c0.nodes@)),
        pass_state(c0, cm, flat_ids(pm)),
        place_step(rm, cm, j, c1, pm, ps),
    ensures
        pass_state(c0, c1, flat_ids(ps)),
{
    let gv0 = c0.gpu_views();
    let gvm = cm.gpu_views();
    if rm.spec_can_place(cm, j) {
        let (ca, r) = choose|ca: Cluster, r: Result<Placement, SimError>|
            #[trigger] allocation(rm, cm, ca, j, r) && match r {
                Ok(pl) => holders_set(ca, c1, strs(pl.gpu_ids@), Some(j.id)) && ps == pm.push(pl),
                Err(_) => c1 == ca && ps == pm,
            };
        match r {
            Ok(pl) => {
                let gs = (whole_choice(rm.gpu_selection, cm, j)->0).0;
                lemma_same_ids(gvm, gv0);
                law_whole_ids_distinct(rm.gpu_selection, cm, j);
                let old_ids = flat_ids(pm);
                let new_ids = strs(pl.gpu_ids@);
                assert(new_ids == crate::seqs::gpu_ids(gs));
                assert(ca.gpu_views() == gvm);
                let gv1 = c1.gpu_views();
                lemma_set_resources(gvm, new_ids, Some(j.id));
                lemma_same_trans(gv1, gvm, gv0);
                assert(ps.drop_last() == pm && ps.last() == pl);
                assert(flat_ids(ps) == old_ids + new_ids);
                // Each new id names a GPU that was free at the start and not handed out before.
                assert forall|m: int| 0 <= m < new_ids.len() implies whole_free_gpu(gv0, #[trigger] new_ids[m])
                    && !old_ids.contains(new_ids[m]) by {
                    assert(new_ids[m] == gs[m].id@);
                    assert(gvm.contains(gs[m]));
                    let p = choose|p: int| 0 <= p < gvm.len() && gvm[p] == gs[m];
                    assert(gvm[p].id == gv0[p].id);
                    lemma_gpu_index_at(gv0, p);
                    lemma_gpu_named(gv0, p);
                    assert(valid_slot(gv0, p, -1));
                    assert(hold(gvm, p, -1) is None);
                    if writes(gv0, old_ids, p, -1) {
                        assert(false);
                    }
                    assert(gv0[p].slices.len() == gvm[p].slices.len());
                    if old_ids.contains(new_ids[m]) {
                        let q = choose|q: int| 0 <= q < old_ids.len() && old_ids[q] == new_ids[m];
                        assert(loc(gv0, old_ids[q]) == (p, -1int));
                        assert(writes(gv0, old_ids, p, -1));
                    }
                }
                vstd::seq_lib::lemma_no_dup_in_concat(old_ids, new_ids);
                assert forall|q: int| 0 <= q < flat_ids(ps).len() implies whole_free_gpu(gv0, #[trigger] flat_ids(ps)[q]) by {
                    if q < old_ids.len() {
                        assert(flat_ids(ps)[q] == old_ids[q]);
                    } else {
                        assert(flat_ids(ps)[q] == new_ids[q - old_ids.len()]);
                    }
                }
                lemma_writes_same(gvm, gv0, new_ids);
                assert forall|i: int, k: int| valid_slot(gv0, i, k) implies (writes(gv0, flat_ids(ps), i, k) ==> #[trigger] hold(
                    gv1,
                    i,
                    k,
                ) is Some) && (!writes(gv0, flat_ids(ps), i, k) ==> hold(gv1, i, k) == hold(gv0, i, k)) by {
                    assert(valid_slot(gvm, i, k));
                    let all = flat_ids(ps);
                    if writes(gv0, old_ids, i, k) {
                        let q = choose|q: int| 0 <= q < old_ids.len() && #[trigger] loc(gv0, old_ids[q]) == (i, k);
                        assert(all[q] == old_ids[q]);
                    }
                    if writes(gv0, new_ids, i, k) {
                        let q = choose|q: int| 0 <= q < new_ids.len() && #[trigger] loc(gv0, new_ids[q]) == (i, k);
                        assert(all[old_ids.len() + q] == new_ids[q]);
                    }
                    if writes(gv0, all, i, k) {
                        let q = choose|q: int| 0 <= q < all.len() && #[trigger] loc(gv0, all[q]) == (i, k);
                        if q < old_ids.len() {
                            assert(all[q] == old_ids[q]);
                        } else {
                            assert(all[q] == new_ids[q - old_ids.len()]);
                        }
                    }
                }
                assert(c1.nodes@.len() == ca.nodes@.len() && cm.nodes@.len() == c0.nodes@.len());
                assert forall|i: int| 0 <= i < c1.nodes@.len() implies #[trigger] c1.nodes@[i].id == c0.nodes@[i].id
                    && c1.nodes@[i].gpus@.len() == c0.nodes@[i].gpus@.len() by {
                    assert(c1.nodes@[i].id == ca.nodes@[i].id);
                    assert(c1.nodes@[i].gpus@.len() == ca.nodes@[i].gpus@.len());
                    assert(cm.nodes@[i].id == c0.nodes@[i].id);
                    assert(cm.nodes@[i].gpus@.len() == c0.nodes@[i].gpus@.len());
                }
                assert(c1.same_shape(c0));
                if nodes_well_named(node_views(c0.nodes@)) {
                    lemma_named_kept(c0, c1);
                }
                assert(same_but_holders(c1.gpu_views(), c0.gpu_views()));
                assert(c1 == Cluster { nodes: c1.nodes, topology_penalties: c1.topology_penalties, ..c0 });
                assert(flat_ids(ps).no_duplicates());
            },
            Err(_) => {},
        }
    }
}

proof fn lemma_pass_run(rm: ResourceManager, c0: Cluster, js: Seq<Job>, c1: Cluster, ps: Seq<Placement>)
    requires
        forall|i: int| 0 <= i < js.len() ==> !(#[trigger] js[i]).spec_is_mig_job(),
        forall|i: int| 0 <= i < js.len() ==> spec_gang_nodes_needed(#[trigger] js[i]) is Some ==> nodes_well_named(
            node_views(c0.nodes@),
        ),
        ids_distinct(c0.gpu_views()),
        slices_apart(c0.gpu_views()),
        place_run(rm, c0, js, c1, ps),
    ensures
        pass_state(c0, c1, flat_ids(ps)),
    decreases js.len(),
{
    if js.len() == 0 {
        lemma_pass_start(c0);
        assert(flat_ids(ps) == Seq::<Seq<char>>::empty());
    } else {
        let (cm, pm) = choose|cm: Cluster, pm: Seq<Placement>|
            place_run(rm, c0, js.drop_last(), cm, pm) && #[trigger] place_step(rm, cm, js.last(), c1, pm, ps);
        let d = js.drop_last();
        assert forall|i: int| 0 <= i < d.len() implies !(#[trigger] d[i]).spec_is_mig_job() by {
            assert(d[i] == js[i]);
        }
        assert forall|i: int| 0 <= i < d.len() && spec_gang_nodes_needed(#[trigger] d[i]) is Some implies nodes_well_named(
            node_views(c0.nodes@),
        ) by {
            assert(d[i] == js[i]);
        }
        lemma_pass_run(rm, c0, d, cm, pm);
        assert(js.last() == js[js.len() - 1]);
        lemma_pass_step(rm, c0, cm, js.last(), c1, pm, ps);
    }
}

/// A pass over whole-GPU jobs, in a cluster where no two GPUs share an id and no
/// MIG slice carries a GPU's id (and, when a gang job is among them, nodes have
/// distinct ids and their GPUs carry their node's id): the placements name
/// distinct GPUs, each free as a whole before the pass, so no two placements
/// share a GPU; and once the marks are released every GPU is exactly as before.
pub proof fn law_whole_pass(rm: ResourceManager, c0: Cluster, js: Seq<Job>, c1: Cluster, ps: Seq<Placement>, fin: Cluster)
    requires
        forall|i: int| 0 <= i < js.len() ==> !(#[trigger] js[i]).spec_is_mig_job(),
        forall|i: int| 0 <= i < js.len() ==> spec_gang_nodes_needed(#[trigger] js[i]) is Some ==> nodes_well_named(
            node_views(c0.nodes@),
        ),
        ids_distinct(c0.gpu_views()),
        slices_apart(c0.gpu_views()),
        place_run(rm, c0, js, c1, ps),
        holders_set(c1, fin, flat_ids(ps), None),
    ensures
        flat_ids(ps).no_duplicates(),
        forall|q: int| 0 <= q < flat_ids(ps).len() ==> whole_free_gpu(c0.gpu_views(), #[trigger] flat_ids(ps)[q]),
        fin.gpu_views() == c0.gpu_views(),
{
    lemma_pass_run(rm, c0, js, c1, ps);
    let gv0 = c0.gpu_views();
    let gv1 = c1.gpu_views();
    let gvf = fin.gpu_views();
    let all = flat_ids(ps);
    lemma_set_resources(gv1, all, None);
    lemma_same_trans(gvf, gv1, gv0);
    lemma_writes_same(gv1, gv0, all);
    lemma_same_ids(gv1, gv0);
    assert forall|i: int, k: int| valid_slot(gv0, i, k) implies #[trigger] hold(gvf, i, k) == hold(gv0, i, k) by {
        assert(valid_slot(gv1, i, k));
        if writes(gv0, all, i, k) {
            let q = choose|q: int| 0 <= q < all.len() && #[trigger] loc(gv0, all[q]) == (i, k);
            assert(whole_free_gpu(gv0, all[q]));
        }
    }
    lemma_same_holders_equal(gvf, gv0);
}

} // verus!
