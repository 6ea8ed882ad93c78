//! Priority scheduling with preemption: a waiting job that does not fit may evict
//! lower-priority running jobs, lowest priority first, until it fits.

use vstd::prelude::*;

use crate::cluster::Cluster;
use crate::decision::SchedulerDecision;
use crate::job::{requeued, sat_add_u32, sat_add_u32_exec, Job};
use crate::lifecycle::{by_priority, set_resources};
use crate::holders::{
    hold, lemma_same_holders_equal, lemma_same_refl, lemma_same_trans, lemma_set_resources, lemma_writes_same, same_but_holders,
    valid_slot, writes,
};
use crate::model::{copy_strings, GpuView, Placement};
use crate::resource::ResourceManager;
use crate::scheduler::{flat_ids, holders_set, job_views, place_step, release_marks, take_queue, with_queue, Scheduler};
use crate::seqs::strs;
use crate::sort::{
    lemma_sort_forall, lemma_sort_len, lemma_sort_multiset, lemma_sort_sorted, lemma_str_le_total,
    lemma_str_le_trans, sort_by_rank, sort_ranked, str_le, string_le, Ranked,
};
use crate::strmap::{entries_after_insert, key_index, keys_unique, lemma_key_index, lemma_lookup_insert, lemma_lookup_remove, lookup_in};
use crate::text::{decimal, push_decimal, push_str};

verus! {

/// A running job preempted this many times is not preempted again, so that a
/// low-priority job still finishes eventually.
pub const MAX_PREEMPTIONS: u32 = 3;

/// Both jobs name the same tenant, or neither names one.
pub open spec fn same_tenant(a: Option<String>, b: Option<String>) -> bool {
    match (a, b) {
        (Some(x), Some(y)) => x@ == y@,
        (None, None) => true,
        _ => false,
    }
}

/// Running job `r` may be evicted for waiting job `j`: lower priority, not yet
/// preempted too often, and (when preemption respects quotas and `j` has a
/// tenant) of the same tenant.
pub open spec fn may_evict(r: Job, j: Job, quota_aware: bool) -> bool {
    &&& r.priority < j.priority
    &&& r.preemption_count < MAX_PREEMPTIONS
    &&& (!quota_aware || j.tenant is None || same_tenant(r.tenant, j.tenant))
}

/// Eviction order: lowest priority first, ties by job id in byte order.
pub struct VictimKey {
    pub priority: u32,
    pub id: String,
}

impl Ranked for VictimKey {
    open spec fn rank_le(&self, other: &Self) -> bool {
        self.priority < other.priority || (self.priority == other.priority && str_le(self.id@, other.id@))
    }

    fn le(&self, other: &Self) -> (r: bool) {
        if self.priority != other.priority {
            self.priority < other.priority
        } else {
            string_le(&self.id, &other.id)
        }
    }
}

/// Eviction candidates among running entries `e`, keyed for ordering.
pub open spec fn victim_pairs(e: Seq<(String, Job)>, j: Job, quota_aware: bool) -> Seq<(VictimKey, String)>
    decreases e.len(),
{
    if e.len() == 0 {
        Seq::empty()
    } else {
        let d = victim_pairs(e.drop_last(), j, quota_aware);
        let r = e.last().1;
        if may_evict(r, j, quota_aware) {
            d.push((VictimKey { priority: r.priority, id: r.id }, r.id))
        } else {
            d
        }
    }
}

/// Ids of the running jobs that may be evicted for `j`, in eviction order.
pub open spec fn victim_order(c: Cluster, j: Job, quota_aware: bool) -> Seq<String> {
    sort_ranked(victim_pairs(c.running_jobs.entries@, j, quota_aware)).map_values(|p: (VictimKey, String)| p.1)
}

/// Evicting running job `id` from `a` gives `b`; an evicted job is appended to the victims.
pub open spec fn evicted(a: Cluster, id: String, b: Cluster, vm: Seq<Job>, vs: Seq<Job>) -> bool {
    match a.running_jobs.lookup(id@) {
        None => b == a && vs == vm,
        Some(v) => {
            &&& vs == vm.push(v)
            &&& b.running_jobs.entries@ == a.running_jobs.entries@.remove(key_index(a.running_jobs.entries@, id@))
            &&& b.gpu_views() == set_resources(a.gpu_views(), strs(v.assigned_gpus@), None)
            &&& b.same_shape(a)
            &&& b == Cluster { nodes: b.nodes, running_jobs: b.running_jobs, ..a }
        },
    }
}

/// One candidate of a scan: once the job fits nothing more happens; before,
/// the candidate is evicted and the fit checked again.
pub open spec fn scan_step(
    rm: ResourceManager,
    j: Job,
    cm: Cluster,
    vm: Seq<Job>,
    fm: bool,
    id: String,
    c1: Cluster,
    vs: Seq<Job>,
    found: bool,
) -> bool {
    if fm {
        c1 == cm && vs == vm && found
    } else {
        evicted(cm, id, c1, vm, vs) && found == rm.spec_can_place(c1, j)
    }
}

/// Evicting `ids` in order from `c0` until `j` fits: the cluster `c1` then, the
/// evicted jobs `vs`, and whether `j` fits.
pub open spec fn eviction_scan(
    rm: ResourceManager,
    j: Job,
    c0: Cluster,
    ids: Seq<String>,
    c1: Cluster,
    vs: Seq<Job>,
    found: bool,
) -> bool
    decreases ids.len(),
{
    if ids.len() == 0 {
        c1 == c0 && vs == Seq::<Job>::empty() && !found
    } else {
        exists|cm: Cluster, vm: Seq<Job>, fm: bool|
            eviction_scan(rm, j, c0, ids.drop_last(), cm, vm, fm) && #[trigger] scan_step(
                rm,
                j,
                cm,
                vm,
                fm,
                ids.last(),
                c1,
                vs,
                found,
            )
    }
}

/// Message of a preemption decision.
pub open spec fn preempt_message(victim: Seq<char>, priority: u32, job: Seq<char>) -> Seq<char> {
    "Preempted '"@ + victim + "' (priority "@ + decimal(priority as nat) + ") for '"@ + job + "'"@
}

/// Decision `d` records that `v` was preempted at `at` for job `job_name`.
pub open spec fn preempted_decision(d: SchedulerDecision, v: Job, at: u64, job_name: String) -> bool {
    &&& d.time == at
    &&& d.kind@ == "job_preempted"@
    &&& d.job_id matches Some(i) && i@ == v.id@
    &&& d.job_name matches Some(n) && n@ == v.name@
    &&& d.gpu_ids@ == v.assigned_gpus@
    &&& d.message@ == preempt_message(v.name@, v.priority, job_name@)
}

/// Requeueing evicted job `v` of `a` at the cluster clock gives `b`.
pub open spec fn requeue_step(a: Cluster, v: Job, job_name: String, b: Cluster) -> bool {
    let at = a.clock;
    let w = requeued(v@, at);
    let rearm = w.gang_enabled && w.gang_deadline is Some;
    &&& b.waiting_queue@.len() == a.waiting_queue@.len() + 1
    &&& b.waiting_queue@.drop_last() == a.waiting_queue@
    &&& b.waiting_queue@.last()@ == w
    &&& b.total_preemptions == sat_add_u32(a.total_preemptions, 1)
    &&& b.gang_timeout_rearm_ids@ == if rearm {
        a.gang_timeout_rearm_ids@.push(v.id)
    } else {
        a.gang_timeout_rearm_ids@
    }
    &&& b.decision_log@.len() == a.decision_log@.len() + 1
    &&& b.decision_log@.drop_last() == a.decision_log@
    &&& preempted_decision(b.decision_log@.last(), v, at, job_name)
    &&& b.queue_max_length == if a.queue_max_length >= b.waiting_queue@.len() {
        a.queue_max_length as int
    } else {
        b.waiting_queue@.len() as int
    }
    &&& b == Cluster {
        waiting_queue: b.waiting_queue,
        total_preemptions: b.total_preemptions,
        gang_timeout_rearm_ids: b.gang_timeout_rearm_ids,
        decision_log: b.decision_log,
        queue_max_length: b.queue_max_length,
        ..a
    }
}

/// Requeueing all of `vs`, in order.
pub open spec fn requeue_all(a: Cluster, vs: Seq<Job>, job_name: String, b: Cluster) -> bool
    decreases vs.len(),
{
    if vs.len() == 0 {
        b == a
    } else {
        exists|cm: Cluster| requeue_all(a, vs.drop_last(), job_name, cm) && #[trigger] requeue_step(cm, vs.last(), job_name, b)
    }
}

/// Putting evicted job `v` back on its resources and among the running jobs.
pub open spec fn resumed(a: Cluster, v: Job, b: Cluster) -> bool {
    &&& b.gpu_views() == set_resources(a.gpu_views(), strs(v.assigned_gpus@), Some(v.id))
    &&& b.same_shape(a)
    &&& b.running_jobs.entries@ == entries_after_insert(a.running_jobs.entries@, v.id, v)
    &&& b == Cluster { nodes: b.nodes, running_jobs: b.running_jobs, ..a }
}

/// Resuming all of `vs`, in order.
pub open spec fn restore_all(a: Cluster, vs: Seq<Job>, b: Cluster) -> bool
    decreases vs.len(),
{
    if vs.len() == 0 {
        b == a
    } else {
        exists|cm: Cluster| restore_all(a, vs.drop_last(), cm) && #[trigger] resumed(cm, vs.last(), b)
    }
}

/// What a preemption attempt for `j` does on `c0`: evict candidates in order
/// until `j` fits; if it does, requeue the evicted jobs, otherwise put them back.
pub open spec fn preemption(rm: ResourceManager, quota_aware: bool, c0: Cluster, j: Job, c1: Cluster, ok: bool) -> bool {
    exists|cs: Cluster, vs: Seq<Job>|
        #[trigger] eviction_scan(rm, j, c0, victim_order(c0, j, quota_aware), cs, vs, ok) && if ok {
            requeue_all(cs, vs, j.name, c1)
        } else {
            restore_all(cs, vs, c1)
        }
}

/// One job of a preemptive pass: placed if it fits; otherwise, for a whole-GPU
/// job, a preemption attempt, and after a successful one a second placement.
pub open spec fn preempt_step(
    rm: ResourceManager,
    quota_aware: bool,
    c0: Cluster,
    j: Job,
    c1: Cluster,
    p0: Seq<Placement>,
    p1: Seq<Placement>,
) -> bool {
    exists|ca: Cluster, pa: Seq<Placement>|
        #[trigger] place_step(rm, c0, j, ca, p0, pa) && if pa.len() > p0.len() || j.spec_is_mig_job() {
            c1 == ca && p1 == pa
        } else {
            exists|cp: Cluster, ok: bool|
                #[trigger] preemption(rm, quota_aware, ca, j, cp, ok) && if ok {
                    place_step(rm, cp, j, c1, pa, p1)
                } else {
                    c1 == cp && p1 == pa
                }
        }
}

/// A preemptive pass over `js` in order.
pub open spec fn preempt_run(
    rm: ResourceManager,
    quota_aware: bool,
    c0: Cluster,
    js: Seq<Job>,
    c1: Cluster,
    ps: Seq<Placement>,
) -> bool
    decreases js.len(),
{
    if js.len() == 0 {
        c1 == c0 && ps == Seq::<Placement>::empty()
    } else {
        exists|cm: Cluster, pm: Seq<Placement>|
            preempt_run(rm, quota_aware, c0, js.drop_last(), cm, pm) && #[trigger] preempt_step(
                rm,
                quota_aware,
                cm,
                js.last(),
                c1,
                pm,
                ps,
            )
    }
}

/// A whole preemptive scheduling pass from `c0` to `c1` with placements `ps`: the
/// waiting queue is ordered by priority and replaced by copies, then each job is
/// handled in that order, and the resources of the placements are free again.
pub open spec fn preemptive_pass(rm: ResourceManager, quota_aware: bool, c0: Cluster, c1: Cluster, ps: Seq<Placement>) -> bool {
    exists|cs: Cluster, cm: Cluster|
        #[trigger] preempt_run(rm, quota_aware, cs, by_priority(c0.waiting_queue@), cm, ps)
            && cs == with_queue(c0, cs.waiting_queue)
            && job_views(cs.waiting_queue@) == job_views(by_priority(c0.waiting_queue@))
            && holders_set(cm, c1, flat_ids(ps), None)
}

/// Entry `k` of running entries `e` holds a job with id `id` that may be evicted for `j`.
pub open spec fn victim_entry(e: Seq<(String, Job)>, id: String, j: Job, quota_aware: bool, k: int) -> bool {
    &&& 0 <= k < e.len()
    &&& e[k].1.id == id
    &&& may_evict(e[k].1, j, quota_aware)
}

/// Pair `p` of `victim_pairs(e, ..)` comes from an entry that may be evicted, keyed by its job.
spec fn keyed_victim(e: Seq<(String, Job)>, j: Job, quota_aware: bool, p: (VictimKey, String)) -> bool {
    exists|k: int|
        victim_entry(e, p.1, j, quota_aware, k) && p.0 == (VictimKey { priority: e[k].1.priority, id: e[k].1.id })
}

proof fn lemma_victim_pairs(e: Seq<(String, Job)>, j: Job, quota_aware: bool)
    ensures
        forall|i: int|
            0 <= i < victim_pairs(e, j, quota_aware).len() ==> keyed_victim(
                e,
                j,
                quota_aware,
                #[trigger] victim_pairs(e, j, quota_aware)[i],
            ),
        forall|k: int|
            0 <= k < e.len() && may_evict(#[trigger] e[k].1, j, quota_aware) ==> victim_pairs(
                e,
                j,
                quota_aware,
            ).map_values(|p: (VictimKey, String)| p.1).contains(e[k].1.id),
    decreases e.len(),
{
    let vp = victim_pairs(e, j, quota_aware);
    let second = |p: (VictimKey, String)| p.1;
    if e.len() > 0 {
        let d = e.drop_last();
        let vd = victim_pairs(d, j, quota_aware);
        lemma_victim_pairs(d, j, quota_aware);
        assert forall|i: int| 0 <= i < vp.len() implies keyed_victim(e, j, quota_aware, #[trigger] vp[i]) by {
            if i < vd.len() {
                let k = choose|k: int|
                    victim_entry(d, vd[i].1, j, quota_aware, k) && vd[i].0 == (VictimKey {
                        priority: d[k].1.priority,
                        id: d[k].1.id,
                    });
                assert(victim_entry(e, vp[i].1, j, quota_aware, k));
            } else {
                assert(victim_entry(e, vp[i].1, j, quota_aware, e.len() - 1));
            }
        }
        assert forall|k: int| 0 <= k < e.len() && may_evict(#[trigger] e[k].1, j, quota_aware) implies vp.map_values(
            second,
        ).contains(e[k].1.id) by {
            if k < d.len() {
                assert(d[k] == e[k]);
                let w = choose|w: int| 0 <= w < vd.map_values(second).len() && vd.map_values(second)[w] == e[k].1.id;
                assert(vp.map_values(second)[w] == e[k].1.id);
            } else {
                assert(vp.map_values(second)[vp.len() - 1] == e[k].1.id);
            }
        }
    }
}

/// `id` is the id of a running job of `c` that may be evicted for `j`.
pub open spec fn is_victim(c: Cluster, j: Job, quota_aware: bool, id: String) -> bool {
    exists|k: int| #[trigger] victim_entry(c.running_jobs.entries@, id, j, quota_aware, k)
}

/// Running jobs `a` and `b` of `c` may both be evicted for `j`, and `a` comes
/// first in eviction order: lower priority, or equal priority and a smaller id.
pub open spec fn evicted_before(c: Cluster, j: Job, quota_aware: bool, a: String, b: String) -> bool {
    exists|k: int, k2: int|
        #![trigger victim_entry(c.running_jobs.entries@, a, j, quota_aware, k), victim_entry(c.running_jobs.entries@, b, j, quota_aware, k2)]
        victim_entry(c.running_jobs.entries@, a, j, quota_aware, k) && victim_entry(
            c.running_jobs.entries@,
            b,
            j,
            quota_aware,
            k2,
        ) && (c.running_jobs.entries@[k].1.priority < c.running_jobs.entries@[k2].1.priority || (
        c.running_jobs.entries@[k].1.priority == c.running_jobs.entries@[k2].1.priority && str_le(a@, b@)))
}

/// A preemption attempt for `j` considers exactly the running jobs that may be
/// evicted for it: of lower priority, preempted fewer than `MAX_PREEMPTIONS`
/// times, and of the same tenant when preemption respects quotas. It takes them
/// lowest priority first, ties by job id.
pub proof fn law_victim_order(c: Cluster, j: Job, quota_aware: bool)
    ensures
        forall|i: int|
            0 <= i < victim_order(c, j, quota_aware).len() ==> is_victim(
                c,
                j,
                quota_aware,
                #[trigger] victim_order(c, j, quota_aware)[i],
            ),
        forall|k: int|
            0 <= k < c.running_jobs.entries@.len() && may_evict(#[trigger] c.running_jobs.entries@[k].1, j, quota_aware)
                ==> victim_order(c, j, quota_aware).contains(c.running_jobs.entries@[k].1.id),
        forall|i: int, i2: int|
            0 <= i < i2 < victim_order(c, j, quota_aware).len() ==> evicted_before(
                c,
                j,
                quota_aware,
                #[trigger] victim_order(c, j, quota_aware)[i],
                #[trigger] victim_order(c, j, quota_aware)[i2],
            ),
{
    broadcast use vstd::seq_lib::group_to_multiset_ensures;

    let e = c.running_jobs.entries@;
    let vp = victim_pairs(e, j, quota_aware);
    let sorted = sort_ranked(vp);
    let vo = victim_order(c, j, quota_aware);
    let second = |p: (VictimKey, String)| p.1;
    lemma_victim_pairs(e, j, quota_aware);
    lemma_sort_len(vp);
    let kv = |p: (VictimKey, String)| keyed_victim(e, j, quota_aware, p);
    assert forall|i: int| 0 <= i < vp.len() implies kv(#[trigger] vp[i]) by {}
    lemma_sort_forall(vp, kv);
    assert forall|a: VictimKey, b: VictimKey| #[trigger] a.rank_le(&b) || #[trigger] b.rank_le(&a) by {
        lemma_str_le_total(a.id@, b.id@);
    }
    assert forall|a: VictimKey, b: VictimKey, x: VictimKey| #[trigger] a.rank_le(&b) && #[trigger] b.rank_le(&x) implies a.rank_le(&x) by {
        if a.priority == b.priority && b.priority == x.priority {
            lemma_str_le_trans(a.id@, b.id@, x.id@);
        }
    }
    lemma_sort_sorted(vp);
    assert(sorted.map_values(second) == vo);
    assert forall|i: int| 0 <= i < vo.len() implies is_victim(c, j, quota_aware, #[trigger] vo[i]) by {
        assert(kv(sorted[i]));
        let k = choose|k: int|
            victim_entry(e, sorted[i].1, j, quota_aware, k) && sorted[i].0 == (VictimKey {
                priority: e[k].1.priority,
                id: e[k].1.id,
            });
        assert(victim_entry(e, vo[i], j, quota_aware, k));
    }
    lemma_sort_multiset(vp, second);
    assert forall|k: int| 0 <= k < e.len() && may_evict(#[trigger] e[k].1, j, quota_aware) implies vo.contains(e[k].1.id) by {
        assert(vp.map_values(second).contains(e[k].1.id));
        assert(vp.map_values(second).to_multiset().count(e[k].1.id) > 0);
        assert(vo.to_multiset().count(e[k].1.id) > 0);
    }
    assert forall|i: int, i2: int| 0 <= i < i2 < vo.len() implies evicted_before(
        c,
        j,
        quota_aware,
        #[trigger] vo[i],
        #[trigger] vo[i2],
    ) by {
        assert(kv(sorted[i]));
        assert(kv(sorted[i2]));
        assert(sorted[i].0.rank_le(&sorted[i2].0));
        let k = choose|k: int|
            victim_entry(e, sorted[i].1, j, quota_aware, k) && sorted[i].0 == (VictimKey {
                priority: e[k].1.priority,
                id: e[k].1.id,
            });
        let k2 = choose|k2: int|
            victim_entry(e, sorted[i2].1, j, quota_aware, k2) && sorted[i2].0 == (VictimKey {
                priority: e[k2].1.priority,
                id: e[k2].1.id,
            });
        assert(victim_entry(e, vo[i], j, quota_aware, k));
        assert(victim_entry(e, vo[i2], j, quota_aware, k2));
    }
}

/// Every running entry is stored under its job's id.
pub open spec fn keyed_by_job_id(e: Seq<(String, Job)>) -> bool {
    forall|i: int| 0 <= i < e.len() ==> (#[trigger] e[i]).0@ == e[i].1.id@
}

/// Some job of `vs` has id `q`.
pub open spec fn has_job_id(vs: Seq<Job>, q: Seq<char>) -> bool {
    exists|i: int| 0 <= i < vs.len() && (#[trigger] vs[i]).id@ == q
}

/// No two jobs of `vs` share an id.
pub open spec fn job_ids_distinct(vs: Seq<Job>) -> bool {
    forall|i: int, k: int| 0 <= i < vs.len() && 0 <= k < vs.len() && i != k ==> (#[trigger] vs[i]).id@ != (
    #[trigger] vs[k]).id@
}

/// A scan that never found room took each victim out of the running jobs, and only those.
proof fn lemma_scan_evicts(rm: ResourceManager, j: Job, c0: Cluster, ids: Seq<String>, cs: Cluster, vs: Seq<Job>)
    requires
        eviction_scan(rm, j, c0, ids, cs, vs, false),
        keys_unique(c0.running_jobs.entries@),
        keyed_by_job_id(c0.running_jobs.entries@),
    ensures
        keys_unique(cs.running_jobs.entries@),
        keyed_by_job_id(cs.running_jobs.entries@),
        job_ids_distinct(vs),
        forall|i: int| 0 <= i < vs.len() ==> lookup_in(c0.running_jobs.entries@, (#[trigger] vs[i]).id@) == Some(vs[i]),
        forall|q: Seq<char>|
            #[trigger] lookup_in(cs.running_jobs.entries@, q) == if has_job_id(vs, q) {
                None
            } else {
                lookup_in(c0.running_jobs.entries@, q)
            },
    decreases ids.len(),
{
    if ids.len() > 0 {
        let (cm, vm, fm) = choose|cm: Cluster, vm: Seq<Job>, fm: bool|
            eviction_scan(rm, j, c0, ids.drop_last(), cm, vm, fm) && #[trigger] scan_step(
                rm,
                j,
                cm,
                vm,
                fm,
                ids.last(),
                cs,
                vs,
                false,
            );
        assert(!fm);
        lemma_scan_evicts(rm, j, c0, ids.drop_last(), cm, vm);
        let em = cm.running_jobs.entries@;
        let id = ids.last();
        match cm.running_jobs.lookup(id@) {
            None => {
                assert(vs == vm);
            },
            Some(v) => {
                let k = key_index(em, id@);
                lemma_key_index(em, id@);
                assert(em[k].1 == v);
                assert(v.id@ == id@);
                lemma_lookup_remove(em, id@);
                let es = cs.running_jobs.entries@;
                assert forall|i: int| 0 <= i < es.len() implies (#[trigger] es[i]).0@ == es[i].1.id@ by {
                    if i < k {
                        assert(es[i] == em[i]);
                    } else {
                        assert(es[i] == em[i + 1]);
                    }
                }
                assert(lookup_in(em, id@) == Some(v));
                assert(!has_job_id(vm, id@));
                assert forall|i: int, i2: int| 0 <= i < vs.len() && 0 <= i2 < vs.len() && i != i2 implies (
                #[trigger] vs[i]).id@ != (#[trigger] vs[i2]).id@ by {
                    if i < vm.len() && i2 < vm.len() {
                        assert(vs[i] == vm[i] && vs[i2] == vm[i2]);
                    } else if i < vm.len() {
                        assert(vs[i] == vm[i]);
                    } else {
                        assert(vs[i2] == vm[i2]);
                    }
                }
                assert forall|i: int| 0 <= i < vs.len() implies lookup_in(c0.running_jobs.entries@, (#[trigger] vs[i]).id@)
                    == Some(vs[i]) by {
                    if i < vm.len() {
                        assert(vs[i] == vm[i]);
                    } else {
                        assert(lookup_in(em, v.id@) == Some(v));
                    }
                }
                assert forall|q: Seq<char>| #[trigger] lookup_in(es, q) == if has_job_id(vs, q) {
                    None
                } else {
                    lookup_in(c0.running_jobs.entries@, q)
                } by {
                    if has_job_id(vm, q) {
                        let w = choose|w: int| 0 <= w < vm.len() && (#[trigger] vm[w]).id@ == q;
                        assert(vs[w] == vm[w]);
                    }
                    if q == id@ {
                        assert(vs[vs.len() - 1] == v);
                    } else if has_job_id(vs, q) {
                        let w = choose|w: int| 0 <= w < vs.len() && (#[trigger] vs[w]).id@ == q;
                        assert(w < vm.len());
                        assert(vm[w] == vs[w]);
                    }
                }
            },
        }
    }
}

/// Putting the victims back, one after the other, restores what each id gave.
proof fn lemma_restore_returns(a: Cluster, vs: Seq<Job>, b: Cluster, f: spec_fn(Seq<char>) -> Option<Job>)
    requires
        restore_all(a, vs, b),
        keys_unique(a.running_jobs.entries@),
        job_ids_distinct(vs),
        forall|q: Seq<char>| #[trigger] lookup_in(a.running_jobs.entries@, q) == if has_job_id(vs, q) { None } else { f(q) },
        forall|i: int| 0 <= i < vs.len() ==> f((#[trigger] vs[i]).id@) == Some(vs[i]),
    ensures
        keys_unique(b.running_jobs.entries@),
        forall|q: Seq<char>| #[trigger] lookup_in(b.running_jobs.entries@, q) == f(q),
    decreases vs.len(),
{
    if vs.len() == 0 {
        assert forall|q: Seq<char>| #[trigger] lookup_in(b.running_jobs.entries@, q) == f(q) by {
            assert(!has_job_id(vs, q));
        }
    } else {
        let last = vs.last();
        let d = vs.drop_last();
        let cm = choose|cm: Cluster| restore_all(a, d, cm) && #[trigger] resumed(cm, last, b);
        let g = |q: Seq<char>| if q == last.id@ { None } else { f(q) };
        assert forall|i: int, i2: int| 0 <= i < d.len() && 0 <= i2 < d.len() && i != i2 implies (#[trigger] d[i]).id@
            != (#[trigger] d[i2]).id@ by {
            assert(d[i] == vs[i] && d[i2] == vs[i2]);
        }
        assert forall|q: Seq<char>| #[trigger] lookup_in(a.running_jobs.entries@, q) == if has_job_id(d, q) {
            None
        } else {
            g(q)
        } by {
            if has_job_id(d, q) {
                let w = choose|w: int| 0 <= w < d.len() && (#[trigger] d[w]).id@ == q;
                assert(vs[w] == d[w]);
                assert(vs[vs.len() - 1] == last);
            } else if has_job_id(vs, q) {
                let w = choose|w: int| 0 <= w < vs.len() && (#[trigger] vs[w]).id@ == q;
                if w < d.len() {
                    assert(d[w] == vs[w]);
                }
            } else {
                assert(vs[vs.len() - 1] == last);
            }
        }
        assert forall|i: int| 0 <= i < d.len() implies g((#[trigger] d[i]).id@) == Some(d[i]) by {
            assert(d[i] == vs[i]);
            assert(vs[vs.len() - 1] == last);
        }
        lemma_restore_returns(a, d, cm, g);
        lemma_lookup_insert(cm.running_jobs.entries@, last.id, last);
        assert(f(vs[vs.len() - 1].id@) == Some(vs[vs.len() - 1]));
    }
}

/// Some job of `vs` holds, among its assigned resources, one naming slot `(i, k)` of `gv`.
pub open spec fn victim_writes(gv: Seq<GpuView>, vs: Seq<Job>, i: int, k: int) -> bool {
    exists|t: int| 0 <= t < vs.len() && #[trigger] writes(gv, strs(vs[t].assigned_gpus@), i, k)
}

/// A scan that never found room freed exactly the slots of the victims' resources.
proof fn lemma_scan_frees(rm: ResourceManager, j: Job, c0: Cluster, ids: Seq<String>, cs: Cluster, vs: Seq<Job>)
    requires
        eviction_scan(rm, j, c0, ids, cs, vs, false),
    ensures
        same_but_holders(cs.gpu_views(), c0.gpu_views()),
        forall|i: int, k: int|
            valid_slot(c0.gpu_views(), i, k) ==> #[trigger] hold(cs.gpu_views(), i, k) == if victim_writes(
                c0.gpu_views(),
                vs,
                i,
                k,
            ) {
                None
            } else {
                hold(c0.gpu_views(), i, k)
            },
    decreases ids.len(),
{
    let g0 = c0.gpu_views();
    if ids.len() == 0 {
        lemma_same_refl(g0);
    } else {
        let (cm, vm, fm) = choose|cm: Cluster, vm: Seq<Job>, fm: bool|
            eviction_scan(rm, j, c0, ids.drop_last(), cm, vm, fm) && #[trigger] scan_step(
                rm,
                j,
                cm,
                vm,
                fm,
                ids.last(),
                cs,
                vs,
                false,
            );
        assert(!fm);
        lemma_scan_frees(rm, j, c0, ids.drop_last(), cm, vm);
        match cm.running_jobs.lookup(ids.last()@) {
            None => {
                assert(vs == vm);
            },
            Some(v) => {
                let gm = cm.gpu_views();
                let vids = strs(v.assigned_gpus@);
                lemma_set_resources(gm, vids, None);
                lemma_same_trans(cs.gpu_views(), gm, g0);
                lemma_writes_same(gm, g0, vids);
                assert forall|i: int, k: int| valid_slot(g0, i, k) implies #[trigger] hold(cs.gpu_views(), i, k) == if victim_writes(
                    g0,
                    vs,
                    i,
                    k,
                ) {
                    None
                } else {
                    hold(g0, i, k)
                } by {
                    assert(valid_slot(gm, i, k));
                    assert(vs[vs.len() - 1] == v);
                    if victim_writes(g0, vm, i, k) {
                        let t = choose|t: int| 0 <= t < vm.len() && #[trigger] writes(g0, strs(vm[t].assigned_gpus@), i, k);
                        assert(vs[t] == vm[t]);
                    }
                    if victim_writes(g0, vs, i, k) {
                        let t = choose|t: int| 0 <= t < vs.len() && #[trigger] writes(g0, strs(vs[t].assigned_gpus@), i, k);
                        if t < vm.len() {
                            assert(vm[t] == vs[t]);
                        }
                    }
                }
            },
        }
    }
}

/// Putting the victims back, one after the other, gives each of their slots
/// back to its victim.
proof fn lemma_restore_holders(a: Cluster, vs: Seq<Job>, b: Cluster, g0: Seq<GpuView>, f: spec_fn(int, int) -> Option<String>)
    requires
        restore_all(a, vs, b),
        same_but_holders(a.gpu_views(), g0),
        job_ids_distinct(vs),
        forall|i: int, k: int|
            valid_slot(g0, i, k) ==> #[trigger] hold(a.gpu_views(), i, k) == if victim_writes(g0, vs, i, k) {
                None
            } else {
                f(i, k)
            },
        forall|t: int, i: int, k: int|
            0 <= t < vs.len() && valid_slot(g0, i, k) && #[trigger] writes(g0, strs(vs[t].assigned_gpus@), i, k) ==> f(i, k)
                == Some(vs[t].id),
    ensures
        same_but_holders(b.gpu_views(), g0),
        forall|i: int, k: int| valid_slot(g0, i, k) ==> #[trigger] hold(b.gpu_views(), i, k) == f(i, k),
    decreases vs.len(),
{
    if vs.len() == 0 {
        assert forall|i: int, k: int| valid_slot(g0, i, k) implies #[trigger] hold(b.gpu_views(), i, k) == f(i, k) by {
            assert(!victim_writes(g0, vs, i, k));
        }
    } else {
        let last = vs.last();
        let d = vs.drop_last();
        let lids = strs(last.assigned_gpus@);
        let cm = choose|cm: Cluster| restore_all(a, d, cm) && #[trigger] resumed(cm, last, b);
        let g = |i: int, k: int| if writes(g0, lids, i, k) { None } else { f(i, k) };
        assert forall|i: int, i2: int| 0 <= i < d.len() && 0 <= i2 < d.len() && i != i2 implies (#[trigger] d[i]).id@
            != (#[trigger] d[i2]).id@ by {
            assert(d[i] == vs[i] && d[i2] == vs[i2]);
        }
        assert forall|i: int, k: int| valid_slot(g0, i, k) implies #[trigger] hold(a.gpu_views(), i, k) == if victim_writes(
            g0,
            d,
            i,
            k,
        ) {
            None
        } else {
            g(i, k)
        } by {
            assert(vs[vs.len() - 1] == last);
            if victim_writes(g0, d, i, k) {
                let t = choose|t: int| 0 <= t < d.len() && #[trigger] writes(g0, strs(d[t].assigned_gpus@), i, k);
                assert(vs[t] == d[t]);
            } else if victim_writes(g0, vs, i, k) {
                let t = choose|t: int| 0 <= t < vs.len() && #[trigger] writes(g0, strs(vs[t].assigned_gpus@), i, k);
                if t < d.len() {
                    assert(d[t] == vs[t]);
                }
            }
        }
        assert forall|t: int, i: int, k: int|
            0 <= t < d.len() && valid_slot(g0, i, k) && #[trigger] writes(g0, strs(d[t].assigned_gpus@), i, k) implies g(i, k)
                == Some(d[t].id) by {
            assert(d[t] == vs[t]);
            assert(vs[vs.len() - 1] == last);
            if writes(g0, lids, i, k) {
                assert(f(i, k) == Some(last.id));
                assert(f(i, k) == Some(vs[t].id));
                assert(vs[t].id@ == last.id@);
            }
        }
        lemma_restore_holders(a, d, cm, g0, g);
        let gm = cm.gpu_views();
        lemma_set_resources(gm, lids, Some(last.id));
        lemma_same_trans(b.gpu_views(), gm, g0);
        lemma_writes_same(gm, g0, lids);
        assert forall|i: int, k: int| valid_slot(g0, i, k) implies #[trigger] hold(b.gpu_views(), i, k) == f(i, k) by {
            assert(valid_slot(gm, i, k));
            assert(vs[vs.len() - 1] == last);
            if writes(g0, lids, i, k) {
                assert(f(i, k) == Some(vs[vs.len() - 1].id));
            }
        }
    }
}

/// Each running job holds every slot its assigned resources name.
pub open spec fn holders_consistent(c: Cluster) -> bool {
    forall|e: int, i: int, k: int|
        0 <= e < c.running_jobs.entries@.len() && valid_slot(c.gpu_views(), i, k) && #[trigger] writes(
            c.gpu_views(),
            strs(c.running_jobs.entries@[e].1.assigned_gpus@),
            i,
            k,
        ) ==> hold(c.gpu_views(), i, k) == Some(c.running_jobs.entries@[e].1.id)
}

/// A preemption attempt that does not make room leaves the running jobs as
/// they were: every id gives the same running job as before (the running jobs
/// being stored under their own ids), and, when every running job holds the
/// slots of its resources, every GPU and slice is held as before.
pub proof fn law_failed_preemption_keeps_running_jobs(
    rm: ResourceManager,
    quota_aware: bool,
    c0: Cluster,
    j: Job,
    c1: Cluster,
)
    requires
        preemption(rm, quota_aware, c0, j, c1, false),
        c0.running_jobs.wf(),
        keyed_by_job_id(c0.running_jobs.entries@),
    ensures
        forall|q: Seq<char>| #[trigger] c1.running_jobs.lookup(q) == c0.running_jobs.lookup(q),
        holders_consistent(c0) ==> c1.gpu_views() == c0.gpu_views(),
{
    let (cs, vs) = choose|cs: Cluster, vs: Seq<Job>|
        #[trigger] eviction_scan(rm, j, c0, victim_order(c0, j, quota_aware), cs, vs, false) && restore_all(cs, vs, c1);
    lemma_scan_evicts(rm, j, c0, victim_order(c0, j, quota_aware), cs, vs);
    let f = |q: Seq<char>| lookup_in(c0.running_jobs.entries@, q);
    lemma_restore_returns(cs, vs, c1, f);
    assert forall|q: Seq<char>| #[trigger] c1.running_jobs.lookup(q) == c0.running_jobs.lookup(q) by {
        assert(lookup_in(c1.running_jobs.entries@, q) == f(q));
    }
    if holders_consistent(c0) {
        let g0 = c0.gpu_views();
        let e0 = c0.running_jobs.entries@;
        lemma_scan_frees(rm, j, c0, victim_order(c0, j, quota_aware), cs, vs);
        let h = |i: int, k: int| hold(g0, i, k);
        assert forall|t: int, i: int, k: int|
            0 <= t < vs.len() && valid_slot(g0, i, k) && #[trigger] writes(g0, strs(vs[t].assigned_gpus@), i, k) implies h(i, k)
                == Some(vs[t].id) by {
            assert(lookup_in(e0, vs[t].id@) == Some(vs[t]));
            let ki = key_index(e0, vs[t].id@);
            lemma_key_index(e0, vs[t].id@);
            assert(ki >= 0);
            assert(e0[ki].1 == vs[t]);
            assert(writes(g0, strs(e0[ki].1.assigned_gpus@), i, k));
            assert(hold(g0, i, k) == Some(e0[ki].1.id));
        }
        lemma_restore_holders(cs, vs, c1, g0, h);
        lemma_same_holders_equal(c1.gpu_views(), g0);
    }
}

/// After `j` fits, scanning further candidates changes nothing.
proof fn lemma_scan_found(rm: ResourceManager, j: Job, c0: Cluster, ids: Seq<String>, k: int, c1: Cluster, vs: Seq<Job>)
    requires
        0 <= k <= ids.len(),
        eviction_scan(rm, j, c0, ids.take(k), c1, vs, true),
    ensures
        eviction_scan(rm, j, c0, ids, c1, vs, true),
    decreases ids.len() - k,
{
    if k == ids.len() {
        assert(ids.take(k) == ids);
    } else {
        let next = ids.take(k + 1);
        assert(next.drop_last() == ids.take(k));
        assert(scan_step(rm, j, c1, vs, true, next.last(), c1, vs, true));
        assert(eviction_scan(rm, j, c0, next, c1, vs, true));
        lemma_scan_found(rm, j, c0, ids, k + 1, c1, vs);
    }
}

/// Ids of the running jobs that may be evicted for `job`, in eviction order.
fn victim_candidates(cluster: &Cluster, job: &Job, quota_aware: bool) -> (r: Vec<String>)
    ensures
        r@ == victim_order(*cluster, *job, quota_aware),
{
    let e = &cluster.running_jobs.entries;
    let mut pairs: Vec<(VictimKey, String)> = Vec::new();
    let mut i: usize = 0;
    while i < e.len()
        invariant
            i <= e@.len(),
            e == &cluster.running_jobs.entries,
            pairs@ == victim_pairs(e@.take(i as int), *job, quota_aware),
        decreases e.len() - i,
    {
        proof {
            assert(e@.take(i as int + 1).drop_last() == e@.take(i as int));
            assert(e@.take(i as int + 1).last() == e@[i as int]);
        }
        let r = &e[i].1;
        let eligible = r.priority < job.priority && r.preemption_count < MAX_PREEMPTIONS && (!quota_aware
            || job.tenant.is_none() || tenant_matches(&r.tenant, &job.tenant));
        if eligible {
            pairs.push((VictimKey { priority: r.priority, id: r.id.clone() }, r.id.clone()));
        }
        i = i + 1;
    }
    proof {
        assert(e@.take(i as int) == e@);
    }
    let sorted = sort_by_rank(pairs);
    let mut rest = sorted;
    let ghost s0 = rest@;
    let mut out: Vec<String> = Vec::new();
    while rest.len() > 0
        invariant
            rest@.len() <= s0.len(),
            rest@ == s0.skip(s0.len() - rest@.len()),
            out@ == s0.take(s0.len() - rest@.len()).map_values(|p: (VictimKey, String)| p.1),
        decreases rest.len(),
    {
        let ghost done = s0.len() - rest@.len();
        let (_, id) = rest.remove(0);
        proof {
            assert(s0.take(done + 1) == s0.take(done).push(s0[done]));
            assert(rest@ == s0.skip(done + 1));
        }
        out.push(id);
        proof {
            assert(out@ =~= s0.take(done + 1).map_values(|p: (VictimKey, String)| p.1));
        }
    }
    proof {
        assert(s0.take(s0.len() as int) == s0);
    }
    out
}

fn tenant_matches(a: &Option<String>, b: &Option<String>) -> (r: bool)
    ensures
        r == same_tenant(*a, *b),
{
    match (a, b) {
        (Some(x), Some(y)) => *x == *y,
        (None, None) => true,
        _ => false,
    }
}

/// "Preempted '<victim>' (priority <p>) for '<job>'".
fn preempt_text(victim: &String, priority: u32, job: &String) -> (s: String)
    ensures
        s@ == preempt_message(victim@, priority, job@),
{
    let mut s = String::new();
    push_str(&mut s, "Preempted '");
    push_str(&mut s, victim.as_str());
    push_str(&mut s, "' (priority ");
    push_decimal(&mut s, priority as u64);
    push_str(&mut s, ") for '");
    push_str(&mut s, job.as_str());
    push_str(&mut s, "'");
    s
}

/// Requeues each evicted job of `victims` at the cluster clock, recording why.
fn requeue_victims(cluster: &mut Cluster, victims: Vec<Job>, job: &Job)
    ensures
        requeue_all(*old(cluster), victims@, job.name, *final(cluster)),
{
    let ghost c0 = *cluster;
    let ghost v0 = victims@;
    let mut rest = victims;
    proof {
        assert(v0.take(0) == Seq::<Job>::empty());
    }
    while rest.len() > 0
        invariant
            rest@.len() <= v0.len(),
            rest@ == v0.skip(v0.len() - rest@.len()),
            requeue_all(c0, v0.take(v0.len() - rest@.len()), job.name, *cluster),
        decreases rest.len(),
    {
        let ghost done = v0.len() - rest@.len();
        let ghost cb = *cluster;
        let mut v = rest.remove(0);
        proof {
            assert(v == v0[done]);
            assert(rest@ == v0.skip(done + 1));
        }
        let at = cluster.clock;
        let freed = copy_strings(&v.assigned_gpus);
        let ghost v_before = v;
        v.requeue_after_preemption(at);
        cluster.total_preemptions = sat_add_u32_exec(cluster.total_preemptions, 1);
        if v.gang_enabled && v.gang_deadline.is_some() {
            cluster.note_gang_timeout_rearm(&v.id);
        }
        let text = preempt_text(&v.name, v.priority, &job.name);
        let d = SchedulerDecision::new(at, "job_preempted", text).with_job(v.id.as_str(), v.name.as_str()).with_gpus(freed);
        cluster.record_decision(d);
        cluster.enqueue_job(v);
        proof {
            let w = requeued(v_before@, at);
            assert(cluster.waiting_queue@.len() == cb.waiting_queue@.len() + 1);
            assert(cluster.waiting_queue@.drop_last() == cb.waiting_queue@);
            assert(cluster.waiting_queue@.last()@ == w);
            assert(cluster.total_preemptions == sat_add_u32(cb.total_preemptions, 1));
            assert(cluster.gang_timeout_rearm_ids@ == if w.gang_enabled && w.gang_deadline is Some {
                cb.gang_timeout_rearm_ids@.push(v_before.id)
            } else {
                cb.gang_timeout_rearm_ids@
            });
            assert(cluster.decision_log@.drop_last() == cb.decision_log@);
            assert(preempted_decision(cluster.decision_log@.last(), v_before, at, job.name));
            assert(requeue_step(cb, v_before, job.name, *cluster));
            assert(v0.take(done + 1).drop_last() == v0.take(done));
            assert(v0.take(done + 1).last() == v0[done]);
            assert(requeue_all(c0, v0.take(done + 1), job.name, *cluster));
        }
    }
    proof {
        assert(v0.take(v0.len() as int) == v0);
    }
}

/// Puts each evicted job of `victims` back, in order.
fn restore_victims(cluster: &mut Cluster, victims: Vec<Job>)
    requires
        old(cluster).running_jobs.wf(),
    ensures
        restore_all(*old(cluster), victims@, *final(cluster)),
        final(cluster).running_jobs.wf(),
{
    let ghost c0 = *cluster;
    let ghost v0 = victims@;
    let mut rest = victims;
    proof {
        assert(v0.take(0) == Seq::<Job>::empty());
    }
    while rest.len() > 0
        invariant
            rest@.len() <= v0.len(),
            rest@ == v0.skip(v0.len() - rest@.len()),
            restore_all(c0, v0.take(v0.len() - rest@.len()), *cluster),
            cluster.running_jobs.wf(),
        decreases rest.len(),
    {
        let ghost done = v0.len() - rest@.len();
        let ghost cb = *cluster;
        let v = rest.remove(0);
        proof {
            assert(v == v0[done]);
            assert(rest@ == v0.skip(done + 1));
        }
        cluster.resume_evicted_job(v);
        proof {
            assert(resumed(cb, v0[done], *cluster));
            assert(v0.take(done + 1).drop_last() == v0.take(done));
            assert(v0.take(done + 1).last() == v0[done]);
            assert(restore_all(c0, v0.take(done + 1), *cluster));
        }
    }
    proof {
        assert(v0.take(v0.len() as int) == v0);
    }
}

/// Evicts lower-priority running jobs, lowest priority first, until `job` fits.
/// If it then fits, the evicted jobs are requeued and `true` returned; otherwise
/// every evicted job is put back and `false` returned.
fn attempt_preemption(cluster: &mut Cluster, resource_manager: &ResourceManager, job: &Job, quota_aware: bool) -> (ok: bool)
    requires
        old(cluster).running_jobs.wf(),
    ensures
        preemption(*resource_manager, quota_aware, *old(cluster), *job, *final(cluster), ok),
        final(cluster).running_jobs.wf(),
        final(cluster).topology == old(cluster).topology,
        final(cluster).clock == old(cluster).clock,
{
    let candidates = victim_candidates(cluster, job, quota_aware);
    let ghost c0 = *cluster;
    let ghost cands = candidates@;
    let mut evicted_jobs: Vec<Job> = Vec::new();
    let mut k: usize = 0;
    proof {
        assert(cands.take(0) == Seq::<String>::empty());
    }
    while k < candidates.len()
        invariant
            k <= cands.len(),
            cands == candidates@,
            cands == victim_order(c0, *job, quota_aware),
            c0 == *old(cluster),
            eviction_scan(*resource_manager, *job, c0, cands.take(k as int), *cluster, evicted_jobs@, false),
            cluster.running_jobs.wf(),
            *cluster == (Cluster { nodes: cluster.nodes, running_jobs: cluster.running_jobs, ..c0 }),
        decreases candidates.len() - k,
    {
        let ghost cb = *cluster;
        let ghost vb = evicted_jobs@;
        match cluster.evict_job(&candidates[k]) {
            Some(v) => {
                evicted_jobs.push(v);
            },
            None => {},
        }
        let fits = resource_manager.can_place(cluster, job);
        proof {
            assert(evicted(cb, cands[k as int], *cluster, vb, evicted_jobs@));
            assert(scan_step(*resource_manager, *job, cb, vb, false, cands[k as int], *cluster, evicted_jobs@, fits));
            assert(cands.take(k as int + 1).drop_last() == cands.take(k as int));
            assert(cands.take(k as int + 1).last() == cands[k as int]);
            assert(eviction_scan(*resource_manager, *job, c0, cands.take(k as int + 1), *cluster, evicted_jobs@, fits));
        }
        if fits {
            let ghost cs = *cluster;
            let ghost vs = evicted_jobs@;
            proof {
                lemma_scan_found(*resource_manager, *job, c0, cands, k as int + 1, cs, vs);
            }
            requeue_victims(cluster, evicted_jobs, job);
            proof {
                assert(eviction_scan(*resource_manager, *job, c0, victim_order(c0, *job, quota_aware), cs, vs, true));
                lemma_requeue_frame(cs, vs, job.name, *cluster);
            }
            return true;
        }
        k = k + 1;
    }
    let ghost cs = *cluster;
    let ghost vs = evicted_jobs@;
    proof {
        assert(cands.take(k as int) == cands);
    }
    restore_victims(cluster, evicted_jobs);
    proof {
        assert(eviction_scan(*resource_manager, *job, c0, victim_order(c0, *job, quota_aware), cs, vs, false));
        lemma_restore_frame(cs, vs, *cluster);
    }
    false
}

/// Requeueing keeps the running jobs, the nodes, the clock and the topology.
proof fn lemma_requeue_frame(a: Cluster, vs: Seq<Job>, job_name: String, b: Cluster)
    requires
        requeue_all(a, vs, job_name, b),
    ensures
        b.running_jobs == a.running_jobs,
        b.nodes == a.nodes,
        b.clock == a.clock,
        b.topology == a.topology,
    decreases vs.len(),
{
    if vs.len() > 0 {
        let cm = choose|cm: Cluster| requeue_all(a, vs.drop_last(), job_name, cm) && #[trigger] requeue_step(cm, vs.last(), job_name, b);
        lemma_requeue_frame(a, vs.drop_last(), job_name, cm);
    }
}

/// Restoring keeps the clock and the topology.
proof fn lemma_restore_frame(a: Cluster, vs: Seq<Job>, b: Cluster)
    requires
        restore_all(a, vs, b),
    ensures
        b.clock == a.clock,
        b.topology == a.topology,
    decreases vs.len(),
{
    if vs.len() > 0 {
        let cm = choose|cm: Cluster| restore_all(a, vs.drop_last(), cm) && #[trigger] resumed(cm, vs.last(), b);
        lemma_restore_frame(a, vs.drop_last(), cm);
    }
}

/// Like the priority scheduler, but a whole-GPU job that does not fit may evict
/// lower-priority running jobs to make room. Evicted jobs keep the progress they
/// made and wait again. MIG jobs never trigger eviction.
#[derive(Debug, Clone)]
pub struct PreemptivePriorityScheduler {
    /// Seconds of extra work charged to a restarted job (kept for configuration).
    pub restart_penalty_secs: u64,
    /// Only evict jobs of the waiting job's own tenant.
    pub quota_aware_preemption: bool,
}

impl Default for PreemptivePriorityScheduler {
    fn default() -> (s: Self)
        ensures
            s.restart_penalty_secs == 0,
            s.quota_aware_preemption,
    {
        PreemptivePriorityScheduler { restart_penalty_secs: 0, quota_aware_preemption: true }
    }
}

impl Scheduler for PreemptivePriorityScheduler {
    open spec fn pass(&self, rm: ResourceManager, c0: Cluster, c1: Cluster, placements: Seq<Placement>) -> bool {
        preemptive_pass(rm, self.quota_aware_preemption, c0, c1, placements)
    }

    fn schedule(&mut self, cluster: &mut Cluster, resource_manager: &ResourceManager) -> (placements: Vec<Placement>)
        ensures
            preemptive_pass(*resource_manager, old(self).quota_aware_preemption, *old(cluster), *final(cluster), placements@),
    {
        cluster.sort_waiting_by_priority();
        let waiting = take_queue(cluster);
        let ghost c_start = *cluster;
        let quota_aware = self.quota_aware_preemption;
        let mut placements: Vec<Placement> = Vec::new();
        let mut i: usize = 0;
        proof {
            assert(waiting@.take(0) == Seq::<Job>::empty());
        }
        while i < waiting.len()
            invariant
                i <= waiting@.len(),
                c_start.topology.nvlink_bw_gbs >= 1,
                preempt_run(*resource_manager, quota_aware, c_start, waiting@.take(i as int), *cluster, placements@),
                cluster.running_jobs.wf(),
                cluster.topology == c_start.topology,
                cluster.clock == c_start.clock,
            decreases waiting.len() - i,
        {
            let ghost c_before = *cluster;
            let ghost p_before = placements@;
            let job = &waiting[i];
            let placed = try_place(cluster, resource_manager, job, &mut placements);
            let ghost ca = *cluster;
            let ghost pa = placements@;
            if !placed && !job.is_mig_job() {
                let ok = attempt_preemption(cluster, resource_manager, job, quota_aware);
                let ghost cp = *cluster;
                if ok {
                    try_place(cluster, resource_manager, job, &mut placements);
                }
                proof {
                    assert(preemption(*resource_manager, quota_aware, ca, *job, cp, ok));
                }
            }
            proof {
                assert(place_step(*resource_manager, c_before, *job, ca, p_before, pa));
                assert(preempt_step(*resource_manager, quota_aware, c_before, *job, *cluster, p_before, placements@));
                assert(waiting@.take(i as int + 1).drop_last() == waiting@.take(i as int));
                assert(waiting@.take(i as int + 1).last() == waiting@[i as int]);
                assert(preempt_run(*resource_manager, quota_aware, c_start, waiting@.take(i as int + 1), *cluster, placements@));
            }
            i = i + 1;
        }
        proof {
            assert(waiting@.take(i as int) == waiting@);
        }
        let ghost cm = *cluster;
        release_marks(cluster, &placements);
        proof {
            assert(preempt_run(*resource_manager, quota_aware, c_start, by_priority(old(cluster).waiting_queue@), cm, placements@));
            assert(c_start == with_queue(*old(cluster), c_start.waiting_queue));
        }
        placements
    }
}

/// Places `job` if it fits now, marking its resources as held by it.
fn try_place(cluster: &mut Cluster, resource_manager: &ResourceManager, job: &Job, placements: &mut Vec<Placement>) -> (placed: bool)
    requires
        old(cluster).topology.nvlink_bw_gbs >= 1,
        old(cluster).running_jobs.wf(),
    ensures
        place_step(*resource_manager, *old(cluster), *job, *final(cluster), old(placements)@, final(placements)@),
        placed == (final(placements)@.len() > old(placements)@.len()),
        final(cluster).running_jobs == old(cluster).running_jobs,
        final(cluster).topology == old(cluster).topology,
        final(cluster).clock == old(cluster).clock,
{
    crate::scheduler::placement_step(cluster, resource_manager, job, placements)
}

} // verus!
