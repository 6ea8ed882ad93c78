//! Admission and GPU selection: quotas, gang spread, NVLink locality, best fit, MIG.

use vstd::prelude::*;

use crate::cluster::{tenant_usage, Cluster};
use crate::groups::{
    distinct_groups, distinct_nodes_of, group_members, group_of, has_spelling, in_group, lemma_members_absent,
    lemma_members_all, lemma_members_cover, lemma_node_keys, members_total, node_gpus_of, node_keys, node_members,
    nv_keys, on_node,
};
use crate::job::Job;
use crate::model::{Gpu, GpuView, Node, NodeView};
use crate::seqs::{gpu_ids, gpu_views, ids_prefix, lemma_filter_take_step, strs};
use crate::sort::{lemma_sort_total, sort_by_rank, sort_ranked, str_le, string_le, total, Ranked};
use crate::strmap::StrMap;
use crate::error::SimError;
use crate::mig::{is_layout, lemma_slice_id_injective, reconfigure_check, reconfigure_gpu, slice_id, MigProfileRegistry, MigProfileSpec, ReconfigureCheck, active_name};
use crate::model::{MigSlice, Placement};
use crate::topology::{spec_runtime_multiplier, GpuTopologyKey, TopologyGraph};
use crate::job::{sat_add, sat_add_exec, sat_add_u32, sat_add_u32_exec};

verus! {

/// How whole GPUs are chosen for jobs that are neither gang nor topology-aware.
#[derive(Debug, Clone, Copy, PartialEq, Eq, Structural)]
pub enum GpuSelectionPolicy {
    FirstFit,
    BestFit,
}

impl GpuSelectionPolicy {
    /// First fit.
    pub fn default_policy() -> (p: GpuSelectionPolicy)
        ensures
            p == GpuSelectionPolicy::FirstFit,
    {
        GpuSelectionPolicy::FirstFit
    }
}

// ---------------------------------------------------------------------------
// Eligibility of a single GPU
// ---------------------------------------------------------------------------

/// The GPU has at least the memory the job asks for (zero asks for nothing).
pub open spec fn memory_ok(g: GpuView, j: Job) -> bool {
    j.gpu_memory_gb == 0 || g.memory_gb >= j.gpu_memory_gb
}

/// The GPU has the hardware profile the job asks for, if any.
pub open spec fn type_ok(g: GpuView, j: Job) -> bool {
    match j.gpu_type {
        Some(t) => g.profile@ == t@,
        None => true,
    }
}

/// A site-tagged job only matches GPUs on nodes tagged with that site.
pub open spec fn site_ok(sites: StrMap<String>, g: GpuView, j: Job) -> bool {
    match j.site {
        Some(s) => sites.lookup(g.node_id@) matches Some(x) && x@ == s@,
        None => true,
    }
}

/// The GPU is free as a whole and satisfies the job's memory, type and site asks.
pub open spec fn eligible(sites: StrMap<String>, g: GpuView, j: Job) -> bool {
    g.whole_free() && memory_ok(g, j) && type_ok(g, j) && site_ok(sites, g, j)
}

pub open spec fn eligible_pred(sites: StrMap<String>, j: Job) -> spec_fn(GpuView) -> bool {
    |g: GpuView| eligible(sites, g, j)
}

/// Eligible GPUs among `s`, in order.
pub open spec fn eligible_among(sites: StrMap<String>, s: Seq<GpuView>, j: Job) -> Seq<GpuView> {
    s.filter(eligible_pred(sites, j))
}

/// Eligible GPUs of the cluster, node by node.
pub open spec fn eligible_gpus(c: Cluster, j: Job) -> Seq<GpuView> {
    eligible_among(c.node_sites, c.gpu_views(), j)
}

pub fn gpu_type_matches(g: &Gpu, job: &Job) -> (r: bool)
    ensures
        r == type_ok(g@, *job),
{
    match &job.gpu_type {
        Some(t) => g.profile == *t,
        None => true,
    }
}

pub fn memory_eligible(g: &Gpu, job: &Job) -> (r: bool)
    ensures
        r == memory_ok(g@, *job),
{
    job.gpu_memory_gb == 0 || g.memory_gb >= job.gpu_memory_gb
}

pub fn site_matches(c: &Cluster, g: &Gpu, job: &Job) -> (r: bool)
    ensures
        r == site_ok(c.node_sites, g@, *job),
{
    match &job.site {
        Some(s) => match c.node_site(&g.node_id) {
            Some(x) => *x == *s,
            None => false,
        },
        None => true,
    }
}

pub fn gpu_eligible(c: &Cluster, g: &Gpu, job: &Job) -> (r: bool)
    ensures
        r == eligible(c.node_sites, g@, *job),
{
    g.is_whole_gpu_free() && memory_eligible(g, job) && gpu_type_matches(g, job) && site_matches(c, g, job)
}

/// Eligible GPUs among `v`, in order.
pub fn eligible_of(c: &Cluster, v: &Vec<Gpu>, job: &Job) -> (r: Vec<Gpu>)
    ensures
        gpu_views(r@) == eligible_among(c.node_sites, gpu_views(v@), *job),
{
    let ghost s = gpu_views(v@);
    let ghost p = eligible_pred(c.node_sites, *job);
    let mut out: Vec<Gpu> = Vec::new();
    let mut i: usize = 0;
    while i < v.len()
        invariant
            s == gpu_views(v@),
            p == eligible_pred(c.node_sites, *job),
            i <= v@.len(),
            gpu_views(out@) == s.take(i as int).filter(p),
        decreases v.len() - i,
    {
        proof {
            lemma_filter_take_step(s, p, i as int);
        }
        if gpu_eligible(c, &v[i], job) {
            let ghost before = out@;
            out.push(v[i].duplicate());
            proof {
                assert(gpu_views(out@) =~= gpu_views(before).push(v@[i as int]@));
            }
        }
        i = i + 1;
    }
    proof {
        assert(s.take(i as int) == s);
    }
    out
}

/// Eligible GPUs of the cluster, node by node.
pub fn eligible_free_gpus(c: &Cluster, job: &Job) -> (r: Vec<Gpu>)
    ensures
        gpu_views(r@) == eligible_gpus(*c, *job),
{
    let all = c.all_gpus();
    eligible_of(c, &all, job)
}

// ---------------------------------------------------------------------------
// First fit
// ---------------------------------------------------------------------------

/// The first `n` eligible GPUs, when there are that many and `n` is positive.
pub open spec fn scatter_pick(el: Seq<GpuView>, n: u32) -> Option<Seq<GpuView>> {
    if n > 0 && el.len() >= n {
        Some(el.take(n as int))
    } else {
        None
    }
}

pub fn select_gpus_scatter(c: &Cluster, job: &Job) -> (r: Option<Vec<String>>)
    ensures
        r is Some <==> scatter_pick(eligible_gpus(*c, *job), job.gpu_count) is Some,
        r matches Some(ids) ==> strs(ids@) == gpu_ids(scatter_pick(eligible_gpus(*c, *job), job.gpu_count)->0),
{
    let el = eligible_free_gpus(c, job);
    let n = job.gpu_count as usize;
    if n > 0 && el.len() >= n {
        Some(ids_prefix(&el, n))
    } else {
        None
    }
}

// ---------------------------------------------------------------------------
// Topology aware: one NVLink domain when possible
// ---------------------------------------------------------------------------

/// Scanning `keys` in order, the first domain with at least `n` eligible GPUs and
/// strictly more than every earlier such domain; with the size it has.
pub open spec fn largest_group(el: Seq<GpuView>, keys: Seq<Option<u32>>, n: u32) -> (Option<Option<u32>>, nat)
    decreases keys.len(),
{
    if keys.len() == 0 {
        (None, 0)
    } else {
        let (b, blen) = largest_group(el, keys.drop_last(), n);
        let size = group_of(el, keys.last()).len();
        if size >= n && size > blen {
            (Some(keys.last()), size)
        } else {
            (b, blen)
        }
    }
}

/// GPUs chosen for a topology-aware job, and whether the NVLink-locality
/// fallback was used.
pub open spec fn topology_pick(el: Seq<GpuView>, n: u32) -> Option<(Seq<GpuView>, bool)> {
    if el.len() < n {
        None
    } else {
        match largest_group(el, nv_keys(el), n).0 {
            Some(grp) if group_of(el, grp).len() >= n => Some(
                (group_of(el, grp).take(n as int), false),
            ),
            _ => match scatter_pick(el, n) {
                Some(s) => Some((s, true)),
                None => None,
            },
        }
    }
}

pub fn select_gpus_topology_aware(c: &Cluster, job: &Job) -> (r: Option<(Vec<String>, bool)>)
    ensures
        r is Some <==> topology_pick(eligible_gpus(*c, *job), job.gpu_count) is Some,
        r matches Some((ids, pen)) ==> ({
            let want = topology_pick(eligible_gpus(*c, *job), job.gpu_count)->0;
            strs(ids@) == gpu_ids(want.0) && pen == want.1
        }),
{
    let el = eligible_free_gpus(c, job);
    let ghost s = gpu_views(el@);
    let n = job.gpu_count as usize;
    if el.len() < n {
        return None;
    }
    let keys = distinct_groups(&el);
    let mut best: Option<Option<u32>> = None;
    let mut best_len: usize = 0;
    let mut k: usize = 0;
    while k < keys.len()
        invariant
            s == gpu_views(el@),
            n == job.gpu_count,
            keys@ == nv_keys(s),
            k <= keys@.len(),
            (best, best_len as nat) == largest_group(s, keys@.take(k as int), job.gpu_count),
            best matches Some(g) ==> group_of(s, g).len() == best_len && best_len >= job.gpu_count,
        decreases keys.len() - k,
    {
        proof {
            assert(keys@.take(k as int + 1).drop_last() == keys@.take(k as int));
            assert(keys@.take(k as int + 1).last() == keys@[k as int]);
        }
        let members = group_members(&el, keys[k]);
        assert(gpu_views(members@).len() == members@.len());
        if members.len() >= n && members.len() > best_len {
            best = Some(keys[k]);
            best_len = members.len();
        }
        k = k + 1;
    }
    proof {
        assert(keys@.take(k as int) == keys@);
    }
    if let Some(grp) = best {
        let members = group_members(&el, grp);
        assert(gpu_views(members@).len() == members@.len());
        if members.len() >= n {
            let ids = ids_prefix(&members, n);
            proof {
                assert(gpu_views(members@).take(n as int).len() == n);
            }
            return Some((ids, false));
        }
    }
    if n > 0 && el.len() >= n {
        Some((ids_prefix(&el, n), true))
    } else {
        None
    }
}

// ---------------------------------------------------------------------------
// Best fit
// ---------------------------------------------------------------------------

/// Scanning node ids in order, the node whose eligible GPUs cover `n` with the
/// least slack, the earliest on ties.
pub open spec fn tightest_node(el: Seq<GpuView>, keys: Seq<String>, n: u32) -> Option<String>
    decreases keys.len(),
{
    if keys.len() == 0 {
        None
    } else {
        let b = tightest_node(el, keys.drop_last(), n);
        let size = node_members(el, keys.last()@).len();
        if size >= n && (b is None || size < node_members(el, b->0@).len()) {
            Some(keys.last())
        } else {
            b
        }
    }
}

/// Order for packing: nodes with more eligible GPUs first, then by id.
pub struct FillKey {
    pub len: usize,
    pub id: String,
}

impl Ranked for FillKey {
    open spec fn rank_le(&self, other: &Self) -> bool {
        self.len > other.len || (self.len == other.len && str_le(self.id@, other.id@))
    }

    fn le(&self, other: &Self) -> (r: bool) {
        self.len > other.len || (self.len == other.len && string_le(&self.id, &other.id))
    }
}

/// Eligible GPUs of the nodes named by `ids`, node after node.
pub open spec fn concat_nodes(el: Seq<GpuView>, ids: Seq<String>) -> Seq<GpuView>
    decreases ids.len(),
{
    if ids.len() == 0 {
        Seq::empty()
    } else {
        concat_nodes(el, ids.drop_last()) + node_members(el, ids.last()@)
    }
}

/// Nodes keyed for packing.
pub open spec fn fill_pairs(el: Seq<GpuView>, keys: Seq<String>) -> Seq<(FillKey, String)> {
    keys.map_values(|k: String| (FillKey { len: node_members(el, k@).len() as usize, id: k }, k))
}

/// GPUs chosen by best fit: the tightest single node, else the fullest nodes first.
pub open spec fn best_fit_pick(el: Seq<GpuView>, n: u32) -> Option<Seq<GpuView>> {
    if el.len() < n {
        None
    } else {
        match tightest_node(el, node_keys(el), n) {
            Some(id) => Some(node_members(el, id@).take(n as int)),
            None => {
                let order = sort_ranked(fill_pairs(el, node_keys(el))).map_values(|p: (FillKey, String)| p.1);
                let packed = concat_nodes(el, order);
                if n > 0 && packed.len() >= n {
                    Some(packed.take(n as int))
                } else {
                    None
                }
            },
        }
    }
}

pub fn select_gpus_best_fit(c: &Cluster, job: &Job) -> (r: Option<Vec<String>>)
    ensures
        r is Some <==> best_fit_pick(eligible_gpus(*c, *job), job.gpu_count) is Some,
        r matches Some(ids) ==> strs(ids@) == gpu_ids(best_fit_pick(eligible_gpus(*c, *job), job.gpu_count)->0),
{
    let el = eligible_free_gpus(c, job);
    let ghost s = gpu_views(el@);
    let n = job.gpu_count as usize;
    if el.len() < n {
        return None;
    }
    let keys = distinct_nodes_of(&el);
    let mut best: Option<usize> = None;
    let mut best_len: usize = 0;
    let mut k: usize = 0;
    while k < keys.len()
        invariant
            s == gpu_views(el@),
            n == job.gpu_count,
            keys@ == node_keys(s),
            k <= keys@.len(),
            match best {
                Some(b) => b < k && tightest_node(s, keys@.take(k as int), job.gpu_count) == Some(keys@[b as int])
                    && best_len == node_members(s, keys@[b as int]@).len() && best_len >= job.gpu_count,
                None => tightest_node(s, keys@.take(k as int), job.gpu_count) is None,
            },
        decreases keys.len() - k,
    {
        proof {
            assert(keys@.take(k as int + 1).drop_last() == keys@.take(k as int));
            assert(keys@.take(k as int + 1).last() == keys@[k as int]);
        }
        let members = node_gpus_of(&el, &keys[k]);
        assert(gpu_views(members@).len() == members@.len());
        if members.len() >= n && (best.is_none() || members.len() < best_len) {
            best = Some(k);
            best_len = members.len();
        }
        k = k + 1;
    }
    proof {
        assert(keys@.take(k as int) == keys@);
    }
    if let Some(b) = best {
        let members = node_gpus_of(&el, &keys[b]);
        assert(gpu_views(members@).len() == members@.len());
        return Some(ids_prefix(&members, n));
    }
    let mut pairs: Vec<(FillKey, String)> = Vec::new();
    let mut k: usize = 0;
    while k < keys.len()
        invariant
            s == gpu_views(el@),
            keys@ == node_keys(s),
            k <= keys@.len(),
            pairs@ == fill_pairs(s, keys@.take(k as int)),
        decreases keys.len() - k,
    {
        let members = node_gpus_of(&el, &keys[k]);
        let ghost before = pairs@;
        pairs.push((FillKey { len: members.len(), id: keys[k].clone() }, keys[k].clone()));
        proof {
            assert(keys@.take(k as int + 1) == keys@.take(k as int).push(keys@[k as int]));
            assert(pairs@ =~= fill_pairs(s, keys@.take(k as int + 1)));
        }
        k = k + 1;
    }
    proof {
        assert(keys@.take(k as int) == keys@);
    }
    let sorted = sort_by_rank(pairs);
    let ghost order = sorted@.map_values(|p: (FillKey, String)| p.1);
    let mut packed: Vec<Gpu> = Vec::new();
    let mut q: usize = 0;
    while q < sorted.len()
        invariant
            s == gpu_views(el@),
            order == sorted@.map_values(|p: (FillKey, String)| p.1),
            q <= sorted@.len(),
            gpu_views(packed@) == concat_nodes(s, order.take(q as int)),
        decreases sorted.len() - q,
    {
        let members = node_gpus_of(&el, &sorted[q].1);
        let ghost before = packed@;
        let mut t: usize = 0;
        while t < members.len()
            invariant
                t <= members@.len(),
                gpu_views(packed@) == gpu_views(before) + gpu_views(members@).take(t as int),
            decreases members.len() - t,
        {
            let ghost b2 = packed@;
            packed.push(members[t].duplicate());
            proof {
                assert(gpu_views(packed@) =~= gpu_views(b2).push(members@[t as int]@));
                assert(gpu_views(members@).take(t as int + 1) =~= gpu_views(members@).take(t as int).push(
                    members@[t as int]@,
                ));
            }
            t = t + 1;
        }
        proof {
            assert(gpu_views(members@).take(t as int) == gpu_views(members@));
            assert(order.take(q as int + 1).drop_last() == order.take(q as int));
            assert(order.take(q as int + 1).last() == sorted@[q as int].1);
        }
        q = q + 1;
    }
    proof {
        assert(order.take(q as int) == order);
    }
    if n > 0 && packed.len() >= n {
        Some(ids_prefix(&packed, n))
    } else {
        None
    }
}


// ---------------------------------------------------------------------------
// Gang placement: GPUs spread over several nodes
// ---------------------------------------------------------------------------

/// Number of nodes a gang job spans, when it is a gang job with a positive size.
pub open spec fn spec_gang_nodes_needed(j: Job) -> Option<u32> {
    if j.gang_enabled {
        match j.gang_size_nodes {
            Some(n) if n > 0 => Some(n),
            _ => None,
        }
    } else {
        None
    }
}

pub fn gang_nodes_needed(job: &Job) -> (r: Option<u32>)
    ensures
        r == spec_gang_nodes_needed(*job),
{
    if job.gang_enabled {
        match job.gang_size_nodes {
            Some(n) => if n > 0 { Some(n) } else { None },
            None => None,
        }
    } else {
        None
    }
}

/// GPUs per node of a gang spread over `nodes` nodes, when they divide evenly.
pub open spec fn spec_gpus_per_gang_node(j: Job, nodes: u32) -> Option<u32> {
    if nodes == 0 || j.gpu_count % nodes != 0 {
        None
    } else {
        Some((j.gpu_count / nodes) as u32)
    }
}

pub fn gpus_per_gang_node(job: &Job, nodes: u32) -> (r: Option<u32>)
    ensures
        r == spec_gpus_per_gang_node(*job, nodes),
{
    if nodes == 0 || job.gpu_count % nodes != 0 {
        None
    } else {
        Some(job.gpu_count / nodes)
    }
}

/// Scanning NVLink domains in order, the first with at least `per` GPUs.
pub open spec fn first_big_group(s: Seq<GpuView>, keys: Seq<Option<u32>>, per: u32) -> Option<Option<u32>>
    decreases keys.len(),
{
    if keys.len() == 0 {
        None
    } else {
        let b = first_big_group(s, keys.drop_last(), per);
        if b is Some {
            b
        } else if group_of(s, keys.last()).len() >= per {
            Some(keys.last())
        } else {
            None
        }
    }
}

/// `per` GPUs of one NVLink domain of `free`, from the first domain large enough.
pub open spec fn coherent_pick(free: Seq<GpuView>, per: u32) -> Option<Seq<GpuView>> {
    match first_big_group(free, nv_keys(free), per) {
        Some(g) => Some(group_of(free, g).take(per as int)),
        None => None,
    }
}

/// Order of gang node candidates: NVLink-coherent first, then fewer GPUs, then node id.
pub struct GangKey {
    pub penalty: bool,
    pub len: usize,
    pub id: String,
}

impl Ranked for GangKey {
    open spec fn rank_le(&self, other: &Self) -> bool {
        (!self.penalty && other.penalty) || (self.penalty == other.penalty && (self.len < other.len || (
        self.len == other.len && str_le(self.id@, other.id@))))
    }

    fn le(&self, other: &Self) -> (r: bool) {
        (!self.penalty && other.penalty) || (self.penalty == other.penalty && (self.len < other.len || (
        self.len == other.len && string_le(&self.id, &other.id))))
    }
}

/// The GPUs node `n` would contribute to a gang needing `per` GPUs per node, keyed.
pub open spec fn node_candidate(sites: StrMap<String>, n: NodeView, j: Job, per: u32) -> Option<(GangKey, Seq<GpuView>)> {
    let free = eligible_among(sites, n.gpus, j);
    if free.len() < per {
        None
    } else {
        match coherent_pick(free, per) {
            Some(gs) => Some((GangKey { penalty: false, len: gs.len() as usize, id: n.id }, gs)),
            None => Some((GangKey { penalty: true, len: per as usize, id: n.id }, free.take(per as int))),
        }
    }
}

/// Candidates of all nodes able to host a gang share, node by node.
pub open spec fn gang_candidates(sites: StrMap<String>, nodes: Seq<NodeView>, j: Job, per: u32) -> Seq<(GangKey, Seq<GpuView>)>
    decreases nodes.len(),
{
    if nodes.len() == 0 {
        Seq::empty()
    } else {
        let d = gang_candidates(sites, nodes.drop_last(), j, per);
        match node_candidate(sites, nodes.last(), j, per) {
            Some(c) => d.push(c),
            None => d,
        }
    }
}

/// GPUs of the chosen candidates, node after node (each candidate holds exactly `per`).
pub open spec fn gang_concat(top: Seq<(GangKey, Seq<GpuView>)>, per: u32) -> Seq<GpuView>
    decreases top.len(),
{
    if top.len() == 0 {
        Seq::empty()
    } else {
        gang_concat(top.drop_last(), per) + top.last().1
    }
}

/// Some chosen candidate had to fall back to GPUs across NVLink domains.
pub open spec fn gang_penalty(top: Seq<(GangKey, Seq<GpuView>)>) -> bool
    decreases top.len(),
{
    if top.len() == 0 {
        false
    } else {
        gang_penalty(top.drop_last()) || top.last().0.penalty
    }
}

/// Gang placement over `nodes` distinct nodes: the best-ranked candidates, and
/// whether any of them used the scatter fallback.
pub open spec fn gang_pick(c: Cluster, j: Job, nodes: u32) -> Option<(Seq<GpuView>, bool)> {
    match spec_gpus_per_gang_node(j, nodes) {
        None => None,
        Some(per) => {
            let cands = gang_candidates(c.node_sites, crate::cluster::node_views(c.nodes@), j, per);
            if cands.len() < nodes {
                None
            } else {
                let top = sort_ranked(cands).take(nodes as int);
                Some((gang_concat(top, per), gang_penalty(top)))
            }
        },
    }
}

/// First `n` GPUs of `v`, copied.
pub fn prefix_copy(v: &Vec<Gpu>, n: usize) -> (r: Vec<Gpu>)
    requires
        n <= v@.len(),
    ensures
        gpu_views(r@) == gpu_views(v@).take(n as int),
{
    let mut out: Vec<Gpu> = Vec::new();
    let mut i: usize = 0;
    while i < n
        invariant
            i <= n,
            n <= v@.len(),
            gpu_views(out@) == gpu_views(v@).take(i as int),
        decreases n - i,
    {
        let ghost before = out@;
        out.push(v[i].duplicate());
        proof {
            assert(gpu_views(out@) =~= gpu_views(before).push(v@[i as int]@));
            assert(gpu_views(v@).take(i as int + 1) =~= gpu_views(v@).take(i as int).push(v@[i as int]@));
        }
        i = i + 1;
    }
    out
}

/// `per` GPUs of `free` sharing one NVLink domain, if some domain is large enough.
pub fn select_nvlink_coherent(free: &Vec<Gpu>, per: u32) -> (r: Option<Vec<Gpu>>)
    ensures
        r is Some <==> coherent_pick(gpu_views(free@), per) is Some,
        r matches Some(gs) ==> gpu_views(gs@) == coherent_pick(gpu_views(free@), per)->0,
{
    let ghost s = gpu_views(free@);
    let keys = distinct_groups(free);
    let mut k: usize = 0;
    while k < keys.len()
        invariant
            s == gpu_views(free@),
            keys@ == nv_keys(s),
            k <= keys@.len(),
            first_big_group(s, keys@.take(k as int), per) is None,
        decreases keys.len() - k,
    {
        proof {
            assert(keys@.take(k as int + 1).drop_last() == keys@.take(k as int));
            assert(keys@.take(k as int + 1).last() == keys@[k as int]);
        }
        let members = group_members(free, keys[k]);
        assert(gpu_views(members@).len() == members@.len());
        if members.len() >= per as usize {
            proof {
                lemma_first_big_group_found(s, keys@, k as int, per);
            }
            return Some(prefix_copy(&members, per as usize));
        }
        k = k + 1;
    }
    proof {
        assert(keys@.take(k as int) == keys@);
    }
    None
}

proof fn lemma_first_big_group_found(s: Seq<GpuView>, keys: Seq<Option<u32>>, k: int, per: u32)
    requires
        0 <= k < keys.len(),
        first_big_group(s, keys.take(k), per) is None,
        group_of(s, keys[k]).len() >= per,
    ensures
        first_big_group(s, keys, per) == Some(keys[k]),
    decreases keys.len(),
{
    if k == keys.len() - 1 {
        assert(keys.drop_last() == keys.take(k));
    } else {
        assert(keys.drop_last().take(k) == keys.take(k));
        lemma_first_big_group_found(s, keys.drop_last(), k, per);
    }
}

/// Gang placement over `nodes` distinct nodes, each holding `gpu_count / nodes` GPUs;
/// prefers NVLink-coherent picks and reports whether any node fell back to scatter.
pub fn select_gang_gpus(c: &Cluster, job: &Job, nodes: u32) -> (r: Option<(Vec<String>, bool)>)
    ensures
        r is Some <==> gang_pick(*c, *job, nodes) is Some,
        r matches Some((ids, pen)) ==> ({
            let want = gang_pick(*c, *job, nodes)->0;
            strs(ids@) == gpu_ids(want.0) && pen == want.1
        }),
{
    let per = match gpus_per_gang_node(job, nodes) {
        Some(p) => p,
        None => return None,
    };
    let ghost nv = crate::cluster::node_views(c.nodes@);
    let ghost f = |v: Vec<Gpu>| gpu_views(v@);
    let mut pairs: Vec<(GangKey, Vec<Gpu>)> = Vec::new();
    let mut i: usize = 0;
    while i < c.nodes.len()
        invariant
            nv == crate::cluster::node_views(c.nodes@),
            f == (|v: Vec<Gpu>| gpu_views(v@)),
            i <= c.nodes@.len(),
            crate::sort::map_payload(pairs@, f) == gang_candidates(c.node_sites, nv.take(i as int), *job, per),
        decreases c.nodes.len() - i,
    {
        proof {
            assert(nv.take(i as int + 1).drop_last() == nv.take(i as int));
            assert(nv.take(i as int + 1).last() == c.nodes@[i as int]@);
        }
        let free = eligible_of(c, &c.nodes[i].gpus, job);
        assert(gpu_views(free@).len() == free@.len());
        if free.len() >= per as usize {
            let ghost before = pairs@;
            match select_nvlink_coherent(&free, per) {
                Some(gs) => {
                    let len = gs.len();
                    pairs.push((GangKey { penalty: false, len, id: c.nodes[i].id.clone() }, gs));
                },
                None => {
                    let gs = prefix_copy(&free, per as usize);
                    pairs.push((GangKey { penalty: true, len: per as usize, id: c.nodes[i].id.clone() }, gs));
                },
            }
            proof {
                assert(crate::sort::map_payload(pairs@, f) =~= crate::sort::map_payload(before, f).push(
                    (pairs@.last().0, f(pairs@.last().1)),
                ));
            }
        }
        i = i + 1;
    }
    proof {
        assert(nv.take(i as int) == nv);
        crate::sort::lemma_sort_len(pairs@);
    }
    if pairs.len() < nodes as usize {
        return None;
    }
    let sorted = sort_by_rank(pairs);
    proof {
        crate::sort::lemma_sort_map_payload(pairs@, f);
        crate::sort::lemma_sort_len(pairs@);
    }
    let ghost top = crate::sort::map_payload(sorted@, f).take(nodes as int);
    let mut selected: Vec<String> = Vec::new();
    let mut used_penalty = false;
    let mut q: usize = 0;
    while q < nodes as usize
        invariant
            f == (|v: Vec<Gpu>| gpu_views(v@)),
            nodes <= sorted@.len(),
            top == crate::sort::map_payload(sorted@, f).take(nodes as int),
            q <= nodes,
            strs(selected@) == gpu_ids(gang_concat(top.take(q as int), per)),
            used_penalty == gang_penalty(top.take(q as int)),
        decreases nodes - q,
    {
        proof {
            assert(top.take(q as int + 1).drop_last() == top.take(q as int));
            assert(top.take(q as int + 1).last() == top[q as int]);
            assert(top[q as int] == (sorted@[q as int].0, gpu_views(sorted@[q as int].1@)));
        }
        let gs = &sorted[q].1;
        let ids = ids_prefix(gs, gs.len());
        proof {
            assert(gpu_views(gs@).take(gs@.len() as int) == gpu_views(gs@));
        }
        let ghost before = selected@;
        let mut ids_v = ids;
        selected.append(&mut ids_v);
        proof {
            assert(strs(selected@) =~= strs(before) + strs(ids@));
            assert(gpu_ids(gang_concat(top.take(q as int + 1), per)) =~= gpu_ids(gang_concat(top.take(q as int), per))
                + gpu_ids(gpu_views(gs@)));
        }
        used_penalty = used_penalty || sorted[q].0.penalty;
        q = q + 1;
    }
    proof {
        assert(top.take(nodes as int) == top);
    }
    Some((selected, used_penalty))
}


// ---------------------------------------------------------------------------
// Topology facts of a placement
// ---------------------------------------------------------------------------

/// The first GPU of `gv` with id `id`.
pub open spec fn find_gpu(gv: Seq<GpuView>, id: Seq<char>) -> Option<GpuView>
    decreases gv.len(),
{
    if gv.len() == 0 {
        None
    } else {
        match find_gpu(gv.drop_last(), id) {
            Some(g) => Some(g),
            None => if gv.last().id@ == id { Some(gv.last()) } else { None },
        }
    }
}

/// Topology keys of the GPUs named by `ids` that exist, in order.
pub open spec fn topology_keys(gv: Seq<GpuView>, ids: Seq<Seq<char>>) -> Seq<GpuTopologyKey>
    decreases ids.len(),
{
    if ids.len() == 0 {
        Seq::empty()
    } else {
        let d = topology_keys(gv, ids.drop_last());
        match find_gpu(gv, ids.last()) {
            Some(g) => d.push(GpuTopologyKey { nvlink_group: g.nvlink_group, node_id: g.node_id }),
            None => d,
        }
    }
}

proof fn lemma_topology_keys_len(gv: Seq<GpuView>, ids: Seq<Seq<char>>)
    ensures
        topology_keys(gv, ids).len() <= ids.len(),
    decreases ids.len(),
{
    if ids.len() > 0 {
        lemma_topology_keys_len(gv, ids.drop_last());
    }
}

/// The first GPU of `v` with id `id`.
pub fn find_gpu_in(v: &Vec<Gpu>, id: &String) -> (r: Option<usize>)
    ensures
        match r {
            Some(k) => k < v@.len() && find_gpu(gpu_views(v@), id@) == Some(v@[k as int]@),
            None => find_gpu(gpu_views(v@), id@) is None,
        },
{
    let ghost s = gpu_views(v@);
    let mut k: usize = 0;
    while k < v.len()
        invariant
            s == gpu_views(v@),
            k <= v@.len(),
            find_gpu(s.take(k as int), id@) is None,
        decreases v.len() - k,
    {
        proof {
            assert(s.take(k as int + 1).drop_last() == s.take(k as int));
            assert(s.take(k as int + 1).last() == v@[k as int]@);
        }
        if v[k].id == *id {
            proof {
                lemma_find_gpu_prefix(s, k as int + 1, id@);
            }
            return Some(k);
        }
        k = k + 1;
    }
    proof {
        assert(s.take(k as int) == s);
    }
    None
}

proof fn lemma_find_gpu_prefix(s: Seq<GpuView>, k: int, id: Seq<char>)
    requires
        0 <= k <= s.len(),
        find_gpu(s.take(k), id) is Some,
    ensures
        find_gpu(s, id) == find_gpu(s.take(k), id),
    decreases s.len(),
{
    if k == s.len() {
        assert(s.take(k) == s);
    } else {
        assert(s.drop_last().take(k) == s.take(k));
        lemma_find_gpu_prefix(s.drop_last(), k, id);
    }
}

/// Topology keys of the GPUs of `c` named by `ids`.
pub fn keys_for_ids(c: &Cluster, ids: &Vec<String>) -> (r: Vec<GpuTopologyKey>)
    ensures
        r@ == topology_keys(c.gpu_views(), strs(ids@)),
{
    let all = c.all_gpus();
    let ghost gv = c.gpu_views();
    let mut out: Vec<GpuTopologyKey> = Vec::new();
    let mut i: usize = 0;
    while i < ids.len()
        invariant
            gpu_views(all@) == gv,
            gv == c.gpu_views(),
            i <= ids@.len(),
            out@ == topology_keys(gv, strs(ids@).take(i as int)),
        decreases ids.len() - i,
    {
        proof {
            assert(strs(ids@).take(i as int + 1).drop_last() == strs(ids@).take(i as int));
            assert(strs(ids@).take(i as int + 1).last() == ids@[i as int]@);
        }
        match find_gpu_in(&all, &ids[i]) {
            Some(k) => {
                out.push(GpuTopologyKey { nvlink_group: all[k].nvlink_group, node_id: all[k].node_id.clone() });
            },
            None => {},
        }
        i = i + 1;
    }
    proof {
        assert(strs(ids@).take(i as int) == strs(ids@));
    }
    out
}

impl TopologyGraph {
    /// Runtime multiplier of placing `job` on the GPUs of `cluster` named by
    /// `gpu_ids` (ids the cluster does not know are ignored).
    pub fn runtime_multiplier_for_cluster(
        &self,
        cluster: &Cluster,
        job: &Job,
        gpu_ids: &Vec<String>,
        used_topology_fallback: bool,
    ) -> (r: (u128, u128))
        requires
            self.nvlink_bw_gbs >= 1,
            gpu_ids@.len() <= u32::MAX,
        ensures
            (r.0 as int, r.1 as int) == spec_runtime_multiplier(
                *self,
                topology_keys(cluster.gpu_views(), strs(gpu_ids@)),
                job.gang_enabled,
                job.network_bw_gbps,
                used_topology_fallback,
            ),
            r.1 > 0,
    {
        let keys = keys_for_ids(cluster, gpu_ids);
        proof {
            lemma_topology_keys_len(cluster.gpu_views(), strs(gpu_ids@));
        }
        self.runtime_multiplier(&keys, job.gang_enabled, job.network_bw_gbps, used_topology_fallback)
    }
}

// ---------------------------------------------------------------------------
// MIG capacity
// ---------------------------------------------------------------------------

/// Slices of profile `p` a GPU could offer: its free ones, plus a full
/// repartition when it is idle and not already laid out for `p`.
pub open spec fn mig_capacity(g: GpuView, p: Seq<char>, spec: MigProfileSpec) -> int {
    if !g.mig_capable {
        0
    } else {
        g.free_slices(p) + (if g.fully_idle() && (g.slices.len() == 0 || !(g.active_mig_profile matches Some(a)
            && a@ == p)) {
            spec.max_per_gpu as int
        } else {
            0
        })
    }
}

pub open spec fn mig_available(gv: Seq<GpuView>, p: Seq<char>, spec: MigProfileSpec) -> int
    decreases gv.len(),
{
    if gv.len() == 0 {
        0
    } else {
        mig_available(gv.drop_last(), p, spec) + mig_capacity(gv.last(), p, spec)
    }
}

proof fn lemma_mig_available_nonneg(gv: Seq<GpuView>, p: Seq<char>, spec: MigProfileSpec)
    ensures
        mig_available(gv, p, spec) >= 0,
    decreases gv.len(),
{
    if gv.len() > 0 {
        lemma_mig_available_nonneg(gv.drop_last(), p, spec);
    }
}

/// A slice of profile `p` that no job holds.
pub open spec fn free_of(p: Seq<char>) -> spec_fn(MigSlice) -> bool {
    |s: MigSlice| s.profile@ == p && s.running_job_id is None
}

/// Ids of the free slices of profile `p` on `g`, in order.
pub open spec fn free_slice_ids_of(g: GpuView, p: Seq<char>) -> Seq<Seq<char>> {
    g.slices.filter(free_of(p)).map_values(|s: MigSlice| s.id@)
}

/// Ids of the free slices of profile `p` over all GPUs, GPU after GPU.
pub open spec fn free_slice_ids(gv: Seq<GpuView>, p: Seq<char>) -> Seq<Seq<char>>
    decreases gv.len(),
{
    if gv.len() == 0 {
        Seq::empty()
    } else {
        free_slice_ids(gv.drop_last(), p) + free_slice_ids_of(gv.last(), p)
    }
}

/// Ids of the free slices of profile `p` on every GPU but the one at `k`, GPU
/// after GPU.
pub open spec fn free_slice_ids_but(gv: Seq<GpuView>, p: Seq<char>, k: int) -> Seq<Seq<char>>
    decreases gv.len(),
{
    if gv.len() == 0 {
        Seq::empty()
    } else {
        free_slice_ids_but(gv.drop_last(), p, k) + if gv.len() - 1 == k {
            Seq::<Seq<char>>::empty()
        } else {
            free_slice_ids_of(gv.last(), p)
        }
    }
}

proof fn lemma_free_slice_ids_but_len(gv: Seq<GpuView>, p: Seq<char>, k: int)
    ensures
        free_slice_ids_but(gv, p, k).len() <= free_slice_ids(gv, p).len(),
    decreases gv.len(),
{
    if gv.len() > 0 {
        lemma_free_slice_ids_but_len(gv.drop_last(), p, k);
    }
}

/// Index of the first MIG-capable idle GPU with fewer than `needed` free slices of `p`.
pub open spec fn repartition_target(gv: Seq<GpuView>, p: Seq<char>, needed: u32) -> int
    decreases gv.len(),
{
    if gv.len() == 0 {
        -1
    } else {
        let k = repartition_target(gv.drop_last(), p, needed);
        if k >= 0 {
            k
        } else if gv.last().mig_capable && gv.last().fully_idle() && gv.last().free_slices(p) < needed {
            gv.len() - 1
        } else {
            -1
        }
    }
}

pub fn free_slices_u64(g: &Gpu, profile: &String) -> (n: u64)
    ensures
        n == g@.free_slices(profile@),
{
    let mut n: u64 = 0;
    let mut k: usize = 0;
    while k < g.slices.len()
        invariant
            k <= g.slices@.len(),
            n == crate::model::count_free_slices(g.slices@.take(k as int), profile@),
            n <= k,
        decreases g.slices.len() - k,
    {
        proof {
            assert(g.slices@.take(k as int + 1).drop_last() == g.slices@.take(k as int));
        }
        if g.slices[k].profile == *profile && g.slices[k].running_job_id.is_none() {
            n = n + 1;
        }
        k = k + 1;
    }
    proof {
        assert(g.slices@.take(k as int) == g.slices@);
    }
    n
}

fn free_slice_ids_exec(g: &Gpu, profile: &String) -> (r: Vec<String>)
    ensures
        strs(r@) == free_slice_ids_of(g@, profile@),
{
    let ghost p = free_of(profile@);
    let mut out: Vec<String> = Vec::new();
    let mut k: usize = 0;
    while k < g.slices.len()
        invariant
            p == free_of(profile@),
            k <= g.slices@.len(),
            strs(out@) == g.slices@.take(k as int).filter(p).map_values(|s: MigSlice| s.id@),
        decreases g.slices.len() - k,
    {
        proof {
            lemma_filter_take_step(g.slices@, p, k as int);
        }
        if g.slices[k].profile == *profile && g.slices[k].running_job_id.is_none() {
            let ghost before = out@;
            out.push(g.slices[k].id.clone());
            proof {
                assert(strs(out@) =~= strs(before).push(g.slices@[k as int].id@));
                assert(g.slices@.take(k as int + 1).filter(p).map_values(|s: MigSlice| s.id@) =~= g.slices@.take(
                    k as int,
                ).filter(p).map_values(|s: MigSlice| s.id@).push(g.slices@[k as int].id@));
            }
        }
        k = k + 1;
    }
    proof {
        assert(g.slices@.take(k as int) == g.slices@);
    }
    out
}

// ---------------------------------------------------------------------------
// The resource manager
// ---------------------------------------------------------------------------

/// Decides whether a job fits and which GPUs or MIG slices it gets.
#[derive(Debug, Clone)]
pub struct ResourceManager {
    pub mig_registry: Option<MigProfileRegistry>,
    pub gpu_selection: GpuSelectionPolicy,
}

/// Tenants without a quota entry are unrestricted; otherwise the tenant's running
/// GPUs plus the job's may not exceed the quota.
pub open spec fn within_quota(c: Cluster, j: Job) -> bool {
    match j.tenant {
        None => true,
        Some(t) => match c.tenant_quotas.lookup(t@) {
            None => true,
            Some(q) => tenant_usage(c.running_jobs.entries@, t@) + j.gpu_count <= q,
        },
    }
}

/// A job is topology-aware when it is a gang job or asks for network bandwidth.
pub open spec fn spec_wants_topology_aware(j: Job) -> bool {
    j.gang_enabled || j.network_bw_gbps is Some
}

pub fn wants_topology_aware(job: &Job) -> (r: bool)
    ensures
        r == spec_wants_topology_aware(*job),
{
    job.gang_enabled || job.network_bw_gbps.is_some()
}

/// A whole-GPU job fits: it asks for GPUs, and either its gang spread or enough
/// eligible GPUs exist.
pub open spec fn fits_whole(c: Cluster, j: Job) -> bool {
    j.gpu_count > 0 && match spec_gang_nodes_needed(j) {
        Some(n) => gang_pick(c, j, n) is Some,
        None => eligible_gpus(c, j).len() >= j.gpu_count,
    }
}

/// A MIG job fits: a registry knows its profile and enough slices can be offered.
pub open spec fn fits_mig(reg: Option<MigProfileRegistry>, c: Cluster, j: Job) -> bool {
    match (reg, j.mig_profile) {
        (Some(r), Some(p)) => match r.profiles.lookup(p@) {
            Some(spec) => mig_available(c.gpu_views(), p@, spec) >= j.spec_mig_slices_needed(),
            None => false,
        },
        _ => false,
    }
}

/// Whole GPUs chosen for a job that fits, and whether the topology fallback was used.
pub open spec fn whole_choice(sel: GpuSelectionPolicy, c: Cluster, j: Job) -> Option<(Seq<GpuView>, bool)> {
    match spec_gang_nodes_needed(j) {
        Some(n) => gang_pick(c, j, n),
        None => if spec_wants_topology_aware(j) {
            topology_pick(eligible_gpus(c, j), j.gpu_count)
        } else {
            let pick = match sel {
                GpuSelectionPolicy::FirstFit => scatter_pick(eligible_gpus(c, j), j.gpu_count),
                GpuSelectionPolicy::BestFit => best_fit_pick(eligible_gpus(c, j), j.gpu_count),
            };
            match pick {
                Some(s) => Some((s, false)),
                None => None,
            }
        },
    }
}

impl ResourceManager {
    /// Whole GPUs only, first fit.
    pub fn new() -> (rm: ResourceManager)
        ensures
            rm.mig_registry is None,
            rm.gpu_selection == GpuSelectionPolicy::FirstFit,
    {
        ResourceManager { mig_registry: None, gpu_selection: GpuSelectionPolicy::FirstFit }
    }

    /// With MIG support from `registry`, first fit.
    pub fn with_mig(registry: MigProfileRegistry) -> (rm: ResourceManager)
        ensures
            rm.mig_registry == Some(registry),
            rm.gpu_selection == GpuSelectionPolicy::FirstFit,
    {
        ResourceManager { mig_registry: Some(registry), gpu_selection: GpuSelectionPolicy::FirstFit }
    }

    /// The same manager with selection policy `policy`.
    pub fn with_gpu_selection(self, policy: GpuSelectionPolicy) -> (rm: ResourceManager)
        ensures
            rm.mig_registry == self.mig_registry,
            rm.gpu_selection == policy,
    {
        let mut rm = self;
        rm.gpu_selection = policy;
        rm
    }

    /// Whether `job` can be placed now.
    pub open spec fn spec_can_place(&self, c: Cluster, j: Job) -> bool {
        within_quota(c, j) && if j.spec_is_mig_job() {
            fits_mig(self.mig_registry, c, j)
        } else {
            fits_whole(c, j)
        }
    }

    pub fn can_place(&self, cluster: &Cluster, job: &Job) -> (r: bool)
        ensures
            r == self.spec_can_place(*cluster, *job),
    {
        if !self.within_tenant_quota(cluster, job) {
            return false;
        }
        if job.is_mig_job() {
            return self.can_place_mig(cluster, job);
        }
        self.can_place_whole_gpu(cluster, job)
    }

    fn within_tenant_quota(&self, cluster: &Cluster, job: &Job) -> (r: bool)
        ensures
            r == within_quota(*cluster, *job),
    {
        let tenant = match &job.tenant {
            Some(t) => t,
            None => return true,
        };
        let quota = match cluster.tenant_quotas.get(tenant) {
            Some(q) => *q,
            None => return true,
        };
        let used = cluster.tenant_gpu_usage(tenant);
        proof {
            crate::cluster::lemma_tenant_usage_nonneg(cluster.running_jobs.entries@, tenant@);
        }
        (used as u128) + (job.gpu_count as u128) <= quota as u128
    }

    fn can_place_whole_gpu(&self, cluster: &Cluster, job: &Job) -> (r: bool)
        ensures
            r == fits_whole(*cluster, *job),
    {
        if job.gpu_count == 0 {
            return false;
        }
        if let Some(nodes) = gang_nodes_needed(job) {
            return select_gang_gpus(cluster, job, nodes).is_some();
        }
        let free = eligible_free_gpus(cluster, job);
        assert(gpu_views(free@).len() == free@.len());
        free.len() >= job.gpu_count as usize
    }

    fn can_place_mig(&self, cluster: &Cluster, job: &Job) -> (r: bool)
        ensures
            r == fits_mig(self.mig_registry, *cluster, *job),
    {
        let registry = match &self.mig_registry {
            Some(r) => r,
            None => return false,
        };
        let profile = match &job.mig_profile {
            Some(p) => p,
            None => return false,
        };
        let spec = match registry.profile(profile) {
            Ok(s) => s,
            Err(_) => return false,
        };
        let needed = job.mig_slices_needed();
        let gpus = cluster.all_gpus();
        let ghost gv = cluster.gpu_views();
        let mut available: u64 = 0;
        let mut k: usize = 0;
        while k < gpus.len()
            invariant
                gpu_views(gpus@) == gv,
                k <= gpus@.len(),
                available == if mig_available(gv.take(k as int), profile@, spec) <= u64::MAX {
                    mig_available(gv.take(k as int), profile@, spec)
                } else {
                    u64::MAX as int
                },
            decreases gpus.len() - k,
        {
            proof {
                assert(gv.take(k as int + 1).drop_last() == gv.take(k as int));
                assert(gv.take(k as int + 1).last() == gpus@[k as int]@);
                lemma_mig_available_nonneg(gv.take(k as int), profile@, spec);
            }
            let g = &gpus[k];
            if g.mig_capable {
                let mut add = free_slices_u64(g, profile);
                if g.is_fully_idle() {
                    let partitioned_for_profile = match &g.active_mig_profile {
                        Some(a) => *a == *profile,
                        None => false,
                    };
                    if g.slices.len() == 0 || !partitioned_for_profile {
                        add = add.saturating_add(spec.max_per_gpu as u64);
                    }
                }
                proof {
                    crate::model::lemma_count_free_slices_le(g.slices@, profile@);
                }
                available = available.saturating_add(add);
            }
            k = k + 1;
        }
        proof {
            assert(gv.take(k as int) == gv);
        }
        available >= needed as u64
    }

    /// Chosen GPUs for a whole-GPU job, `None` when it does not fit.
    fn allocate_whole_gpu(&self, cluster: &mut Cluster, job: &Job, start_time: u64) -> (r: Result<Placement, SimError>)
        requires
            old(cluster).topology.nvlink_bw_gbs >= 1,
        ensures
            !fits_whole(*old(cluster), *job) ==> r == Err::<Placement, SimError>(SimError::InsufficientGpus {
                need: job.gpu_count,
                available: crate::cluster::count_whole_free(old(cluster).gpu_views()) as u32,
            }) && *final(cluster) == *old(cluster),
            fits_whole(*old(cluster), *job) && whole_choice(self.gpu_selection, *old(cluster), *job) is None ==> r
                == Err::<Placement, SimError>(SimError::InsufficientGpus { need: job.gpu_count, available: 0 })
                && *final(cluster) == *old(cluster),
            fits_whole(*old(cluster), *job) && whole_choice(self.gpu_selection, *old(cluster), *job) is Some
                ==> whole_outcome(self.gpu_selection, *old(cluster), *final(cluster), *job, start_time, r),
    {
        if !self.can_place_whole_gpu(cluster, job) {
            let available = cluster.free_gpu_count();
            return Err(SimError::InsufficientGpus { need: job.gpu_count, available: available as u32 });
        }
        let ghost c0 = *cluster;
        let picked: Option<(Vec<String>, bool)> = if let Some(nodes) = gang_nodes_needed(job) {
            select_gang_gpus(cluster, job, nodes)
        } else if wants_topology_aware(job) {
            select_gpus_topology_aware(cluster, job)
        } else {
            let ids = match self.gpu_selection {
                GpuSelectionPolicy::FirstFit => select_gpus_scatter(cluster, job),
                GpuSelectionPolicy::BestFit => select_gpus_best_fit(cluster, job),
            };
            match ids {
                Some(v) => Some((v, false)),
                None => None,
            }
        };
        let (selected, used_penalty) = match picked {
            Some(p) => p,
            None => {
                return Err(SimError::InsufficientGpus { need: job.gpu_count, available: 0 });
            },
        };
        if used_penalty {
            cluster.topology_penalties = sat_add_u32_exec(cluster.topology_penalties, 1);
        }
        let keys = keys_for_ids(cluster, &selected);
        proof {
            lemma_topology_keys_len(c0.gpu_views(), strs(selected@));
            law_whole_choice(self.gpu_selection, c0, *job);
        }
        let (num, den) = cluster.topology.runtime_multiplier(&keys, job.gang_enabled, job.network_bw_gbps, used_penalty);
        Ok(Placement { job_id: job.id.clone(), gpu_ids: selected, start_time, runtime_num: num, runtime_den: den })
    }

    /// MIG slices for a MIG job: the first free slices of its profile, or, when
    /// those do not suffice, the free slices on the other GPUs followed by new
    /// slices of one idle GPU repartitioned for the job.
    fn allocate_mig(&self, cluster: &mut Cluster, job: &Job, start_time: u64) -> (r: Result<Placement, SimError>)
        ensures
            mig_outcome(self.mig_registry, *old(cluster), *final(cluster), *job, start_time, r),
    {
        let registry = match &self.mig_registry {
            Some(reg) => reg,
            None => {
                return Err(SimError::Config(String::from_str("MIG job submitted but no MIG profile registry configured")));
            },
        };
        let profile = match &job.mig_profile {
            Some(p) => p,
            None => {
                return Err(SimError::Config(String::from_str("MIG job missing mig_profile")));
            },
        };
        if let Err(e) = registry.profile(profile) {
            return Err(e);
        }
        let needed = job.mig_slices_needed();
        let gpus = cluster.all_gpus();
        let ghost gv = cluster.gpu_views();
        // Free slices of the profile, GPU after GPU.
        let mut all_ids: Vec<String> = Vec::new();
        let mut k: usize = 0;
        while k < gpus.len()
            invariant
                gpu_views(gpus@) == gv,
                k <= gpus@.len(),
                strs(all_ids@) == free_slice_ids(gv.take(k as int), profile@),
            decreases gpus.len() - k,
        {
            proof {
                assert(gv.take(k as int + 1).drop_last() == gv.take(k as int));
                assert(gv.take(k as int + 1).last() == gpus@[k as int]@);
            }
            let mut ids = free_slice_ids_exec(&gpus[k], profile);
            let ghost before = all_ids@;
            let ghost add = ids@;
            all_ids.append(&mut ids);
            proof {
                assert(strs(all_ids@) =~= strs(before) + strs(add));
            }
            k = k + 1;
        }
        proof {
            assert(gv.take(k as int) == gv);
        }
        let mut selected: Vec<String> = if all_ids.len() >= needed as usize {
            let mut out: Vec<String> = Vec::new();
            let mut i: usize = 0;
            while i < needed as usize
                invariant
                    i <= needed,
                    needed <= all_ids@.len(),
                    strs(out@) == strs(all_ids@).take(i as int),
                decreases needed - i,
            {
                let ghost before = out@;
                out.push(all_ids[i].clone());
                proof {
                    assert(strs(out@) =~= strs(before).push(all_ids@[i as int]@));
                    assert(strs(all_ids@).take(i as int + 1) =~= strs(all_ids@).take(i as int).push(all_ids@[i as int]@));
                }
                i = i + 1;
            }
            out
        } else {
            all_ids
        };
        let mut reconfig_delay: u64 = 0;
        if selected.len() < needed as usize {
            let target = find_repartition_target(&gpus, profile, needed);
            if let Some(t) = target {
                let mut g = gpus[t].duplicate();
                assert(g@ == gv[t as int]);
                match reconfigure_gpu(&mut g, profile, needed, registry) {
                    Ok(()) => {},
                    Err(e) => return Err(e),
                }
                assert(g.slices@.len() == needed);
                // Keep the free slices found on the other GPUs; the repartitioned
                // GPU supplies the rest.
                let mut kept: Vec<String> = Vec::new();
                let mut q: usize = 0;
                while q < gpus.len()
                    invariant
                        gpu_views(gpus@) == gv,
                        q <= gpus@.len(),
                        t < gpus@.len(),
                        strs(kept@) == free_slice_ids_but(gv.take(q as int), profile@, t as int),
                    decreases gpus.len() - q,
                {
                    proof {
                        assert(gv.take(q as int + 1).drop_last() == gv.take(q as int));
                        assert(gv.take(q as int + 1).last() == gpus@[q as int]@);
                    }
                    if q != t {
                        let mut ids = free_slice_ids_exec(&gpus[q], profile);
                        let ghost before = kept@;
                        let ghost add = ids@;
                        kept.append(&mut ids);
                        proof {
                            assert(strs(kept@) =~= strs(before) + strs(add));
                        }
                    } else {
                        proof {
                            assert(free_slice_ids_but(gv.take(q as int + 1), profile@, t as int) =~= free_slice_ids_but(
                                gv.take(q as int),
                                profile@,
                                t as int,
                            ));
                        }
                    }
                    q = q + 1;
                }
                proof {
                    assert(gv.take(q as int) == gv);
                    lemma_free_slice_ids_but_len(gv, profile@, t as int);
                    assert(strs(all_ids@) == free_slice_ids(gv, profile@));
                }
                let extra = needed as usize - kept.len();
                let ghost base = kept@;
                let mut i: usize = 0;
                while i < extra
                    invariant
                        i <= extra,
                        extra <= g.slices@.len(),
                        strs(kept@) == strs(base) + g.slices@.take(i as int).map_values(|s: MigSlice| s.id@),
                    decreases extra - i,
                {
                    let ghost before = kept@;
                    kept.push(g.slices[i].id.clone());
                    proof {
                        assert(strs(kept@) =~= strs(before).push(g.slices@[i as int].id@));
                        assert(g.slices@.take(i as int + 1).map_values(|s: MigSlice| s.id@) =~= g.slices@.take(
                            i as int,
                        ).map_values(|s: MigSlice| s.id@).push(g.slices@[i as int].id@));
                    }
                    i = i + 1;
                }
                proof {
                    assert(g.slices@.take(extra as int).map_values(|s: MigSlice| s.id@) =~= Seq::new(
                        extra as nat,
                        |i: int| slice_id(gv[t as int].id@, i as nat),
                    ));
                }
                selected = kept;
                let ghost gnew = g@;
                cluster.replace_gpu_at(t, g);
                cluster.mig_reconfigs = sat_add_u32_exec(cluster.mig_reconfigs, 1);
                reconfig_delay = registry.reconfig_seconds;
                proof {
                    assert(cluster.gpu_views()[t as int] == gnew);
                    assert(selected@.len() == needed);
                }
            }
        }
        if selected.len() != needed as usize {
            return Err(SimError::InsufficientGpus { need: needed, available: selected.len() as u32 });
        }
        Ok(Placement {
            job_id: job.id.clone(),
            gpu_ids: selected,
            start_time: sat_add_exec(start_time, reconfig_delay),
            runtime_num: 1,
            runtime_den: 1,
        })
    }

    /// Places `job`: MIG slices for MIG jobs, whole GPUs otherwise.
    pub fn allocate(&self, cluster: &mut Cluster, job: &Job, start_time: u64) -> (r: Result<Placement, SimError>)
        requires
            old(cluster).topology.nvlink_bw_gbs >= 1,
        ensures
            job.spec_is_mig_job() ==> mig_outcome(self.mig_registry, *old(cluster), *final(cluster), *job, start_time, r),
            !job.spec_is_mig_job() ==> whole_allocation(self.gpu_selection, *old(cluster), *final(cluster), *job, start_time, r),
    {
        if job.is_mig_job() {
            return self.allocate_mig(cluster, job, start_time);
        }
        self.allocate_whole_gpu(cluster, job, start_time)
    }

    /// Releasing is done by the cluster when a job finishes; nothing to do here.
    pub fn release(&self, _cluster: &mut Cluster, _job: &Job)
        ensures
            *final(_cluster) == *old(_cluster),
    {
    }
}

/// Outcome of whole-GPU allocation for every input.
pub open spec fn whole_allocation(sel: GpuSelectionPolicy, c0: Cluster, c1: Cluster, j: Job, start: u64, r: Result<Placement, SimError>) -> bool {
    if !fits_whole(c0, j) {
        r == Err::<Placement, SimError>(SimError::InsufficientGpus {
            need: j.gpu_count,
            available: crate::cluster::count_whole_free(c0.gpu_views()) as u32,
        }) && c1 == c0
    } else if whole_choice(sel, c0, j) is None {
        r == Err::<Placement, SimError>(SimError::InsufficientGpus { need: j.gpu_count, available: 0 }) && c1 == c0
    } else {
        whole_outcome(sel, c0, c1, j, start, r)
    }
}

/// Free slice ids taken before any repartition: the first `needed`, or all when fewer.
pub open spec fn first_free_slices(gv: Seq<GpuView>, p: Seq<char>, needed: u32) -> Seq<Seq<char>> {
    let all = free_slice_ids(gv, p);
    if all.len() >= needed { all.take(needed as int) } else { all }
}

/// Outcome of MIG allocation for every input.
pub open spec fn mig_outcome(reg: Option<MigProfileRegistry>, c0: Cluster, c1: Cluster, j: Job, start: u64, r: Result<Placement, SimError>) -> bool {
    match (reg, j.mig_profile) {
        (None, _) => c1 == c0 && (r matches Err(e) && e is Config),
        (_, None) => c1 == c0 && (r matches Err(e) && e is Config),
        (Some(reg), Some(p)) => match reg.profiles.lookup(p@) {
            None => c1 == c0 && (r matches Err(e) && e is Config),
            Some(spec) => {
                let gv = c0.gpu_views();
                let needed = j.spec_mig_slices_needed();
                let sel1 = first_free_slices(gv, p@, needed);
                if sel1.len() == needed {
                    &&& c1 == c0
                    &&& r matches Ok(pl)
                    &&& pl.job_id == j.id
                    &&& strs(pl.gpu_ids@) == sel1
                    &&& pl.start_time == start
                    &&& pl.runtime_num == 1
                    &&& pl.runtime_den == 1
                } else {
                    let k = repartition_target(gv, p@, needed);
                    if k < 0 {
                        c1 == c0 && r == Err::<Placement, SimError>(SimError::InsufficientGpus {
                            need: needed,
                            available: sel1.len() as u32,
                        })
                    } else if !(reconfigure_check(gv[k], p@, needed, reg) is Allowed) {
                        &&& c1 == c0
                        &&& r matches Err(e)
                        &&& e is Config
                    } else {
                        let gk = c1.gpu_views()[k];
                        &&& c1.gpu_views() == gv.update(k, gk)
                        &&& is_layout(gv[k], gk, p@, needed as nat, spec.memory_gb)
                        &&& c1.mig_reconfigs == sat_add_u32(c0.mig_reconfigs, 1)
                        &&& c1 == Cluster { nodes: c1.nodes, mig_reconfigs: c1.mig_reconfigs, ..c0 }
                        &&& r matches Ok(pl)
                        &&& pl.job_id == j.id
                        &&& strs(pl.gpu_ids@) == free_slice_ids_but(gv, p@, k) + Seq::new(
                            (needed - free_slice_ids_but(gv, p@, k).len()) as nat,
                            |i: int| slice_id(gv[k].id@, i as nat),
                        )
                        &&& pl.start_time == sat_add(start, reg.reconfig_seconds)
                        &&& pl.runtime_num == 1
                        &&& pl.runtime_den == 1
                    }
                }
            },
        },
    }
}

/// Index of the first MIG-capable idle GPU of `gpus` with fewer than `needed` free slices of `profile`.
fn find_repartition_target(gpus: &Vec<Gpu>, profile: &String, needed: u32) -> (r: Option<usize>)
    ensures
        match r {
            Some(t) => t < gpus@.len() && repartition_target(gpu_views(gpus@), profile@, needed) == t,
            None => repartition_target(gpu_views(gpus@), profile@, needed) < 0,
        },
{
    let ghost gv = gpu_views(gpus@);
    let mut t: usize = 0;
    while t < gpus.len()
        invariant
            gpu_views(gpus@) == gv,
            t <= gpus@.len(),
            repartition_target(gv.take(t as int), profile@, needed) < 0,
        decreases gpus.len() - t,
    {
        proof {
            assert(gv.take(t as int + 1).drop_last() == gv.take(t as int));
            assert(gv.take(t as int + 1).last() == gpus@[t as int]@);
        }
        let g = &gpus[t];
        if g.mig_capable && g.is_fully_idle() && free_slices_u64(g, profile) < needed as u64 {
            proof {
                lemma_repartition_target_prefix(gv, t as int + 1, profile@, needed);
            }
            return Some(t);
        }
        t = t + 1;
    }
    proof {
        assert(gv.take(t as int) == gv);
    }
    None
}

proof fn lemma_repartition_target_prefix(gv: Seq<GpuView>, k: int, p: Seq<char>, needed: u32)
    requires
        0 < k <= gv.len(),
        repartition_target(gv.take(k - 1), p, needed) < 0,
        gv[k - 1].mig_capable && gv[k - 1].fully_idle() && gv[k - 1].free_slices(p) < needed,
    ensures
        repartition_target(gv, p, needed) == k - 1,
    decreases gv.len(),
{
    if k == gv.len() {
        assert(gv.drop_last() == gv.take(k - 1));
    } else {
        assert(gv.drop_last().take(k - 1) == gv.take(k - 1));
        assert(gv.drop_last()[k - 1] == gv[k - 1]);
        lemma_repartition_target_prefix(gv.drop_last(), k, p, needed);
    }
}

/// What allocating a fitting whole-GPU job does: the chosen GPUs, the topology
/// penalty counter bumped on fallback, and the runtime multiplier of the choice.
pub open spec fn whole_outcome(sel: GpuSelectionPolicy, c0: Cluster, c1: Cluster, j: Job, start: u64, r: Result<Placement, SimError>) -> bool {
    let (gs, pen) = whole_choice(sel, c0, j)->0;
    &&& r is Ok
    &&& r->Ok_0.job_id == j.id
    &&& strs(r->Ok_0.gpu_ids@) == gpu_ids(gs)
    &&& r->Ok_0.start_time == start
    &&& (r->Ok_0.runtime_num as int, r->Ok_0.runtime_den as int) == spec_runtime_multiplier(
        c0.topology,
        topology_keys(c0.gpu_views(), gpu_ids(gs)),
        j.gang_enabled,
        j.network_bw_gbps,
        pen,
    )
    &&& c1.topology_penalties == if pen { sat_add_u32(c0.topology_penalties, 1) } else { c0.topology_penalties }
    &&& c1 == Cluster { topology_penalties: c1.topology_penalties, ..c0 }
}


/// Every gang candidate carries exactly `per` GPUs.
proof fn lemma_candidates_per(sites: StrMap<String>, nodes: Seq<NodeView>, j: Job, per: u32)
    ensures
        forall|i: int| 0 <= i < gang_candidates(sites, nodes, j, per).len() ==> (#[trigger] gang_candidates(sites, nodes, j, per)[i]).1.len() == per,
    decreases nodes.len(),
{
    if nodes.len() > 0 {
        lemma_candidates_per(sites, nodes.drop_last(), j, per);
        let d = gang_candidates(sites, nodes.drop_last(), j, per);
        let free = eligible_among(sites, nodes.last().gpus, j);
        lemma_first_big_group_size(free, nv_keys(free), per);
        match node_candidate(sites, nodes.last(), j, per) {
            Some(cand) => {
                assert(cand.1.len() == per);
                let gc = gang_candidates(sites, nodes, j, per);
                assert(gc == d.push(cand));
                assert forall|i: int| 0 <= i < gc.len() implies (#[trigger] gc[i]).1.len() == per by {
                    if i < d.len() {
                        assert(gc[i] == d[i]);
                    }
                }
            },
            None => {},
        }
    }
}

proof fn lemma_first_big_group_size(s: Seq<GpuView>, keys: Seq<Option<u32>>, per: u32)
    ensures
        first_big_group(s, keys, per) matches Some(g) ==> group_of(s, g).len() >= per,
    decreases keys.len(),
{
    if keys.len() > 0 {
        lemma_first_big_group_size(s, keys.drop_last(), per);
    }
}

proof fn lemma_gang_concat_len(top: Seq<(GangKey, Seq<GpuView>)>, per: u32)
    requires
        forall|i: int| 0 <= i < top.len() ==> (#[trigger] top[i]).1.len() == per,
    ensures
        gang_concat(top, per).len() == top.len() * per,
    decreases top.len(),
{
    if top.len() > 0 {
        lemma_gang_concat_len(top.drop_last(), per);
        assert(top.drop_last().len() * per + per == top.len() * per) by (nonlinear_arith)
            requires top.drop_last().len() + 1 == top.len();
    }
}

/// A job the manager can place keeps its tenant within quota: the GPUs the
/// tenant already runs plus the job's do not exceed the tenant's quota.
pub proof fn law_quota(rm: ResourceManager, c: Cluster, j: Job)
    requires
        rm.spec_can_place(c, j),
    ensures
        j.tenant matches Some(t) ==> (c.tenant_quotas.lookup(t@) matches Some(q) ==> tenant_usage(
            c.running_jobs.entries@,
            t@,
        ) + j.gpu_count <= q),
{
}

/// Every GPU of `s` is free as a whole and eligible for `j`.
pub open spec fn all_eligible(sites: StrMap<String>, s: Seq<GpuView>, j: Job) -> bool {
    forall|i: int| 0 <= i < s.len() ==> eligible(sites, #[trigger] s[i], j)
}

proof fn lemma_filter_eligible(sites: StrMap<String>, s: Seq<GpuView>, pred: spec_fn(GpuView) -> bool, j: Job)
    requires
        all_eligible(sites, s, j),
    ensures
        all_eligible(sites, s.filter(pred), j),
{
    assert forall|i: int| 0 <= i < s.filter(pred).len() implies eligible(sites, #[trigger] s.filter(pred)[i], j) by {
        let x = s.filter(pred)[i];
        assert(s.filter(pred).contains(x));
        s.lemma_filter_contains_rev(pred, x);
        let k = choose|k: int| 0 <= k < s.len() && s[k] == x;
        assert(eligible(sites, s[k], j));
    }
}

proof fn lemma_take_eligible(sites: StrMap<String>, s: Seq<GpuView>, n: int, j: Job)
    requires
        all_eligible(sites, s, j),
        0 <= n <= s.len(),
    ensures
        all_eligible(sites, s.take(n), j),
{
    assert forall|i: int| 0 <= i < s.take(n).len() implies eligible(sites, #[trigger] s.take(n)[i], j) by {
        assert(s.take(n)[i] == s[i]);
    }
}

proof fn lemma_eligible_gpus(c: Cluster, j: Job)
    ensures
        all_eligible(c.node_sites, eligible_gpus(c, j), j),
{
    broadcast use vstd::seq_lib::group_filter_ensures;

    let el = eligible_gpus(c, j);
    assert forall|i: int| 0 <= i < el.len() implies eligible(c.node_sites, #[trigger] el[i], j) by {
        assert(eligible_pred(c.node_sites, j)(el[i]));
    }
}

proof fn lemma_concat_nodes_eligible(sites: StrMap<String>, el: Seq<GpuView>, ids: Seq<String>, j: Job)
    requires
        all_eligible(sites, el, j),
    ensures
        all_eligible(sites, concat_nodes(el, ids), j),
    decreases ids.len(),
{
    if ids.len() > 0 {
        lemma_concat_nodes_eligible(sites, el, ids.drop_last(), j);
        lemma_filter_eligible(sites, el, on_node(ids.last()@), j);
        let a = concat_nodes(el, ids.drop_last());
        let b = node_members(el, ids.last()@);
        assert forall|i: int| 0 <= i < (a + b).len() implies eligible(sites, #[trigger] (a + b)[i], j) by {
            if i < a.len() {
                assert((a + b)[i] == a[i]);
            } else {
                assert((a + b)[i] == b[i - a.len()]);
            }
        }
    }
}

proof fn lemma_candidates_eligible(sites: StrMap<String>, nodes: Seq<NodeView>, j: Job, per: u32)
    ensures
        forall|i: int|
            0 <= i < gang_candidates(sites, nodes, j, per).len() ==> all_eligible(
                sites,
                (#[trigger] gang_candidates(sites, nodes, j, per)[i]).1,
                j,
            ),
    decreases nodes.len(),
{
    broadcast use vstd::seq_lib::group_filter_ensures;

    if nodes.len() > 0 {
        lemma_candidates_eligible(sites, nodes.drop_last(), j, per);
        let free = eligible_among(sites, nodes.last().gpus, j);
        assert forall|i: int| 0 <= i < free.len() implies eligible(sites, #[trigger] free[i], j) by {
            assert(eligible_pred(sites, j)(free[i]));
        }
        lemma_first_big_group_size(free, nv_keys(free), per);
        if free.len() >= per {
            match first_big_group(free, nv_keys(free), per) {
                Some(g) => {
                    lemma_filter_eligible(sites, free, in_group(g), j);
                    lemma_take_eligible(sites, group_of(free, g), per as int, j);
                },
                None => lemma_take_eligible(sites, free, per as int, j),
            }
        }
        let d = gang_candidates(sites, nodes.drop_last(), j, per);
        let gc = gang_candidates(sites, nodes, j, per);
        assert forall|i: int| 0 <= i < gc.len() implies all_eligible(sites, (#[trigger] gc[i]).1, j) by {
            if i < d.len() {
                assert(gc[i] == d[i]);
            }
        }
    }
}

proof fn lemma_gang_concat_eligible(sites: StrMap<String>, top: Seq<(GangKey, Seq<GpuView>)>, per: u32, j: Job)
    requires
        forall|i: int| 0 <= i < top.len() ==> all_eligible(sites, (#[trigger] top[i]).1, j),
    ensures
        all_eligible(sites, gang_concat(top, per), j),
    decreases top.len(),
{
    if top.len() > 0 {
        lemma_gang_concat_eligible(sites, top.drop_last(), per, j);
        let a = gang_concat(top.drop_last(), per);
        let b = top.last().1;
        assert(all_eligible(sites, b, j));
        assert forall|i: int| 0 <= i < (a + b).len() implies eligible(sites, #[trigger] (a + b)[i], j) by {
            if i < a.len() {
                assert((a + b)[i] == a[i]);
            } else {
                assert((a + b)[i] == b[i - a.len()]);
            }
        }
    }
}

/// Whole-GPU placement is all or nothing: whatever a selection policy chooses
/// for a job holds exactly the job's GPU count, and each chosen GPU is free as
/// a whole and eligible for the job.
pub proof fn law_whole_choice(sel: GpuSelectionPolicy, c: Cluster, j: Job)
    ensures
        whole_choice(sel, c, j) matches Some((gs, _)) ==> gs.len() == j.gpu_count && all_eligible(c.node_sites, gs, j),
{
    let el = eligible_gpus(c, j);
    lemma_eligible_gpus(c, j);
    match spec_gang_nodes_needed(j) {
        Some(n) => {
            match spec_gpus_per_gang_node(j, n) {
                Some(per) => {
                    let cands = gang_candidates(c.node_sites, crate::cluster::node_views(c.nodes@), j, per);
                    lemma_candidates_per(c.node_sites, crate::cluster::node_views(c.nodes@), j, per);
                    lemma_candidates_eligible(c.node_sites, crate::cluster::node_views(c.nodes@), j, per);
                    let pp = |e: (GangKey, Seq<GpuView>)| e.1.len() == per && all_eligible(c.node_sites, e.1, j);
                    assert forall|i: int| 0 <= i < cands.len() implies pp(#[trigger] cands[i]) by {}
                    crate::sort::lemma_sort_forall(cands, pp);
                    crate::sort::lemma_sort_len(cands);
                    if cands.len() >= n {
                        let top = sort_ranked(cands).take(n as int);
                        assert forall|i: int| 0 <= i < top.len() implies (#[trigger] top[i]).1.len() == per
                            && all_eligible(c.node_sites, top[i].1, j) by {
                            assert(top[i] == sort_ranked(cands)[i]);
                            assert(pp(sort_ranked(cands)[i]));
                        }
                        lemma_gang_concat_len(top, per);
                        lemma_gang_concat_eligible(c.node_sites, top, per, j);
                        assert(n * per == j.gpu_count) by (nonlinear_arith)
                            requires per == j.gpu_count / n, j.gpu_count % n == 0, n > 0;
                    }
                },
                None => {},
            }
        },
        None => {
            let n = j.gpu_count as int;
            if n <= el.len() {
                lemma_take_eligible(c.node_sites, el, n, j);
            }
            if spec_wants_topology_aware(j) {
                match largest_group(el, nv_keys(el), j.gpu_count).0 {
                    Some(grp) => {
                        lemma_filter_eligible(c.node_sites, el, in_group(grp), j);
                        if n <= group_of(el, grp).len() {
                            lemma_take_eligible(c.node_sites, group_of(el, grp), n, j);
                        }
                    },
                    None => {},
                }
            } else {
                lemma_tightest_size(el, node_keys(el), j.gpu_count);
                match tightest_node(el, node_keys(el), j.gpu_count) {
                    Some(id) => {
                        lemma_filter_eligible(c.node_sites, el, on_node(id@), j);
                        lemma_take_eligible(c.node_sites, node_members(el, id@), n, j);
                    },
                    None => {
                        let order = sort_ranked(fill_pairs(el, node_keys(el))).map_values(|p: (FillKey, String)| p.1);
                        lemma_concat_nodes_eligible(c.node_sites, el, order, j);
                        if n <= concat_nodes(el, order).len() {
                            lemma_take_eligible(c.node_sites, concat_nodes(el, order), n, j);
                        }
                    },
                }
            }
        },
    }
}

proof fn lemma_tightest_size(el: Seq<GpuView>, keys: Seq<String>, n: u32)
    ensures
        tightest_node(el, keys, n) matches Some(id) ==> node_members(el, id@).len() >= n,
    decreases keys.len(),
{
    if keys.len() > 0 {
        lemma_tightest_size(el, keys.drop_last(), n);
    }
}


/// Packing nodes one after another yields every GPU of those nodes.
proof fn lemma_concat_len(el: Seq<GpuView>, ids: Seq<String>)
    ensures
        concat_nodes(el, ids).len() == members_total(el, ids),
    decreases ids.len(),
{
    if ids.len() > 0 {
        lemma_concat_len(el, ids.drop_last());
    }
}

/// GPUs on the nodes named by the payloads of `ps`, summed pair by pair.
proof fn lemma_members_pairs(el: Seq<GpuView>, ps: Seq<(FillKey, String)>)
    ensures
        members_total(el, ps.map_values(|p: (FillKey, String)| p.1)) == total(
            ps,
            |p: (FillKey, String)| node_members(el, p.1@).len(),
        ),
    decreases ps.len(),
{
    if ps.len() > 0 {
        lemma_members_pairs(el, ps.drop_last());
        assert(ps.map_values(|p: (FillKey, String)| p.1).drop_last() == ps.drop_last().map_values(
            |p: (FillKey, String)| p.1,
        ));
    }
}

/// Packing all nodes, fullest first, covers every eligible GPU.
proof fn lemma_packed_len(el: Seq<GpuView>)
    ensures
        concat_nodes(el, sort_ranked(fill_pairs(el, node_keys(el))).map_values(|p: (FillKey, String)| p.1)).len()
            == el.len(),
{
    let fp = fill_pairs(el, node_keys(el));
    let w = |p: (FillKey, String)| node_members(el, p.1@).len();
    let order = sort_ranked(fp).map_values(|p: (FillKey, String)| p.1);
    lemma_concat_len(el, order);
    lemma_members_pairs(el, sort_ranked(fp));
    lemma_sort_total(fp, w);
    lemma_members_pairs(el, fp);
    assert(fp.map_values(|p: (FillKey, String)| p.1) == node_keys(el));
    lemma_members_cover(el);
}

/// A whole-GPU job that fits is always given GPUs, whatever the selection
/// policy; so a whole-GPU job that `can_place` accepts is placed by `allocate`.
pub proof fn law_fitting_job_is_allocated(
    rm: ResourceManager,
    c: Cluster,
    j: Job,
    after: Cluster,
    start: u64,
    r: Result<Placement, SimError>,
)
    ensures
        fits_whole(c, j) ==> whole_choice(rm.gpu_selection, c, j) is Some,
        !j.spec_is_mig_job() && rm.spec_can_place(c, j) && whole_allocation(rm.gpu_selection, c, after, j, start, r)
            ==> r is Ok,
{
    let sel = rm.gpu_selection;
    let el = eligible_gpus(c, j);
    if spec_gang_nodes_needed(j) is None && !spec_wants_topology_aware(j) && sel == GpuSelectionPolicy::BestFit {
        lemma_packed_len(el);
    }
    law_whole_choice(sel, c, j);
}

/// Every GPU of `s` sits on the node with id `x`.
pub open spec fn all_on(s: Seq<GpuView>, x: Seq<char>) -> bool {
    forall|i: int| 0 <= i < s.len() ==> (#[trigger] s[i]).node_id@ == x
}

/// Each node's GPUs carry that node's id, and no two nodes share an id.
pub open spec fn nodes_well_named(nodes: Seq<NodeView>) -> bool {
    &&& forall|i: int| 0 <= i < nodes.len() ==> all_on((#[trigger] nodes[i]).gpus, nodes[i].id@)
    &&& forall|i: int, k: int| 0 <= i < k < nodes.len() ==> (#[trigger] nodes[i]).id@ != (#[trigger] nodes[k]).id@
}

/// `gs` lies on exactly `n` nodes, `per` GPUs on each.
pub open spec fn spread_over(gs: Seq<GpuView>, n: nat, per: nat) -> bool {
    &&& node_keys(gs).len() == n
    &&& forall|t: int| 0 <= t < gs.len() ==> node_members(gs, (#[trigger] gs[t]).node_id@).len() == per
}

/// Node ids of gang candidates, in order.
pub open spec fn cand_ids(cs: Seq<(GangKey, Seq<GpuView>)>) -> Seq<Seq<char>> {
    cs.map_values(|e: (GangKey, Seq<GpuView>)| e.0.id@)
}

proof fn lemma_filter_on(s: Seq<GpuView>, pred: spec_fn(GpuView) -> bool, x: Seq<char>)
    requires
        all_on(s, x),
    ensures
        all_on(s.filter(pred), x),
{
    assert forall|i: int| 0 <= i < s.filter(pred).len() implies (#[trigger] s.filter(pred)[i]).node_id@ == x by {
        let y = s.filter(pred)[i];
        assert(s.filter(pred).contains(y));
        s.lemma_filter_contains_rev(pred, y);
        let k = choose|k: int| 0 <= k < s.len() && s[k] == y;
        assert(s[k].node_id@ == x);
    }
}

proof fn lemma_take_on(s: Seq<GpuView>, n: int, x: Seq<char>)
    requires
        all_on(s, x),
        0 <= n <= s.len(),
    ensures
        all_on(s.take(n), x),
{
    assert forall|i: int| 0 <= i < s.take(n).len() implies (#[trigger] s.take(n)[i]).node_id@ == x by {
        assert(s.take(n)[i] == s[i]);
    }
}

/// Gang candidates of well-named nodes: each holds GPUs of its own node, and no
/// two candidates name the same node.
proof fn lemma_candidates_named(sites: StrMap<String>, nodes: Seq<NodeView>, j: Job, per: u32)
    requires
        nodes_well_named(nodes),
    ensures
        forall|i: int|
            0 <= i < gang_candidates(sites, nodes, j, per).len() ==> all_on(
                (#[trigger] gang_candidates(sites, nodes, j, per)[i]).1,
                gang_candidates(sites, nodes, j, per)[i].0.id@,
            ),
        forall|i: int|
            0 <= i < gang_candidates(sites, nodes, j, per).len() ==> exists|k: int|
                0 <= k < nodes.len() && (#[trigger] gang_candidates(sites, nodes, j, per)[i]).0.id@ == (
                #[trigger] nodes[k]).id@,
        cand_ids(gang_candidates(sites, nodes, j, per)).no_duplicates(),
    decreases nodes.len(),
{
    if nodes.len() > 0 {
        let d = nodes.drop_last();
        assert forall|i: int| 0 <= i < d.len() implies all_on((#[trigger] d[i]).gpus, d[i].id@) by {
            assert(d[i] == nodes[i]);
        }
        assert forall|i: int, k: int| 0 <= i < k < d.len() implies (#[trigger] d[i]).id@ != (#[trigger] d[k]).id@ by {
            assert(d[i] == nodes[i] && d[k] == nodes[k]);
        }
        lemma_candidates_named(sites, d, j, per);
        let last = nodes.len() - 1;
        let nl = nodes[last];
        assert(nodes.last() == nl);
        assert(all_on(nl.gpus, nl.id@));
        let free = eligible_among(sites, nl.gpus, j);
        lemma_filter_on(nl.gpus, eligible_pred(sites, j), nl.id@);
        lemma_first_big_group_size(free, nv_keys(free), per);
        if free.len() >= per {
            match first_big_group(free, nv_keys(free), per) {
                Some(g) => {
                    lemma_filter_on(free, in_group(g), nl.id@);
                    lemma_take_on(group_of(free, g), per as int, nl.id@);
                },
                None => lemma_take_on(free, per as int, nl.id@),
            }
        }
        let dc = gang_candidates(sites, d, j, per);
        let gc = gang_candidates(sites, nodes, j, per);
        match node_candidate(sites, nl, j, per) {
            Some(cn) => {
                assert(gc == dc.push(cn));
                assert forall|i: int| 0 <= i < gc.len() implies all_on((#[trigger] gc[i]).1, gc[i].0.id@) by {
                    if i < dc.len() {
                        assert(gc[i] == dc[i]);
                    }
                }
                assert forall|i: int| 0 <= i < gc.len() implies exists|k: int|
                    0 <= k < nodes.len() && (#[trigger] gc[i]).0.id@ == (#[trigger] nodes[k]).id@ by {
                    if i < dc.len() {
                        assert(gc[i] == dc[i]);
                        let k = choose|k: int| 0 <= k < d.len() && dc[i].0.id@ == (#[trigger] d[k]).id@;
                        assert(d[k] == nodes[k]);
                    } else {
                        assert(gc[i].0.id@ == nodes[last].id@);
                    }
                }
                assert forall|i: int| 0 <= i < dc.len() implies (#[trigger] cand_ids(dc)[i]) != nl.id@ by {
                    let k = choose|k: int| 0 <= k < d.len() && dc[i].0.id@ == (#[trigger] d[k]).id@;
                    assert(d[k] == nodes[k]);
                }
                assert(cand_ids(gc) == cand_ids(dc).push(nl.id@));
                assert forall|a: int, b: int|
                    0 <= a < cand_ids(gc).len() && 0 <= b < cand_ids(gc).len() && a != b implies cand_ids(gc)[a]
                    != cand_ids(gc)[b] by {
                    if a < dc.len() && b < dc.len() {
                        assert(cand_ids(gc)[a] == cand_ids(dc)[a] && cand_ids(gc)[b] == cand_ids(dc)[b]);
                    } else if a < dc.len() {
                        assert(cand_ids(gc)[a] == cand_ids(dc)[a]);
                    } else if b < dc.len() {
                        assert(cand_ids(gc)[b] == cand_ids(dc)[b]);
                    }
                }
            },
            None => {
                assert(gc == dc);
                assert forall|i: int| 0 <= i < gc.len() implies exists|k: int|
                    0 <= k < nodes.len() && (#[trigger] gc[i]).0.id@ == (#[trigger] nodes[k]).id@ by {
                    let k = choose|k: int| 0 <= k < d.len() && dc[i].0.id@ == (#[trigger] d[k]).id@;
                    assert(d[k] == nodes[k]);
                }
            },
        }
    }
}

/// Blocks of distinct nodes, `per` GPUs each, joined: a node named by a block has
/// `per` members, any other none.
proof fn lemma_concat_members(top: Seq<(GangKey, Seq<GpuView>)>, per: u32, x: Seq<char>)
    requires
        forall|i: int| 0 <= i < top.len() ==> (#[trigger] top[i]).1.len() == per && all_on(top[i].1, top[i].0.id@),
        cand_ids(top).no_duplicates(),
    ensures
        node_members(gang_concat(top, per), x).len() == if cand_ids(top).contains(x) { per as nat } else { 0nat },
    decreases top.len(),
{
    if top.len() > 0 {
        let d = top.drop_last();
        let last = top.len() - 1;
        assert(top.last() == top[last]);
        assert forall|i: int| 0 <= i < d.len() implies (#[trigger] d[i]).1.len() == per && all_on(d[i].1, d[i].0.id@) by {
            assert(d[i] == top[i]);
        }
        assert(cand_ids(d) == cand_ids(top).drop_last());
        lemma_concat_members(d, per, x);
        let a = gang_concat(d, per);
        let b = top[last].1;
        let id = top[last].0.id@;
        Seq::filter_distributes_over_add(a, b, on_node(x));
        if id == x {
            lemma_members_all(b, x);
        } else {
            lemma_members_absent(b, x);
        }
        assert(cand_ids(top) == cand_ids(d).push(id));
        if cand_ids(d).contains(x) {
            let i = choose|i: int| 0 <= i < cand_ids(d).len() && cand_ids(d)[i] == x;
            assert(cand_ids(top)[i] == x);
            if id == x {
                assert(cand_ids(top)[last] == x);
            }
        }
        if cand_ids(top).contains(x) {
            let i = choose|i: int| 0 <= i < cand_ids(top).len() && cand_ids(top)[i] == x;
            if i < d.len() {
                assert(cand_ids(d)[i] == x);
            }
        }
        if id == x {
            assert(cand_ids(top)[last] == x);
        }
    }
}

/// Every GPU of joined blocks lies on a node that one of the blocks names.
proof fn lemma_concat_named(top: Seq<(GangKey, Seq<GpuView>)>, per: u32)
    requires
        forall|i: int| 0 <= i < top.len() ==> all_on((#[trigger] top[i]).1, top[i].0.id@),
    ensures
        forall|t: int| 0 <= t < gang_concat(top, per).len() ==> cand_ids(top).contains(
            (#[trigger] gang_concat(top, per)[t]).node_id@,
        ),
    decreases top.len(),
{
    if top.len() > 0 {
        let d = top.drop_last();
        let last = top.len() - 1;
        assert(top.last() == top[last]);
        assert forall|i: int| 0 <= i < d.len() implies all_on((#[trigger] d[i]).1, d[i].0.id@) by {
            assert(d[i] == top[i]);
        }
        lemma_concat_named(d, per);
        let a = gang_concat(d, per);
        let b = top[last].1;
        assert(gang_concat(top, per) == a + b);
        assert forall|t: int| 0 <= t < (a + b).len() implies cand_ids(top).contains((#[trigger] (a + b)[t]).node_id@) by {
            if t < a.len() {
                assert((a + b)[t] == a[t]);
                let i = choose|i: int| 0 <= i < cand_ids(d).len() && cand_ids(d)[i] == a[t].node_id@;
                assert(cand_ids(top)[i] == cand_ids(d)[i]);
            } else {
                assert((a + b)[t] == b[t - a.len()]);
                assert(cand_ids(top)[last] == top[last].0.id@);
            }
        }
    }
}

/// Nodes with `per` members each: counting members over `keys` gives `per` per key.
proof fn lemma_total_per(gs: Seq<GpuView>, keys: Seq<String>, per: nat)
    requires
        forall|i: int| 0 <= i < keys.len() ==> node_members(gs, (#[trigger] keys[i])@).len() == per,
    ensures
        members_total(gs, keys) == keys.len() * per,
    decreases keys.len(),
{
    if keys.len() > 0 {
        let d = keys.drop_last();
        assert forall|i: int| 0 <= i < d.len() implies node_members(gs, (#[trigger] d[i])@).len() == per by {
            assert(d[i] == keys[i]);
        }
        lemma_total_per(gs, d, per);
        assert(keys.last() == keys[keys.len() - 1]);
        assert(d.len() * per + per == keys.len() * per) by (nonlinear_arith)
            requires
                d.len() + 1 == keys.len(),
        ;
    }
}

/// A gang job that fits is spread over exactly as many nodes as it asks for, with
/// the same number of GPUs on each, whenever every node's GPUs carry that node's
/// id and no two nodes share an id.
pub proof fn law_gang_spread(sel: GpuSelectionPolicy, c: Cluster, j: Job)
    requires
        nodes_well_named(crate::cluster::node_views(c.nodes@)),
    ensures
        fits_whole(c, j) && spec_gang_nodes_needed(j) is Some ==> spread_over(
            (whole_choice(sel, c, j)->0).0,
            spec_gang_nodes_needed(j)->0 as nat,
            (j.gpu_count / spec_gang_nodes_needed(j)->0) as nat,
        ),
{
    if fits_whole(c, j) && spec_gang_nodes_needed(j) is Some {
        let n = spec_gang_nodes_needed(j)->0;
        let per = spec_gpus_per_gang_node(j, n)->0;
        let nodes = crate::cluster::node_views(c.nodes@);
        let cands = gang_candidates(c.node_sites, nodes, j, per);
        lemma_candidates_per(c.node_sites, nodes, j, per);
        lemma_candidates_named(c.node_sites, nodes, j, per);
        let pp = |e: (GangKey, Seq<GpuView>)| e.1.len() == per && all_on(e.1, e.0.id@);
        assert forall|i: int| 0 <= i < cands.len() implies pp(#[trigger] cands[i]) by {}
        crate::sort::lemma_sort_forall(cands, pp);
        crate::sort::lemma_sort_len(cands);
        let sorted = sort_ranked(cands);
        let top = sorted.take(n as int);
        assert forall|i: int| 0 <= i < top.len() implies (#[trigger] top[i]).1.len() == per && all_on(
            top[i].1,
            top[i].0.id@,
        ) by {
            assert(top[i] == sorted[i]);
            assert(pp(sorted[i]));
        }
        let f = |e: (GangKey, Seq<GpuView>)| e.0.id@;
        cand_ids(cands).lemma_multiset_has_no_duplicates();
        crate::sort::lemma_sort_multiset(cands, f);
        assert(cand_ids(sorted).to_multiset() == cand_ids(cands).to_multiset());
        cand_ids(sorted).lemma_multiset_has_no_duplicates_conv();
        assert forall|a: int, b: int|
            0 <= a < cand_ids(top).len() && 0 <= b < cand_ids(top).len() && a != b implies cand_ids(top)[a]
            != cand_ids(top)[b] by {
            assert(cand_ids(top)[a] == cand_ids(sorted)[a] && cand_ids(top)[b] == cand_ids(sorted)[b]);
        }
        let gs = gang_concat(top, per);
        law_whole_choice(sel, c, j);
        lemma_concat_named(top, per);
        assert forall|t: int| 0 <= t < gs.len() implies node_members(gs, (#[trigger] gs[t]).node_id@).len() == per by {
            lemma_concat_members(top, per, gs[t].node_id@);
        }
        let keys = node_keys(gs);
        lemma_node_keys(gs);
        assert forall|i: int| 0 <= i < keys.len() implies node_members(gs, (#[trigger] keys[i])@).len() == per by {
            assert(has_spelling(keys, keys[i]@));
            let t = choose|t: int| 0 <= t < gs.len() && (#[trigger] gs[t]).node_id@ == keys[i]@;
            assert(node_members(gs, gs[t].node_id@).len() == per);
        }
        lemma_members_cover(gs);
        lemma_total_per(gs, keys, per as nat);
        assert(n * per == j.gpu_count) by (nonlinear_arith)
            requires
                per == j.gpu_count / n,
                j.gpu_count % n == 0,
                n > 0,
        ;
        assert(keys.len() == n) by (nonlinear_arith)
            requires
                keys.len() * per == n * per,
                n * per > 0,
        ;
    }
}


/// The repartition target, when there is one, is a GPU of `gv`.
proof fn lemma_repartition_target_bound(gv: Seq<GpuView>, p: Seq<char>, needed: u32)
    ensures
        repartition_target(gv, p, needed) < gv.len(),
    decreases gv.len(),
{
    if gv.len() > 0 {
        lemma_repartition_target_bound(gv.drop_last(), p, needed);
    }
}

/// A free slice of profile `p` on GPU `k` is among the cluster's free slices of `p`.
proof fn lemma_free_slice_ids_has(gv: Seq<GpuView>, p: Seq<char>, k: int, x: Seq<char>)
    requires
        0 <= k < gv.len(),
        free_slice_ids_of(gv[k], p).contains(x),
    ensures
        free_slice_ids(gv, p).contains(x),
    decreases gv.len(),
{
    let d = gv.drop_last();
    let a = free_slice_ids(d, p);
    let b = free_slice_ids_of(gv.last(), p);
    assert(free_slice_ids(gv, p) == a + b);
    if k < gv.len() - 1 {
        assert(d[k] == gv[k]);
        lemma_free_slice_ids_has(d, p, k, x);
        let i = choose|i: int| 0 <= i < a.len() && a[i] == x;
        assert((a + b)[i] == x);
    } else {
        assert(gv.last() == gv[k]);
        let i = choose|i: int| 0 <= i < b.len() && b[i] == x;
        assert((a + b)[a.len() + i] == x);
    }
}

/// Every slice of a fresh layout is a free slice of its profile.
proof fn lemma_layout_free(old: GpuView, new: GpuView, p: Seq<char>, count: nat, memory_gb: u64, i: int)
    requires
        is_layout(old, new, p, count, memory_gb),
        0 <= i < count,
    ensures
        free_slice_ids_of(new, p).contains(slice_id(old.id@, i as nat)),
{
    let fl = new.slices.filter(free_of(p));
    new.slices.filter_lemma(free_of(p));
    assert(new.slices[i].id@ == slice_id(old.id@, i as nat));
    assert(fl.contains(new.slices[i]));
    let w = choose|w: int| 0 <= w < fl.len() && fl[w] == new.slices[i];
    let ids = free_slice_ids_of(new, p);
    assert(ids.len() == fl.len());
    assert(ids[w] == slice_id(old.id@, i as nat));
}

proof fn lemma_no_dup_parts(a: Seq<Seq<char>>, b: Seq<Seq<char>>)
    requires
        (a + b).no_duplicates(),
    ensures
        a.no_duplicates(),
        b.no_duplicates(),
        forall|i: int, j: int| 0 <= i < a.len() && 0 <= j < b.len() ==> a[i] != b[j],
{
    assert forall|i: int, j: int| 0 <= i < a.len() && 0 <= j < a.len() && i != j implies a[i] != a[j] by {
        assert((a + b)[i] == a[i] && (a + b)[j] == a[j]);
    }
    assert forall|i: int, j: int| 0 <= i < b.len() && 0 <= j < b.len() && i != j implies b[i] != b[j] by {
        assert((a + b)[a.len() + i] == b[i] && (a + b)[a.len() + j] == b[j]);
    }
    assert forall|i: int, j: int| 0 <= i < a.len() && 0 <= j < b.len() implies a[i] != b[j] by {
        assert((a + b)[i] == a[i] && (a + b)[a.len() + j] == b[j]);
    }
}

proof fn lemma_but_all(gv: Seq<GpuView>, p: Seq<char>, k: int)
    requires
        k >= gv.len(),
    ensures
        free_slice_ids_but(gv, p, k) == free_slice_ids(gv, p),
    decreases gv.len(),
{
    if gv.len() > 0 {
        lemma_but_all(gv.drop_last(), p, k);
    }
}

proof fn lemma_but_update(gv: Seq<GpuView>, p: Seq<char>, k: int, g: GpuView)
    requires
        0 <= k < gv.len(),
    ensures
        free_slice_ids_but(gv.update(k, g), p, k) == free_slice_ids_but(gv, p, k),
    decreases gv.len(),
{
    let u = gv.update(k, g);
    if k < gv.len() - 1 {
        assert(u.drop_last() == gv.drop_last().update(k, g));
        lemma_but_update(gv.drop_last(), p, k, g);
        assert(u.last() == gv.last());
    } else {
        assert(u.drop_last() == gv.drop_last());
    }
}

/// Leaving out GPU `k`: what is left repeats no id, lies among the free slices,
/// and shares no id with GPU `k`'s free slices.
proof fn lemma_but(gv: Seq<GpuView>, p: Seq<char>, k: int)
    requires
        0 <= k < gv.len(),
        free_slice_ids(gv, p).no_duplicates(),
    ensures
        free_slice_ids_but(gv, p, k).no_duplicates(),
        forall|x: Seq<char>| #[trigger] free_slice_ids_but(gv, p, k).contains(x) ==> free_slice_ids(gv, p).contains(x)
            && !free_slice_ids_of(gv[k], p).contains(x),
    decreases gv.len(),
{
    let d = gv.drop_last();
    let a = free_slice_ids(d, p);
    let b = free_slice_ids_of(gv.last(), p);
    assert(free_slice_ids(gv, p) == a + b);
    lemma_no_dup_parts(a, b);
    let last = gv.len() - 1;
    assert(gv.last() == gv[last]);
    if k == last {
        lemma_but_all(d, p, k);
        assert(free_slice_ids_but(gv, p, k) == a + Seq::<Seq<char>>::empty());
        assert(a + Seq::<Seq<char>>::empty() == a);
        assert forall|x: Seq<char>| #[trigger] free_slice_ids_but(gv, p, k).contains(x) implies free_slice_ids(gv, p).contains(x)
            && !free_slice_ids_of(gv[k], p).contains(x) by {
            let i = choose|i: int| 0 <= i < a.len() && a[i] == x;
            assert((a + b)[i] == x);
            if b.contains(x) {
                let j = choose|j: int| 0 <= j < b.len() && b[j] == x;
            }
        }
    } else {
        assert(d[k] == gv[k]);
        lemma_but(d, p, k);
        let bd = free_slice_ids_but(d, p, k);
        assert(free_slice_ids_but(gv, p, k) == bd + b);
        lemma_free_slice_ids_has_all(d, p, k);
        assert forall|i: int, j: int| 0 <= i < bd.len() && 0 <= j < b.len() implies bd[i] != b[j] by {
            assert(bd.contains(bd[i]));
            assert(a.contains(bd[i]));
            let m = choose|m: int| 0 <= m < a.len() && a[m] == bd[i];
        }
        vstd::seq_lib::lemma_no_dup_in_concat(bd, b);
        assert forall|x: Seq<char>| #[trigger] free_slice_ids_but(gv, p, k).contains(x) implies free_slice_ids(gv, p).contains(x)
            && !free_slice_ids_of(gv[k], p).contains(x) by {
            let i = choose|i: int| 0 <= i < (bd + b).len() && (bd + b)[i] == x;
            if i < bd.len() {
                assert(bd[i] == x);
                assert(bd.contains(x));
                let m = choose|m: int| 0 <= m < a.len() && a[m] == x;
                assert((a + b)[m] == x);
            } else {
                let j = i - bd.len();
                assert(b[j] == x);
                assert((a + b)[a.len() + j] == x);
                if free_slice_ids_of(gv[k], p).contains(x) {
                    assert(a.contains(x));
                    let m = choose|m: int| 0 <= m < a.len() && a[m] == x;
                }
            }
        }
    }
}

/// Every free slice of GPU `k` is among the free slices of `gv`.
proof fn lemma_free_slice_ids_has_all(gv: Seq<GpuView>, p: Seq<char>, k: int)
    requires
        0 <= k < gv.len(),
    ensures
        forall|x: Seq<char>| #[trigger] free_slice_ids_of(gv[k], p).contains(x) ==> free_slice_ids(gv, p).contains(x),
{
    assert forall|x: Seq<char>| #[trigger] free_slice_ids_of(gv[k], p).contains(x) implies free_slice_ids(gv, p).contains(x) by {
        lemma_free_slice_ids_has(gv, p, k, x);
    }
}

/// MIG allocation gives a job exactly the slices it needs, never the same slice
/// twice, each a free slice of its profile in the cluster afterwards, whenever
/// the free slices of that profile have distinct ids in that cluster.
pub proof fn law_mig_slices(
    reg: Option<MigProfileRegistry>,
    c0: Cluster,
    c1: Cluster,
    j: Job,
    start: u64,
    r: Result<Placement, SimError>,
)
    ensures
        mig_outcome(reg, c0, c1, j, start, r) && r is Ok && j.mig_profile is Some && free_slice_ids(
            c1.gpu_views(),
            j.mig_profile->0@,
        ).no_duplicates() ==> {
            let ids = strs(r->Ok_0.gpu_ids@);
            &&& ids.len() == j.spec_mig_slices_needed()
            &&& ids.no_duplicates()
            &&& forall|i: int|
                0 <= i < ids.len() ==> free_slice_ids(c1.gpu_views(), j.mig_profile->0@).contains(#[trigger] ids[i])
        },
{
    if mig_outcome(reg, c0, c1, j, start, r) && r is Ok && j.mig_profile is Some && free_slice_ids(
        c1.gpu_views(),
        j.mig_profile->0@,
    ).no_duplicates() {
        let p = j.mig_profile->0;
        let gv = c0.gpu_views();
        let needed = j.spec_mig_slices_needed();
        let all = free_slice_ids(gv, p@);
        let sel1 = first_free_slices(gv, p@, needed);
        let ids = strs(r->Ok_0.gpu_ids@);
        let spec = reg->0.profiles.lookup(p@)->0;
        if sel1.len() == needed {
            assert(ids == all.take(needed as int));
            assert forall|a: int, b: int| 0 <= a < ids.len() && 0 <= b < ids.len() && a != b implies ids[a] != ids[b] by {
                assert(ids[a] == all[a] && ids[b] == all[b]);
            }
            assert forall|i: int| 0 <= i < ids.len() implies free_slice_ids(c1.gpu_views(), p@).contains(
                #[trigger] ids[i],
            ) by {
                assert(all[i] == ids[i]);
            }
        } else {
            let k = repartition_target(gv, p@, needed);
            lemma_repartition_target_bound(gv, p@, needed);
            let gv1 = c1.gpu_views();
            let gk = gv1[k];
            assert(gv1 == gv.update(k, gk));
            let kept = free_slice_ids_but(gv, p@, k);
            lemma_free_slice_ids_but_len(gv, p@, k);
            lemma_but_update(gv, p@, k, gk);
            lemma_but(gv1, p@, k);
            let extra = (needed - kept.len()) as nat;
            let fresh = Seq::new(extra, |i: int| slice_id(gv[k].id@, i as nat));
            assert(ids == kept + fresh);
            assert forall|i: int| 0 <= i < fresh.len() implies free_slice_ids_of(gk, p@).contains(#[trigger] fresh[i]) by {
                lemma_layout_free(gv[k], gk, p@, needed as nat, spec.memory_gb, i);
            }
            assert forall|a: int, b: int| 0 <= a < fresh.len() && 0 <= b < fresh.len() && a != b implies fresh[a]
                != fresh[b] by {
                if fresh[a] == fresh[b] {
                    lemma_slice_id_injective(gv[k].id@, a as nat, b as nat);
                }
            }
            assert forall|a: int, b: int| 0 <= a < kept.len() && 0 <= b < fresh.len() implies kept[a] != fresh[b] by {
                assert(kept.contains(kept[a]));
                assert(free_slice_ids_of(gk, p@).contains(fresh[b]));
            }
            vstd::seq_lib::lemma_no_dup_in_concat(kept, fresh);
            assert forall|i: int| 0 <= i < ids.len() implies free_slice_ids(gv1, p@).contains(#[trigger] ids[i]) by {
                if i < kept.len() {
                    assert(ids[i] == kept[i]);
                    assert(kept.contains(kept[i]));
                } else {
                    assert(ids[i] == fresh[i - kept.len()]);
                    lemma_free_slice_ids_has(gv1, p@, k, fresh[i - kept.len()]);
                }
            }
        }
    }
}


/// No two GPUs of `s` share an id.
pub open spec fn ids_distinct(s: Seq<GpuView>) -> bool {
    forall|i: int, k: int| 0 <= i < k < s.len() ==> (#[trigger] s[i]).id@ != (#[trigger] s[k]).id@
}

/// Every GPU of `s` is one of `t`.
pub open spec fn within(s: Seq<GpuView>, t: Seq<GpuView>) -> bool {
    forall|i: int| 0 <= i < s.len() ==> t.contains(#[trigger] s[i])
}

proof fn lemma_within_trans(a: Seq<GpuView>, b: Seq<GpuView>, c: Seq<GpuView>)
    requires
        within(a, b),
        within(b, c),
    ensures
        within(a, c),
{
    assert forall|i: int| 0 <= i < a.len() implies c.contains(#[trigger] a[i]) by {
        assert(b.contains(a[i]));
        let k = choose|k: int| 0 <= k < b.len() && b[k] == a[i];
        assert(c.contains(b[k]));
    }
}

proof fn lemma_filter_ids(s: Seq<GpuView>, pred: spec_fn(GpuView) -> bool)
    requires
        ids_distinct(s),
    ensures
        ids_distinct(s.filter(pred)),
        within(s.filter(pred), s),
    decreases s.len(),
{
    assert forall|i: int| 0 <= i < s.filter(pred).len() implies s.contains(#[trigger] s.filter(pred)[i]) by {
        assert(s.filter(pred).contains(s.filter(pred)[i]));
        s.lemma_filter_contains_rev(pred, s.filter(pred)[i]);
    }
    if s.len() > 0 {
        let d = s.drop_last();
        assert forall|i: int, k: int| 0 <= i < k < d.len() implies (#[trigger] d[i]).id@ != (#[trigger] d[k]).id@ by {
            assert(d[i] == s[i] && d[k] == s[k]);
        }
        lemma_filter_ids(d, pred);
        let fd = d.filter(pred);
        reveal(Seq::filter);
        assert(s.filter(pred) == if pred(s.last()) { fd.push(s.last()) } else { fd });
        if pred(s.last()) {
            let f = fd.push(s.last());
            assert forall|i: int, k: int| 0 <= i < k < f.len() implies (#[trigger] f[i]).id@ != (#[trigger] f[k]).id@ by {
                if k < fd.len() {
                    assert(f[i] == fd[i] && f[k] == fd[k]);
                } else {
                    assert(f[i] == fd[i]);
                    assert(d.contains(fd[i]));
                    let m = choose|m: int| 0 <= m < d.len() && d[m] == fd[i];
                    assert(s[m] == d[m]);
                    assert(s[s.len() - 1] == s.last());
                }
            }
        }
    }
}

proof fn lemma_take_ids(s: Seq<GpuView>, n: int)
    requires
        0 <= n <= s.len(),
    ensures
        ids_distinct(s) ==> ids_distinct(s.take(n)),
        within(s.take(n), s),
{
    assert forall|i: int| 0 <= i < s.take(n).len() implies s.contains(#[trigger] s.take(n)[i]) by {
        assert(s.take(n)[i] == s[i]);
    }
    if ids_distinct(s) {
        assert forall|i: int, k: int| 0 <= i < k < s.take(n).len() implies (#[trigger] s.take(n)[i]).id@ != (
        #[trigger] s.take(n)[k]).id@ by {
            assert(s.take(n)[i] == s[i] && s.take(n)[k] == s[k]);
        }
    }
}

proof fn lemma_concat_ids(a: Seq<GpuView>, b: Seq<GpuView>, t: Seq<GpuView>)
    requires
        ids_distinct(a),
        ids_distinct(b),
        forall|i: int, k: int| 0 <= i < a.len() && 0 <= k < b.len() ==> (#[trigger] a[i]).id@ != (#[trigger] b[k]).id@,
        within(a, t),
        within(b, t),
    ensures
        ids_distinct(a + b),
        within(a + b, t),
{
    assert forall|i: int, k: int| 0 <= i < k < (a + b).len() implies (#[trigger] (a + b)[i]).id@ != (
    #[trigger] (a + b)[k]).id@ by {
        if k < a.len() {
            assert((a + b)[i] == a[i] && (a + b)[k] == a[k]);
        } else if i < a.len() {
            assert((a + b)[i] == a[i] && (a + b)[k] == b[k - a.len()]);
        } else {
            assert((a + b)[i] == b[i - a.len()] && (a + b)[k] == b[k - a.len()]);
        }
    }
    assert forall|i: int| 0 <= i < (a + b).len() implies t.contains(#[trigger] (a + b)[i]) by {
        if i < a.len() {
            assert((a + b)[i] == a[i]);
        } else {
            assert((a + b)[i] == b[i - a.len()]);
        }
    }
}


/// Two GPUs of `t`, a list without repeated ids, that share an id are the same GPU.
proof fn lemma_same_id_same_gpu(t: Seq<GpuView>, x: GpuView, y: GpuView)
    requires
        ids_distinct(t),
        t.contains(x),
        t.contains(y),
        x.id@ == y.id@,
    ensures
        x == y,
{
    let p = choose|p: int| 0 <= p < t.len() && t[p] == x;
    let q = choose|q: int| 0 <= q < t.len() && t[q] == y;
    if p < q {
        assert(t[p].id@ != t[q].id@);
    } else if q < p {
        assert(t[q].id@ != t[p].id@);
    }
}

proof fn lemma_concat_parts(a: Seq<GpuView>, b: Seq<GpuView>)
    requires
        ids_distinct(a + b),
    ensures
        ids_distinct(a),
        ids_distinct(b),
        within(a, a + b),
        within(b, a + b),
{
    assert forall|i: int, k: int| 0 <= i < k < a.len() implies (#[trigger] a[i]).id@ != (#[trigger] a[k]).id@ by {
        assert((a + b)[i] == a[i] && (a + b)[k] == a[k]);
    }
    assert forall|i: int, k: int| 0 <= i < k < b.len() implies (#[trigger] b[i]).id@ != (#[trigger] b[k]).id@ by {
        assert((a + b)[a.len() + i] == b[i] && (a + b)[a.len() + k] == b[k]);
    }
    assert forall|i: int| 0 <= i < a.len() implies (a + b).contains(#[trigger] a[i]) by {
        assert((a + b)[i] == a[i]);
    }
    assert forall|i: int| 0 <= i < b.len() implies (a + b).contains(#[trigger] b[i]) by {
        assert((a + b)[a.len() + i] == b[i]);
    }
}

/// Packing nodes with distinct names from a list without repeated ids repeats no id.
proof fn lemma_concat_nodes_ids(el: Seq<GpuView>, order: Seq<String>)
    requires
        ids_distinct(el),
        forall|i: int, k: int| 0 <= i < k < order.len() ==> (#[trigger] order[i])@ != (#[trigger] order[k])@,
    ensures
        ids_distinct(concat_nodes(el, order)),
        within(concat_nodes(el, order), el),
        forall|t: int|
            0 <= t < concat_nodes(el, order).len() ==> exists|i: int|
                0 <= i < order.len() && (#[trigger] concat_nodes(el, order)[t]).node_id@ == (#[trigger] order[i])@,
    decreases order.len(),
{
    if order.len() == 0 {
        assert(concat_nodes(el, order).len() == 0);
    } else {
        let d = order.drop_last();
        assert forall|i: int, k: int| 0 <= i < k < d.len() implies (#[trigger] d[i])@ != (#[trigger] d[k])@ by {
            assert(d[i] == order[i] && d[k] == order[k]);
        }
        lemma_concat_nodes_ids(el, d);
        let a = concat_nodes(el, d);
        let last = order.len() - 1;
        let x = order[last]@;
        assert(order.last() == order[last]);
        let b = node_members(el, x);
        lemma_filter_ids(el, on_node(x));
        el.filter_lemma(on_node(x));
        assert forall|i: int, k: int| 0 <= i < a.len() && 0 <= k < b.len() implies (#[trigger] a[i]).id@ != (
        #[trigger] b[k]).id@ by {
            let m = choose|m: int| 0 <= m < d.len() && a[i].node_id@ == (#[trigger] d[m])@;
            assert(d[m] == order[m]);
            assert(on_node(x)(b[k]));
            if a[i].id@ == b[k].id@ {
                lemma_same_id_same_gpu(el, a[i], b[k]);
            }
        }
        lemma_concat_ids(a, b, el);
        assert(concat_nodes(el, order) == a + b);
        assert forall|t: int| 0 <= t < (a + b).len() implies exists|i: int|
            0 <= i < order.len() && (#[trigger] (a + b)[t]).node_id@ == (#[trigger] order[i])@ by {
            if t < a.len() {
                assert((a + b)[t] == a[t]);
                let m = choose|m: int| 0 <= m < d.len() && a[t].node_id@ == (#[trigger] d[m])@;
                assert(d[m] == order[m]);
            } else {
                assert((a + b)[t] == b[t - a.len()]);
                assert(on_node(x)(b[t - a.len()]));
            }
        }
    }
}

/// Node keys of `el`, fullest node first.
pub open spec fn packing_order(el: Seq<GpuView>) -> Seq<String> {
    sort_ranked(fill_pairs(el, node_keys(el))).map_values(|p: (FillKey, String)| p.1)
}

/// Node keys in packing order still spell distinct nodes.
proof fn lemma_packing_order_distinct(el: Seq<GpuView>)
    ensures
        forall|i: int, k: int|
            0 <= i < k < packing_order(el).len() ==> (#[trigger] packing_order(el)[i])@ != (
            #[trigger] packing_order(el)[k])@,
{
    let keys = node_keys(el);
    let fp = fill_pairs(el, keys);
    let sorted = sort_ranked(fp);
    let order = sorted.map_values(|p: (FillKey, String)| p.1);
    let f = |p: (FillKey, String)| p.1@;
    lemma_node_keys(el);
    crate::sort::lemma_sort_len(fp);
    assert forall|a: int, b: int| 0 <= a < fp.map_values(f).len() && 0 <= b < fp.map_values(f).len() && a != b implies fp.map_values(
        f,
    )[a] != fp.map_values(f)[b] by {
        if a < b {
            assert(keys[a]@ != keys[b]@);
        } else {
            assert(keys[b]@ != keys[a]@);
        }
    }
    fp.map_values(f).lemma_multiset_has_no_duplicates();
    crate::sort::lemma_sort_multiset(fp, f);
    sorted.map_values(f).lemma_multiset_has_no_duplicates_conv();
    assert forall|i: int, k: int| 0 <= i < k < order.len() implies (#[trigger] order[i])@ != (#[trigger] order[k])@ by {
        assert(sorted.map_values(f)[i] == order[i]@);
        assert(sorted.map_values(f)[k] == order[k]@);
    }
}


/// Each node's GPUs, in a cluster without repeated GPU ids, repeat no id.
proof fn lemma_node_gpus_ids(nodes: Seq<NodeView>)
    requires
        ids_distinct(crate::cluster::flat_gpus(nodes)),
    ensures
        forall|i: int| 0 <= i < nodes.len() ==> ids_distinct((#[trigger] nodes[i]).gpus) && within(
            nodes[i].gpus,
            crate::cluster::flat_gpus(nodes),
        ),
    decreases nodes.len(),
{
    if nodes.len() > 0 {
        let d = nodes.drop_last();
        let fd = crate::cluster::flat_gpus(d);
        let fl = crate::cluster::flat_gpus(nodes);
        assert(fl == fd + nodes.last().gpus);
        lemma_concat_parts(fd, nodes.last().gpus);
        lemma_node_gpus_ids(d);
        assert forall|i: int| 0 <= i < nodes.len() implies ids_distinct((#[trigger] nodes[i]).gpus) && within(
            nodes[i].gpus,
            fl,
        ) by {
            if i < d.len() {
                assert(d[i] == nodes[i]);
                lemma_within_trans(nodes[i].gpus, fd, fl);
            } else {
                assert(nodes.last() == nodes[i]);
            }
        }
    }
}

/// Gang candidates of a cluster without repeated GPU ids repeat no id, and hold
/// GPUs of the cluster.
proof fn lemma_candidates_ids(sites: StrMap<String>, nodes: Seq<NodeView>, j: Job, per: u32)
    requires
        ids_distinct(crate::cluster::flat_gpus(nodes)),
    ensures
        forall|i: int|
            0 <= i < gang_candidates(sites, nodes, j, per).len() ==> ids_distinct(
                (#[trigger] gang_candidates(sites, nodes, j, per)[i]).1,
            ) && within(gang_candidates(sites, nodes, j, per)[i].1, crate::cluster::flat_gpus(nodes)),
    decreases nodes.len(),
{
    if nodes.len() > 0 {
        let d = nodes.drop_last();
        let fd = crate::cluster::flat_gpus(d);
        let fl = crate::cluster::flat_gpus(nodes);
        let nl = nodes.last();
        assert(fl == fd + nl.gpus);
        lemma_concat_parts(fd, nl.gpus);
        lemma_candidates_ids(sites, d, j, per);
        let free = eligible_among(sites, nl.gpus, j);
        lemma_filter_ids(nl.gpus, eligible_pred(sites, j));
        lemma_within_trans(free, nl.gpus, fl);
        lemma_first_big_group_size(free, nv_keys(free), per);
        if free.len() >= per {
            match first_big_group(free, nv_keys(free), per) {
                Some(g) => {
                    lemma_filter_ids(free, in_group(g));
                    lemma_take_ids(group_of(free, g), per as int);
                    lemma_within_trans(group_of(free, g), free, fl);
                    lemma_within_trans(group_of(free, g).take(per as int), group_of(free, g), fl);
                },
                None => {
                    lemma_take_ids(free, per as int);
                    lemma_within_trans(free.take(per as int), free, fl);
                },
            }
        }
        let dc = gang_candidates(sites, d, j, per);
        let gc = gang_candidates(sites, nodes, j, per);
        assert forall|i: int| 0 <= i < gc.len() implies ids_distinct((#[trigger] gc[i]).1) && within(gc[i].1, fl) by {
            if i < dc.len() {
                assert(gc[i] == dc[i]);
                lemma_within_trans(dc[i].1, fd, fl);
            }
        }
    }
}

/// Blocks of distinct nodes, each without repeated ids, joined repeat no id.
proof fn lemma_gang_concat_ids(top: Seq<(GangKey, Seq<GpuView>)>, per: u32, t: Seq<GpuView>)
    requires
        ids_distinct(t),
        forall|i: int|
            0 <= i < top.len() ==> ids_distinct((#[trigger] top[i]).1) && within(top[i].1, t) && all_on(
                top[i].1,
                top[i].0.id@,
            ),
        cand_ids(top).no_duplicates(),
    ensures
        ids_distinct(gang_concat(top, per)),
        within(gang_concat(top, per), t),
    decreases top.len(),
{
    if top.len() == 0 {
        assert(gang_concat(top, per).len() == 0);
    } else {
        let d = top.drop_last();
        let last = top.len() - 1;
        assert(top.last() == top[last]);
        assert forall|i: int|
            0 <= i < d.len() implies ids_distinct((#[trigger] d[i]).1) && within(d[i].1, t) && all_on(
                d[i].1,
                d[i].0.id@,
            ) by {
            assert(d[i] == top[i]);
        }
        assert(cand_ids(d) == cand_ids(top).drop_last());
        lemma_gang_concat_ids(d, per, t);
        lemma_concat_named(d, per);
        let a = gang_concat(d, per);
        let b = top[last].1;
        let x = top[last].0.id@;
        assert forall|i: int, k: int| 0 <= i < a.len() && 0 <= k < b.len() implies (#[trigger] a[i]).id@ != (
        #[trigger] b[k]).id@ by {
            if a[i].id@ == b[k].id@ {
                lemma_same_id_same_gpu(t, a[i], b[k]);
                assert(b[k].node_id@ == x);
                let m = choose|m: int| 0 <= m < cand_ids(d).len() && cand_ids(d)[m] == a[i].node_id@;
                assert(cand_ids(top)[m] == cand_ids(d)[m]);
                assert(cand_ids(top)[last] == x);
            }
        }
        lemma_concat_ids(a, b, t);
    }
}

/// Whole-GPU placement never names a GPU twice: in a cluster where no two GPUs
/// share an id, the chosen GPUs have distinct ids, are GPUs of the cluster, and
/// were each free as a whole. For gang jobs this is stated for clusters whose
/// node ids are distinct and whose GPUs carry their node's id.
pub proof fn law_whole_ids_distinct(sel: GpuSelectionPolicy, c: Cluster, j: Job)
    ensures
        ids_distinct(c.gpu_views()) && (spec_gang_nodes_needed(j) is Some ==> nodes_well_named(
            crate::cluster::node_views(c.nodes@),
        )) && whole_choice(sel, c, j) is Some ==> {
            let gs = (whole_choice(sel, c, j)->0).0;
            &&& gpu_ids(gs).no_duplicates()
            &&& within(gs, c.gpu_views())
            &&& forall|i: int| 0 <= i < gs.len() ==> (#[trigger] gs[i]).whole_free()
        },
{
    let gv = c.gpu_views();
    if ids_distinct(gv) && (spec_gang_nodes_needed(j) is Some ==> nodes_well_named(
        crate::cluster::node_views(c.nodes@),
    )) && whole_choice(sel, c, j) is Some {
        let gs = (whole_choice(sel, c, j)->0).0;
        law_whole_choice(sel, c, j);
        let el = eligible_gpus(c, j);
        lemma_filter_ids(gv, eligible_pred(c.node_sites, j));
        let n = j.gpu_count as int;
        match spec_gang_nodes_needed(j) {
            Some(nn) => {
                let per = spec_gpus_per_gang_node(j, nn)->0;
                let nodes = crate::cluster::node_views(c.nodes@);
                let cands = gang_candidates(c.node_sites, nodes, j, per);
                lemma_candidates_named(c.node_sites, nodes, j, per);
                lemma_candidates_ids(c.node_sites, nodes, j, per);
                let pp = |e: (GangKey, Seq<GpuView>)| ids_distinct(e.1) && within(e.1, gv) && all_on(e.1, e.0.id@);
                assert forall|i: int| 0 <= i < cands.len() implies pp(#[trigger] cands[i]) by {}
                crate::sort::lemma_sort_forall(cands, pp);
                crate::sort::lemma_sort_len(cands);
                let sorted = sort_ranked(cands);
                let top = sorted.take(nn as int);
                assert forall|i: int|
                    0 <= i < top.len() implies ids_distinct((#[trigger] top[i]).1) && within(top[i].1, gv) && all_on(
                        top[i].1,
                        top[i].0.id@,
                    ) by {
                    assert(top[i] == sorted[i]);
                    assert(pp(sorted[i]));
                }
                let f = |e: (GangKey, Seq<GpuView>)| e.0.id@;
                cand_ids(cands).lemma_multiset_has_no_duplicates();
                crate::sort::lemma_sort_multiset(cands, f);
                assert(cand_ids(sorted).to_multiset() == cand_ids(cands).to_multiset());
                cand_ids(sorted).lemma_multiset_has_no_duplicates_conv();
                assert forall|a: int, b: int|
                    0 <= a < cand_ids(top).len() && 0 <= b < cand_ids(top).len() && a != b implies cand_ids(top)[a]
                    != cand_ids(top)[b] by {
                    assert(cand_ids(top)[a] == cand_ids(sorted)[a] && cand_ids(top)[b] == cand_ids(sorted)[b]);
                }
                lemma_gang_concat_ids(top, per, gv);
            },
            None => {
                if n <= el.len() {
                    lemma_take_ids(el, n);
                    lemma_within_trans(el.take(n), el, gv);
                }
                if spec_wants_topology_aware(j) {
                    match largest_group(el, nv_keys(el), j.gpu_count).0 {
                        Some(grp) => {
                            lemma_filter_ids(el, in_group(grp));
                            lemma_within_trans(group_of(el, grp), el, gv);
                            if n <= group_of(el, grp).len() {
                                lemma_take_ids(group_of(el, grp), n);
                                lemma_within_trans(group_of(el, grp).take(n), group_of(el, grp), gv);
                            }
                        },
                        None => {},
                    }
                } else {
                    match tightest_node(el, node_keys(el), j.gpu_count) {
                        Some(id) => {
                            lemma_tightest_size(el, node_keys(el), j.gpu_count);
                            lemma_filter_ids(el, on_node(id@));
                            lemma_within_trans(node_members(el, id@), el, gv);
                            lemma_take_ids(node_members(el, id@), n);
                            lemma_within_trans(node_members(el, id@).take(n), node_members(el, id@), gv);
                        },
                        None => {
                            let order = packing_order(el);
                            lemma_packing_order_distinct(el);
                            lemma_concat_nodes_ids(el, order);
                            lemma_within_trans(concat_nodes(el, order), el, gv);
                            if n <= concat_nodes(el, order).len() {
                                lemma_take_ids(concat_nodes(el, order), n);
                                lemma_within_trans(concat_nodes(el, order).take(n), concat_nodes(el, order), gv);
                            }
                        },
                    }
                }
            },
        }
        assert(ids_distinct(gs));
        assert forall|a: int, b: int| 0 <= a < gpu_ids(gs).len() && 0 <= b < gpu_ids(gs).len() && a != b implies gpu_ids(
            gs,
        )[a] != gpu_ids(gs)[b] by {
            if a < b {
                assert(gs[a].id@ != gs[b].id@);
            } else {
                assert(gs[b].id@ != gs[a].id@);
            }
        }
        assert forall|i: int| 0 <= i < gs.len() implies (#[trigger] gs[i]).whole_free() by {
            assert(eligible(c.node_sites, gs[i], j));
        }
    }
}


/// Counting free slices of `p` one by one agrees with filtering them out.
proof fn lemma_count_free_slices(s: Seq<MigSlice>, p: Seq<char>)
    ensures
        crate::model::count_free_slices(s, p) == s.filter(free_of(p)).len(),
    decreases s.len(),
{
    reveal(Seq::filter);
    if s.len() > 0 {
        lemma_count_free_slices(s.drop_last(), p);
    }
}

/// Where no MIG-capable GPU is fully idle, no GPU can be repartitioned, so MIG
/// capacity is at most the free slices of the profile.
proof fn lemma_available_busy(gv: Seq<GpuView>, p: Seq<char>, spec: MigProfileSpec)
    requires
        forall|i: int| 0 <= i < gv.len() && (#[trigger] gv[i]).mig_capable ==> !gv[i].fully_idle(),
    ensures
        mig_available(gv, p, spec) <= free_slice_ids(gv, p).len(),
    decreases gv.len(),
{
    if gv.len() > 0 {
        let d = gv.drop_last();
        assert forall|i: int| 0 <= i < d.len() && (#[trigger] d[i]).mig_capable implies !d[i].fully_idle() by {
            assert(d[i] == gv[i]);
        }
        lemma_available_busy(d, p, spec);
        let g = gv.last();
        assert(g == gv[gv.len() - 1]);
        lemma_count_free_slices(g.slices, p);
        assert(free_slice_ids_of(g, p).len() == g.slices.filter(free_of(p)).len());
    }
}

/// A MIG job fits only if enough slices can be offered: when no MIG-capable GPU
/// is fully idle (so none can be repartitioned) and fewer free slices of its
/// profile exist than it needs, the manager refuses it.
pub proof fn law_busy_mig_gpus_refuse(rm: ResourceManager, c: Cluster, j: Job)
    ensures
        j.spec_is_mig_job() && j.mig_profile is Some && (forall|i: int|
            0 <= i < c.gpu_views().len() && (#[trigger] c.gpu_views()[i]).mig_capable ==> !c.gpu_views()[i].fully_idle())
            && free_slice_ids(c.gpu_views(), j.mig_profile->0@).len() < j.spec_mig_slices_needed() ==> !rm.spec_can_place(c, j),
{
    if j.spec_is_mig_job() && j.mig_profile is Some && (forall|i: int|
        0 <= i < c.gpu_views().len() && (#[trigger] c.gpu_views()[i]).mig_capable ==> !c.gpu_views()[i].fully_idle())
        && free_slice_ids(c.gpu_views(), j.mig_profile->0@).len() < j.spec_mig_slices_needed() {
        let p = j.mig_profile->0;
        match rm.mig_registry {
            Some(r) => match r.profiles.lookup(p@) {
                Some(spec) => lemma_available_busy(c.gpu_views(), p@, spec),
                None => {},
            },
            None => {},
        }
    }
}


/// Every GPU's NVLink domain is among the distinct domains of `el`.
proof fn lemma_nv_keys_cover(el: Seq<GpuView>, t: int)
    requires
        0 <= t < el.len(),
    ensures
        nv_keys(el).contains(el[t].nvlink_group),
    decreases el.len(),
{
    let d = el.drop_last();
    if t < el.len() - 1 {
        assert(d[t] == el[t]);
        lemma_nv_keys_cover(d, t);
        let i = choose|i: int| 0 <= i < nv_keys(d).len() && nv_keys(d)[i] == d[t].nvlink_group;
        if !nv_keys(d).contains(el.last().nvlink_group) {
            assert(nv_keys(el)[i] == nv_keys(d)[i]);
        }
    } else {
        assert(el.last() == el[t]);
        if !nv_keys(d).contains(el.last().nvlink_group) {
            assert(nv_keys(el)[nv_keys(d).len() as int] == el[t].nvlink_group);
        }
    }
}

/// The scan for the largest domain finds one of at least `n` GPUs whenever one
/// of the scanned domains has that many.
proof fn lemma_largest_group_found(el: Seq<GpuView>, keys: Seq<Option<u32>>, n: u32)
    requires
        n > 0,
    ensures
        largest_group(el, keys, n).0 matches Some(g) ==> group_of(el, g).len() == largest_group(el, keys, n).1
            && largest_group(el, keys, n).1 >= n,
        largest_group(el, keys, n).0 is None ==> largest_group(el, keys, n).1 == 0 && forall|i: int|
            0 <= i < keys.len() ==> group_of(el, #[trigger] keys[i]).len() < n,
    decreases keys.len(),
{
    if keys.len() > 0 {
        let d = keys.drop_last();
        lemma_largest_group_found(el, d, n);
        assert forall|i: int| 0 <= i < d.len() implies group_of(el, #[trigger] keys[i]) == group_of(el, d[i]) by {
            assert(d[i] == keys[i]);
        }
        assert(keys.last() == keys[keys.len() - 1]);
    }
}

/// All GPUs of `gs` lie in one NVLink domain.
pub open spec fn one_domain(gs: Seq<GpuView>) -> bool {
    forall|a: int, b: int| 0 <= a < gs.len() && 0 <= b < gs.len() ==> (#[trigger] gs[a]).nvlink_group == (
    #[trigger] gs[b]).nvlink_group
}

/// Topology-aware placement keeps a job in one NVLink domain: GPUs reported
/// without the fallback all share one domain; and when some domain holds at
/// least as many eligible GPUs as the job needs, the job gets GPUs and no
/// fallback is used.
pub proof fn law_topology_single_domain(sel: GpuSelectionPolicy, c: Cluster, j: Job)
    ensures
        spec_gang_nodes_needed(j) is None && spec_wants_topology_aware(j) && whole_choice(sel, c, j) is Some && !(whole_choice(
            sel,
            c,
            j,
        )->0).1 ==> one_domain((whole_choice(sel, c, j)->0).0),
        spec_gang_nodes_needed(j) is None && spec_wants_topology_aware(j) && j.gpu_count > 0 && (exists|grp: Option<u32>|
            #[trigger] group_of(eligible_gpus(c, j), grp).len() >= j.gpu_count) ==> whole_choice(sel, c, j) is Some && !(
        whole_choice(sel, c, j)->0).1,
{
    if spec_gang_nodes_needed(j) is None && spec_wants_topology_aware(j) {
        let el = eligible_gpus(c, j);
        let n = j.gpu_count;
        match largest_group(el, nv_keys(el), n).0 {
            Some(grp) => {
                if el.len() >= n && group_of(el, grp).len() >= n {
                    let gs = group_of(el, grp).take(n as int);
                    el.filter_lemma(in_group(grp));
                    assert forall|a: int, b: int| 0 <= a < gs.len() && 0 <= b < gs.len() implies (#[trigger] gs[a]).nvlink_group
                        == (#[trigger] gs[b]).nvlink_group by {
                        assert(gs[a] == group_of(el, grp)[a] && gs[b] == group_of(el, grp)[b]);
                        assert(in_group(grp)(group_of(el, grp)[a]));
                        assert(in_group(grp)(group_of(el, grp)[b]));
                    }
                }
            },
            None => {},
        }
        if j.gpu_count > 0 && (exists|grp: Option<u32>| #[trigger] group_of(el, grp).len() >= j.gpu_count) {
            let grp = choose|grp: Option<u32>| #[trigger] group_of(el, grp).len() >= j.gpu_count;
            el.filter_lemma(in_group(grp));
            let x = group_of(el, grp)[0];
            assert(in_group(grp)(x));
            assert(el.contains(x)) by {
                assert(group_of(el, grp).contains(x));
                el.lemma_filter_contains_rev(in_group(grp), x);
            }
            let t = choose|t: int| 0 <= t < el.len() && el[t] == x;
            lemma_nv_keys_cover(el, t);
            let keys = nv_keys(el);
            let i = choose|i: int| 0 <= i < keys.len() && keys[i] == el[t].nvlink_group;
            assert(group_of(el, keys[i]).len() >= n);
            lemma_largest_group_found(el, keys, n);
            el.lemma_filter_len(in_group(grp));
        }
    }
}


/// A gang candidate whose share comes from one NVLink domain.
pub open spec fn coherent_cand() -> spec_fn((GangKey, Seq<GpuView>)) -> bool {
    |e: (GangKey, Seq<GpuView>)| !e.0.penalty
}

/// The node has at least `per` GPUs eligible for `j` in one NVLink domain.
pub open spec fn can_share(sites: StrMap<String>, j: Job, per: u32) -> spec_fn(NodeView) -> bool {
    |nd: NodeView| exists|grp: Option<u32>| #[trigger] group_of(eligible_among(sites, nd.gpus, j), grp).len() >= per
}

proof fn lemma_first_big_some(s: Seq<GpuView>, keys: Seq<Option<u32>>, per: u32, i: int)
    requires
        0 <= i < keys.len(),
        group_of(s, keys[i]).len() >= per,
    ensures
        first_big_group(s, keys, per) is Some,
    decreases keys.len(),
{
    if i < keys.len() - 1 {
        assert(keys.drop_last()[i] == keys[i]);
        lemma_first_big_some(s, keys.drop_last(), per, i);
    } else {
        assert(keys.last() == keys[i]);
    }
}

/// A node with a whole share in one domain yields a coherent candidate.
proof fn lemma_share_coherent(sites: StrMap<String>, nd: NodeView, j: Job, per: u32)
    requires
        per > 0,
        can_share(sites, j, per)(nd),
    ensures
        node_candidate(sites, nd, j, per) matches Some(e) && !e.0.penalty,
{
    let free = eligible_among(sites, nd.gpus, j);
    let grp = choose|grp: Option<u32>| #[trigger] group_of(free, grp).len() >= per;
    free.filter_lemma(in_group(grp));
    free.lemma_filter_len(in_group(grp));
    let x = group_of(free, grp)[0];
    assert(in_group(grp)(x));
    assert(group_of(free, grp).contains(x));
    free.lemma_filter_contains_rev(in_group(grp), x);
    let t = choose|t: int| 0 <= t < free.len() && free[t] == x;
    lemma_nv_keys_cover(free, t);
    let keys = nv_keys(free);
    let i = choose|i: int| 0 <= i < keys.len() && keys[i] == free[t].nvlink_group;
    lemma_first_big_some(free, keys, per, i);
}

/// Counting with a filter, one element at a time.
proof fn lemma_filter_push_len<A>(s: Seq<A>, pred: spec_fn(A) -> bool)
    requires
        s.len() > 0,
    ensures
        s.filter(pred).len() == s.drop_last().filter(pred).len() + if pred(s.last()) { 1int } else { 0int },
{
    reveal(Seq::filter);
}

/// There are at least as many coherent candidates as nodes able to share coherently.
proof fn lemma_coherent_count(sites: StrMap<String>, nodes: Seq<NodeView>, j: Job, per: u32)
    requires
        per > 0,
    ensures
        gang_candidates(sites, nodes, j, per).filter(coherent_cand()).len() >= nodes.filter(can_share(sites, j, per)).len(),
    decreases nodes.len(),
{
    if nodes.len() > 0 {
        let d = nodes.drop_last();
        lemma_coherent_count(sites, d, j, per);
        lemma_filter_push_len(nodes, can_share(sites, j, per));
        let dc = gang_candidates(sites, d, j, per);
        if can_share(sites, j, per)(nodes.last()) {
            lemma_share_coherent(sites, nodes.last(), j, per);
        }
        match node_candidate(sites, nodes.last(), j, per) {
            Some(e) => {
                assert(gang_candidates(sites, nodes, j, per) == dc.push(e));
                assert(dc.push(e).drop_last() == dc);
                lemma_filter_push_len(dc.push(e), coherent_cand());
            },
            None => {},
        }
    }
}

/// When every element from index `i` on fails `pred`, at most `i` pass it.
proof fn lemma_filter_prefix_len<A>(s: Seq<A>, pred: spec_fn(A) -> bool, i: int)
    requires
        0 <= i,
        forall|k: int| i <= k < s.len() ==> !pred(#[trigger] s[k]),
    ensures
        s.filter(pred).len() <= i,
    decreases s.len(),
{
    if s.len() <= i {
        s.lemma_filter_len(pred);
    } else {
        let d = s.drop_last();
        assert forall|k: int| i <= k < d.len() implies !pred(#[trigger] d[k]) by {
            assert(d[k] == s[k]);
        }
        lemma_filter_prefix_len(d, pred, i);
        lemma_filter_push_len(s, pred);
        assert(s.last() == s[s.len() - 1]);
    }
}

/// Counting coherent candidates through the multiset of their penalty flags.
proof fn lemma_coherent_multiset(s: Seq<(GangKey, Seq<GpuView>)>)
    ensures
        s.map_values(|e: (GangKey, Seq<GpuView>)| e.0.penalty).to_multiset().count(false) == s.filter(coherent_cand()).len(),
    decreases s.len(),
{
    broadcast use vstd::seq_lib::group_to_multiset_ensures;

    if s.len() > 0 {
        let d = s.drop_last();
        lemma_coherent_multiset(d);
        lemma_filter_push_len(s, coherent_cand());
        assert(s.map_values(|e: (GangKey, Seq<GpuView>)| e.0.penalty) =~= d.map_values(
            |e: (GangKey, Seq<GpuView>)| e.0.penalty,
        ).push(s.last().0.penalty));
    }
}

/// No penalty among chosen candidates means no penalty reported.
proof fn lemma_no_penalty(top: Seq<(GangKey, Seq<GpuView>)>)
    requires
        forall|i: int| 0 <= i < top.len() ==> !(#[trigger] top[i]).0.penalty,
    ensures
        !gang_penalty(top),
    decreases top.len(),
{
    if top.len() > 0 {
        let d = top.drop_last();
        assert forall|i: int| 0 <= i < d.len() implies !(#[trigger] d[i]).0.penalty by {
            assert(d[i] == top[i]);
        }
        lemma_no_penalty(d);
        assert(top.last() == top[top.len() - 1]);
    }
}

/// Gang placement prefers NVLink-coherent shares: when at least `n` nodes each
/// have the job's per-node share of eligible GPUs inside one NVLink domain, the
/// job is placed and no node of the placement falls back to GPUs across domains.
pub proof fn law_gang_prefers_coherent(c: Cluster, j: Job, n: u32)
    ensures
        j.gpu_count > 0 && spec_gpus_per_gang_node(j, n) is Some && crate::cluster::node_views(c.nodes@).filter(
            can_share(c.node_sites, j, spec_gpus_per_gang_node(j, n)->0),
        ).len() >= n ==> gang_pick(c, j, n) is Some && !(gang_pick(c, j, n)->0).1,
{
    if j.gpu_count > 0 && spec_gpus_per_gang_node(j, n) is Some && crate::cluster::node_views(c.nodes@).filter(
        can_share(c.node_sites, j, spec_gpus_per_gang_node(j, n)->0),
    ).len() >= n {
        let per = spec_gpus_per_gang_node(j, n)->0;
        assert(per > 0) by (nonlinear_arith)
            requires
                per == j.gpu_count / n,
                j.gpu_count % n == 0,
                n > 0,
                j.gpu_count > 0,
        ;
        let nodes = crate::cluster::node_views(c.nodes@);
        let cands = gang_candidates(c.node_sites, nodes, j, per);
        lemma_coherent_count(c.node_sites, nodes, j, per);
        cands.lemma_filter_len(coherent_cand());
        let sorted = sort_ranked(cands);
        crate::sort::lemma_sort_len(cands);
        assert forall|a: GangKey, b: GangKey| #[trigger] a.rank_le(&b) || #[trigger] b.rank_le(&a) by {
            crate::sort::lemma_str_le_total(a.id@, b.id@);
        }
        assert forall|a: GangKey, b: GangKey, d: GangKey| #[trigger] a.rank_le(&b) && #[trigger] b.rank_le(&d)
            implies a.rank_le(&d) by {
            if a.penalty == b.penalty && b.penalty == d.penalty && a.len == b.len && b.len == d.len {
                crate::sort::lemma_str_le_trans(a.id@, b.id@, d.id@);
            }
        }
        assert(crate::sort::rank_total::<GangKey>());
        assert(crate::sort::rank_transitive::<GangKey>());
        crate::sort::lemma_sort_sorted(cands);
        let f = |e: (GangKey, Seq<GpuView>)| e.0.penalty;
        crate::sort::lemma_sort_multiset(cands, f);
        lemma_coherent_multiset(cands);
        lemma_coherent_multiset(sorted);
        let top = sorted.take(n as int);
        assert forall|i: int| 0 <= i < top.len() implies !(#[trigger] top[i]).0.penalty by {
            assert(top[i] == sorted[i]);
            if sorted[i].0.penalty {
                assert forall|k: int| i <= k < sorted.len() implies !coherent_cand()(#[trigger] sorted[k]) by {
                    if k > i {
                        assert(sorted[i].0.rank_le(&sorted[k].0));
                    }
                }
                lemma_filter_prefix_len(sorted, coherent_cand(), i);
            }
        }
        lemma_no_penalty(top);
    }
}


/// The tightest-node scan picks a scanned node of at least `n` eligible GPUs with
/// no more of them than any other scanned node that is big enough; it finds none
/// only when no scanned node is big enough.
proof fn lemma_tightest_node(el: Seq<GpuView>, keys: Seq<String>, n: u32)
    ensures
        tightest_node(el, keys, n) matches Some(id) ==> node_members(el, id@).len() >= n && forall|i: int|
            0 <= i < keys.len() && node_members(el, (#[trigger] keys[i])@).len() >= n ==> node_members(el, id@).len()
                <= node_members(el, keys[i]@).len(),
        tightest_node(el, keys, n) is None ==> forall|i: int| 0 <= i < keys.len() ==> node_members(el, (#[trigger] keys[i])@).len() < n,
    decreases keys.len(),
{
    if keys.len() > 0 {
        let d = keys.drop_last();
        lemma_tightest_node(el, d, n);
        assert forall|i: int| 0 <= i < d.len() implies (#[trigger] keys[i]) == d[i] by {}
        assert(keys.last() == keys[keys.len() - 1]);
    }
}

/// All GPUs of `gs` sit on one node, and that node has no more GPUs of `el` than
/// any node holding at least `n` of them.
pub open spec fn tightest_one_node(el: Seq<GpuView>, gs: Seq<GpuView>, n: u32) -> bool {
    &&& gs.len() > 0
    &&& forall|a: int| 0 <= a < gs.len() ==> (#[trigger] gs[a]).node_id@ == gs[0].node_id@
    &&& forall|y: Seq<char>|
        #[trigger] node_members(el, y).len() >= n ==> node_members(el, gs[0].node_id@).len() <= node_members(el, y).len()
}

/// Best fit places a job on a single node whenever one node has enough eligible
/// GPUs, and picks, among the nodes that do, one with the fewest eligible GPUs.
pub proof fn law_best_fit_tightest(c: Cluster, j: Job)
    ensures
        spec_gang_nodes_needed(j) is None && !spec_wants_topology_aware(j) && j.gpu_count > 0 && (exists|x: Seq<char>|
            #[trigger] node_members(eligible_gpus(c, j), x).len() >= j.gpu_count) ==> whole_choice(
            GpuSelectionPolicy::BestFit,
            c,
            j,
        ) is Some && tightest_one_node(
            eligible_gpus(c, j),
            (whole_choice(GpuSelectionPolicy::BestFit, c, j)->0).0,
            j.gpu_count,
        ),
{
    if spec_gang_nodes_needed(j) is None && !spec_wants_topology_aware(j) && j.gpu_count > 0 && (exists|x: Seq<char>|
        #[trigger] node_members(eligible_gpus(c, j), x).len() >= j.gpu_count) {
        let el = eligible_gpus(c, j);
        let n = j.gpu_count;
        let keys = node_keys(el);
        let x = choose|x: Seq<char>| #[trigger] node_members(el, x).len() >= n;
        el.lemma_filter_len(on_node(x));
        lemma_node_keys(el);
        lemma_tightest_node(el, keys, n);
        // Every node with members is spelled by a key.
        assert forall|y: Seq<char>| #[trigger] node_members(el, y).len() >= n implies exists|i: int|
            0 <= i < keys.len() && (#[trigger] keys[i])@ == y by {
            el.filter_lemma(on_node(y));
            let g = node_members(el, y)[0];
            assert(on_node(y)(g));
            assert(node_members(el, y).contains(g));
            el.lemma_filter_contains_rev(on_node(y), g);
            let t = choose|t: int| 0 <= t < el.len() && el[t] == g;
            assert(has_spelling(keys, el[t].node_id@));
        }
        let ix = choose|i: int| 0 <= i < keys.len() && (#[trigger] keys[i])@ == x;
        assert(node_members(el, keys[ix]@).len() >= n);
        let id = tightest_node(el, keys, n)->0;
        let members = node_members(el, id@);
        let gs = members.take(n as int);
        el.filter_lemma(on_node(id@));
        assert forall|a: int| 0 <= a < gs.len() implies (#[trigger] gs[a]).node_id@ == id@ by {
            assert(gs[a] == members[a]);
            assert(on_node(id@)(members[a]));
        }
        assert(gs[0].node_id@ == id@);
        assert forall|y: Seq<char>| #[trigger] node_members(el, y).len() >= n implies node_members(el, gs[0].node_id@).len()
            <= node_members(el, y).len() by {
            let i = choose|i: int| 0 <= i < keys.len() && (#[trigger] keys[i])@ == y;
            assert(node_members(el, keys[i]@).len() >= n);
        }
    }
}


/// The GPU repartitioned for a MIG job is the first MIG-capable, fully idle GPU
/// with fewer free slices of the profile than the job needs; there is none to
/// repartition only when no GPU is like that.
pub proof fn law_repartition_target(gv: Seq<GpuView>, p: Seq<char>, needed: u32)
    ensures
        repartition_target(gv, p, needed) >= 0 ==> ({
            let k = repartition_target(gv, p, needed);
            &&& k < gv.len()
            &&& gv[k].mig_capable && gv[k].fully_idle() && gv[k].free_slices(p) < needed
            &&& forall|i: int| 0 <= i < k ==> !((#[trigger] gv[i]).mig_capable && gv[i].fully_idle() && gv[i].free_slices(p)
                < needed)
        }),
        repartition_target(gv, p, needed) < 0 ==> forall|i: int|
            0 <= i < gv.len() ==> !((#[trigger] gv[i]).mig_capable && gv[i].fully_idle() && gv[i].free_slices(p) < needed),
    decreases gv.len(),
{
    if gv.len() > 0 {
        let d = gv.drop_last();
        law_repartition_target(d, p, needed);
        assert forall|i: int| 0 <= i < d.len() implies #[trigger] gv[i] == d[i] by {}
        assert(gv.last() == gv[gv.len() - 1]);
    }
}


/// A coherent gang candidate's share lies in one NVLink domain.
proof fn lemma_coherent_one_domain(sites: StrMap<String>, nodes: Seq<NodeView>, j: Job, per: u32)
    ensures
        forall|i: int|
            0 <= i < gang_candidates(sites, nodes, j, per).len() && !(#[trigger] gang_candidates(sites, nodes, j, per)[i]).0.penalty
                ==> one_domain(gang_candidates(sites, nodes, j, per)[i].1),
    decreases nodes.len(),
{
    if nodes.len() > 0 {
        let d = nodes.drop_last();
        lemma_candidates_one(sites, nodes.last(), j, per);
        lemma_coherent_one_domain(sites, d, j, per);
        let dc = gang_candidates(sites, d, j, per);
        let gc = gang_candidates(sites, nodes, j, per);
        assert forall|i: int| 0 <= i < gc.len() && !(#[trigger] gc[i]).0.penalty implies one_domain(gc[i].1) by {
            if i < dc.len() {
                assert(gc[i] == dc[i]);
            }
        }
    }
}

proof fn lemma_candidates_one(sites: StrMap<String>, nd: NodeView, j: Job, per: u32)
    ensures
        node_candidate(sites, nd, j, per) is Some && !(node_candidate(sites, nd, j, per)->0).0.penalty ==> one_domain(
            (node_candidate(sites, nd, j, per)->0).1,
        ),
{
    let free = eligible_among(sites, nd.gpus, j);
    if free.len() >= per {
        match first_big_group(free, nv_keys(free), per) {
            Some(g) => {
                lemma_first_big_group_size(free, nv_keys(free), per);
                let gs = group_of(free, g).take(per as int);
                free.filter_lemma(in_group(g));
                assert forall|a: int, b: int| 0 <= a < gs.len() && 0 <= b < gs.len() implies (#[trigger] gs[a]).nvlink_group
                    == (#[trigger] gs[b]).nvlink_group by {
                    assert(gs[a] == group_of(free, g)[a] && gs[b] == group_of(free, g)[b]);
                    assert(in_group(g)(group_of(free, g)[a]));
                    assert(in_group(g)(group_of(free, g)[b]));
                }
            },
            None => {},
        }
    }
}

/// Each GPU of joined blocks sits in one of the blocks.
proof fn lemma_concat_block(top: Seq<(GangKey, Seq<GpuView>)>, per: u32)
    ensures
        forall|t: int|
            #![trigger gang_concat(top, per)[t]]
            0 <= t < gang_concat(top, per).len() ==> exists|b: int, m: int|
                0 <= b < top.len() && 0 <= m < top[b].1.len() && gang_concat(top, per)[t] == #[trigger] top[b].1[m],
    decreases top.len(),
{
    if top.len() > 0 {
        let d = top.drop_last();
        lemma_concat_block(d, per);
        let a = gang_concat(d, per);
        let last = top.len() - 1;
        assert(top.last() == top[last]);
        let bl = top[last].1;
        assert(gang_concat(top, per) == a + bl);
        assert forall|t: int| #![trigger (a + bl)[t]] 0 <= t < (a + bl).len() implies exists|b: int, m: int|
            0 <= b < top.len() && 0 <= m < top[b].1.len() && (a + bl)[t] == #[trigger] top[b].1[m] by {
            if t < a.len() {
                assert((a + bl)[t] == a[t]);
                assert(a[t] == a[t]);
                let (b, m) = choose|b: int, m: int| 0 <= b < d.len() && 0 <= m < d[b].1.len() && a[t] == #[trigger] d[b].1[m];
                assert(d[b] == top[b]);
                assert(top[b].1[m] == d[b].1[m]);
                assert(0 <= b < top.len() && 0 <= m < top[b].1.len() && (a + bl)[t] == top[b].1[m]);
            } else {
                assert((a + bl)[t] == bl[t - a.len()]);
                assert(top[last].1[t - a.len()] == bl[t - a.len()]);
                assert(0 <= last < top.len() && 0 <= t - a.len() < top[last].1.len() && (a + bl)[t] == top[last].1[t - a.len()]);
            }
        }
        assert forall|t: int| #![trigger gang_concat(top, per)[t]] 0 <= t < gang_concat(top, per).len() implies exists|b: int, m: int|
            0 <= b < top.len() && 0 <= m < top[b].1.len() && gang_concat(top, per)[t] == #[trigger] top[b].1[m] by {
            assert(gang_concat(top, per)[t] == (a + bl)[t]);
        }
    }
}

/// When at least `n` nodes can each give the gang job its share inside one
/// NVLink domain, and nodes are well named, the GPUs the placement takes on any
/// one node all share an NVLink domain.
pub proof fn law_gang_coherent_shares(c: Cluster, j: Job, n: u32)
    ensures
        j.gpu_count > 0 && spec_gpus_per_gang_node(j, n) is Some && nodes_well_named(crate::cluster::node_views(c.nodes@))
            && crate::cluster::node_views(c.nodes@).filter(can_share(c.node_sites, j, spec_gpus_per_gang_node(j, n)->0)).len()
            >= n ==> gang_pick(c, j, n) is Some && forall|t1: int, t2: int|
            0 <= t1 < (gang_pick(c, j, n)->0).0.len() && 0 <= t2 < (gang_pick(c, j, n)->0).0.len() && (#[trigger] (gang_pick(
                c,
                j,
                n,
            )->0).0[t1]).node_id@ == (#[trigger] (gang_pick(c, j, n)->0).0[t2]).node_id@ ==> (gang_pick(c, j, n)->0).0[t1].nvlink_group
                == (gang_pick(c, j, n)->0).0[t2].nvlink_group,
{
    if j.gpu_count > 0 && spec_gpus_per_gang_node(j, n) is Some && nodes_well_named(crate::cluster::node_views(c.nodes@))
        && crate::cluster::node_views(c.nodes@).filter(can_share(c.node_sites, j, spec_gpus_per_gang_node(j, n)->0)).len()
        >= n {
        law_gang_prefers_coherent(c, j, n);
        let per = spec_gpus_per_gang_node(j, n)->0;
        let nodes = crate::cluster::node_views(c.nodes@);
        let cands = gang_candidates(c.node_sites, nodes, j, per);
        lemma_candidates_named(c.node_sites, nodes, j, per);
        lemma_coherent_one_domain(c.node_sites, nodes, j, per);
        let sorted = sort_ranked(cands);
        crate::sort::lemma_sort_len(cands);
        let pp = |e: (GangKey, Seq<GpuView>)| all_on(e.1, e.0.id@) && (!e.0.penalty ==> one_domain(e.1));
        assert forall|i: int| 0 <= i < cands.len() implies pp(#[trigger] cands[i]) by {}
        crate::sort::lemma_sort_forall(cands, pp);
        let top = sorted.take(n as int);
        let f = |e: (GangKey, Seq<GpuView>)| e.0.id@;
        cand_ids(cands).lemma_multiset_has_no_duplicates();
        crate::sort::lemma_sort_multiset(cands, f);
        assert(cand_ids(sorted).to_multiset() == cand_ids(cands).to_multiset());
        cand_ids(sorted).lemma_multiset_has_no_duplicates_conv();
        // Every chosen candidate is coherent (no penalty reported).
        lemma_penalty_found(top);
        let gs = gang_concat(top, per);
        assert(gang_pick(c, j, n) == Some((gs, gang_penalty(top))));
        lemma_concat_block(top, per);
        assert forall|t1: int, t2: int| 0 <= t1 < gs.len() && 0 <= t2 < gs.len() && (#[trigger] gs[t1]).node_id@ == (
        #[trigger] gs[t2]).node_id@ implies gs[t1].nvlink_group == gs[t2].nvlink_group by {
            let (b1, m1) = choose|b: int, m: int| 0 <= b < top.len() && 0 <= m < top[b].1.len() && gs[t1] == #[trigger] top[b].1[m];
            let (b2, m2) = choose|b: int, m: int| 0 <= b < top.len() && 0 <= m < top[b].1.len() && gs[t2] == #[trigger] top[b].1[m];
            assert(top[b1] == sorted[b1] && top[b2] == sorted[b2]);
            assert(pp(sorted[b1]) && pp(sorted[b2]));
            assert(top[b1].1[m1].node_id@ == top[b1].0.id@);
            assert(top[b2].1[m2].node_id@ == top[b2].0.id@);
            if b1 != b2 {
                assert(cand_ids(sorted)[b1] != cand_ids(sorted)[b2]);
            }
            assert(!top[b1].0.penalty);
        }
    }
}

/// A candidate with a penalty among the chosen ones makes the placement report one.
proof fn lemma_penalty_found(top: Seq<(GangKey, Seq<GpuView>)>)
    ensures
        !gang_penalty(top) ==> forall|i: int| 0 <= i < top.len() ==> !(#[trigger] top[i]).0.penalty,
    decreases top.len(),
{
    if top.len() > 0 {
        let d = top.drop_last();
        lemma_penalty_found(d);
        assert forall|i: int| 0 <= i < d.len() implies #[trigger] top[i] == d[i] by {}
        assert(top.last() == top[top.len() - 1]);
    }
}


/// First fit takes the earliest eligible GPUs in cluster order, skipping none.
pub proof fn law_first_fit_earliest(c: Cluster, j: Job)
    ensures
        spec_gang_nodes_needed(j) is None && !spec_wants_topology_aware(j) && whole_choice(
            GpuSelectionPolicy::FirstFit,
            c,
            j,
        ) is Some ==> forall|i: int|
            0 <= i < (whole_choice(GpuSelectionPolicy::FirstFit, c, j)->0).0.len() ==> (#[trigger] (whole_choice(
                GpuSelectionPolicy::FirstFit,
                c,
                j,
            )->0).0[i]) == eligible_gpus(c, j)[i],
{
}

/// When no single node can hold a best-fit job, the nodes are packed fullest
/// first: along the packing order, no node has more eligible GPUs than one
/// packed before it.
pub proof fn law_packing_fullest_first(el: Seq<GpuView>)
    requires
        el.len() <= usize::MAX,
    ensures
        forall|i: int, k: int|
            0 <= i < k < packing_order(el).len() ==> node_members(el, (#[trigger] packing_order(el)[i])@).len() >= node_members(
                el,
                (#[trigger] packing_order(el)[k])@,
            ).len(),
{
    let keys = node_keys(el);
    let fp = fill_pairs(el, keys);
    let sorted = sort_ranked(fp);
    assert forall|a: FillKey, b: FillKey| #[trigger] a.rank_le(&b) || #[trigger] b.rank_le(&a) by {
        crate::sort::lemma_str_le_total(a.id@, b.id@);
    }
    assert forall|a: FillKey, b: FillKey, d: FillKey| #[trigger] a.rank_le(&b) && #[trigger] b.rank_le(&d) implies a.rank_le(
        &d,
    ) by {
        if a.len == b.len && b.len == d.len {
            crate::sort::lemma_str_le_trans(a.id@, b.id@, d.id@);
        }
    }
    assert(crate::sort::rank_total::<FillKey>());
    assert(crate::sort::rank_transitive::<FillKey>());
    crate::sort::lemma_sort_sorted(fp);
    crate::sort::lemma_sort_len(fp);
    let keyed = |e: (FillKey, String)| e.0.len as int == node_members(el, e.1@).len() as usize as int;
    assert forall|i: int| 0 <= i < fp.len() implies keyed(#[trigger] fp[i]) by {}
    crate::sort::lemma_sort_forall(fp, keyed);
    let order = packing_order(el);
    assert forall|i: int, k: int| 0 <= i < k < order.len() implies node_members(el, (#[trigger] order[i])@).len()
        >= node_members(el, (#[trigger] order[k])@).len() by {
        assert(order[i] == sorted[i].1 && order[k] == sorted[k].1);
        assert(keyed(sorted[i]) && keyed(sorted[k]));
        assert(sorted[i].0.rank_le(&sorted[k].0));
        el.lemma_filter_len(on_node(order[i]@));
        el.lemma_filter_len(on_node(order[k]@));
        assert(node_members(el, order[i]@).len() <= el.len());
        assert(node_members(el, order[i]@).len() as usize as int == node_members(el, order[i]@).len());
        assert(node_members(el, order[k]@).len() as usize as int == node_members(el, order[k]@).len());
    }
}

} // verus!
