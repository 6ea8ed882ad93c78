//! The simulated cluster: nodes, GPUs, job queues and counters.

use vstd::prelude::*;

use crate::decision::SchedulerDecision;
use crate::job::{Job, JobView};
use crate::model::{Gpu, GpuView, MigSlice, Node, NodeView};
use crate::strmap::StrMap;
use crate::topology::TopologyGraph;

verus! {

/// Views of a sequence of nodes.
pub open spec fn node_views(nodes: Seq<Node>) -> Seq<NodeView> {
    nodes.map_values(|n: Node| n@)
}

/// All GPUs of `nodes`, node by node, each node's GPUs in order.
pub open spec fn flat_gpus(nodes: Seq<NodeView>) -> Seq<GpuView>
    decreases nodes.len(),
{
    if nodes.len() == 0 {
        Seq::empty()
    } else {
        flat_gpus(nodes.drop_last()) + nodes.last().gpus
    }
}

/// Flat index of the first GPU of node `i`.
pub open spec fn node_offset(nodes: Seq<NodeView>, i: int) -> int {
    flat_gpus(nodes.take(i)).len() as int
}

pub proof fn lemma_flat_take_step(nodes: Seq<NodeView>, i: int)
    requires
        0 <= i < nodes.len(),
    ensures
        flat_gpus(nodes.take(i + 1)) == flat_gpus(nodes.take(i)) + nodes[i].gpus,
{
    assert(nodes.take(i + 1).drop_last() == nodes.take(i));
}

pub proof fn lemma_flat_take_prefix(nodes: Seq<NodeView>, i: int)
    requires
        0 <= i <= nodes.len(),
    ensures
        flat_gpus(nodes) == flat_gpus(nodes.take(i)) + flat_gpus(nodes.skip(i)),
    decreases nodes.len() - i,
{
    if i == nodes.len() {
        assert(nodes.take(i) == nodes);
        assert(nodes.skip(i).len() == 0);
        assert(flat_gpus(nodes.skip(i)) == Seq::<GpuView>::empty());
    } else {
        lemma_flat_take_prefix(nodes, i + 1);
        lemma_flat_take_step(nodes, i);
        lemma_flat_cons(nodes.skip(i));
        assert(nodes.skip(i).drop_first() == nodes.skip(i + 1));
        assert(nodes.skip(i)[0] == nodes[i]);
    }
}

pub proof fn lemma_flat_cons(nodes: Seq<NodeView>)
    requires
        nodes.len() > 0,
    ensures
        flat_gpus(nodes) == nodes[0].gpus + flat_gpus(nodes.drop_first()),
    decreases nodes.len(),
{
    if nodes.len() == 1 {
        assert(nodes.drop_last().len() == 0);
        assert(nodes.drop_first().len() == 0);
        assert(flat_gpus(nodes.drop_first()) == Seq::<GpuView>::empty());
        assert(flat_gpus(nodes.drop_last()) == Seq::<GpuView>::empty());
    } else {
        lemma_flat_cons(nodes.drop_last());
        assert(nodes.drop_last().drop_first() == nodes.drop_first().drop_last());
        assert(nodes.drop_first().last() == nodes.last());
        assert(nodes.drop_last()[0] == nodes[0]);
    }
}

/// Replacing GPU `(i, j)` replaces flat GPU `node_offset(i) + j`.
pub proof fn lemma_flat_update(nodes: Seq<NodeView>, i: int, j: int, g: GpuView)
    requires
        0 <= i < nodes.len(),
        0 <= j < nodes[i].gpus.len(),
    ensures
        flat_gpus(nodes.update(i, NodeView { id: nodes[i].id, gpus: nodes[i].gpus.update(j, g) }))
            == flat_gpus(nodes).update(node_offset(nodes, i) + j, g),
{
    let nn = nodes.update(i, NodeView { id: nodes[i].id, gpus: nodes[i].gpus.update(j, g) });
    lemma_flat_take_prefix(nodes, i);
    lemma_flat_take_prefix(nn, i);
    lemma_flat_cons(nodes.skip(i));
    lemma_flat_cons(nn.skip(i));
    assert(nn.take(i) == nodes.take(i));
    assert(nn.skip(i).drop_first() == nodes.skip(i).drop_first());
    assert(nn.skip(i)[0] == nn[i]);
    assert(nodes.skip(i)[0] == nodes[i]);
    assert(flat_gpus(nn) == flat_gpus(nodes).update(node_offset(nodes, i) + j, g));
}

/// Sum of the GPU counts of the running jobs of tenant `t`.
pub open spec fn tenant_usage(entries: Seq<(String, Job)>, t: Seq<char>) -> int
    decreases entries.len(),
{
    if entries.len() == 0 {
        0
    } else {
        tenant_usage(entries.drop_last(), t) + (if entries.last().1.tenant matches Some(x) && x@ == t {
            entries.last().1.gpu_count as int
        } else {
            0
        })
    }
}

/// Number of GPUs whose whole-GPU slot is free and that are not partitioned.
pub open spec fn count_whole_free(g: Seq<GpuView>) -> nat
    decreases g.len(),
{
    if g.len() == 0 {
        0
    } else {
        count_whole_free(g.drop_last()) + (if g.last().whole_free() { 1nat } else { 0nat })
    }
}

/// The simulated cluster.
#[derive(Debug, Clone)]
pub struct Cluster {
    pub nodes: Vec<Node>,
    pub clock: u64,
    pub waiting_queue: Vec<Job>,
    pub running_jobs: StrMap<Job>,
    pub finished_jobs: Vec<Job>,
    /// Maximum GPUs a tenant may hold at once; tenants without an entry are unlimited.
    pub tenant_quotas: StrMap<u32>,
    /// Federation site of each node.
    pub node_sites: StrMap<String>,
    pub decision_log: Vec<SchedulerDecision>,
    /// Gang jobs whose timeout must be scheduled again after being requeued.
    pub gang_timeout_rearm_ids: Vec<String>,
    pub queue_max_length: usize,
    pub mig_reconfigs: u32,
    pub total_preemptions: u32,
    pub topology_penalties: u32,
    /// Seconds of extra runtime caused by topology penalties.
    pub topology_runtime_inflation: u64,
    pub topology: TopologyGraph,
}

impl Cluster {
    /// All GPUs of the cluster, node by node.
    pub open spec fn gpu_views(&self) -> Seq<GpuView> {
        flat_gpus(node_views(self.nodes@))
    }

    /// A cluster with the given nodes and nothing queued, running or finished.
    pub fn new(nodes: Vec<Node>) -> (c: Cluster)
        ensures
            c.nodes@ == nodes@,
            c.clock == 0,
            c.waiting_queue@.len() == 0,
            c.running_jobs.entries@.len() == 0,
            c.finished_jobs@.len() == 0,
            c.tenant_quotas.entries@.len() == 0,
            c.node_sites.entries@.len() == 0,
            c.decision_log@.len() == 0,
            c.gang_timeout_rearm_ids@.len() == 0,
            c.queue_max_length == 0,
            c.mig_reconfigs == 0,
            c.total_preemptions == 0,
            c.topology_penalties == 0,
            c.topology_runtime_inflation == 0,
            c.topology == TopologyGraph::spec_default(),
    {
        Cluster {
            nodes,
            clock: 0,
            waiting_queue: Vec::new(),
            running_jobs: StrMap::new(),
            finished_jobs: Vec::new(),
            tenant_quotas: StrMap::new(),
            node_sites: StrMap::new(),
            decision_log: Vec::new(),
            gang_timeout_rearm_ids: Vec::new(),
            queue_max_length: 0,
            mig_reconfigs: 0,
            total_preemptions: 0,
            topology_penalties: 0,
            topology_runtime_inflation: 0,
            topology: TopologyGraph::default(),
        }
    }

    /// Copies of all GPUs, node by node.
    pub fn all_gpus(&self) -> (r: Vec<Gpu>)
        ensures
            r@.map_values(|g: Gpu| g@) == self.gpu_views(),
    {
        let ghost nv = node_views(self.nodes@);
        let mut out: Vec<Gpu> = Vec::new();
        let mut i: usize = 0;
        while i < self.nodes.len()
            invariant
                nv == node_views(self.nodes@),
                i <= self.nodes@.len(),
                out@.map_values(|g: Gpu| g@) == flat_gpus(nv.take(i as int)),
            decreases self.nodes.len() - i,
        {
            let mut j: usize = 0;
            proof {
                lemma_flat_take_step(nv, i as int);
                assert(nv[i as int] == self.nodes@[i as int]@);
            }
            while j < self.nodes[i].gpus.len()
                invariant
                    nv == node_views(self.nodes@),
                    i < self.nodes@.len(),
                    j <= self.nodes@[i as int].gpus@.len(),
                    nv[i as int].gpus == self.nodes@[i as int].gpus@.map_values(|g: Gpu| g@),
                    out@.map_values(|g: Gpu| g@) == flat_gpus(nv.take(i as int)) + nv[i as int].gpus.take(
                        j as int,
                    ),
                decreases self.nodes@[i as int].gpus@.len() - j,
            {
                let g = self.nodes[i].gpus[j].duplicate();
                let ghost before = out@;
                out.push(g);
                proof {
                    assert(g@ == nv[i as int].gpus[j as int]);
                    assert(out@.map_values(|g: Gpu| g@) =~= before.map_values(|g: Gpu| g@).push(g@));
                    assert(nv[i as int].gpus.take(j as int + 1) == nv[i as int].gpus.take(j as int).push(
                        nv[i as int].gpus[j as int],
                    ));
                    assert(out@.map_values(|g: Gpu| g@) == flat_gpus(nv.take(i as int)) + nv[
                        i as int
                    ].gpus.take(j as int + 1));
                }
                j = j + 1;
            }
            proof {
                assert(nv[i as int].gpus.take(j as int) == nv[i as int].gpus);
            }
            i = i + 1;
        }
        proof {
            assert(nv.take(i as int) == nv);
        }
        out
    }

    /// Total number of GPUs.
    pub fn gpu_count(&self) -> (n: usize)
        ensures
            n == self.gpu_views().len(),
    {
        let g = self.all_gpus();
        g.len()
    }

    /// Number of GPUs free for whole-GPU placement.
    pub fn free_gpu_count(&self) -> (n: usize)
        ensures
            n == count_whole_free(self.gpu_views()),
    {
        let g = self.all_gpus();
        let ghost gv = self.gpu_views();
        let mut n: usize = 0;
        let mut i: usize = 0;
        while i < g.len()
            invariant
                g@.map_values(|x: Gpu| x@) == gv,
                i <= g@.len(),
                n == count_whole_free(gv.take(i as int)),
                n <= i,
            decreases g.len() - i,
        {
            proof {
                assert(gv.take(i as int + 1).drop_last() == gv.take(i as int));
                assert(g@[i as int]@ == gv[i as int]);
            }
            if g[i].is_whole_gpu_free() {
                n = n + 1;
            }
            i = i + 1;
        }
        proof {
            assert(gv.take(i as int) == gv);
        }
        n
    }

    /// GPUs held by the running jobs of tenant `tenant`, saturating at `u64::MAX`.
    pub fn tenant_gpu_usage(&self, tenant: &String) -> (n: u64)
        ensures
            n == if tenant_usage(self.running_jobs.entries@, tenant@) <= u64::MAX {
                tenant_usage(self.running_jobs.entries@, tenant@)
            } else {
                u64::MAX as int
            },
    {
        let ghost e = self.running_jobs.entries@;
        let mut total: u64 = 0;
        let mut i: usize = 0;
        proof {
            lemma_tenant_usage_nonneg(e, tenant@);
        }
        while i < self.running_jobs.entries.len()
            invariant
                e == self.running_jobs.entries@,
                i <= e.len(),
                total == if tenant_usage(e.take(i as int), tenant@) <= u64::MAX {
                    tenant_usage(e.take(i as int), tenant@)
                } else {
                    u64::MAX as int
                },
            decreases e.len() - i,
        {
            proof {
                assert(e.take(i as int + 1).drop_last() == e.take(i as int));
                lemma_tenant_usage_nonneg(e.take(i as int), tenant@);
            }
            let entry = &self.running_jobs.entries[i];
            let add: u64 = match &entry.1.tenant {
                Some(t) => if *t == *tenant { entry.1.gpu_count as u64 } else { 0 },
                None => 0,
            };
            total = total.saturating_add(add);
            i = i + 1;
        }
        proof {
            assert(e.take(i as int) == e);
        }
        total
    }

    /// Federation site of node `node_id`, if it has one.
    pub fn node_site(&self, node_id: &String) -> (r: Option<&String>)
        ensures
            r matches Some(s) ==> self.node_sites.lookup(node_id@) == Some(*s),
            r is None ==> self.node_sites.lookup(node_id@) is None,
    {
        self.node_sites.get(node_id)
    }

    /// Node and in-node position of the GPU at flat index `k`.
    pub fn position_of(&self, k: usize) -> (r: (usize, usize))
        requires
            k < self.gpu_views().len(),
        ensures
            r.0 < self.nodes@.len(),
            r.1 < self.nodes@[r.0 as int].gpus@.len(),
            node_offset(node_views(self.nodes@), r.0 as int) + r.1 == k,
    {
        let ghost nv = node_views(self.nodes@);
        let mut i: usize = 0;
        let mut base: usize = 0;
        proof {
            lemma_flat_take_prefix(nv, 0);
            assert(nv.take(0).len() == 0);
            assert(flat_gpus(nv.take(0)) == Seq::<GpuView>::empty());
            assert(nv.take(nv.len() as int) == nv);
        }
        while i < self.nodes.len()
            invariant
                nv == node_views(self.nodes@),
                i <= nv.len(),
                base == node_offset(nv, i as int),
                base <= k,
                k < flat_gpus(nv).len(),
            decreases nv.len() - i,
        {
            proof {
                lemma_flat_take_step(nv, i as int);
                assert(nv[i as int].gpus.len() == self.nodes@[i as int].gpus@.len());
            }
            let len = self.nodes[i].gpus.len();
            if k - base < len {
                return (i, k - base);
            }
            base = base + len;
            i = i + 1;
        }
        proof {
            assert(nv.take(i as int) == nv);
        }
        (0, 0)
    }

    /// Replaces the GPU at flat index `k` by `g`; nothing else changes.
    pub fn replace_gpu_at(&mut self, k: usize, g: Gpu)
        requires
            k < old(self).gpu_views().len(),
        ensures
            final(self).gpu_views() == old(self).gpu_views().update(k as int, g@),
            final(self).nodes@.len() == old(self).nodes@.len(),
            forall|i: int| 0 <= i < final(self).nodes@.len() ==> #[trigger] final(self).nodes@[i].id == old(self).nodes@[i].id
                && final(self).nodes@[i].gpus@.len() == old(self).nodes@[i].gpus@.len(),
            final(self).same_jobs_and_counters(*old(self)),
            final(self).same_shape(*old(self)),
            *final(self) == (Cluster { nodes: final(self).nodes, ..*old(self) }),
    {
        let (i, j) = self.position_of(k);
        let ghost nv = node_views(self.nodes@);
        let ghost old_gpus = self.nodes@[i as int].gpus@;
        let ghost gv = g@;
        self.nodes[i].gpus.set(j, g);
        proof {
            assert(self.nodes@[i as int].gpus@ == old_gpus.update(j as int, g));
            assert(self.nodes@[i as int].gpus@.map_values(|x: Gpu| x@) =~= old_gpus.map_values(|x: Gpu| x@).update(j as int, gv));
            assert(node_views(self.nodes@) =~= nv.update(
                i as int,
                NodeView { id: nv[i as int].id, gpus: nv[i as int].gpus.update(j as int, gv) },
            ));
            lemma_flat_update(nv, i as int, j as int, gv);
            assert(node_views(self.nodes@) == nv.update(
                i as int,
                NodeView { id: nv[i as int].id, gpus: nv[i as int].gpus.update(j as int, gv) },
            ));
        }
    }

    /// Same nodes, in the same order, each with as many GPUs as in `other`.
    pub open spec fn same_shape(&self, other: Cluster) -> bool {
        &&& self.nodes@.len() == other.nodes@.len()
        &&& forall|i: int| 0 <= i < self.nodes@.len() ==> #[trigger] self.nodes@[i].id == other.nodes@[i].id
            && self.nodes@[i].gpus@.len() == other.nodes@[i].gpus@.len()
    }

    /// Every field but the nodes is as in `other`.
    pub open spec fn same_jobs_and_counters(&self, other: Cluster) -> bool {
        &&& self.clock == other.clock
        &&& self.waiting_queue == other.waiting_queue
        &&& self.running_jobs == other.running_jobs
        &&& self.finished_jobs == other.finished_jobs
        &&& self.tenant_quotas == other.tenant_quotas
        &&& self.node_sites == other.node_sites
        &&& self.decision_log == other.decision_log
        &&& self.gang_timeout_rearm_ids == other.gang_timeout_rearm_ids
        &&& self.queue_max_length == other.queue_max_length
        &&& self.mig_reconfigs == other.mig_reconfigs
        &&& self.total_preemptions == other.total_preemptions
        &&& self.topology_penalties == other.topology_penalties
        &&& self.topology_runtime_inflation == other.topology_runtime_inflation
        &&& self.topology == other.topology
    }

    /// Appends a decision to the log.
    pub fn record_decision(&mut self, d: SchedulerDecision)
        ensures
            final(self).decision_log@ == old(self).decision_log@.push(d),
            *final(self) == (Cluster { decision_log: final(self).decision_log, ..*old(self) }),
            final(self).nodes == old(self).nodes,
            final(self).waiting_queue == old(self).waiting_queue,
            final(self).running_jobs == old(self).running_jobs,
            final(self).finished_jobs == old(self).finished_jobs,
    {
        self.decision_log.push(d);
    }

    /// Asks for the gang timeout of job `job_id` to be scheduled again.
    pub fn note_gang_timeout_rearm(&mut self, job_id: &String)
        ensures
            final(self).gang_timeout_rearm_ids@.len() == old(self).gang_timeout_rearm_ids@.len() + 1,
            final(self).gang_timeout_rearm_ids@.last()@ == job_id@,
            final(self).gang_timeout_rearm_ids@.drop_last() == old(self).gang_timeout_rearm_ids@,
            final(self).gang_timeout_rearm_ids@ == old(self).gang_timeout_rearm_ids@.push(*job_id),
            *final(self) == (Cluster { gang_timeout_rearm_ids: final(self).gang_timeout_rearm_ids, ..*old(self) }),
            final(self).nodes == old(self).nodes,
            final(self).waiting_queue == old(self).waiting_queue,
            final(self).running_jobs == old(self).running_jobs,
    {
        self.gang_timeout_rearm_ids.push(job_id.clone());
    }

    /// Appends `job` to the waiting queue and updates the longest queue seen.
    pub fn enqueue_job(&mut self, job: Job)
        ensures
            final(self).waiting_queue@ == old(self).waiting_queue@.push(job),
            final(self).queue_max_length == if old(self).queue_max_length >= final(self).waiting_queue@.len() {
                old(self).queue_max_length as int
            } else {
                final(self).waiting_queue@.len() as int
            },
            *final(self) == (Cluster {
                waiting_queue: final(self).waiting_queue,
                queue_max_length: final(self).queue_max_length,
                ..*old(self)
            }),
            final(self).nodes == old(self).nodes,
            final(self).running_jobs == old(self).running_jobs,
            final(self).finished_jobs == old(self).finished_jobs,
    {
        self.waiting_queue.push(job);
        let len = self.waiting_queue.len();
        if len > self.queue_max_length {
            self.queue_max_length = len;
        }
    }
}

pub proof fn lemma_tenant_usage_nonneg(e: Seq<(String, Job)>, t: Seq<char>)
    ensures
        tenant_usage(e, t) >= 0,
    decreases e.len(),
{
    if e.len() > 0 {
        lemma_tenant_usage_nonneg(e.drop_last(), t);
    }
}

} // verus!
