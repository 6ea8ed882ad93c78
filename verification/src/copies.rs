//! Element-wise copies of the cluster and its parts.

use vstd::prelude::*;

use crate::cluster::{node_views, Cluster};
use crate::decision::SchedulerDecision;
use crate::job::{Job, JobView};
use crate::model::{copy_strings, Gpu, Node};
use crate::scheduler::job_views;
use crate::strmap::{keys_unique, StrMap};

verus! {

/// Keys and job views of running entries.
pub open spec fn entry_views(e: Seq<(String, Job)>) -> Seq<(String, JobView)> {
    e.map_values(|p: (String, Job)| (p.0, p.1@))
}

/// `a` and `b` record the same decisions.
pub open spec fn same_decisions(a: Seq<SchedulerDecision>, b: Seq<SchedulerDecision>) -> bool {
    &&& a.len() == b.len()
    &&& forall|i: int|
        0 <= i < a.len() ==> (#[trigger] a[i]).time == b[i].time && a[i].kind == b[i].kind && a[i].job_id == b[i].job_id
            && a[i].job_name == b[i].job_name && a[i].gpu_ids@ == b[i].gpu_ids@ && a[i].message == b[i].message
}

/// `a` is a copy of `b`: equal counters and settings, element-wise equal views.
pub open spec fn is_copy(a: Cluster, b: Cluster) -> bool {
    &&& node_views(a.nodes@) == node_views(b.nodes@)
    &&& a.clock == b.clock
    &&& job_views(a.waiting_queue@) == job_views(b.waiting_queue@)
    &&& entry_views(a.running_jobs.entries@) == entry_views(b.running_jobs.entries@)
    &&& job_views(a.finished_jobs@) == job_views(b.finished_jobs@)
    &&& a.tenant_quotas.entries@ == b.tenant_quotas.entries@
    &&& a.node_sites.entries@ == b.node_sites.entries@
    &&& same_decisions(a.decision_log@, b.decision_log@)
    &&& a.gang_timeout_rearm_ids@ == b.gang_timeout_rearm_ids@
    &&& a.queue_max_length == b.queue_max_length
    &&& a.mig_reconfigs == b.mig_reconfigs
    &&& a.total_preemptions == b.total_preemptions
    &&& a.topology_penalties == b.topology_penalties
    &&& a.topology_runtime_inflation == b.topology_runtime_inflation
    &&& a.topology == b.topology
}

/// A copy keeps the running jobs a proper map.
pub proof fn lemma_copy_wf(a: Cluster, b: Cluster)
    requires
        is_copy(a, b),
        b.running_jobs.wf(),
    ensures
        a.running_jobs.wf(),
{
    let ea = a.running_jobs.entries@;
    let eb = b.running_jobs.entries@;
    assert(ea.len() == entry_views(ea).len());
    assert forall|i: int, j: int| 0 <= i < ea.len() && 0 <= j < ea.len() && i != j implies #[trigger] ea[i].0@ != #[trigger] ea[j].0@ by {
        assert(entry_views(ea)[i].0 == ea[i].0);
        assert(entry_views(eb)[i].0 == eb[i].0);
        assert(entry_views(ea)[j].0 == ea[j].0);
        assert(entry_views(eb)[j].0 == eb[j].0);
    }
}

pub fn copy_jobs(v: &Vec<Job>) -> (r: Vec<Job>)
    ensures
        job_views(r@) == job_views(v@),
{
    let mut out: Vec<Job> = Vec::new();
    let mut i: usize = 0;
    while i < v.len()
        invariant
            i <= v@.len(),
            job_views(out@) == job_views(v@.take(i as int)),
        decreases v.len() - i,
    {
        out.push(v[i].duplicate());
        proof {
            assert(job_views(v@.take(i as int + 1)) =~= job_views(v@.take(i as int)).push(v@[i as int]@));
        }
        i = i + 1;
    }
    proof {
        assert(v@.take(i as int) == v@);
    }
    out
}

fn copy_running(m: &StrMap<Job>) -> (r: StrMap<Job>)
    ensures
        entry_views(r.entries@) == entry_views(m.entries@),
{
    let mut out: Vec<(String, Job)> = Vec::new();
    let mut i: usize = 0;
    while i < m.entries.len()
        invariant
            i <= m.entries@.len(),
            entry_views(out@) == entry_views(m.entries@.take(i as int)),
        decreases m.entries.len() - i,
    {
        out.push((m.entries[i].0.clone(), m.entries[i].1.duplicate()));
        proof {
            assert(entry_views(m.entries@.take(i as int + 1)) =~= entry_views(m.entries@.take(i as int)).push(
                (m.entries@[i as int].0, m.entries@[i as int].1@),
            ));
        }
        i = i + 1;
    }
    proof {
        assert(m.entries@.take(i as int) == m.entries@);
    }
    StrMap { entries: out }
}

fn copy_quotas(m: &StrMap<u32>) -> (r: StrMap<u32>)
    ensures
        r.entries@ == m.entries@,
{
    let mut out: Vec<(String, u32)> = Vec::new();
    let mut i: usize = 0;
    while i < m.entries.len()
        invariant
            i <= m.entries@.len(),
            out@ == m.entries@.take(i as int),
        decreases m.entries.len() - i,
    {
        out.push((m.entries[i].0.clone(), m.entries[i].1));
        proof {
            assert(m.entries@.take(i as int + 1) == m.entries@.take(i as int).push(m.entries@[i as int]));
        }
        i = i + 1;
    }
    proof {
        assert(m.entries@.take(i as int) == m.entries@);
    }
    StrMap { entries: out }
}

fn copy_sites(m: &StrMap<String>) -> (r: StrMap<String>)
    ensures
        r.entries@ == m.entries@,
{
    let mut out: Vec<(String, String)> = Vec::new();
    let mut i: usize = 0;
    while i < m.entries.len()
        invariant
            i <= m.entries@.len(),
            out@ == m.entries@.take(i as int),
        decreases m.entries.len() - i,
    {
        out.push((m.entries[i].0.clone(), m.entries[i].1.clone()));
        proof {
            assert(m.entries@.take(i as int + 1) == m.entries@.take(i as int).push(m.entries@[i as int]));
        }
        i = i + 1;
    }
    proof {
        assert(m.entries@.take(i as int) == m.entries@);
    }
    StrMap { entries: out }
}

fn copy_decisions(v: &Vec<SchedulerDecision>) -> (r: Vec<SchedulerDecision>)
    ensures
        same_decisions(r@, v@),
{
    let mut out: Vec<SchedulerDecision> = Vec::new();
    let mut i: usize = 0;
    while i < v.len()
        invariant
            i <= v@.len(),
            same_decisions(out@, v@.take(i as int)),
        decreases v.len() - i,
    {
        out.push(v[i].duplicate());
        i = i + 1;
    }
    proof {
        assert(v@.take(i as int) == v@);
    }
    out
}

fn copy_node(n: &Node) -> (r: Node)
    ensures
        r@ == n@,
{
    let mut gpus: Vec<Gpu> = Vec::new();
    let mut i: usize = 0;
    while i < n.gpus.len()
        invariant
            i <= n.gpus@.len(),
            gpus@.len() == i,
            forall|k: int| 0 <= k < i ==> (#[trigger] gpus@[k])@ == n.gpus@[k]@,
        decreases n.gpus.len() - i,
    {
        gpus.push(n.gpus[i].duplicate());
        i = i + 1;
    }
    proof {
        assert(gpus@.map_values(|g: Gpu| g@) =~= n.gpus@.map_values(|g: Gpu| g@));
    }
    Node { id: n.id.clone(), gpus }
}

impl Cluster {
    /// An element-wise copy.
    pub fn duplicate(&self) -> (r: Cluster)
        ensures
            is_copy(r, *self),
    {
        let mut nodes: Vec<Node> = Vec::new();
        let mut i: usize = 0;
        while i < self.nodes.len()
            invariant
                i <= self.nodes@.len(),
                nodes@.len() == i,
                forall|k: int| 0 <= k < i ==> (#[trigger] nodes@[k])@ == self.nodes@[k]@,
            decreases self.nodes.len() - i,
        {
            nodes.push(copy_node(&self.nodes[i]));
            i = i + 1;
        }
        proof {
            assert(node_views(nodes@) =~= node_views(self.nodes@));
        }
        Cluster {
            nodes,
            clock: self.clock,
            waiting_queue: copy_jobs(&self.waiting_queue),
            running_jobs: copy_running(&self.running_jobs),
            finished_jobs: copy_jobs(&self.finished_jobs),
            tenant_quotas: copy_quotas(&self.tenant_quotas),
            node_sites: copy_sites(&self.node_sites),
            decision_log: copy_decisions(&self.decision_log),
            gang_timeout_rearm_ids: copy_strings(&self.gang_timeout_rearm_ids),
            queue_max_length: self.queue_max_length,
            mig_reconfigs: self.mig_reconfigs,
            total_preemptions: self.total_preemptions,
            topology_penalties: self.topology_penalties,
            topology_runtime_inflation: self.topology_runtime_inflation,
            topology: self.topology,
        }
    }
}

} // verus!
