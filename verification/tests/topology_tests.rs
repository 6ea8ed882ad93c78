use zyvor_janus::cluster::Cluster;
use zyvor_janus::job::Job;
use zyvor_janus::model::{Gpu, Node};
use zyvor_janus::topology::{distinct_nodes, distinct_nvlink_groups, scale_duration, spans_multiple_domains, GpuTopologyKey, TopologyGraph};

fn grouped_gpu(id: &str, group: u32) -> Gpu {
    Gpu {
        id: id.into(),
        node_id: "n0".into(),
        profile: "H100".into(),
        memory_gb: 80,
        nvlink_group: Some(group),
        running_job_id: None,
        mig_capable: false,
        active_mig_profile: None,
        slices: Vec::new(),
    }
}

#[test]
fn topology_single_domain_has_unit_multiplier() {
    let cluster = Cluster::new(vec![Node { id: "n0".into(), gpus: vec![grouped_gpu("g0", 0), grouped_gpu("g1", 0)] }]);
    let topo = TopologyGraph::default();
    let mut job = Job::new("j1", "net", 0, 10, 2);
    job.network_bw_gbps = Some(200);
    let mult = topo.runtime_multiplier_for_cluster(&cluster, &job, &vec!["g0".to_string(), "g1".to_string()], false);
    assert_eq!(mult, (1, 1));
}

#[test]
fn topology_cross_domain_inflates_runtime() {
    let cluster = Cluster::new(vec![Node { id: "n0".into(), gpus: vec![grouped_gpu("g0", 0), grouped_gpu("g1", 1)] }]);
    let topo = TopologyGraph::from_profile_bandwidths(900, 64);
    let mut job = Job::new("j1", "net", 0, 10, 2);
    job.network_bw_gbps = Some(200);
    let (num, den) = topo.runtime_multiplier_for_cluster(&cluster, &job, &vec!["g0".to_string(), "g1".to_string()], true);
    assert!(num > den);
}

fn key(group: u32, node: &str) -> GpuTopologyKey {
    GpuTopologyKey { nvlink_group: Some(group), node_id: node.into() }
}

#[test]
fn lib_single_domain_has_unit_multiplier() {
    let gpu_topology = vec![key(0, "n0"), key(0, "n0")];
    let topo = TopologyGraph::default();
    let mult = topo.runtime_multiplier(&gpu_topology, false, Some(200), false);
    assert_eq!(mult, (1, 1));
}

#[test]
fn lib_cross_domain_inflates_runtime() {
    let gpu_topology = vec![key(0, "n0"), key(1, "n0")];
    let topo = TopologyGraph::from_profile_bandwidths(900, 64);
    let (num, den) = topo.runtime_multiplier(&gpu_topology, false, Some(200), true);
    assert!(num > den);
}

#[test]
fn cross_group_multiplier_is_one_plus_quarter_bandwidth_ratio() {
    // 1 + 0.25 * 64 / 900 with a network request of 200 Gbps.
    let gpu_topology = vec![key(0, "n0"), key(1, "n0")];
    let topo = TopologyGraph::from_profile_bandwidths(900, 64);
    let (num, den) = topo.runtime_multiplier(&gpu_topology, false, Some(200), true);
    assert_eq!(num * 900 * 4, den * (900 * 4 + 64));
}

#[test]
fn cross_node_multiplier_without_bandwidth_request() {
    // Two nodes, one group, gang job: 1 + 0.15.
    let gpu_topology = vec![key(0, "n0"), key(0, "n1")];
    let topo = TopologyGraph::default();
    let (num, den) = topo.runtime_multiplier(&gpu_topology, true, None, false);
    assert_eq!(num * 100, den * 115);
    assert_eq!(scale_duration(100, num, den), 115);
}

#[test]
fn bandwidth_floor_clamps_to_one() {
    let t = TopologyGraph::from_profile_bandwidths(0, 0);
    assert_eq!(t.nvlink_bw_gbs, 1);
    assert_eq!(t.pcie_bw_gbs, 1);
}

#[test]
fn distinct_counts() {
    let keys = vec![key(0, "n0"), key(1, "n0"), key(1, "n1")];
    assert_eq!(distinct_nvlink_groups(&keys), 2);
    assert_eq!(distinct_nodes(&keys), 2);
    assert!(spans_multiple_domains(&keys));
    assert!(!spans_multiple_domains(&vec![key(0, "n0")]));
}
