use zyvor_janus::cluster::Cluster;
use zyvor_janus::job::Job;
use zyvor_janus::mig::{MigHardwareConfig, MigProfileRegistry, MigProfileSpec};
use zyvor_janus::model::{Gpu, MigSlice, Node};
use zyvor_janus::resource::{GpuSelectionPolicy, ResourceManager};
use zyvor_janus::strmap::StrMap;

fn plain_gpu(id: &str, node: &str, group: Option<u32>) -> Gpu {
    Gpu {
        id: id.into(),
        node_id: node.into(),
        profile: "H100".into(),
        memory_gb: 80,
        nvlink_group: group,
        running_job_id: None,
        mig_capable: false,
        active_mig_profile: None,
        slices: Vec::new(),
    }
}

fn mig_registry() -> MigProfileRegistry {
    let mut profiles = StrMap::new();
    profiles.insert("1g.10gb".to_string(), MigProfileSpec { memory_gb: 10, max_per_gpu: 7 });
    MigProfileRegistry::from_config(MigHardwareConfig {
        hardware: "H100_80GB".into(),
        reconfig_seconds: 30,
        profiles,
    })
}

fn mig_gpu_cluster() -> Cluster {
    Cluster::new(vec![Node {
        id: "node-0".into(),
        gpus: vec![Gpu {
            id: "gpu-0".into(),
            node_id: "node-0".into(),
            profile: "H100_80GB".into(),
            memory_gb: 80,
            nvlink_group: None,
            running_job_id: None,
            mig_capable: true,
            active_mig_profile: None,
            slices: Vec::new(),
        }],
    }])
}

fn two_gpu_cluster() -> Cluster {
    Cluster::new(vec![Node {
        id: "n0".into(),
        gpus: vec![Gpu::new("g0", "n0", "H100", 80), Gpu::new("g1", "n0", "H100", 80)],
    }])
}

fn two_site_cluster() -> Cluster {
    let mut cluster = Cluster::new(vec![
        Node { id: "n-site-a".into(), gpus: vec![Gpu::new("g-a", "n-site-a", "H100", 80)] },
        Node { id: "n-site-b".into(), gpus: vec![Gpu::new("g-b", "n-site-b", "H100", 80)] },
    ]);
    cluster.node_sites.insert("n-site-a".into(), "site-a".into());
    cluster.node_sites.insert("n-site-b".into(), "site-b".into());
    cluster
}

fn two_node_cluster() -> Cluster {
    Cluster::new(vec![
        Node {
            id: "node-a".into(),
            gpus: (0..4u32).map(|i| plain_gpu(&format!("a-g{i}"), "node-a", Some(i / 2))).collect(),
        },
        Node {
            id: "node-b".into(),
            gpus: (0..4u32).map(|i| plain_gpu(&format!("b-g{i}"), "node-b", Some(i / 2))).collect(),
        },
    ])
}

#[test]
fn no_partial_allocation() {
    let cluster = Cluster::new(vec![Node {
        id: "n0".into(),
        gpus: vec![plain_gpu("g0", "n0", None), plain_gpu("g1", "n0", None)],
    }]);
    let rm = ResourceManager::new();
    let job = Job::new("j1", "big", 0, 10, 2);
    assert!(rm.can_place(&cluster, &job));
    let p = rm.allocate(&mut cluster.clone(), &job, 0).unwrap();
    assert_eq!(p.gpu_ids.len(), 2);
}

#[test]
fn quota_blocks_job_that_would_exceed_tenant_limit() {
    let mut cluster = two_gpu_cluster();
    cluster.tenant_quotas.insert("acme".into(), 1);
    let rm = ResourceManager::new();
    let mut job = Job::new("j1", "big", 0, 10, 2);
    job.tenant = Some("acme".into());
    assert!(!rm.can_place(&cluster, &job));
}

#[test]
fn quota_allows_job_within_tenant_limit() {
    let mut cluster = two_gpu_cluster();
    cluster.tenant_quotas.insert("acme".into(), 2);
    let rm = ResourceManager::new();
    let mut job = Job::new("j1", "big", 0, 10, 2);
    job.tenant = Some("acme".into());
    assert!(rm.can_place(&cluster, &job));
}

#[test]
fn quota_accounts_for_already_running_jobs() {
    let mut cluster = two_gpu_cluster();
    cluster.tenant_quotas.insert("acme".into(), 1);
    let mut running = Job::new("j0", "running", 0, 10, 1);
    running.tenant = Some("acme".into());
    cluster.start_job(running, &vec!["g0".to_string()], 0);
    let rm = ResourceManager::new();
    let mut job = Job::new("j1", "second", 0, 10, 1);
    job.tenant = Some("acme".into());
    assert!(!rm.can_place(&cluster, &job));
}

#[test]
fn tenant_without_quota_entry_is_unrestricted() {
    let mut cluster = two_gpu_cluster();
    cluster.tenant_quotas.insert("other-team".into(), 1);
    let rm = ResourceManager::new();
    let mut job = Job::new("j1", "big", 0, 10, 2);
    job.tenant = Some("acme".into());
    assert!(rm.can_place(&cluster, &job));
}

#[test]
fn site_tagged_job_only_places_on_its_own_site() {
    let cluster = two_site_cluster();
    let rm = ResourceManager::new();
    let mut job = Job::new("j1", "site-a-job", 0, 10, 1);
    job.site = Some("site-a".into());
    let p = rm.allocate(&mut cluster.clone(), &job, 0).unwrap();
    assert_eq!(p.gpu_ids, vec!["g-a".to_string()]);
}

#[test]
fn site_tagged_job_is_blocked_once_its_own_site_is_full() {
    let mut cluster = two_site_cluster();
    let rm = ResourceManager::new();
    let mut running = Job::new("j0", "running", 0, 10, 1);
    running.site = Some("site-a".into());
    cluster.start_job(running, &vec!["g-a".to_string()], 0);
    let mut job = Job::new("j1", "second-site-a-job", 0, 10, 1);
    job.site = Some("site-a".into());
    assert!(!rm.can_place(&cluster, &job));
}

#[test]
fn job_without_a_site_tag_is_unpartitioned() {
    let cluster = two_site_cluster();
    let rm = ResourceManager::new();
    let job = Job::new("j1", "untagged", 0, 10, 2);
    assert!(rm.can_place(&cluster, &job));
}

#[test]
fn rejects_when_not_enough_gpus() {
    let cluster = Cluster::new(vec![Node { id: "n0".into(), gpus: vec![plain_gpu("g0", "n0", None)] }]);
    let rm = ResourceManager::new();
    let job = Job::new("j1", "big", 0, 10, 3);
    assert!(!rm.can_place(&cluster, &job));
}

#[test]
fn mig_job_reconfigures_and_allocates_slices() {
    let mut cluster = mig_gpu_cluster();
    let rm = ResourceManager::with_mig(mig_registry());
    let mut job = Job::new("j1", "infer", 0, 10, 1);
    job.mig_profile = Some("1g.10gb".into());
    job.mig_count = Some(2);
    let placement = rm.allocate(&mut cluster, &job, 0).unwrap();
    assert_eq!(placement.gpu_ids.len(), 2);
    assert_eq!(placement.start_time, 30);
    assert_eq!(cluster.mig_reconfigs, 1);
    assert_eq!(cluster.all_gpus()[0].slices.len(), 2);
}

#[test]
fn second_mig_job_reuses_existing_slices() {
    let mut cluster = mig_gpu_cluster();
    let rm = ResourceManager::with_mig(mig_registry());
    let mut job_a = Job::new("j1", "a", 0, 10, 1);
    job_a.mig_profile = Some("1g.10gb".into());
    job_a.mig_count = Some(2);
    let p1 = rm.allocate(&mut cluster, &job_a, 0).unwrap();
    cluster.start_job(job_a, &p1.gpu_ids, p1.start_time);

    let mut job_b = Job::new("j2", "b", 1, 5, 1);
    job_b.mig_profile = Some("1g.10gb".into());
    job_b.mig_count = Some(1);
    assert!(!rm.can_place(&cluster, &job_b));

    cluster.finish_job(&"j1".to_string(), 40);
    let p2 = rm.allocate(&mut cluster, &job_b, 40).unwrap();
    assert_eq!(p2.gpu_ids.len(), 1);
    assert_eq!(p2.start_time, 40);
    assert_eq!(cluster.mig_reconfigs, 1);
}

#[test]
fn gang_job_requires_spread_across_nodes() {
    let cluster = two_node_cluster();
    let rm = ResourceManager::new();
    let mut job = Job::new("g1", "gang", 0, 10, 4);
    job.gang_enabled = true;
    job.gang_size_nodes = Some(2);
    assert!(rm.can_place(&cluster, &job));
    let placement = rm.allocate(&mut cluster.clone(), &job, 0).unwrap();
    let nodes: std::collections::HashSet<_> =
        placement.gpu_ids.iter().map(|id| cluster.gpu(id).unwrap().node_id.clone()).collect();
    assert_eq!(nodes.len(), 2);
}

#[test]
fn gang_job_rejects_when_not_enough_nodes() {
    let mut cluster = two_node_cluster();
    cluster.nodes.pop();
    let rm = ResourceManager::new();
    let mut job = Job::new("g1", "gang", 0, 10, 8);
    job.gang_enabled = true;
    job.gang_size_nodes = Some(2);
    assert!(!rm.can_place(&cluster, &job));
}

#[test]
fn topology_aware_prefers_single_nvlink_group() {
    let cluster = two_node_cluster();
    let rm = ResourceManager::new();
    let mut job = Job::new("j1", "net", 0, 10, 2);
    job.network_bw_gbps = Some(100);
    let mut c = cluster.clone();
    let placement = rm.allocate(&mut c, &job, 0).unwrap();
    let groups: std::collections::HashSet<_> =
        placement.gpu_ids.iter().map(|id| cluster.gpu(id).unwrap().nvlink_group).collect();
    assert_eq!(groups.len(), 1);
    assert_eq!(c.topology_penalties, 0);
}

#[test]
fn topology_fallback_increments_penalty() {
    let mut cluster = Cluster::new(vec![Node {
        id: "n0".into(),
        gpus: vec![plain_gpu("g0", "n0", Some(0)), plain_gpu("g1", "n0", Some(1))],
    }]);
    let rm = ResourceManager::new();
    let mut job = Job::new("j1", "net", 0, 10, 2);
    job.network_bw_gbps = Some(100);
    let placement = rm.allocate(&mut cluster, &job, 0).unwrap();
    assert_eq!(placement.gpu_ids.len(), 2);
    assert_eq!(cluster.topology_penalties, 1);
}

#[test]
fn gpu_type_mismatch_blocks_placement() {
    let cluster = Cluster::new(vec![Node { id: "n0".into(), gpus: vec![Gpu::new("g0", "n0", "A100_80GB", 80)] }]);
    let rm = ResourceManager::new();
    let mut job = Job::new("j1", "train", 0, 10, 1);
    job.gpu_type = Some("H100_80GB".into());
    assert!(!rm.can_place(&cluster, &job));
}

#[test]
fn gpu_type_match_allows_placement() {
    let cluster = Cluster::new(vec![Node { id: "n0".into(), gpus: vec![Gpu::new("g0", "n0", "H100_80GB", 80)] }]);
    let rm = ResourceManager::new();
    let mut job = Job::new("j1", "train", 0, 10, 1);
    job.gpu_type = Some("H100_80GB".into());
    assert!(rm.can_place(&cluster, &job));
}

#[test]
fn gang_scatter_fallback_increments_topology_penalty() {
    let cluster = two_node_cluster();
    let rm = ResourceManager::new();
    let mut job = Job::new("g1", "gang", 0, 10, 4);
    job.gang_enabled = true;
    job.gang_size_nodes = Some(2);
    let mut c = cluster.clone();
    rm.allocate(&mut c, &job, 0).unwrap();
    assert_eq!(c.topology_penalties, 0);
}

#[test]
fn best_fit_prefers_tighter_node() {
    let mut cluster = Cluster::new(vec![
        Node {
            id: "wide".into(),
            gpus: vec![
                Gpu::new("w0", "wide", "H100", 80),
                Gpu::new("w1", "wide", "H100", 80),
                Gpu::new("w2", "wide", "H100", 80),
                Gpu::new("w3", "wide", "H100", 80),
            ],
        },
        Node { id: "tight".into(), gpus: vec![Gpu::new("t0", "tight", "H100", 80), Gpu::new("t1", "tight", "H100", 80)] },
    ]);
    cluster.start_job(Job::new("block", "b", 0, 100, 1), &vec!["w0".to_string()], 0);
    let rm = ResourceManager::new().with_gpu_selection(GpuSelectionPolicy::BestFit);
    let job = Job::new("j1", "pair", 0, 10, 2);
    let placement = rm.allocate(&mut cluster, &job, 0).unwrap();
    assert_eq!(placement.gpu_ids, vec!["t0", "t1"]);
}

#[test]
fn failed_allocation_leaves_cluster_unchanged() {
    let mut cluster = two_gpu_cluster();
    let rm = ResourceManager::new();
    let job = Job::new("j1", "huge", 0, 10, 3);
    let before = cluster.free_gpu_count();
    let r = rm.allocate(&mut cluster, &job, 0);
    assert!(r.is_err());
    assert_eq!(cluster.free_gpu_count(), before);
    assert_eq!(cluster.topology_penalties, 0);
}

#[test]
fn mig_job_without_registry_is_a_config_error() {
    let mut cluster = mig_gpu_cluster();
    let rm = ResourceManager::new();
    let mut job = Job::new("j1", "infer", 0, 10, 1);
    job.mig_profile = Some("1g.10gb".into());
    assert!(!rm.can_place(&cluster, &job));
    let r = rm.allocate(&mut cluster, &job, 0);
    assert!(matches!(r, Err(zyvor_janus::error::SimError::Config(_))));
}

#[test]
fn best_fit_packs_fullest_nodes_first_when_no_single_node_fits() {
    let mut cluster = Cluster::new(vec![
        Node { id: "a".into(), gpus: vec![Gpu::new("a0", "a", "H100", 80), Gpu::new("a1", "a", "H100", 80)] },
        Node {
            id: "b".into(),
            gpus: vec![Gpu::new("b0", "b", "H100", 80), Gpu::new("b1", "b", "H100", 80), Gpu::new("b2", "b", "H100", 80)],
        },
    ]);
    let rm = ResourceManager::new().with_gpu_selection(GpuSelectionPolicy::BestFit);
    let job = Job::new("j1", "wide", 0, 10, 5);
    assert!(rm.can_place(&cluster, &job));
    let placement = rm.allocate(&mut cluster, &job, 0).unwrap();
    assert_eq!(placement.gpu_ids, vec!["b0", "b1", "b2", "a0", "a1"]);
}

#[test]
fn mig_repartition_never_hands_out_a_slice_twice() {
    let mut cluster = Cluster::new(vec![Node {
        id: "node-0".into(),
        gpus: vec![Gpu {
            id: "g".into(),
            node_id: "node-0".into(),
            profile: "H100_80GB".into(),
            memory_gb: 80,
            nvlink_group: None,
            running_job_id: None,
            mig_capable: true,
            active_mig_profile: Some("1g.10gb".into()),
            slices: vec![MigSlice {
                id: "g-mig-0".into(),
                profile: "1g.10gb".into(),
                memory_gb: 10,
                running_job_id: None,
            }],
        }],
    }]);
    let rm = ResourceManager::with_mig(mig_registry());
    let mut job = Job::new("j1", "infer", 0, 10, 1);
    job.mig_profile = Some("1g.10gb".into());
    job.mig_count = Some(2);
    let placement = rm.allocate(&mut cluster, &job, 0).unwrap();
    assert_eq!(placement.gpu_ids, vec!["g-mig-0", "g-mig-1"]);
    let slices: Vec<String> = cluster.all_gpus()[0].slices.iter().map(|s| s.id.clone()).collect();
    assert_eq!(slices, vec!["g-mig-0", "g-mig-1"]);
    assert_eq!(cluster.mig_reconfigs, 1);
}

#[test]
fn mig_repartition_keeps_free_slices_found_on_other_gpus() {
    let slice = |id: &str, holder: Option<&str>| MigSlice {
        id: id.into(),
        profile: "1g.10gb".into(),
        memory_gb: 10,
        running_job_id: holder.map(|h| h.to_string()),
    };
    let mig_gpu = |id: &str, slices: Vec<MigSlice>, active: Option<&str>| Gpu {
        id: id.into(),
        node_id: "node-0".into(),
        profile: "H100_80GB".into(),
        memory_gb: 80,
        nvlink_group: None,
        running_job_id: None,
        mig_capable: true,
        active_mig_profile: active.map(|a| a.to_string()),
        slices,
    };
    let mut cluster = Cluster::new(vec![Node {
        id: "node-0".into(),
        gpus: vec![
            mig_gpu("h", vec![slice("h-mig-0", None), slice("h-mig-1", Some("other"))], Some("1g.10gb")),
            mig_gpu("g", Vec::new(), None),
        ],
    }]);
    let rm = ResourceManager::with_mig(mig_registry());
    let mut job = Job::new("j1", "infer", 0, 10, 1);
    job.mig_profile = Some("1g.10gb".into());
    job.mig_count = Some(2);
    let placement = rm.allocate(&mut cluster, &job, 0).unwrap();
    assert_eq!(placement.gpu_ids, vec!["h-mig-0", "g-mig-0"]);
    assert_eq!(placement.start_time, 30);
    assert_eq!(cluster.mig_reconfigs, 1);
    let g_slices: Vec<String> = cluster.all_gpus()[1].slices.iter().map(|s| s.id.clone()).collect();
    assert_eq!(g_slices, vec!["g-mig-0", "g-mig-1"]);
}
