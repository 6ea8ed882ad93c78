use zyvor_janus::cluster::Cluster;
use zyvor_janus::job::Job;
use zyvor_janus::model::{Gpu, Node};
use zyvor_janus::snapshot::{default_top_k, job_current_cumulative_wait, job_state_str, obs_size, ClusterSnapshot};

#[test]
fn obs_size_matches_feature_vector_length() {
    let top_k = 4;
    assert_eq!(obs_size(top_k), 5 + top_k * 7);
}

#[test]
fn job_current_cumulative_wait_includes_active_waiting_time() {
    let mut job = Job::new("j1", "a", 0, 10, 1);
    job.cumulative_wait_secs = 5;
    job.waiting_since = Some(10);
    assert_eq!(job_current_cumulative_wait(&job, 25), 20);
}

#[test]
fn snapshot_feature_vector_includes_gang_and_cumulative_wait() {
    let mut cluster = Cluster::new(vec![Node { id: "n0".into(), gpus: vec![Gpu::new("g0", "n0", "H100", 80)] }]);
    cluster.clock = 10;
    let mut job = Job::new("g1", "gang", 0, 100, 1);
    job.gang_enabled = true;
    job.enter_waiting(0);
    cluster.enqueue_job(job);
    let snap = ClusterSnapshot::from_cluster(&cluster, 1, &vec![true]);
    let features = snap.to_feature_vector();
    assert_eq!(features.len(), obs_size(1));
    assert_eq!(features[5 + 5], 1);
    assert_eq!(features[5 + 4], 10);
}

#[test]
fn snapshot_shows_running_job_on_its_gpu() {
    let mut cluster = Cluster::new(vec![Node {
        id: "n0".into(),
        gpus: vec![Gpu::new("g0", "n0", "H100", 80), Gpu::new("g1", "n0", "H100", 80)],
    }]);
    cluster.start_job(Job::new("r1", "runner", 0, 50, 1), &vec!["g1".to_string()], 0);
    let snap = ClusterSnapshot::from_cluster(&cluster, default_top_k(), &vec![]);
    assert_eq!(snap.free_gpus, 1);
    assert_eq!(snap.running, 1);
    assert_eq!(snap.gpu_count, 2);
    assert_eq!(snap.nodes[0].gpus[0].busy, false);
    assert_eq!(snap.nodes[0].gpus[1].busy, true);
    assert_eq!(snap.nodes[0].gpus[1].utilization, 1);
    assert_eq!(snap.nodes[0].gpus[1].job_id, Some("r1".to_string()));
    assert_eq!(snap.nodes[0].gpus[1].job_name, Some("runner".to_string()));
    assert_eq!(snap.running_jobs[0].assigned_gpus, vec!["g1".to_string()]);
    assert_eq!(job_state_str(cluster.running_jobs.entries[0].1.state), "running");
}

#[test]
fn top_jobs_are_the_first_queued_and_mask_defaults_to_not_placeable() {
    let mut cluster = Cluster::new(vec![Node { id: "n0".into(), gpus: vec![Gpu::new("g0", "n0", "H100", 80)] }]);
    for i in 0..3u64 {
        let mut j = Job::new(&format!("j{i}"), "q", i, 10, 1);
        j.enter_waiting(i);
        cluster.enqueue_job(j);
    }
    let snap = ClusterSnapshot::from_cluster(&cluster, 2, &vec![true]);
    assert_eq!(snap.queue_jobs.len(), 3);
    assert_eq!(snap.top_jobs.len(), 2);
    assert_eq!(snap.top_jobs[1].id, "j1");
    assert!(snap.queue_jobs[0].placeable);
    assert!(!snap.queue_jobs[2].placeable);
    assert_eq!(snap.queue_jobs[0].state, "waiting");
    assert_eq!(snap.to_feature_vector().len(), obs_size(2));
}
