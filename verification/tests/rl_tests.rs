use zyvor_janus::cluster::Cluster;
use zyvor_janus::job::Job;
use zyvor_janus::model::{Gpu, Node};
use zyvor_janus::resource::ResourceManager;
use zyvor_janus::rl::RlSession;
use zyvor_janus::snapshot::default_top_k;

fn cluster() -> Cluster {
    Cluster::new(vec![Node { id: "n0".into(), gpus: vec![Gpu::new("g0", "n0", "H100", 80)] }])
}

#[test]
fn session_pauses_at_first_decision_and_plays_out_with_fifo_steps() {
    let jobs = vec![Job::new("a", "a", 0, 5, 1), Job::new("b", "b", 0, 3, 1)];
    let mut s = RlSession::new(cluster(), ResourceManager::new(), jobs, default_top_k());
    assert!(!s.is_done());
    assert_eq!(s.obs_size(), 5 + 8 * 7);
    assert_eq!(s.action_space_n(), 9);
    // Both arrive at 0; the larger id is handled first and can run at once.
    let obs = s.observe();
    assert_eq!(obs.waiting, 1);
    assert_eq!(obs.queue_jobs[0].id, "b");
    assert!(obs.queue_jobs[0].placeable);
    let mut steps = 0;
    while !s.is_done() && steps < 20 {
        let r = s.step_fifo();
        assert!(!r.invalid_action);
        steps += 1;
    }
    assert!(s.is_done());
    assert_eq!(s.cluster.finished_jobs.len(), 2);
    assert!(s.decisions().iter().any(|d| d.kind == "job_scheduled"));
}

#[test]
fn out_of_range_action_is_invalid() {
    let jobs = vec![Job::new("a", "a", 0, 5, 1)];
    let mut s = RlSession::new(cluster(), ResourceManager::new(), jobs, 2);
    let r = s.step(1);
    assert!(r.invalid_action);
    assert!(!r.placed);
}

#[test]
fn placing_a_job_reports_it() {
    let jobs = vec![Job::new("a", "a", 0, 5, 1)];
    let mut s = RlSession::new(cluster(), ResourceManager::new(), jobs, 2);
    let r = s.step(0);
    assert!(r.placed);
    assert!(!r.invalid_action);
    assert!(r.done);
    assert_eq!(s.cluster.finished_jobs.len(), 1);
    let obs = s.reset();
    assert_eq!(obs.waiting, 1);
    assert!(!s.is_done());
    assert_eq!(s.feature_vector().len(), 5 + 7);
}

#[test]
fn noop_lets_time_pass() {
    let jobs = vec![Job::new("a", "a", 0, 5, 1), Job::new("b", "b", 10, 5, 1)];
    let mut s = RlSession::new(cluster(), ResourceManager::new(), jobs, 2);
    let r = s.step(2);
    assert!(!r.placed);
    assert!(!r.invalid_action);
}

#[test]
fn stepping_a_finished_session_gives_no_reward_and_changes_nothing() {
    let jobs = vec![Job::new("a", "a", 0, 5, 1)];
    let mut s = RlSession::new(cluster(), ResourceManager::new(), jobs, default_top_k());
    let mut steps = 0;
    while !s.is_done() && steps < 20 {
        s.step_fifo();
        steps += 1;
    }
    assert!(s.is_done());
    let finished = s.cluster.finished_jobs.len();
    let r = s.step(0);
    assert!(r.done && !r.placed && !r.invalid_action);
    assert_eq!(r.mean_wait_before, (0, 0));
    assert_eq!(r.mean_wait_after, (0, 0));
    assert_eq!(r.observation.waiting, 0);
    assert_eq!(s.cluster.finished_jobs.len(), finished);
}
