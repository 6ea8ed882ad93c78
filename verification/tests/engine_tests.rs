use zyvor_janus::cluster::Cluster;
use zyvor_janus::engine::{SimulationEngine, SteppableSimulation};
use zyvor_janus::events::EventKind;
use zyvor_janus::job::Job;
use zyvor_janus::model::{Gpu, JobState, Node};
use zyvor_janus::scheduler::{FifoScheduler, PriorityScheduler};
use zyvor_janus::shadow::{ShadowRun, ShadowSide};

fn cluster() -> Cluster {
    Cluster::new(vec![Node { id: "n0".into(), gpus: vec![Gpu::new("g0", "n0", "H100", 80)] }])
}

fn jobs() -> Vec<Job> {
    vec![Job::new("a", "tenant", 0, 5, 1), Job::new("b", "tenant", 0, 3, 1)]
}

#[test]
fn steps_are_time_ordered_across_both_engines() {
    let mut primary = SimulationEngine::new(cluster(), FifoScheduler);
    primary.submit_jobs(jobs());
    let mut shadow = SimulationEngine::new(cluster(), PriorityScheduler);
    shadow.submit_jobs(jobs());
    let mut run = ShadowRun::new(Box::new(primary), Box::new(shadow), 2);
    let steps = run.run_to_completion();
    assert!(!steps.is_empty());
    assert!(run.is_done());
    for pair in steps.windows(2) {
        assert!(pair[0].outcome.event_time <= pair[1].outcome.event_time);
    }
    assert!(steps.iter().any(|s| s.side == ShadowSide::Primary));
    assert!(steps.iter().any(|s| s.side == ShadowSide::Shadow));
}

#[test]
fn empty_engines_step_to_none_immediately() {
    let primary = SimulationEngine::new(cluster(), FifoScheduler);
    let shadow = SimulationEngine::new(cluster(), FifoScheduler);
    let mut run = ShadowRun::new(Box::new(primary), Box::new(shadow), 0);
    assert!(run.is_done());
    assert!(run.step().is_none());
}

#[test]
fn engine_runs_jobs_back_to_back_on_one_gpu() {
    let mut engine = SimulationEngine::new(cluster(), FifoScheduler);
    engine.submit_jobs(jobs());
    assert_eq!(engine.peek_next_event_time(), Some(0));
    let mut times = Vec::new();
    while let Some(o) = engine.step_once() {
        times.push((o.event_time, o.event_kind));
    }
    assert!(engine.is_done());
    let c = engine.cluster();
    assert_eq!(c.finished_jobs.len(), 2);
    assert!(c.finished_jobs.iter().all(|j| j.state == JobState::Finished));
    // "b" arrives first at the same time (larger id first), so runs 0..3, then "a" 3..8.
    let b = c.finished_jobs.iter().find(|j| j.id == "b").unwrap();
    let a = c.finished_jobs.iter().find(|j| j.id == "a").unwrap();
    assert_eq!(b.finish_time, Some(3));
    assert_eq!(a.start_time, Some(3));
    assert_eq!(a.finish_time, Some(8));
    assert_eq!(a.cumulative_wait_secs, 3);
    assert_eq!(c.clock, 8);
    assert!(times.iter().any(|(t, k)| *t == 8 && *k == EventKind::JobComplete));
    assert!(c.decision_log.iter().any(|d| d.kind == "job_scheduled" && d.message == "Scheduled 'tenant' on 1 GPU(s)"));
}

#[test]
fn gang_job_that_never_fits_times_out() {
    let mut engine = SimulationEngine::new(cluster(), FifoScheduler);
    let mut gang = Job::new("g", "gang", 0, 10, 2);
    gang.gang_enabled = true;
    gang.gang_size_nodes = Some(2);
    gang.gang_timeout_secs = Some(30);
    engine.submit_jobs(vec![gang]);
    while engine.step_once().is_some() {}
    let c = engine.cluster();
    assert_eq!(c.finished_jobs.len(), 1);
    assert_eq!(c.finished_jobs[0].state, JobState::Failed);
    assert_eq!(c.finished_jobs[0].finish_time, Some(30));
}

#[test]
fn metrics_available_before_and_after_completion() {
    let mut primary = SimulationEngine::new(cluster(), FifoScheduler);
    primary.submit_jobs(jobs());
    let mut shadow = SimulationEngine::new(cluster(), PriorityScheduler);
    shadow.submit_jobs(jobs());
    let mut run = ShadowRun::new(Box::new(primary), Box::new(shadow), 2);
    let (before_primary, before_shadow) = run.metrics();
    assert_eq!(before_primary.makespan, 0);
    assert_eq!(before_shadow.makespan, 0);
    run.run_to_completion();
    let (after_primary, after_shadow) = run.metrics();
    assert!(after_primary.makespan > 0);
    assert!(after_shadow.makespan > 0);
}

#[test]
fn replay_capture_keeps_one_snapshot_per_step_until_taken() {
    let mut primary = SimulationEngine::new(cluster(), FifoScheduler).with_replay_capture();
    primary.submit_jobs(jobs());
    let shadow = SimulationEngine::new(cluster(), FifoScheduler);
    let mut run = ShadowRun::new(Box::new(primary), Box::new(shadow), 2);
    let steps = run.run_to_completion();
    let (p, s) = run.take_replay_snapshots();
    assert_eq!(p.len(), steps.len());
    assert!(s.is_empty());
    assert_eq!(p.last().unwrap().clock, steps.last().unwrap().outcome.event_time);
    let (p2, s2) = run.take_replay_snapshots();
    assert!(p2.is_empty());
    assert!(s2.is_empty());
}
