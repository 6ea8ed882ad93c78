use zyvor_janus::cluster::Cluster;
use zyvor_janus::job::Job;
use zyvor_janus::metrics::{job_to_timeline_record, JobsTimeline, SimulationMetrics};
use zyvor_janus::model::{Gpu, JobState, Node};

fn one_gpu() -> Cluster {
    Cluster::new(vec![Node { id: "n0".into(), gpus: vec![Gpu::new("g0", "n0", "H100", 80)] }])
}

#[test]
fn computes_makespan_and_utilization() {
    let mut cluster = one_gpu();
    let mut job = Job::new("j1", "a", 0, 10, 1);
    job.state = JobState::Finished;
    job.start_time = Some(0);
    job.finish_time = Some(10);
    job.gpu_seconds_consumed = 10;
    cluster.finished_jobs.push(job);
    cluster.clock = 10;
    let m = SimulationMetrics::from_cluster(&cluster, 1);
    assert_eq!(m.makespan, 10);
    assert_eq!(m.gpu_utilization(), (1, 1));
}

#[test]
fn gpu_utilization_uses_segment_accounting_after_preemption() {
    let mut cluster = one_gpu();
    let mut job = Job::new("j1", "a", 0, 100, 1);
    job.gpu_seconds_consumed = 100;
    job.state = JobState::Finished;
    job.finish_time = Some(120);
    job.preemption_count = 1;
    cluster.finished_jobs.push(job);
    cluster.clock = 120;
    let m = SimulationMetrics::from_cluster(&cluster, 1);
    assert_eq!(m.gpu_utilization(), (100, 120));
}

#[test]
fn reports_queue_max_length_and_unschedulable_jobs() {
    let mut cluster = one_gpu();
    cluster.queue_max_length = 3;
    cluster.enqueue_job(Job::new("blocked", "blocked", 0, 10, 2));
    let m = SimulationMetrics::from_cluster(&cluster, 2);
    assert_eq!(m.queue_max_length, 3);
    assert_eq!(m.jobs_unschedulable, 1);
}

#[test]
fn mean_wait_uses_cumulative_wait_not_last_start_minus_arrival() {
    let mut cluster = one_gpu();
    let mut job = Job::new("j1", "a", 0, 100, 1);
    job.state = JobState::Finished;
    job.cumulative_wait_secs = 12;
    job.start_time = Some(50);
    job.finish_time = Some(100);
    job.gpu_seconds_consumed = 100;
    cluster.finished_jobs.push(job);
    let m = SimulationMetrics::from_cluster(&cluster, 1);
    assert_eq!(m.mean_cumulative_wait(), (12, 1));
}

#[test]
fn counts_failed_jobs_separately_from_completed() {
    let mut cluster = one_gpu();
    let mut ok = Job::new("ok", "ok", 0, 10, 1);
    ok.state = JobState::Finished;
    ok.gpu_seconds_consumed = 10;
    ok.finish_time = Some(10);
    let mut failed = Job::new("bad", "bad", 0, 10, 1);
    failed.state = JobState::Failed;
    failed.finish_time = Some(5);
    cluster.finished_jobs.push(ok);
    cluster.finished_jobs.push(failed);
    let m = SimulationMetrics::from_cluster(&cluster, 2);
    assert_eq!(m.jobs_completed, 1);
    assert_eq!(m.jobs_failed, 1);
}

#[test]
fn no_finished_jobs_gives_zero_ratios() {
    let cluster = one_gpu();
    let m = SimulationMetrics::from_cluster(&cluster, 3);
    assert_eq!(m.makespan, 0);
    assert_eq!(m.gpu_utilization(), (0, 1));
    assert_eq!(m.fragmentation(), (0, 1));
    assert_eq!(m.mean_cumulative_wait(), (0, 1));
    assert_eq!(m.goodput(), (0, 1));
}

#[test]
fn fragmentation_is_idle_share() {
    let mut cluster = Cluster::new(vec![Node {
        id: "n0".into(),
        gpus: vec![Gpu::new("g0", "n0", "H100", 80), Gpu::new("g1", "n0", "H100", 80)],
    }]);
    let mut job = Job::new("j1", "a", 0, 10, 1);
    job.state = JobState::Finished;
    job.finish_time = Some(10);
    job.gpu_seconds_consumed = 10;
    job.input_tokens = Some(100);
    job.output_tokens = Some(20);
    cluster.finished_jobs.push(job);
    let m = SimulationMetrics::from_cluster(&cluster, 4);
    assert_eq!(m.gpu_utilization(), (10, 20));
    assert_eq!(m.fragmentation(), (10, 20));
    assert_eq!(m.inference_jobs, 1);
    assert_eq!(m.goodput(), (1, 4));
}

#[test]
fn timeline_orders_by_arrival_then_id_and_adds_open_segment() {
    let mut cluster = Cluster::new(vec![Node {
        id: "n0".into(),
        gpus: vec![Gpu::new("g0", "n0", "H100", 80), Gpu::new("g1", "n0", "H100", 80)],
    }]);
    cluster.enqueue_job(Job::new("w", "waiting", 5, 10, 1));
    cluster.start_job(Job::new("r", "running", 5, 10, 1), &vec!["g0".to_string()], 7);
    let mut done = Job::new("f", "done", 1, 3, 1);
    done.state = JobState::Finished;
    done.finish_time = Some(4);
    cluster.finished_jobs.push(done);
    let t = JobsTimeline::from_cluster(&cluster);
    let ids: Vec<&str> = t.jobs.iter().map(|j| j.job_id.as_str()).collect();
    assert_eq!(ids, vec!["f", "r", "w"]);
    assert_eq!(t.makespan, 4);
    assert_eq!(t.gpu_count, 2);
    let r = &t.jobs[1];
    assert_eq!(r.segments.len(), 1);
    assert_eq!(r.segments[0].start, 7);
    assert_eq!(r.segments[0].end, 7);
    assert_eq!(r.state, "running");
    let rec = job_to_timeline_record(&cluster.waiting_queue[0]);
    assert!(rec.segments.is_empty());
}
