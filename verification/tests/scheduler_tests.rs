use zyvor_janus::cluster::Cluster;
use zyvor_janus::job::Job;
use zyvor_janus::model::{Gpu, Node};
use zyvor_janus::preemption::{PreemptivePriorityScheduler, MAX_PREEMPTIONS};
use zyvor_janus::resource::{GpuSelectionPolicy, ResourceManager};
use zyvor_janus::scheduler::{BestFitScheduler, FifoScheduler, PriorityScheduler, Scheduler};

fn one_gpu_cluster() -> Cluster {
    Cluster::new(vec![Node { id: "n0".into(), gpus: vec![Gpu::new("g0", "n0", "H100", 80)] }])
}

#[test]
fn fifo_schedules_earlier_job_first() {
    let mut cluster = one_gpu_cluster();
    cluster.clock = 0;
    cluster.enqueue_job(Job::new("j2", "late", 5, 10, 1));
    cluster.enqueue_job(Job::new("j1", "early", 0, 10, 1));
    let mut sched = FifoScheduler;
    let rm = ResourceManager::new();
    let placements = sched.schedule(&mut cluster, &rm);
    assert_eq!(placements.len(), 1);
    assert_eq!(placements[0].job_id, "j1");
}

#[test]
fn fifo_backfills_a_smaller_later_job() {
    let mut cluster = one_gpu_cluster();
    cluster.enqueue_job(Job::new("big", "big", 0, 10, 2));
    cluster.enqueue_job(Job::new("small", "small", 5, 10, 1));
    let mut sched = FifoScheduler;
    let rm = ResourceManager::new();
    let placements = sched.schedule(&mut cluster, &rm);
    assert_eq!(placements.len(), 1);
    assert_eq!(placements[0].job_id, "small");
    assert_eq!(cluster.free_gpu_count(), 1);
    assert_eq!(cluster.waiting_queue.len(), 2);
}

#[test]
fn priority_schedules_higher_priority_job_first_despite_later_arrival() {
    let mut cluster = one_gpu_cluster();
    cluster.clock = 0;
    let mut low = Job::new("j1", "low-priority-early", 0, 10, 1);
    low.priority = 10;
    let mut high = Job::new("j2", "high-priority-late", 5, 10, 1);
    high.priority = 90;
    cluster.enqueue_job(low);
    cluster.enqueue_job(high);
    let mut sched = PriorityScheduler;
    let rm = ResourceManager::new();
    let placements = sched.schedule(&mut cluster, &rm);
    assert_eq!(placements.len(), 1);
    assert_eq!(placements[0].job_id, "j2");
}

#[test]
fn priority_falls_back_to_arrival_order_on_tie() {
    let mut cluster = one_gpu_cluster();
    cluster.clock = 0;
    let mut later = Job::new("j1", "later", 5, 10, 1);
    later.priority = 50;
    let mut earlier = Job::new("j2", "earlier", 0, 10, 1);
    earlier.priority = 50;
    cluster.enqueue_job(later);
    cluster.enqueue_job(earlier);
    let mut sched = PriorityScheduler;
    let rm = ResourceManager::new();
    let placements = sched.schedule(&mut cluster, &rm);
    assert_eq!(placements.len(), 1);
    assert_eq!(placements[0].job_id, "j2");
}

#[test]
fn best_fit_prefers_tighter_node_when_policy_enabled() {
    let mut cluster = Cluster::new(vec![
        Node {
            id: "wide".into(),
            gpus: vec![
                Gpu::new("w0", "wide", "H100", 80),
                Gpu::new("w1", "wide", "H100", 80),
                Gpu::new("w2", "wide", "H100", 80),
                Gpu::new("w3", "wide", "H100", 80),
            ],
        },
        Node { id: "tight".into(), gpus: vec![Gpu::new("t0", "tight", "H100", 80), Gpu::new("t1", "tight", "H100", 80)] },
    ]);
    cluster.clock = 0;
    cluster.enqueue_job(Job::new("j1", "pair", 0, 10, 2));
    let mut sched = BestFitScheduler;
    let rm = ResourceManager::new().with_gpu_selection(GpuSelectionPolicy::BestFit);
    let placements = sched.schedule(&mut cluster, &rm);
    assert_eq!(placements.len(), 1);
    assert_eq!(placements[0].gpu_ids, vec!["t0", "t1"]);
}

#[test]
fn best_fit_orders_larger_jobs_first() {
    let mut cluster = Cluster::new(vec![Node {
        id: "n0".into(),
        gpus: vec![Gpu::new("g0", "n0", "H100", 80), Gpu::new("g1", "n0", "H100", 80)],
    }]);
    cluster.enqueue_job(Job::new("one", "one", 0, 10, 1));
    cluster.enqueue_job(Job::new("two", "two", 5, 10, 2));
    let mut sched = BestFitScheduler;
    let rm = ResourceManager::new();
    let placements = sched.schedule(&mut cluster, &rm);
    assert_eq!(placements.len(), 1);
    assert_eq!(placements[0].job_id, "two");
    assert_eq!(cluster.waiting_queue[0].id, "one");
}

#[test]
fn evicts_lower_priority_running_job_to_place_higher_priority_one() {
    let mut cluster = one_gpu_cluster();
    cluster.clock = 10;
    let mut low = Job::new("low", "low", 0, 100, 1);
    low.priority = 10;
    cluster.start_job(low, &vec!["g0".to_string()], 0);
    let mut high = Job::new("high", "high", 10, 20, 1);
    high.priority = 90;
    cluster.enqueue_job(high);

    let mut sched = PreemptivePriorityScheduler::default();
    let rm = ResourceManager::new();
    let placements = sched.schedule(&mut cluster, &rm);

    assert_eq!(placements.len(), 1);
    assert_eq!(placements[0].job_id, "high");
    let requeued = cluster.waiting_queue.iter().find(|j| j.id == "low").expect("low-priority job requeued");
    assert_eq!(requeued.duration_remaining(), 90);
    assert_eq!(requeued.preemption_count, 1);
    assert!(!cluster.running_jobs.contains_key("low"));
}

#[test]
fn does_not_evict_equal_or_higher_priority_running_jobs() {
    let mut cluster = one_gpu_cluster();
    let mut running = Job::new("running", "running", 0, 100, 1);
    running.priority = 50;
    cluster.start_job(running, &vec!["g0".to_string()], 0);
    let mut waiting = Job::new("waiting", "waiting", 0, 20, 1);
    waiting.priority = 50;
    cluster.enqueue_job(waiting);

    let mut sched = PreemptivePriorityScheduler::default();
    let rm = ResourceManager::new();
    let placements = sched.schedule(&mut cluster, &rm);

    assert!(placements.is_empty());
    assert!(cluster.running_jobs.contains_key("running"));
    assert_eq!(cluster.waiting_queue.len(), 1);
}

#[test]
fn restores_evicted_jobs_when_freed_capacity_still_is_not_enough() {
    let mut cluster = Cluster::new(vec![Node {
        id: "n0".into(),
        gpus: vec![Gpu::new("g0", "n0", "H100", 80), Gpu::new("g1", "n0", "H100", 80)],
    }]);
    let mut low_a = Job::new("low-a", "low-a", 0, 100, 1);
    low_a.priority = 10;
    cluster.start_job(low_a, &vec!["g0".to_string()], 0);
    let mut low_b = Job::new("low-b", "low-b", 0, 100, 1);
    low_b.priority = 20;
    low_b.preemption_count = MAX_PREEMPTIONS;
    cluster.start_job(low_b, &vec!["g1".to_string()], 0);
    let mut high = Job::new("high", "high", 0, 20, 2);
    high.priority = 90;
    cluster.enqueue_job(high);

    let mut sched = PreemptivePriorityScheduler::default();
    let rm = ResourceManager::new();
    let placements = sched.schedule(&mut cluster, &rm);

    assert!(placements.is_empty());
    assert!(cluster.running_jobs.contains_key("low-a"));
    assert!(cluster.running_jobs.contains_key("low-b"));
    assert_eq!(cluster.free_gpu_count(), 0);
    assert_eq!(cluster.waiting_queue.len(), 1);
}

#[test]
fn records_job_preempted_decision() {
    let mut cluster = one_gpu_cluster();
    cluster.clock = 10;
    let mut low = Job::new("low", "low", 0, 100, 1);
    low.priority = 10;
    cluster.start_job(low, &vec!["g0".to_string()], 0);
    let mut high = Job::new("high", "high", 10, 20, 1);
    high.priority = 90;
    cluster.enqueue_job(high);

    let mut sched = PreemptivePriorityScheduler::default();
    let rm = ResourceManager::new();
    sched.schedule(&mut cluster, &rm);

    assert!(cluster.decision_log.iter().any(|d| d.kind == "job_preempted"));
    let d = cluster.decision_log.iter().find(|d| d.kind == "job_preempted").unwrap();
    assert_eq!(d.message, "Preempted 'low' (priority 10) for 'high'");
    assert_eq!(d.gpu_ids, vec!["g0".to_string()]);
    assert_eq!(cluster.total_preemptions, 1);
}

#[test]
fn quota_aware_preemption_does_not_evict_other_tenant() {
    let mut cluster = one_gpu_cluster();
    cluster.clock = 10;
    let mut victim = Job::new("victim", "victim", 0, 100, 1);
    victim.priority = 10;
    victim.tenant = Some("team-a".into());
    cluster.start_job(victim, &vec!["g0".to_string()], 0);
    let mut high = Job::new("high", "high", 10, 20, 1);
    high.priority = 90;
    high.tenant = Some("team-b".into());
    cluster.enqueue_job(high);

    let mut sched = PreemptivePriorityScheduler { quota_aware_preemption: true, ..Default::default() };
    let rm = ResourceManager::new();
    let placements = sched.schedule(&mut cluster, &rm);

    assert!(placements.is_empty());
    assert!(cluster.running_jobs.contains_key("victim"));
}

#[test]
fn preemption_rearms_gang_timeout_for_gang_victim() {
    let mut cluster = one_gpu_cluster();
    cluster.clock = 10;
    let mut gang = Job::new("gang", "gang", 0, 100, 1);
    gang.priority = 10;
    gang.gang_enabled = true;
    gang.gang_size_nodes = Some(1);
    gang.gang_timeout_secs = Some(30);
    cluster.start_job(gang, &vec!["g0".to_string()], 0);
    let mut high = Job::new("high", "high", 10, 20, 1);
    high.priority = 90;
    cluster.enqueue_job(high);

    let mut sched = PreemptivePriorityScheduler::default();
    let rm = ResourceManager::new();
    sched.schedule(&mut cluster, &rm);

    assert!(cluster.gang_timeout_rearm_ids.contains(&"gang".to_string()));
    let requeued = cluster.waiting_queue.iter().find(|j| j.id == "gang").expect("gang requeued");
    assert_eq!(requeued.gang_deadline, Some(40));
}

#[test]
fn victims_are_taken_lowest_priority_first() {
    let mut cluster = Cluster::new(vec![Node {
        id: "n0".into(),
        gpus: vec![Gpu::new("g0", "n0", "H100", 80), Gpu::new("g1", "n0", "H100", 80)],
    }]);
    cluster.clock = 5;
    let mut mid = Job::new("mid", "mid", 0, 100, 1);
    mid.priority = 30;
    cluster.start_job(mid, &vec!["g0".to_string()], 0);
    let mut lowest = Job::new("lowest", "lowest", 0, 100, 1);
    lowest.priority = 20;
    cluster.start_job(lowest, &vec!["g1".to_string()], 0);
    let mut high = Job::new("high", "high", 5, 10, 1);
    high.priority = 90;
    cluster.enqueue_job(high);

    let mut sched = PreemptivePriorityScheduler::default();
    let rm = ResourceManager::new();
    let placements = sched.schedule(&mut cluster, &rm);

    assert_eq!(placements.len(), 1);
    assert_eq!(placements[0].gpu_ids, vec!["g1".to_string()]);
    assert!(cluster.running_jobs.contains_key("mid"));
    assert!(!cluster.running_jobs.contains_key("lowest"));
}

#[test]
fn waiting_queue_orders_by_priority_then_arrival_and_keeps_every_job() {
    let mut cluster = one_gpu_cluster();
    let mut a = Job::new("a", "a", 7, 10, 1);
    a.priority = 1;
    let mut b = Job::new("b", "b", 3, 10, 1);
    b.priority = 5;
    let mut c = Job::new("c", "c", 1, 10, 1);
    c.priority = 5;
    let mut d = Job::new("d", "d", 0, 10, 1);
    d.priority = 0;
    cluster.enqueue_job(a);
    cluster.enqueue_job(b);
    cluster.enqueue_job(c);
    cluster.enqueue_job(d);
    cluster.sort_waiting_by_priority();
    let ids: Vec<&str> = cluster.waiting_queue.iter().map(|j| j.id.as_str()).collect();
    assert_eq!(ids, vec!["c", "b", "a", "d"]);
    cluster.sort_waiting_by_arrival();
    let ids: Vec<&str> = cluster.waiting_queue.iter().map(|j| j.id.as_str()).collect();
    assert_eq!(ids, vec!["d", "c", "b", "a"]);
}

#[test]
fn best_fit_places_the_larger_later_job_before_a_smaller_earlier_one() {
    let mut cluster = Cluster::new(vec![Node {
        id: "n0".into(),
        gpus: vec![Gpu::new("g0", "n0", "H100", 80), Gpu::new("g1", "n0", "H100", 80)],
    }]);
    cluster.enqueue_job(Job::new("small", "small", 0, 10, 1));
    cluster.enqueue_job(Job::new("big", "big", 5, 10, 2));
    let mut sched = BestFitScheduler;
    let rm = ResourceManager::new();
    let placements = sched.schedule(&mut cluster, &rm);
    assert_eq!(placements.len(), 1);
    assert_eq!(placements[0].job_id, "big");
    assert_eq!(placements[0].gpu_ids, vec!["g0", "g1"]);
}

#[test]
fn one_pass_hands_out_disjoint_gpus_and_releases_its_marks() {
    let mut cluster = Cluster::new(vec![Node {
        id: "n0".into(),
        gpus: vec![Gpu::new("g0", "n0", "H100", 80), Gpu::new("g1", "n0", "H100", 80), Gpu::new("g2", "n0", "H100", 80)],
    }]);
    cluster.enqueue_job(Job::new("a", "a", 0, 10, 2));
    cluster.enqueue_job(Job::new("b", "b", 1, 10, 1));
    cluster.enqueue_job(Job::new("c", "c", 2, 10, 1));
    let mut sched = FifoScheduler;
    let rm = ResourceManager::new();
    let placements = sched.schedule(&mut cluster, &rm);
    assert_eq!(placements.len(), 2);
    assert_eq!(placements[0].job_id, "a");
    assert_eq!(placements[0].gpu_ids, vec!["g0", "g1"]);
    assert_eq!(placements[1].job_id, "b");
    assert_eq!(placements[1].gpu_ids, vec!["g2"]);
    assert_eq!(cluster.free_gpu_count(), 3);
}
