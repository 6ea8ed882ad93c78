use zyvor_janus::api::{
    configs_distinct, default_schedulers, display_scheduler, health_response, is_yaml_name, presets, sort_config_entries,
    what_if_plan, ConfigEntry, WhatIfRequest,
};
use zyvor_janus::cluster::Cluster;
use zyvor_janus::inference::{default_max_batch, InferenceRequest};
use zyvor_janus::job::Job;
use zyvor_janus::model::{Gpu, JobState, Node};
use zyvor_janus::serving::{
    export_serving_trace_from_cluster, jobs_from_serving_trace, validate_serving_trace, ConfigError, ServingTraceFile,
    ServingTraceRecord,
};
use zyvor_janus::shim::{
    admit_request, assistant_reply, count_words, default_max_tokens, estimate_tokens, output_tokens, stream_words, usage,
    ChatMessage,
};

fn msg(role: &str, content: &str) -> ChatMessage {
    ChatMessage { role: role.into(), content: content.into() }
}

fn record(time: u64, model: &str, input: u32, output: u32) -> ServingTraceRecord {
    ServingTraceRecord {
        time,
        model: model.into(),
        input_tokens: input,
        output_tokens: output,
        batch_size: 1,
        concurrency: 2,
        request_id: None,
        tenant: None,
    }
}

#[test]
fn round_trip_import_export_fields() {
    let mut rec = record(1, "llama-70b", 512, 128);
    rec.request_id = Some("req-1".into());
    rec.tenant = Some("team-a".into());
    let trace = ServingTraceFile::new(vec![rec]);
    let jobs = jobs_from_serving_trace(&trace, "srv");
    assert_eq!(jobs.len(), 1);
    assert_eq!(jobs[0].model_id.as_deref(), Some("llama-70b"));
    assert_eq!(jobs[0].input_tokens, Some(512));
    assert_eq!(jobs[0].concurrency, Some(2));
}

#[test]
fn trace_jobs_get_prefixed_ids_and_export_sorts_by_time() {
    let trace = ServingTraceFile::new(vec![record(9, "m", 10, 5), record(3, "m", 20, 0)]);
    assert!(validate_serving_trace(&trace).is_ok());
    let jobs = jobs_from_serving_trace(&trace, "srv");
    assert_eq!(jobs[0].id, "srv-0");
    assert_eq!(jobs[1].id, "srv-1");
    assert_eq!(jobs[1].batch_size, Some(1));
    let mut cluster = Cluster::new(vec![Node { id: "n0".into(), gpus: vec![Gpu::new("g0", "n0", "H100", 80)] }]);
    for mut j in jobs {
        j.state = JobState::Finished;
        cluster.finished_jobs.push(j);
    }
    cluster.finished_jobs.push(Job::new("plain", "plain", 1, 1, 1));
    let out = export_serving_trace_from_cluster(&cluster);
    assert_eq!(out.version, "serving.trace.v1");
    assert_eq!(out.records.len(), 2);
    assert_eq!(out.records[0].time, 3);
    assert_eq!(out.records[0].request_id.as_deref(), Some("srv-1"));
    assert_eq!(out.records[1].time, 9);
}

#[test]
fn validation_errors_name_the_problem() {
    let mut bad_version = ServingTraceFile::new(vec![]);
    bad_version.version = "v0".into();
    match validate_serving_trace(&bad_version) {
        Err(ConfigError::Invalid(m)) => assert_eq!(m, "unsupported serving trace version 'v0'"),
        Ok(()) => panic!("accepted"),
    }
    let no_tokens = ServingTraceFile::new(vec![record(0, "m", 1, 1), record(0, "m", 0, 0)]);
    match validate_serving_trace(&no_tokens) {
        Err(ConfigError::Invalid(m)) => assert_eq!(m, "record 1: must have input or output tokens"),
        Ok(()) => panic!("accepted"),
    }
    let blank_model = ServingTraceFile::new(vec![record(0, " \t", 1, 1)]);
    match validate_serving_trace(&blank_model) {
        Err(ConfigError::Invalid(m)) => assert_eq!(m, "record 0: missing model"),
        Ok(()) => panic!("accepted"),
    }
}

#[test]
fn token_estimates_follow_word_counts() {
    let messages = vec![msg("user", "hello there world"), msg("system", ""), msg("assistant", "a b")];
    let (input, default_out) = estimate_tokens(&messages);
    assert_eq!(input, 3 + 1 + 2);
    assert_eq!(default_out, 16);
    assert_eq!(output_tokens(0, default_out), 16);
    assert_eq!(output_tokens(default_max_tokens(), default_out), 128);
    assert_eq!(usage(6, 128), (6, 128, 134));
    let long: String = (0..3000).map(|_| "w ").collect();
    assert_eq!(estimate_tokens(&vec![msg("user", &long)]).1, 512);
    assert_eq!(count_words("  one\u{3000}two\nthree  "), 3);
}

#[test]
fn reply_echoes_assistant_messages_or_falls_back() {
    let messages = vec![msg("assistant", "first"), msg("user", "x"), msg("assistant", "second")];
    assert_eq!(assistant_reply(&messages), "first second");
    assert_eq!(assistant_reply(&vec![msg("user", "hi")]), "Zyvor Janus virtual completion.");
    assert_eq!(stream_words("a  bc d"), vec!["a ", "bc ", "d "]);
    assert_eq!(stream_words("   "), vec!["OK "]);
}

#[test]
fn rate_window_keeps_the_last_minute() {
    let mut window = vec![0, 30_000, 59_999];
    assert!(!admit_request(&mut window, 60_000, 2));
    assert_eq!(window, vec![30_000, 59_999]);
    assert!(admit_request(&mut window, 90_000, 2));
    assert_eq!(window, vec![59_999, 90_000]);
}

#[test]
fn api_helpers() {
    assert_eq!(display_scheduler(&Some("fifo".into()), &Some("priority".into())), Some("fifo".to_string()));
    assert_eq!(display_scheduler(&None, &Some("priority".into())), Some("priority".to_string()));
    assert_eq!(presets().iter().map(|p| p.id.as_str()).collect::<Vec<_>>(), vec!["morning_rag", "peak_chat", "night_training"]);
    assert_eq!(health_response().status, "ok");
    assert!(is_yaml_name("a100.yaml"));
    assert!(!is_yaml_name("a100.yml"));
    assert!(configs_distinct(&vec!["a".into(), "b".into()]));
    assert!(!configs_distinct(&vec!["a".into(), "b".into(), "a".into()]));
    let sorted = sort_config_entries(vec![
        ConfigEntry { id: "b.yaml".into(), path: "configs/b.yaml".into() },
        ConfigEntry { id: "a.yaml".into(), path: "configs/a.yaml".into() },
    ]);
    assert_eq!(sorted[0].id, "a.yaml");
    assert_eq!(default_schedulers(), vec!["fifo".to_string(), "preemptive".to_string()]);
    let req = WhatIfRequest { base_config: "base".into(), schedulers: default_schedulers(), configs: None };
    assert_eq!(
        what_if_plan(&req),
        vec![("base".to_string(), "fifo".to_string()), ("base".to_string(), "preemptive".to_string())]
    );
    let req = WhatIfRequest { base_config: "base".into(), schedulers: vec!["x".into()], configs: Some(vec!["c1".into(), "c2".into()]) };
    assert_eq!(what_if_plan(&req), vec![("c1".to_string(), "x".to_string()), ("c2".to_string(), "x".to_string())]);
}

#[test]
fn inference_request_from_job() {
    let mut job = Job::new("j", "m", 0, 1, 1);
    assert!(InferenceRequest::from_job(&job).is_none());
    job.input_tokens = Some(100);
    job.output_tokens = Some(50);
    job.batch_size = Some(0);
    let r = InferenceRequest::from_job(&job).unwrap();
    assert_eq!((r.input_tokens, r.output_tokens, r.batch_size, r.concurrency), (100, 50, 1, 1));
    assert_eq!(default_max_batch(), 32);
}

#[test]
fn exported_trace_replays_to_the_same_requests() {
    let mut served = Job::new("req-7", "llama-8b", 4, 30, 1);
    served.state = JobState::Finished;
    served.model_id = Some("llama-8b".into());
    served.input_tokens = Some(64);
    served.output_tokens = Some(16);
    served.batch_size = None;
    served.concurrency = Some(3);
    served.tenant = Some("team-b".into());
    let mut cluster = Cluster::new(vec![Node { id: "n0".into(), gpus: vec![Gpu::new("g0", "n0", "H100", 80)] }]);
    cluster.finished_jobs.push(served);
    let trace = export_serving_trace_from_cluster(&cluster);
    assert!(validate_serving_trace(&trace).is_ok());
    let back = jobs_from_serving_trace(&trace, "srv");
    assert_eq!(back.len(), 1);
    assert_eq!(back[0].id, "req-7");
    assert_eq!(back[0].arrival_time, 4);
    assert_eq!(back[0].model_id.as_deref(), Some("llama-8b"));
    assert_eq!(back[0].input_tokens, Some(64));
    assert_eq!(back[0].output_tokens, Some(16));
    assert_eq!(back[0].batch_size, Some(1));
    assert_eq!(back[0].concurrency, Some(3));
    assert_eq!(back[0].tenant.as_deref(), Some("team-b"));
}

#[test]
fn rate_window_never_grows_past_the_cap() {
    let mut window: Vec<u64> = Vec::new();
    let mut admitted = 0;
    for k in 0..10u64 {
        if admit_request(&mut window, 1_000 + k, 3) {
            admitted += 1;
        }
        assert!(window.len() <= 3);
    }
    assert_eq!(admitted, 3);
    assert!(admit_request(&mut window, 62_000, 3));
    assert_eq!(window, vec![62_000]);
}
