//! Serving traces (`serving.trace.v1`): inference requests to replay as jobs,
//! and the trace of the requests a run served. Times are whole seconds.

use vstd::prelude::*;

use crate::cluster::Cluster;
use crate::job::Job;
use crate::model::{copy_opt_string, JobState};
use crate::shim::{is_whitespace, is_ws};
use crate::sort::{
    lemma_sort_forall, lemma_sort_len, lemma_sort_multiset, lemma_sort_sorted, rank_total, rank_transitive, sort_by_rank,
    sort_ranked, Ranked,
};
use crate::text::{decimal, push_decimal, push_str};

use vstd::string::StrSliceExecFns;

verus! {

/// Why a configuration or trace was refused.
#[derive(Debug, Clone)]
pub enum ConfigError {
    Invalid(String),
}

/// One served inference request.
#[derive(Debug, Clone)]
pub struct ServingTraceRecord {
    pub time: u64,
    pub model: String,
    pub input_tokens: u32,
    pub output_tokens: u32,
    pub batch_size: u32,
    pub concurrency: u32,
    pub request_id: Option<String>,
    pub tenant: Option<String>,
}

/// A versioned list of requests.
#[derive(Debug, Clone)]
pub struct ServingTraceFile {
    pub version: String,
    pub records: Vec<ServingTraceRecord>,
}

pub open spec fn trace_version() -> Seq<char> {
    "serving.trace.v1"@
}

impl ServingTraceFile {
    /// A trace of the current version.
    pub fn new(records: Vec<ServingTraceRecord>) -> (f: ServingTraceFile)
        ensures
            f.version@ == trace_version(),
            f.records == records,
    {
        ServingTraceFile { version: "serving.trace.v1".to_owned(), records }
    }
}

/// Only white space.
pub open spec fn is_blank(s: Seq<char>) -> bool {
    forall|k: int| 0 <= k < s.len() ==> is_ws(#[trigger] s[k])
}

fn blank(s: &String) -> (r: bool)
    ensures
        r == is_blank(s@),
{
    let t = s.as_str();
    let n = t.unicode_len();
    let mut i: usize = 0;
    while i < n
        invariant
            n == s@.len(),
            t@ == s@,
            i <= n,
            forall|k: int| 0 <= k < i ==> is_ws(#[trigger] s@[k]),
        decreases n - i,
    {
        if !is_whitespace(t.get_char(i)) {
            return false;
        }
        i = i + 1;
    }
    true
}

/// The record asks for some tokens.
pub open spec fn has_tokens(r: ServingTraceRecord) -> bool {
    !(r.input_tokens == 0 && r.output_tokens == 0)
}

pub open spec fn record_ok(r: ServingTraceRecord) -> bool {
    has_tokens(r) && !is_blank(r.model@)
}

/// Index of the first record that is not acceptable, or -1.
pub open spec fn first_bad(rs: Seq<ServingTraceRecord>) -> int
    decreases rs.len(),
{
    if rs.len() == 0 {
        -1
    } else {
        let k = first_bad(rs.drop_last());
        if k >= 0 { k } else if !record_ok(rs.last()) { rs.len() - 1 } else { -1 }
    }
}

/// Why record `idx` is refused.
pub open spec fn record_message(idx: nat, r: ServingTraceRecord) -> Seq<char> {
    "record "@ + decimal(idx) + if !has_tokens(r) {
        ": must have input or output tokens"@
    } else {
        ": missing model"@
    }
}

/// The outcome of validating `f`.
pub open spec fn validation(f: ServingTraceFile, r: Result<(), ConfigError>) -> bool {
    if f.version@ != trace_version() {
        r matches Err(ConfigError::Invalid(m)) && m@ == "unsupported serving trace version '"@ + f.version@ + "'"@
    } else if first_bad(f.records@) >= 0 {
        let i = first_bad(f.records@);
        r matches Err(ConfigError::Invalid(m)) && m@ == record_message(i as nat, f.records@[i])
    } else {
        r is Ok
    }
}

proof fn lemma_first_bad_step(rs: Seq<ServingTraceRecord>, i: int)
    requires
        0 <= i < rs.len(),
        first_bad(rs.take(i)) < 0,
    ensures
        first_bad(rs.take(i + 1)) == if record_ok(rs[i]) { -1 } else { i },
{
    assert(rs.take(i + 1).drop_last() == rs.take(i));
    assert(rs.take(i + 1).last() == rs[i]);
}

proof fn lemma_first_bad_prefix(rs: Seq<ServingTraceRecord>, n: int)
    requires
        0 <= n <= rs.len(),
        first_bad(rs.take(n)) >= 0,
    ensures
        first_bad(rs) == first_bad(rs.take(n)),
    decreases rs.len() - n,
{
    if n == rs.len() {
        assert(rs.take(n) == rs);
    } else {
        assert(rs.drop_last().take(n) == rs.take(n));
        lemma_first_bad_prefix(rs.drop_last(), n);
    }
}

/// Checks the version and that every record asks for tokens of a named model.
pub fn validate_serving_trace(file: &ServingTraceFile) -> (r: Result<(), ConfigError>)
    ensures
        validation(*file, r),
{
    let expected = "serving.trace.v1".to_owned();
    if file.version != expected {
        let mut m = String::new();
        push_str(&mut m, "unsupported serving trace version '");
        push_str(&mut m, file.version.as_str());
        push_str(&mut m, "'");
        proof {
            assert(m@ =~= "unsupported serving trace version '"@ + file.version@ + "'"@);
        }
        return Err(ConfigError::Invalid(m));
    }
    let rs = &file.records;
    let mut i: usize = 0;
    proof {
        assert(rs@.take(0) == Seq::<ServingTraceRecord>::empty());
    }
    while i < rs.len()
        invariant
            rs == &file.records,
            file.version@ == trace_version(),
            i <= rs@.len(),
            first_bad(rs@.take(i as int)) < 0,
        decreases rs.len() - i,
    {
        proof {
            lemma_first_bad_step(rs@, i as int);
        }
        let rec = &rs[i];
        let no_tokens = rec.input_tokens == 0 && rec.output_tokens == 0;
        if no_tokens || blank(&rec.model) {
            proof {
                lemma_first_bad_prefix(rs@, i as int + 1);
            }
            let mut m = String::new();
            push_str(&mut m, "record ");
            push_decimal(&mut m, i as u64);
            if no_tokens {
                push_str(&mut m, ": must have input or output tokens");
            } else {
                push_str(&mut m, ": missing model");
            }
            proof {
                assert(m@ =~= record_message(i as nat, rs@[i as int]));
            }
            return Err(ConfigError::Invalid(m));
        }
        i = i + 1;
    }
    proof {
        assert(rs@.take(i as int) == rs@);
    }
    Ok(())
}

/// Id of request `idx`: its own, or `{prefix}-{idx}`.
pub open spec fn request_job_id(r: ServingTraceRecord, prefix: Seq<char>, idx: nat) -> Seq<char> {
    match r.request_id {
        Some(id) => id@,
        None => prefix + "-"@ + decimal(idx),
    }
}

/// `j` is the job replaying request `r` number `idx`.
pub open spec fn replays(j: Job, r: ServingTraceRecord, prefix: Seq<char>, idx: nat) -> bool {
    &&& j.id@ == request_job_id(r, prefix, idx)
    &&& j.name@ == r.model@
    &&& j.arrival_time == r.time
    &&& j.runtime == 1
    &&& j.gpu_count == 1
    &&& j.model_id matches Some(m) && m@ == r.model@
    &&& j.input_tokens == Some(r.input_tokens)
    &&& j.output_tokens == Some(r.output_tokens)
    &&& j.batch_size == Some(if r.batch_size >= 1 { r.batch_size } else { 1u32 })
    &&& j.concurrency == Some(if r.concurrency >= 1 { r.concurrency } else { 1u32 })
    &&& j.tenant == r.tenant
    &&& j.state == JobState::Pending
    &&& j.priority == 0
}

/// One job per request, in order.
pub fn jobs_from_serving_trace(trace: &ServingTraceFile, id_prefix: &str) -> (jobs: Vec<Job>)
    ensures
        jobs@.len() == trace.records@.len(),
        forall|i: int| 0 <= i < jobs@.len() ==> replays(#[trigger] jobs@[i], trace.records@[i], id_prefix@, i as nat),
{
    let rs = &trace.records;
    let mut jobs: Vec<Job> = Vec::new();
    let mut i: usize = 0;
    while i < rs.len()
        invariant
            rs == &trace.records,
            i <= rs@.len(),
            jobs@.len() == i,
            forall|k: int| 0 <= k < i ==> replays(#[trigger] jobs@[k], rs@[k], id_prefix@, k as nat),
        decreases rs.len() - i,
    {
        let rec = &rs[i];
        let id = match &rec.request_id {
            Some(r) => r.clone(),
            None => {
                let mut s = id_prefix.to_owned();
                push_str(&mut s, "-");
                push_decimal(&mut s, i as u64);
                s
            },
        };
        let mut job = Job::new(id.as_str(), rec.model.as_str(), rec.time, 1, 1);
        job.model_id = Some(rec.model.clone());
        job.input_tokens = Some(rec.input_tokens);
        job.output_tokens = Some(rec.output_tokens);
        job.batch_size = Some(if rec.batch_size >= 1 { rec.batch_size } else { 1 });
        job.concurrency = Some(if rec.concurrency >= 1 { rec.concurrency } else { 1 });
        job.tenant = copy_opt_string(&rec.tenant);
        jobs.push(job);
        i = i + 1;
    }
    jobs
}

/// A finished job with a model and both token counts was a served request.
pub open spec fn served(j: Job) -> bool {
    j.state == JobState::Finished && j.model_id is Some && j.input_tokens is Some && j.output_tokens is Some
}

/// `r` records served job `j`.
pub open spec fn records_request(r: ServingTraceRecord, j: Job) -> bool {
    &&& r.time == j.arrival_time
    &&& r.model == j.model_id->0
    &&& r.input_tokens == j.input_tokens->0
    &&& r.output_tokens == j.output_tokens->0
    &&& r.batch_size == match j.batch_size { Some(b) => b, None => 1u32 }
    &&& r.concurrency == match j.concurrency { Some(c) => c, None => 1u32 }
    &&& r.request_id == Some(j.id)
    &&& r.tenant == j.tenant
}

/// The served jobs of `fs`, in order.
pub open spec fn served_jobs(fs: Seq<Job>) -> Seq<Job>
    decreases fs.len(),
{
    if fs.len() == 0 {
        Seq::empty()
    } else if served(fs.last()) {
        served_jobs(fs.drop_last()).push(fs.last())
    } else {
        served_jobs(fs.drop_last())
    }
}

/// Trace order: by arrival time, stable.
pub struct TimeKey {
    pub time: u64,
}

impl Ranked for TimeKey {
    open spec fn rank_le(&self, other: &Self) -> bool {
        self.time <= other.time
    }

    fn le(&self, other: &Self) -> (r: bool) {
        self.time <= other.time
    }
}

pub open spec fn time_pairs(js: Seq<Job>) -> Seq<(TimeKey, Job)> {
    js.map_values(|j: Job| (TimeKey { time: j.arrival_time }, j))
}

/// The served jobs of the cluster in trace order.
pub open spec fn trace_order(c: Cluster) -> Seq<Job> {
    sort_ranked(time_pairs(served_jobs(c.finished_jobs@))).map_values(|p: (TimeKey, Job)| p.1)
}

/// The trace of the requests the cluster served, ordered by arrival (stable).
pub fn export_serving_trace_from_cluster(cluster: &Cluster) -> (f: ServingTraceFile)
    ensures
        f.version@ == trace_version(),
        f.records@.len() == trace_order(*cluster).len(),
        forall|i: int| 0 <= i < f.records@.len() ==> records_request(#[trigger] f.records@[i], trace_order(*cluster)[i]),
        forall|i: int, k: int| 0 <= i < k < f.records@.len() ==> (#[trigger] f.records@[i]).time <= (#[trigger] f.records@[k]).time,
{
    let fs = &cluster.finished_jobs;
    let mut pairs: Vec<(TimeKey, usize)> = Vec::new();
    let ghost served_seq = served_jobs(fs@);
    let mut i: usize = 0;
    while i < fs.len()
        invariant
            fs == &cluster.finished_jobs,
            i <= fs@.len(),
            pairs@.len() == served_jobs(fs@.take(i as int)).len(),
            forall|k: int| 0 <= k < pairs@.len() ==> (#[trigger] pairs@[k]).1 < fs@.len()
                && fs@[pairs@[k].1 as int] == served_jobs(fs@.take(i as int))[k]
                && pairs@[k].0.time == served_jobs(fs@.take(i as int))[k].arrival_time,
        decreases fs.len() - i,
    {
        let j = &fs[i];
        proof {
            let t = fs@.take(i as int + 1);
            assert(t.drop_last() == fs@.take(i as int));
            assert(t.last() == fs@[i as int]);
        }
        if j.state == JobState::Finished && j.model_id.is_some() && j.input_tokens.is_some() && j.output_tokens.is_some() {
            pairs.push((TimeKey { time: j.arrival_time }, i));
        }
        i = i + 1;
    }
    proof {
        assert(fs@.take(i as int) == fs@);
    }
    let sorted = sort_by_rank(pairs);
    proof {
        lemma_pairs_map(pairs@, fs@, served_seq);
        crate::sort::lemma_sort_map_payload(pairs@, |x: usize| fs@[x as int]);
        crate::sort::lemma_sort_len(pairs@);
        crate::sort::lemma_sort_forall(pairs@, |p: (TimeKey, usize)| (p.1 as int) < fs@.len());
    }
    let ghost order = trace_order(*cluster);
    proof {
        let f = |x: usize| fs@[x as int];
        let m = crate::sort::map_payload(sorted@, f);
        assert(order == m.map_values(|p: (TimeKey, Job)| p.1));
        crate::sort::lemma_sort_len(crate::sort::map_payload(pairs@, f));
        assert forall|x: int| 0 <= x < sorted@.len() implies order[x] == fs@[(#[trigger] sorted@[x]).1 as int] by {
            assert(m[x] == (sorted@[x].0, f(sorted@[x].1)));
        }
    }
    let mut records: Vec<ServingTraceRecord> = Vec::new();
    let mut n: usize = 0;
    while n < sorted.len()
        invariant
            fs == &cluster.finished_jobs,
            n <= sorted@.len(),
            sorted@ == sort_ranked(pairs@),
            forall|x: int| 0 <= x < sorted@.len() ==> (#[trigger] sorted@[x]).1 < fs@.len(),
            order.len() == sorted@.len(),
            forall|x: int| 0 <= x < sorted@.len() ==> order[x] == fs@[(#[trigger] sorted@[x]).1 as int],
            records@.len() == n,
            order == trace_order(*cluster),
            forall|x: int| 0 <= x < n ==> records_request(#[trigger] records@[x], order[x]),
        decreases sorted.len() - n,
    {
        let j = &fs[sorted[n].1];
        proof {
            assert(order[n as int] == *j);
            lemma_order_served(*cluster, n as int);
        }
        let model = match &j.model_id {
            Some(m) => m.clone(),
            None => String::new(),
        };
        let input_tokens = match j.input_tokens {
            Some(t) => t,
            None => 0,
        };
        let output_tokens = match j.output_tokens {
            Some(t) => t,
            None => 0,
        };
        records.push(
            ServingTraceRecord {
                time: j.arrival_time,
                model,
                input_tokens,
                output_tokens,
                batch_size: match j.batch_size {
                    Some(b) => b,
                    None => 1,
                },
                concurrency: match j.concurrency {
                    Some(c) => c,
                    None => 1,
                },
                request_id: Some(j.id.clone()),
                tenant: copy_opt_string(&j.tenant),
            },
        );
        n = n + 1;
    }
    let f = ServingTraceFile::new(records);
    proof {
        law_trace_order(*cluster);
        let t = trace_order(*cluster);
        assert forall|i: int, k: int| 0 <= i < k < f.records@.len() implies (#[trigger] f.records@[i]).time <= (
        #[trigger] f.records@[k]).time by {
            assert(records_request(f.records@[i], t[i]));
            assert(records_request(f.records@[k], t[k]));
            assert(t[i].arrival_time <= t[k].arrival_time);
        }
    }
    f
}

/// Keying served positions then looking them up gives the keyed served jobs.
proof fn lemma_pairs_map(pairs: Seq<(TimeKey, usize)>, fs: Seq<Job>, served_seq: Seq<Job>)
    requires
        served_seq == served_jobs(fs),
        pairs.len() == served_seq.len(),
        forall|k: int| 0 <= k < pairs.len() ==> (#[trigger] pairs[k]).1 < fs.len() && fs[pairs[k].1 as int]
            == served_seq[k] && pairs[k].0.time == served_seq[k].arrival_time,
    ensures
        crate::sort::map_payload(pairs, |x: usize| fs[x as int]) == time_pairs(served_seq),
{
    assert(crate::sort::map_payload(pairs, |x: usize| fs[x as int]) =~= time_pairs(served_seq));
}

/// Every job in trace order was served.
proof fn lemma_order_served(c: Cluster, n: int)
    requires
        0 <= n < trace_order(c).len(),
    ensures
        served(trace_order(c)[n]),
{
    lemma_served_all(c.finished_jobs@);
    let s = served_jobs(c.finished_jobs@);
    crate::sort::lemma_sort_forall(time_pairs(s), |p: (TimeKey, Job)| served(p.1));
}

proof fn lemma_served_all(fs: Seq<Job>)
    ensures
        forall|k: int| 0 <= k < served_jobs(fs).len() ==> served(#[trigger] served_jobs(fs)[k]),
    decreases fs.len(),
{
    if fs.len() > 0 {
        lemma_served_all(fs.drop_last());
        let d = served_jobs(fs.drop_last());
        if served(fs.last()) {
            assert forall|k: int| 0 <= k < served_jobs(fs).len() implies served(#[trigger] served_jobs(fs)[k]) by {
                if k < d.len() {
                    assert(served_jobs(fs)[k] == d[k]);
                }
            }
        }
    }
}


/// A served job written to a trace record and replayed from it comes back with
/// the same id, arrival time, model, token counts and tenant, and with its batch
/// size and concurrency (at least one each).
pub proof fn law_trace_round_trip(r: ServingTraceRecord, j: Job, back: Job, prefix: Seq<char>, idx: nat)
    requires
        served(j),
        records_request(r, j),
        replays(back, r, prefix, idx),
    ensures
        back.id@ == j.id@,
        back.arrival_time == j.arrival_time,
        back.model_id is Some && back.model_id->0@ == j.model_id->0@,
        back.input_tokens == j.input_tokens,
        back.output_tokens == j.output_tokens,
        back.tenant == j.tenant,
        back.batch_size == Some(
            match j.batch_size {
                Some(b) if b >= 1 => b,
                _ => 1u32,
            },
        ),
        back.concurrency == Some(
            match j.concurrency {
                Some(c) if c >= 1 => c,
                _ => 1u32,
            },
        ),
{
}

/// The exported trace holds every served request once, earliest arrival first.
pub proof fn law_trace_order(c: Cluster)
    ensures
        trace_order(c).to_multiset() == served_jobs(c.finished_jobs@).to_multiset(),
        forall|i: int, k: int|
            0 <= i < k < trace_order(c).len() ==> (#[trigger] trace_order(c)[i]).arrival_time <= (
            #[trigger] trace_order(c)[k]).arrival_time,
{
    let q = served_jobs(c.finished_jobs@);
    let ps = time_pairs(q);
    let out = trace_order(c);
    assert(rank_total::<TimeKey>());
    assert(rank_transitive::<TimeKey>());
    lemma_sort_sorted(ps);
    lemma_sort_len(ps);
    let keyed = |e: (TimeKey, Job)| e.0 == TimeKey { time: e.1.arrival_time };
    assert forall|i: int| 0 <= i < ps.len() implies keyed(#[trigger] ps[i]) by {}
    lemma_sort_forall(ps, keyed);
    let sorted = sort_ranked(ps);
    assert forall|i: int, k: int| 0 <= i < k < out.len() implies (#[trigger] out[i]).arrival_time <= (
    #[trigger] out[k]).arrival_time by {
        assert(keyed(sorted[i]));
        assert(keyed(sorted[k]));
        assert(sorted[i].0.rank_le(&sorted[k].0));
    }
    let second = |p: (TimeKey, Job)| p.1;
    lemma_sort_multiset(ps, second);
    assert(sorted.map_values(second) == out);
    assert(ps.map_values(second) == q);
}

} // verus!
