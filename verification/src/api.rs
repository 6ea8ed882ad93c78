//! Request and response shapes of the HTTP service, and the decisions its
//! handlers make before and after running simulations.

use vstd::prelude::*;

use crate::sort::{sort_by_rank, sort_ranked, str_le, string_le, Ranked};
use vstd::string::StrSliceExecFns;

verus! {

/// Where a run stands.
#[derive(Debug, Clone, Copy, PartialEq, Eq, Structural)]
pub enum RunStatus {
    Pending,
    Running,
    Completed,
    Failed,
}

/// Scheduler to show for a run: the one the user asked for, else the one the
/// finished report resolved.
pub fn display_scheduler(requested: &Option<String>, resolved: &Option<String>) -> (r: Option<String>)
    ensures
        r == if requested is Some { *requested } else { *resolved },
{
    match requested {
        Some(s) => Some(s.clone()),
        None => crate::model::copy_opt_string(resolved),
    }
}

/// A workload preset the benchmark page offers.
#[derive(Debug, Clone)]
pub struct WorkloadPreset {
    pub id: String,
    pub description: String,
}

pub open spec fn preset_ids() -> Seq<Seq<char>> {
    seq!["morning_rag"@, "peak_chat"@, "night_training"@]
}

/// The workload presets, in display order.
pub fn presets() -> (p: Vec<WorkloadPreset>)
    ensures
        p@.len() == 3,
        forall|i: int| 0 <= i < 3 ==> (#[trigger] p@[i]).id@ == preset_ids()[i],
        p@[0].description@ == "Low-rate RAG lookups with short outputs"@,
        p@[1].description@ == "High-rate chat traffic with mixed tenants"@,
        p@[2].description@ == "Sparse large-context requests overnight"@,
{
    let mut p: Vec<WorkloadPreset> = Vec::new();
    p.push(WorkloadPreset { id: "morning_rag".to_owned(), description: "Low-rate RAG lookups with short outputs".to_owned() });
    p.push(WorkloadPreset { id: "peak_chat".to_owned(), description: "High-rate chat traffic with mixed tenants".to_owned() });
    p.push(
        WorkloadPreset { id: "night_training".to_owned(), description: "Sparse large-context requests overnight".to_owned() },
    );
    p
}

/// Liveness answer.
#[derive(Debug, Clone)]
pub struct HealthResponse {
    pub status: String,
}

pub fn health_response() -> (h: HealthResponse)
    ensures
        h.status@ == "ok"@,
{
    HealthResponse { status: "ok".to_owned() }
}

/// A cluster configuration file: its name and its path from the repository root.
#[derive(Debug, Clone)]
pub struct ConfigEntry {
    pub id: String,
    pub path: String,
}

/// Ordering of configuration entries by name, in byte order.
pub struct NameKey {
    pub name: String,
}

impl Ranked for NameKey {
    open spec fn rank_le(&self, other: &Self) -> bool {
        str_le(self.name@, other.name@)
    }

    fn le(&self, other: &Self) -> (r: bool) {
        string_le(&self.name, &other.name)
    }
}

pub open spec fn name_pairs(es: Seq<ConfigEntry>) -> Seq<(NameKey, ConfigEntry)> {
    es.map_values(|e: ConfigEntry| (NameKey { name: e.id }, e))
}

/// The entries sorted by name (stable).
pub open spec fn by_name(es: Seq<ConfigEntry>) -> Seq<ConfigEntry> {
    sort_ranked(name_pairs(es)).map_values(|p: (NameKey, ConfigEntry)| p.1)
}

/// Sorts configuration entries by name.
pub fn sort_config_entries(entries: Vec<ConfigEntry>) -> (r: Vec<ConfigEntry>)
    ensures
        r@ == by_name(entries@),
{
    let mut q = entries;
    let ghost q0 = q@;
    let mut pairs: Vec<(NameKey, ConfigEntry)> = Vec::new();
    while q.len() > 0
        invariant
            q@.len() <= q0.len(),
            q@ == q0.skip(q0.len() - q@.len()),
            pairs@ == name_pairs(q0.take(q0.len() - q@.len())),
        decreases q.len(),
    {
        let ghost done = q0.len() - q@.len();
        let e = q.remove(0);
        proof {
            assert(e == q0[done]);
            assert(q0.take(done + 1) == q0.take(done).push(q0[done]));
            assert(q@ == q0.skip(done + 1));
        }
        pairs.push((NameKey { name: e.id.clone() }, e));
        proof {
            assert(pairs@ =~= name_pairs(q0.take(done + 1)));
        }
    }
    proof {
        assert(q0.take(q0.len() as int) == q0);
    }
    let sorted = sort_by_rank(pairs);
    let mut rest = sorted;
    let ghost s0 = rest@;
    let mut out: Vec<ConfigEntry> = Vec::new();
    while rest.len() > 0
        invariant
            rest@.len() <= s0.len(),
            rest@ == s0.skip(s0.len() - rest@.len()),
            out@ == s0.take(s0.len() - rest@.len()).map_values(|p: (NameKey, ConfigEntry)| p.1),
        decreases rest.len(),
    {
        let ghost done = s0.len() - rest@.len();
        let (_, e) = rest.remove(0);
        proof {
            assert(s0.take(done + 1) == s0.take(done).push(s0[done]));
            assert(rest@ == s0.skip(done + 1));
        }
        out.push(e);
        proof {
            assert(out@ =~= s0.take(done + 1).map_values(|p: (NameKey, ConfigEntry)| p.1));
        }
    }
    proof {
        assert(s0.take(s0.len() as int) == s0);
    }
    out
}

/// The file name ends in `.yaml`.
pub open spec fn is_yaml(name: Seq<char>) -> bool {
    name.len() >= 5 && name.subrange(name.len() - 5, name.len() as int) == ".yaml"@
}

pub fn is_yaml_name(name: &str) -> (r: bool)
    ensures
        r == is_yaml(name@),
{
    let n = name.unicode_len();
    if n < 5 {
        return false;
    }
    let suffix = ".yaml";
    proof {
        reveal_strlit(".yaml");
    }
    let mut i: usize = 0;
    while i < 5
        invariant
            n == name@.len(),
            n >= 5,
            suffix@ == ".yaml"@,
            suffix@.len() == 5,
            i <= 5,
            forall|k: int| 0 <= k < i ==> name@[n - 5 + k] == suffix@[k],
        decreases 5 - i,
    {
        if name.get_char(n - 5 + i) != suffix.get_char(i) {
            proof {
                assert(name@.subrange(n - 5, n as int)[i as int] != ".yaml"@[i as int]);
            }
            return false;
        }
        i = i + 1;
    }
    proof {
        assert(name@.subrange(n - 5, n as int) =~= ".yaml"@);
    }
    true
}

/// Comparison of several configurations.
#[derive(Debug, Clone)]
pub struct CompareRequest {
    pub configs: Vec<String>,
}

/// No configuration is named twice.
pub open spec fn all_distinct(v: Seq<String>) -> bool {
    forall|i: int, j: int| 0 <= i < j < v.len() ==> (#[trigger] v[i])@ != (#[trigger] v[j])@
}

pub fn configs_distinct(configs: &Vec<String>) -> (r: bool)
    ensures
        r == all_distinct(configs@),
{
    let mut i: usize = 0;
    while i < configs.len()
        invariant
            i <= configs@.len(),
            forall|a: int, b: int| 0 <= a < b < configs@.len() && a < i ==> (#[trigger] configs@[a])@ != (#[trigger] configs@[b])@,
        decreases configs.len() - i,
    {
        let mut j: usize = i + 1;
        while j < configs.len()
            invariant
                i < configs@.len(),
                i + 1 <= j <= configs@.len(),
                forall|a: int, b: int| 0 <= a < b < configs@.len() && a < i ==> (#[trigger] configs@[a])@ != (#[trigger] configs@[b])@,
                forall|b: int| i < b < j ==> configs@[i as int]@ != (#[trigger] configs@[b])@,
            decreases configs.len() - j,
        {
            if configs[i] == configs[j] {
                return false;
            }
            j = j + 1;
        }
        i = i + 1;
    }
    true
}

/// One configuration run to a benchmark.
#[derive(Debug, Clone)]
pub struct BenchmarkRunRequest {
    pub config: String,
    pub scheduler: Option<String>,
}

/// A what-if comparison: configurations crossed with schedulers.
#[derive(Debug, Clone)]
pub struct WhatIfRequest {
    pub base_config: String,
    pub schedulers: Vec<String>,
    pub configs: Option<Vec<String>>,
}

/// Schedulers compared when a what-if request names none.
pub fn default_schedulers() -> (s: Vec<String>)
    ensures
        s@.len() == 2,
        s@[0]@ == "fifo"@,
        s@[1]@ == "preemptive"@,
{
    let mut s: Vec<String> = Vec::new();
    s.push("fifo".to_owned());
    s.push("preemptive".to_owned());
    s
}

/// The runs of a what-if request: each configuration (the base one when none is
/// listed) with each scheduler, configuration-major.
pub open spec fn what_if_runs(req: WhatIfRequest) -> Seq<(String, String)> {
    let cs = match req.configs {
        Some(v) => v@,
        None => seq![req.base_config],
    };
    let ss = req.schedulers@;
    Seq::new(cs.len() * ss.len(), |k: int| (cs[k / (ss.len() as int)], ss[k % (ss.len() as int)]))
}

pub fn what_if_plan(req: &WhatIfRequest) -> (runs: Vec<(String, String)>)
    requires
        match req.configs {
            Some(v) => v@.len(),
            None => 1,
        } * req.schedulers@.len() <= usize::MAX,
    ensures
        runs@ == what_if_runs(*req),
{
    let mut cs: Vec<String> = Vec::new();
    match &req.configs {
        Some(v) => {
            cs = crate::model::copy_strings(v);
        },
        None => {
            cs.push(req.base_config.clone());
        },
    }
    let ss = &req.schedulers;
    let ghost want = what_if_runs(*req);
    let mut runs: Vec<(String, String)> = Vec::new();
    let mut i: usize = 0;
    proof {
        assert(cs@ == match req.configs { Some(v) => v@, None => seq![req.base_config] });
    }
    while i < cs.len()
        invariant
            cs@ == (match req.configs { Some(v) => v@, None => seq![req.base_config] }),
            ss == &req.schedulers,
            want == what_if_runs(*req),
            cs@.len() * ss@.len() <= usize::MAX,
            i <= cs@.len(),
            runs@ == want.take(i * ss@.len()),
        decreases cs.len() - i,
    {
        let mut j: usize = 0;
        proof {
            assert(i * ss@.len() + ss@.len() == (i + 1) * ss@.len()) by (nonlinear_arith);
            assert((i + 1) * ss@.len() <= cs@.len() * ss@.len()) by (nonlinear_arith)
                requires i + 1 <= cs@.len();
        }
        while j < ss.len()
            invariant
                cs@ == (match req.configs { Some(v) => v@, None => seq![req.base_config] }),
                ss == &req.schedulers,
                want == what_if_runs(*req),
                i < cs@.len(),
                (i + 1) * ss@.len() <= cs@.len() * ss@.len(),
                i * ss@.len() + ss@.len() == (i + 1) * ss@.len(),
                j <= ss@.len(),
                runs@ == want.take(i * ss@.len() + j),
            decreases ss.len() - j,
        {
            proof {
                let k = i * ss@.len() + j;
                assert(k / (ss@.len() as int) == i && k % (ss@.len() as int) == j) by (nonlinear_arith)
                    requires k == i * ss@.len() + j, j < ss@.len();
                assert(want.take(k + 1) == want.take(k).push(want[k]));
            }
            runs.push((cs[i].clone(), ss[j].clone()));
            j = j + 1;
        }
        i = i + 1;
    }
    proof {
        assert(want.take(i * ss@.len()) == want);
    }
    runs
}

/// Starting one run.
#[derive(Debug, Clone)]
pub struct StartRunRequest {
    pub config: String,
    pub scheduler: Option<String>,
}

/// The ticket a WebSocket client presents.
#[derive(Debug, Clone)]
pub struct WsQuery {
    pub ticket: String,
}

} // verus!
