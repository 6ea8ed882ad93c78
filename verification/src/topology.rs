//! NVLink / PCIe / inter-node topology and the runtime inflation it causes.

use vstd::prelude::*;

use crate::groups::has_spelling;

verus! {

/// Synthetic cluster topology from hardware bandwidth constants (GB/s).
#[derive(Debug, Clone, Copy, PartialEq, Eq, Structural)]
pub struct TopologyGraph {
    pub nvlink_bw_gbs: u16,
    pub pcie_bw_gbs: u16,
}

impl TopologyGraph {
    pub open spec fn spec_default() -> TopologyGraph {
        TopologyGraph { nvlink_bw_gbs: 900, pcie_bw_gbs: 64 }
    }

    /// Topology from profile bandwidths, each raised to at least 1.
    pub fn from_profile_bandwidths(nvlink_bw_gbs: u16, pcie_bw_gbs: u16) -> (t: TopologyGraph)
        ensures
            t.nvlink_bw_gbs == if nvlink_bw_gbs >= 1 { nvlink_bw_gbs } else { 1 },
            t.pcie_bw_gbs == if pcie_bw_gbs >= 1 { pcie_bw_gbs } else { 1 },
    {
        TopologyGraph {
            nvlink_bw_gbs: if nvlink_bw_gbs >= 1 { nvlink_bw_gbs } else { 1 },
            pcie_bw_gbs: if pcie_bw_gbs >= 1 { pcie_bw_gbs } else { 1 },
        }
    }
}

impl Default for TopologyGraph {
    /// NVLink 900 GB/s, PCIe 64 GB/s.
    fn default() -> (t: Self)
        ensures
            t == Self::spec_default(),
    {
        TopologyGraph { nvlink_bw_gbs: 900, pcie_bw_gbs: 64 }
    }
}

/// Per-GPU topology facts needed to compute a runtime multiplier.
#[derive(Debug, Clone)]
pub struct GpuTopologyKey {
    pub nvlink_group: Option<u32>,
    pub node_id: String,
}

/// Distinct NVLink domains among `keys`, in order of first appearance.
pub open spec fn group_set(keys: Seq<GpuTopologyKey>) -> Seq<Option<u32>>
    decreases keys.len(),
{
    if keys.len() == 0 {
        Seq::empty()
    } else {
        let d = group_set(keys.drop_last());
        if d.contains(keys.last().nvlink_group) { d } else { d.push(keys.last().nvlink_group) }
    }
}

/// Distinct node ids among `keys` (one per spelling), in order of first appearance.
pub open spec fn node_set(keys: Seq<GpuTopologyKey>) -> Seq<String>
    decreases keys.len(),
{
    if keys.len() == 0 {
        Seq::empty()
    } else {
        let d = node_set(keys.drop_last());
        if has_spelling(d, keys.last().node_id@) { d } else { d.push(keys.last().node_id) }
    }
}

pub proof fn lemma_sets_bounded(keys: Seq<GpuTopologyKey>)
    ensures
        group_set(keys).len() <= keys.len(),
        node_set(keys).len() <= keys.len(),
    decreases keys.len(),
{
    if keys.len() > 0 {
        lemma_sets_bounded(keys.drop_last());
    }
}

/// Number of distinct NVLink domains.
pub fn distinct_nvlink_groups(keys: &Vec<GpuTopologyKey>) -> (n: usize)
    ensures
        n == group_set(keys@).len(),
{
    let mut seen: Vec<Option<u32>> = Vec::new();
    let mut i: usize = 0;
    proof {
        lemma_sets_bounded(keys@);
    }
    while i < keys.len()
        invariant
            i <= keys@.len(),
            seen@ == group_set(keys@.take(i as int)),
        decreases keys.len() - i,
    {
        proof {
            assert(keys@.take(i as int + 1).drop_last() == keys@.take(i as int));
            assert(keys@.take(i as int + 1).last() == keys@[i as int]);
        }
        let g = keys[i].nvlink_group;
        let mut k: usize = 0;
        let mut found = false;
        while k < seen.len()
            invariant
                k <= seen@.len(),
                found == exists|q: int| 0 <= q < k && seen@[q] == g,
            decreases seen.len() - k,
        {
            if seen[k] == g {
                found = true;
            }
            k = k + 1;
        }
        proof {
            if found {
                let q = choose|q: int| 0 <= q < k && seen@[q] == g;
                assert(seen@.contains(g));
            } else {
                assert(!seen@.contains(g));
            }
        }
        if !found {
            seen.push(g);
        }
        i = i + 1;
    }
    proof {
        assert(keys@.take(i as int) == keys@);
    }
    seen.len()
}

/// Number of distinct nodes.
pub fn distinct_nodes(keys: &Vec<GpuTopologyKey>) -> (n: usize)
    ensures
        n == node_set(keys@).len(),
{
    let mut seen: Vec<String> = Vec::new();
    let mut i: usize = 0;
    while i < keys.len()
        invariant
            i <= keys@.len(),
            seen@ == node_set(keys@.take(i as int)),
        decreases keys.len() - i,
    {
        proof {
            assert(keys@.take(i as int + 1).drop_last() == keys@.take(i as int));
            assert(keys@.take(i as int + 1).last() == keys@[i as int]);
        }
        let id = &keys[i].node_id;
        let mut k: usize = 0;
        let mut found = false;
        while k < seen.len()
            invariant
                k <= seen@.len(),
                found == exists|q: int| 0 <= q < k && (#[trigger] seen@[q])@ == id@,
            decreases seen.len() - k,
        {
            if seen[k] == *id {
                found = true;
            }
            k = k + 1;
        }
        if !found {
            seen.push(id.clone());
        }
        i = i + 1;
    }
    proof {
        assert(keys@.take(i as int) == keys@);
    }
    seen.len()
}

/// The GPUs span more than one NVLink domain or more than one node.
pub fn spans_multiple_domains(keys: &Vec<GpuTopologyKey>) -> (r: bool)
    ensures
        r == (group_set(keys@).len() > 1 || node_set(keys@).len() > 1),
{
    distinct_nvlink_groups(keys) > 1 || distinct_nodes(keys) > 1
}

/// Runtime multiplier as an exact ratio `(numerator, denominator)`:
/// 1 plus a quarter of the PCIe/NVLink bandwidth ratio per extra NVLink domain,
/// plus per extra node a tenth of `max(400 / requested network bandwidth, 1)`
/// (0.15 when no bandwidth is requested).
pub open spec fn inflation(t: TopologyGraph, groups: nat, nodes: nat, net: Option<u16>) -> (int, int) {
    let nv = t.nvlink_bw_gbs as int;
    let pcie = t.pcie_bw_gbs as int;
    match net {
        Some(req) => {
            let r: int = if req >= 1 { req as int } else { 1 };
            let den = 40 * nv * r;
            let g = if groups > 1 { (groups - 1) * pcie * 10 * r } else { 0 };
            let n = if nodes > 1 { (nodes - 1) * (if r >= 400 { r } else { 400 }) * 4 * nv } else { 0 };
            (den + g + n, den)
        },
        None => {
            let den = 80 * nv;
            let g = if groups > 1 { (groups - 1) * pcie * 20 } else { 0 };
            let n = if nodes > 1 { (nodes - 1) * 12 * nv } else { 0 };
            (den + g + n, den)
        },
    }
}

/// The multiplier for a placement on GPUs with these topology facts.
pub open spec fn spec_runtime_multiplier(
    t: TopologyGraph,
    keys: Seq<GpuTopologyKey>,
    gang: bool,
    net: Option<u16>,
    fallback: bool,
) -> (int, int) {
    let groups = group_set(keys).len();
    let nodes = node_set(keys).len();
    if !fallback && !(groups > 1 || nodes > 1) {
        (1, 1)
    } else if !gang && net is None && !fallback {
        (1, 1)
    } else if groups <= 1 && nodes <= 1 {
        (1, 1)
    } else {
        inflation(t, groups, nodes, net)
    }
}

/// Topology never speeds a job up: the multiplier is at least 1, and exactly 1
/// when the GPUs sit in one NVLink domain on one node.
pub proof fn law_multiplier_at_least_one(
    t: TopologyGraph,
    keys: Seq<GpuTopologyKey>,
    gang: bool,
    net: Option<u16>,
    fallback: bool,
)
    requires
        t.nvlink_bw_gbs >= 1,
    ensures
        spec_runtime_multiplier(t, keys, gang, net, fallback).1 >= 1,
        spec_runtime_multiplier(t, keys, gang, net, fallback).0 >= spec_runtime_multiplier(t, keys, gang, net, fallback).1,
        group_set(keys).len() <= 1 && node_set(keys).len() <= 1 ==> spec_runtime_multiplier(t, keys, gang, net, fallback)
            == (1int, 1int),
{
    let groups = group_set(keys).len();
    let nodes = node_set(keys).len();
    let nv = t.nvlink_bw_gbs as int;
    let pcie = t.pcie_bw_gbs as int;
    match net {
        Some(req) => {
            let r: int = if req >= 1 { req as int } else { 1 };
            assert(40 * nv * r >= 1) by (nonlinear_arith)
                requires nv >= 1, r >= 1;
            if groups > 1 {
                assert((groups - 1) * pcie * 10 * r >= 0) by (nonlinear_arith)
                    requires groups >= 1, pcie >= 0, r >= 1;
            }
            if nodes > 1 {
                let big: int = if r >= 400 { r } else { 400 };
                assert((nodes - 1) * big * 4 * nv >= 0) by (nonlinear_arith)
                    requires nodes >= 1, big >= 0, nv >= 0;
            }
        },
        None => {
            if groups > 1 {
                assert((groups - 1) * pcie * 20 >= 0) by (nonlinear_arith)
                    requires groups >= 1, pcie >= 0;
            }
            if nodes > 1 {
                assert((nodes - 1) * 12 * nv >= 0) by (nonlinear_arith)
                    requires nodes >= 1, nv >= 0;
            }
        },
    }
}

/// Under a multiplier of at least 1 a run never gets shorter.
pub proof fn law_scaled_not_shorter(remaining: u64, num: u128, den: u128)
    requires
        den > 0,
        num >= den,
    ensures
        scaled_duration(remaining, num, den) >= remaining,
{
    assert((remaining as int * num as int) / (den as int) >= remaining as int) by (nonlinear_arith)
        requires
            den > 0,
            num >= den,
            remaining >= 0,
    {
        assert(remaining as int * num as int >= remaining as int * den as int);
        vstd::arithmetic::div_mod::lemma_div_is_ordered(remaining as int * den as int, remaining as int * num as int, den as int);
        vstd::arithmetic::div_mod::lemma_div_by_multiple(remaining as int, den as int);
    }
}

impl TopologyGraph {
    /// Runtime inflation when a topology-aware job spans NVLink domains or nodes,
    /// as `(numerator, denominator)`; `(1, 1)` means no inflation.
    pub fn runtime_multiplier(
        &self,
        gpu_topology: &Vec<GpuTopologyKey>,
        job_gang_enabled: bool,
        job_network_bw_gbps: Option<u16>,
        used_topology_fallback: bool,
    ) -> (r: (u128, u128))
        requires
            self.nvlink_bw_gbs >= 1,
            gpu_topology@.len() <= u32::MAX,
        ensures
            (r.0 as int, r.1 as int) == spec_runtime_multiplier(
                *self,
                gpu_topology@,
                job_gang_enabled,
                job_network_bw_gbps,
                used_topology_fallback,
            ),
            r.1 > 0,
            r.1 < 0x40_0000_0000,
    {
        proof {
            lemma_sets_bounded(gpu_topology@);
        }
        let groups = distinct_nvlink_groups(gpu_topology);
        let nodes = distinct_nodes(gpu_topology);
        if !used_topology_fallback && !(groups > 1 || nodes > 1) {
            return (1, 1);
        }
        if !job_gang_enabled && job_network_bw_gbps.is_none() && !used_topology_fallback {
            return (1, 1);
        }
        if groups <= 1 && nodes <= 1 {
            return (1, 1);
        }
        let nv = self.nvlink_bw_gbs as u128;
        let pcie = self.pcie_bw_gbs as u128;
        let g = groups as u128;
        let n = nodes as u128;
        match job_network_bw_gbps {
            Some(req) => {
                let r: u128 = if req >= 1 { req as u128 } else { 1 };
                let big: u128 = if r >= 400 { r } else { 400 };
                assert(nv * r <= 0xffff * 0xffff && nv * r >= 1) by (nonlinear_arith)
                    requires nv <= 0xffff, r <= 0xffff, nv >= 1, r >= 1;
                let den = 40 * (nv * r);
                let gt: u128 = if groups > 1 {
                    let a = mul_small(g - 1, pcie * 10);
                    assert(a <= 0xffff_ffff * (0xffff * 10)) by (nonlinear_arith)
                        requires a == (g - 1) * (pcie * 10), g - 1 <= 0xffff_ffff, pcie <= 0xffff;
                    mul_small(a, r)
                } else {
                    0
                };
                let nt: u128 = if nodes > 1 {
                    let a = mul_small(n - 1, big * 4);
                    assert(a <= 0xffff_ffff * (0xffff * 4)) by (nonlinear_arith)
                        requires a == (n - 1) * (big * 4), n - 1 <= 0xffff_ffff, big <= 0xffff;
                    mul_small(a, nv)
                } else {
                    0
                };
                proof {
                    assert(40 * nv * r == 40 * (nv * r)) by (nonlinear_arith);
                    assert((g - 1) * (pcie * 10) * r == (g - 1) * pcie * 10 * r) by (nonlinear_arith);
                    assert((n - 1) * (big * 4) * nv == (n - 1) * big * 4 * nv) by (nonlinear_arith);
                }
                (den + gt + nt, den)
            },
            None => {
                let den = 80 * nv;
                let gt: u128 = if groups > 1 { mul_small(g - 1, pcie * 20) } else { 0 };
                let nt: u128 = if nodes > 1 { mul_small(n - 1, 12 * nv) } else { 0 };
                proof {
                    assert((g - 1) * (pcie * 20) == (g - 1) * pcie * 20) by (nonlinear_arith);
                    assert((n - 1) * (12 * nv) == (n - 1) * 12 * nv) by (nonlinear_arith);
                }
                (den + gt + nt, den)
            },
        }
    }
}

/// Product of two factors small enough not to overflow.
fn mul_small(a: u128, b: u128) -> (r: u128)
    requires
        a <= 0xffff_ffff_ffff_ffff_ffff,
        b <= 0xffff_ffff,
    ensures
        r == a * b,
        r <= 0xffff_ffff_ffff_ffff_ffff * 0xffff_ffff,
{
    assert(a * b <= 0xffff_ffff_ffff_ffff_ffff * 0xffff_ffff) by (nonlinear_arith)
        requires a <= 0xffff_ffff_ffff_ffff_ffff, b <= 0xffff_ffff;
    a * b
}

/// `remaining * num / den` rounded down, saturating at `u64::MAX`.
pub open spec fn scaled_duration(remaining: u64, num: u128, den: u128) -> u64 {
    let exact = (remaining as int * num as int) / (den as int);
    if exact <= u64::MAX { exact as u64 } else { u64::MAX }
}

/// Runtime of `remaining` seconds of work under multiplier `num / den`.
pub fn scale_duration(remaining: u64, num: u128, den: u128) -> (r: u64)
    requires
        den > 0,
        den < 0x40_0000_0000,
    ensures
        r == scaled_duration(remaining, num, den),
{
    let q = num / den;
    let rm = num % den;
    let rem = remaining as u128;
    proof {
        vstd::arithmetic::div_mod::lemma_fundamental_div_mod(num as int, den as int);
        assert(rem * rm <= 0xffff_ffff_ffff_ffff * 0x40_0000_0000) by (nonlinear_arith)
            requires rem <= 0xffff_ffff_ffff_ffff, rm < 0x40_0000_0000;
        lemma_split_product(rem as int, q as int, rm as int, den as int);
    }
    let low = rem * rm / den;
    if q > 0xffff_ffff_ffff_ffff {
        if rem == 0 {
            proof {
                assert(rem as int * num as int == 0) by (nonlinear_arith)
                    requires rem == 0;
            }
            return 0;
        }
        proof {
            assert(rem as int * q as int >= q as int) by (nonlinear_arith)
                requires rem >= 1, q >= 0;
        }
        return u64::MAX;
    }
    assert(rem * q <= 0xffff_ffff_ffff_ffff * 0xffff_ffff_ffff_ffff) by (nonlinear_arith)
        requires rem <= 0xffff_ffff_ffff_ffff, q <= 0xffff_ffff_ffff_ffff;
    let high = rem * q;
    if high > 0xffff_ffff_ffff_ffff || low > 0xffff_ffff_ffff_ffff - high {
        return u64::MAX;
    }
    (high + low) as u64
}

proof fn lemma_split_product(a: int, q: int, rm: int, den: int)
    requires
        a >= 0,
        q >= 0,
        0 <= rm < den,
    ensures
        (a * (q * den + rm)) / den == a * q + (a * rm) / den,
{
    assert(a * (q * den + rm) == (a * q) * den + a * rm) by (nonlinear_arith);
    vstd::arithmetic::div_mod::lemma_hoist_over_denominator(a * rm, a * q, den as nat);
}


/// A job that is neither a gang job nor asks for network bandwidth, placed
/// without the topology fallback, is never slowed down, whatever NVLink domains
/// and nodes its GPUs span.
pub proof fn law_plain_job_not_inflated(t: TopologyGraph, keys: Seq<GpuTopologyKey>)
    ensures
        spec_runtime_multiplier(t, keys, false, None, false) == (1int, 1int),
{
}


/// The size of the slowdown: a gang job, a job asking for network bandwidth, or
/// a job placed by the topology fallback, whose GPUs span more than one NVLink
/// domain or node, runs `1 + d * pcie / (4 * nvlink) + k * p` times as long, where
/// `d` and `k` are the extra domains and nodes spanned and the per-node penalty
/// `p` is 0.15 without a bandwidth request and `max(400 / r, 1) / 10` for a
/// request of `r` GB/s (at least 1).
pub proof fn law_multiplier_value(
    t: TopologyGraph,
    keys: Seq<GpuTopologyKey>,
    gang: bool,
    net: Option<u16>,
    fallback: bool,
)
    requires
        t.nvlink_bw_gbs >= 1,
        gang || net is Some || fallback,
        group_set(keys).len() > 1 || node_set(keys).len() > 1,
    ensures
        ({
            let m = spec_runtime_multiplier(t, keys, gang, net, fallback);
            let nv = t.nvlink_bw_gbs as int;
            let pcie = t.pcie_bw_gbs as int;
            let d = group_set(keys).len() - 1;
            let k = node_set(keys).len() - 1;
            let d0: int = if d > 0 { d } else { 0 };
            let k0: int = if k > 0 { k } else { 0 };
            match net {
                None => m.0 * (20 * nv) == m.1 * (20 * nv + 5 * pcie * d0 + 3 * nv * k0),
                Some(req) => {
                    let r: int = if req >= 1 { req as int } else { 1 };
                    let big: int = if r >= 400 { r } else { 400 };
                    m.0 * (20 * nv * r) == m.1 * (20 * nv * r + 5 * pcie * r * d0 + 2 * nv * big * k0)
                },
            }
        }),
{
    let nv = t.nvlink_bw_gbs as int;
    let pcie = t.pcie_bw_gbs as int;
    let groups = group_set(keys).len();
    let nodes = node_set(keys).len();
    let d0: int = if groups > 1 { groups - 1 } else { 0 };
    let k0: int = if nodes > 1 { nodes - 1 } else { 0 };
    match net {
        None => {
            let g: int = if groups > 1 { (groups - 1) * pcie * 20 } else { 0 };
            let n: int = if nodes > 1 { (nodes - 1) * 12 * nv } else { 0 };
            assert(g == d0 * pcie * 20) by (nonlinear_arith)
                requires
                    g == (if groups > 1 { (groups - 1) * pcie * 20 } else { 0 }),
                    d0 == (if groups > 1 { groups - 1 } else { 0 }),
            ;
            assert(n == k0 * 12 * nv) by (nonlinear_arith)
                requires
                    n == (if nodes > 1 { (nodes - 1) * 12 * nv } else { 0 }),
                    k0 == (if nodes > 1 { nodes - 1 } else { 0 }),
            ;
            let b = 80 * nv;
            let a = b + g + n;
            assert(inflation(t, groups, nodes, net) == (a, b));
            lemma_ratio_identity(a, b, 20 * nv, g, n, 5 * pcie * d0, 3 * nv * k0);
            assert(b * (5 * pcie * d0) == g * (20 * nv)) by (nonlinear_arith)
                requires
                    b == 80 * nv,
                    g == d0 * pcie * 20,
            ;
            assert(b * (3 * nv * k0) == n * (20 * nv)) by (nonlinear_arith)
                requires
                    b == 80 * nv,
                    n == k0 * 12 * nv,
            ;
        },
        Some(req) => {
            let r: int = if req >= 1 { req as int } else { 1 };
            let big: int = if r >= 400 { r } else { 400 };
            let g: int = if groups > 1 { (groups - 1) * pcie * 10 * r } else { 0 };
            let n: int = if nodes > 1 { (nodes - 1) * big * 4 * nv } else { 0 };
            assert(g == d0 * pcie * 10 * r) by (nonlinear_arith)
                requires
                    g == (if groups > 1 { (groups - 1) * pcie * 10 * r } else { 0 }),
                    d0 == (if groups > 1 { groups - 1 } else { 0 }),
            ;
            assert(n == k0 * big * 4 * nv) by (nonlinear_arith)
                requires
                    n == (if nodes > 1 { (nodes - 1) * big * 4 * nv } else { 0 }),
                    k0 == (if nodes > 1 { nodes - 1 } else { 0 }),
            ;
            let b = 40 * nv * r;
            let a = b + g + n;
            assert(inflation(t, groups, nodes, net) == (a, b));
            lemma_ratio_identity(a, b, 20 * nv * r, g, n, 5 * pcie * r * d0, 2 * nv * big * k0);
            assert(b * (5 * pcie * r * d0) == g * (20 * nv * r)) by (nonlinear_arith)
                requires
                    b == 40 * nv * r,
                    g == d0 * pcie * 10 * r,
            ;
            assert(b * (2 * nv * big * k0) == n * (20 * nv * r)) by (nonlinear_arith)
                requires
                    b == 40 * nv * r,
                    n == k0 * big * 4 * nv,
            ;
        },
    }
}

/// `(b + g + n) / b == (x + p + q) / x` once each extra term matches.
proof fn lemma_ratio_identity(a: int, b: int, x: int, g: int, n: int, p: int, q: int)
    requires
        a == b + g + n,
    ensures
        b * p == g * x && b * q == n * x ==> a * x == b * (x + p + q),
{
    assert(a * x == b * x + g * x + n * x) by (nonlinear_arith)
        requires
            a == b + g + n,
    ;
    assert(b * (x + p + q) == b * x + b * p + b * q) by (nonlinear_arith);
}

} // verus!
