//! Grouping GPUs by NVLink domain and by node, in order of first appearance.

use vstd::prelude::*;

use crate::model::{Gpu, GpuView};
use crate::seqs::{gpu_views, lemma_filter_take_step};

verus! {

pub open spec fn in_group(grp: Option<u32>) -> spec_fn(GpuView) -> bool {
    |g: GpuView| g.nvlink_group == grp
}

/// GPUs of `s` in NVLink domain `grp`, in order.
pub open spec fn group_of(s: Seq<GpuView>, grp: Option<u32>) -> Seq<GpuView> {
    s.filter(in_group(grp))
}

/// Distinct NVLink domains of `s`, in order of first appearance.
pub open spec fn nv_keys(s: Seq<GpuView>) -> Seq<Option<u32>>
    decreases s.len(),
{
    if s.len() == 0 {
        Seq::empty()
    } else {
        let d = nv_keys(s.drop_last());
        if d.contains(s.last().nvlink_group) {
            d
        } else {
            d.push(s.last().nvlink_group)
        }
    }
}

pub open spec fn on_node(id: Seq<char>) -> spec_fn(GpuView) -> bool {
    |g: GpuView| g.node_id@ == id
}

/// GPUs of `s` on the node with id `id`, in order.
pub open spec fn node_members(s: Seq<GpuView>, id: Seq<char>) -> Seq<GpuView> {
    s.filter(on_node(id))
}

/// Whether some string in `d` spells `x`.
pub open spec fn has_spelling(d: Seq<String>, x: Seq<char>) -> bool {
    exists|i: int| 0 <= i < d.len() && (#[trigger] d[i])@ == x
}

/// Distinct node ids of `s` (one string per spelling), in order of first appearance.
pub open spec fn node_keys(s: Seq<GpuView>) -> Seq<String>
    decreases s.len(),
{
    if s.len() == 0 {
        Seq::empty()
    } else {
        let d = node_keys(s.drop_last());
        if has_spelling(d, s.last().node_id@) {
            d
        } else {
            d.push(s.last().node_id)
        }
    }
}

/// GPUs of `s` on the nodes named by `keys`, counted node by node.
pub open spec fn members_total(s: Seq<GpuView>, keys: Seq<String>) -> nat
    decreases keys.len(),
{
    if keys.len() == 0 {
        0
    } else {
        members_total(s, keys.drop_last()) + node_members(s, keys.last()@).len()
    }
}

/// How many strings of `keys` spell `x`.
pub open spec fn spellings(keys: Seq<String>, x: Seq<char>) -> nat
    decreases keys.len(),
{
    if keys.len() == 0 {
        0
    } else {
        spellings(keys.drop_last(), x) + if keys.last()@ == x { 1nat } else { 0nat }
    }
}

proof fn lemma_node_members_push(s: Seq<GpuView>, g: GpuView, x: Seq<char>)
    ensures
        node_members(s.push(g), x).len() == node_members(s, x).len() + if g.node_id@ == x { 1nat } else { 0nat },
{
    reveal(Seq::filter);
    assert(s.push(g).drop_last() == s);
}

proof fn lemma_members_push(s: Seq<GpuView>, g: GpuView, keys: Seq<String>)
    ensures
        members_total(s.push(g), keys) == members_total(s, keys) + spellings(keys, g.node_id@),
    decreases keys.len(),
{
    if keys.len() > 0 {
        lemma_members_push(s, g, keys.drop_last());
        lemma_node_members_push(s, g, keys.last()@);
    }
}

proof fn lemma_spellings(keys: Seq<String>, x: Seq<char>)
    requires
        forall|i: int, j: int| 0 <= i < j < keys.len() ==> (#[trigger] keys[i])@ != (#[trigger] keys[j])@,
    ensures
        spellings(keys, x) == if has_spelling(keys, x) { 1nat } else { 0nat },
    decreases keys.len(),
{
    if keys.len() > 0 {
        let d = keys.drop_last();
        assert forall|i: int, j: int| 0 <= i < j < d.len() implies (#[trigger] d[i])@ != (#[trigger] d[j])@ by {
            assert(d[i] == keys[i] && d[j] == keys[j]);
        }
        lemma_spellings(d, x);
        if has_spelling(d, x) {
            let i = choose|i: int| 0 <= i < d.len() && (#[trigger] d[i])@ == x;
            assert(keys[i] == d[i]);
            assert(keys.last() == keys[keys.len() - 1]);
        }
        if has_spelling(keys, x) {
            let i = choose|i: int| 0 <= i < keys.len() && (#[trigger] keys[i])@ == x;
            if i < d.len() {
                assert(d[i] == keys[i]);
            }
        }
    }
}

/// Node keys spell distinct node ids, every GPU's node among them, and only those.
pub proof fn lemma_node_keys(s: Seq<GpuView>)
    ensures
        forall|i: int, j: int| 0 <= i < j < node_keys(s).len() ==> (#[trigger] node_keys(s)[i])@ != (#[trigger] node_keys(
            s,
        )[j])@,
        forall|t: int| 0 <= t < s.len() ==> has_spelling(node_keys(s), (#[trigger] s[t]).node_id@),
        forall|x: Seq<char>| has_spelling(node_keys(s), x) ==> exists|t: int| 0 <= t < s.len() && (#[trigger] s[t]).node_id@ == x,
    decreases s.len(),
{
    if s.len() > 0 {
        let d = s.drop_last();
        lemma_node_keys(d);
        let k = node_keys(s);
        let kd = node_keys(d);
        assert forall|t: int| 0 <= t < s.len() implies has_spelling(k, (#[trigger] s[t]).node_id@) by {
            if t < d.len() {
                assert(d[t] == s[t]);
                let i = choose|i: int| 0 <= i < kd.len() && (#[trigger] kd[i])@ == d[t].node_id@;
                assert(k[i] == kd[i]);
            } else {
                if has_spelling(kd, s.last().node_id@) {
                    let i = choose|i: int| 0 <= i < kd.len() && (#[trigger] kd[i])@ == s.last().node_id@;
                    assert(k[i] == kd[i]);
                } else {
                    assert(k[kd.len() as int] == s.last().node_id);
                }
            }
        }
        assert forall|x: Seq<char>| has_spelling(k, x) implies exists|t: int| 0 <= t < s.len() && (#[trigger] s[t]).node_id@
            == x by {
            let i = choose|i: int| 0 <= i < k.len() && (#[trigger] k[i])@ == x;
            if i < kd.len() {
                assert(k[i] == kd[i]);
                assert(has_spelling(kd, x));
                let t = choose|t: int| 0 <= t < d.len() && (#[trigger] d[t]).node_id@ == x;
                assert(s[t] == d[t]);
            } else {
                assert(s[s.len() - 1].node_id@ == x);
            }
        }
        assert forall|i: int, j: int| 0 <= i < j < k.len() implies (#[trigger] k[i])@ != (#[trigger] k[j])@ by {
            if j < kd.len() {
                assert(k[i] == kd[i] && k[j] == kd[j]);
            } else {
                assert(k[i] == kd[i]);
                assert(!has_spelling(kd, s.last().node_id@));
            }
        }
    }
}

/// No GPU of `s` on node `x`: `x` has no members.
pub proof fn lemma_members_absent(s: Seq<GpuView>, x: Seq<char>)
    requires
        forall|t: int| 0 <= t < s.len() ==> (#[trigger] s[t]).node_id@ != x,
    ensures
        node_members(s, x).len() == 0,
    decreases s.len(),
{
    if s.len() > 0 {
        let d = s.drop_last();
        assert forall|t: int| 0 <= t < d.len() implies (#[trigger] d[t]).node_id@ != x by {
            assert(d[t] == s[t]);
        }
        lemma_members_absent(d, x);
        assert(d.push(s.last()) == s);
        lemma_node_members_push(d, s.last(), x);
    }
}

/// Every GPU of `s` on node `x`: all of `s` are members of `x`.
pub proof fn lemma_members_all(s: Seq<GpuView>, x: Seq<char>)
    requires
        forall|t: int| 0 <= t < s.len() ==> (#[trigger] s[t]).node_id@ == x,
    ensures
        node_members(s, x).len() == s.len(),
    decreases s.len(),
{
    if s.len() > 0 {
        let d = s.drop_last();
        assert forall|t: int| 0 <= t < d.len() implies (#[trigger] d[t]).node_id@ == x by {
            assert(d[t] == s[t]);
        }
        lemma_members_all(d, x);
        assert(d.push(s.last()) == s);
        lemma_node_members_push(d, s.last(), x);
    }
}

/// Counting the GPUs of `s` node by node over its node keys counts each once.
pub proof fn lemma_members_cover(s: Seq<GpuView>)
    ensures
        members_total(s, node_keys(s)) == s.len(),
    decreases s.len(),
{
    if s.len() > 0 {
        let d = s.drop_last();
        let g = s.last();
        assert(d.push(g) == s);
        lemma_members_cover(d);
        lemma_node_keys(s);
        lemma_node_keys(d);
        let k = node_keys(s);
        let kd = node_keys(d);
        lemma_members_push(d, g, k);
        lemma_spellings(k, g.node_id@);
        assert(has_spelling(k, s[s.len() - 1].node_id@));
        if has_spelling(kd, g.node_id@) {
            assert(k == kd);
        } else {
            assert(k == kd.push(g.node_id));
            assert(k.drop_last() == kd);
            assert forall|t: int| 0 <= t < d.len() implies (#[trigger] d[t]).node_id@ != g.node_id@ by {
                if d[t].node_id@ == g.node_id@ {
                    assert(has_spelling(kd, d[t].node_id@));
                }
            }
            lemma_members_absent(d, g.node_id@);
        }
    }
}

/// Distinct NVLink domains of the GPUs in `v`.
pub fn distinct_groups(v: &Vec<Gpu>) -> (r: Vec<Option<u32>>)
    ensures
        r@ == nv_keys(gpu_views(v@)),
{
    let ghost s = gpu_views(v@);
    let mut out: Vec<Option<u32>> = Vec::new();
    let mut i: usize = 0;
    while i < v.len()
        invariant
            s == gpu_views(v@),
            i <= v@.len(),
            out@ == nv_keys(s.take(i as int)),
        decreases v.len() - i,
    {
        proof {
            assert(s.take(i as int + 1).drop_last() == s.take(i as int));
            assert(s.take(i as int + 1).last() == v@[i as int]@);
        }
        let grp = v[i].nvlink_group;
        let mut k: usize = 0;
        let mut seen = false;
        while k < out.len()
            invariant
                k <= out@.len(),
                seen == exists|q: int| 0 <= q < k && out@[q] == grp,
            decreases out.len() - k,
        {
            if out[k] == grp {
                seen = true;
            }
            k = k + 1;
        }
        proof {
            if seen {
                let q = choose|q: int| 0 <= q < k && out@[q] == grp;
                assert(out@.contains(grp));
            } else {
                assert(!out@.contains(grp));
            }
        }
        if !seen {
            out.push(grp);
        }
        i = i + 1;
    }
    proof {
        assert(s.take(i as int) == s);
    }
    out
}

/// GPUs of `v` in NVLink domain `grp`, in order.
pub fn group_members(v: &Vec<Gpu>, grp: Option<u32>) -> (r: Vec<Gpu>)
    ensures
        gpu_views(r@) == group_of(gpu_views(v@), grp),
{
    let ghost s = gpu_views(v@);
    let mut out: Vec<Gpu> = Vec::new();
    let mut i: usize = 0;
    while i < v.len()
        invariant
            s == gpu_views(v@),
            i <= v@.len(),
            gpu_views(out@) == s.take(i as int).filter(in_group(grp)),
        decreases v.len() - i,
    {
        proof {
            lemma_filter_take_step(s, in_group(grp), i as int);
        }
        if v[i].nvlink_group == grp {
            let ghost before = out@;
            out.push(v[i].duplicate());
            proof {
                assert(gpu_views(out@) =~= gpu_views(before).push(v@[i as int]@));
            }
        }
        i = i + 1;
    }
    proof {
        assert(s.take(i as int) == s);
    }
    out
}

/// Distinct node ids of the GPUs in `v`.
pub fn distinct_nodes_of(v: &Vec<Gpu>) -> (r: Vec<String>)
    ensures
        r@ == node_keys(gpu_views(v@)),
{
    let ghost s = gpu_views(v@);
    let mut out: Vec<String> = Vec::new();
    let mut i: usize = 0;
    while i < v.len()
        invariant
            s == gpu_views(v@),
            i <= v@.len(),
            out@ == node_keys(s.take(i as int)),
        decreases v.len() - i,
    {
        proof {
            assert(s.take(i as int + 1).drop_last() == s.take(i as int));
            assert(s.take(i as int + 1).last() == v@[i as int]@);
        }
        let id = &v[i].node_id;
        let mut k: usize = 0;
        let mut seen = false;
        while k < out.len()
            invariant
                k <= out@.len(),
                seen == exists|q: int| 0 <= q < k && (#[trigger] out@[q])@ == id@,
            decreases out.len() - k,
        {
            if out[k] == *id {
                seen = true;
            }
            k = k + 1;
        }
        if !seen {
            out.push(id.clone());
        }
        i = i + 1;
    }
    proof {
        assert(s.take(i as int) == s);
    }
    out
}

/// GPUs of `v` on node `id`, in order.
pub fn node_gpus_of(v: &Vec<Gpu>, id: &String) -> (r: Vec<Gpu>)
    ensures
        gpu_views(r@) == node_members(gpu_views(v@), id@),
{
    let ghost s = gpu_views(v@);
    let mut out: Vec<Gpu> = Vec::new();
    let mut i: usize = 0;
    while i < v.len()
        invariant
            s == gpu_views(v@),
            i <= v@.len(),
            gpu_views(out@) == s.take(i as int).filter(on_node(id@)),
        decreases v.len() - i,
    {
        proof {
            lemma_filter_take_step(s, on_node(id@), i as int);
        }
        if v[i].node_id == *id {
            let ghost before = out@;
            out.push(v[i].duplicate());
            proof {
                assert(gpu_views(out@) =~= gpu_views(before).push(v@[i as int]@));
            }
        }
        i = i + 1;
    }
    proof {
        assert(s.take(i as int) == s);
    }
    out
}

} // verus!
