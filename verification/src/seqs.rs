//! Facts about sequences used across the library.

use vstd::prelude::*;

use crate::model::{Gpu, GpuView};

verus! {

/// Filtering one more element of a prefix.
pub proof fn lemma_filter_take_step<A>(s: Seq<A>, p: spec_fn(A) -> bool, i: int)
    requires
        0 <= i < s.len(),
    ensures
        s.take(i + 1).filter(p) == if p(s[i]) {
            s.take(i).filter(p).push(s[i])
        } else {
            s.take(i).filter(p)
        },
{
    reveal(Seq::filter);
    assert(s.take(i + 1).drop_last() == s.take(i));
    assert(s.take(i + 1).last() == s[i]);
}

/// Views of a sequence of strings.
pub open spec fn strs(v: Seq<String>) -> Seq<Seq<char>> {
    v.map_values(|s: String| s@)
}

/// Identifiers of a sequence of GPUs.
pub open spec fn gpu_ids(gs: Seq<GpuView>) -> Seq<Seq<char>> {
    gs.map_values(|g: GpuView| g.id@)
}

/// Views of a vector of GPUs.
pub open spec fn gpu_views(v: Seq<Gpu>) -> Seq<GpuView> {
    v.map_values(|g: Gpu| g@)
}

/// Identifiers of the first `n` GPUs of `v`.
pub fn ids_prefix(v: &Vec<Gpu>, n: usize) -> (r: Vec<String>)
    requires
        n <= v@.len(),
    ensures
        strs(r@) == gpu_ids(gpu_views(v@).take(n as int)),
{
    let mut out: Vec<String> = Vec::new();
    let mut i: usize = 0;
    while i < n
        invariant
            i <= n,
            n <= v@.len(),
            strs(out@) == gpu_ids(gpu_views(v@).take(i as int)),
        decreases n - i,
    {
        let ghost before = out@;
        out.push(v[i].id.clone());
        proof {
            assert(strs(out@) =~= strs(before).push(v@[i as int].id@));
            assert(gpu_views(v@).take(i as int + 1) =~= gpu_views(v@).take(i as int).push(v@[i as int]@));
            assert(gpu_ids(gpu_views(v@).take(i as int + 1)) =~= gpu_ids(gpu_views(v@).take(i as int)).push(
                v@[i as int].id@,
            ));
        }
        i = i + 1;
    }
    out
}

} // verus!
