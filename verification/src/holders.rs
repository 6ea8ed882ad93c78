//! Who holds each GPU slot: the whole GPU, or one of its MIG slices. Setting
//! holders changes nothing else, and a sequence of settings leaves each slot
//! with the last holder written to it.

use vstd::prelude::*;

use crate::lifecycle::{gpu_index, lemma_index_bounds, set_resource, set_resources, slice_index, slice_owner};
use crate::model::{GpuView, MigSlice};

verus! {

/// Slot `(i, k)` of `gv`: GPU `i` as a whole when `k` is -1, else its slice `k`.
pub open spec fn valid_slot(gv: Seq<GpuView>, i: int, k: int) -> bool {
    0 <= i < gv.len() && (k == -1 || 0 <= k < gv[i].slices.len())
}

/// The holder of slot `(i, k)`.
pub open spec fn hold(gv: Seq<GpuView>, i: int, k: int) -> Option<String> {
    if k < 0 {
        gv[i].running_job_id
    } else {
        gv[i].slices[k].running_job_id
    }
}

/// The slot resource `id` names: the first slice with that id, else the first
/// whole GPU with it; `(-1, -1)` when there is none.
pub open spec fn loc(gv: Seq<GpuView>, id: Seq<char>) -> (int, int) {
    let o = slice_owner(gv, id);
    if o >= 0 {
        (o, slice_index(gv[o].slices, id))
    } else {
        let i = gpu_index(gv, id);
        if i >= 0 {
            (i, -1)
        } else {
            (-1, -1)
        }
    }
}

/// `a` and `b` differ at most in who holds their slots.
pub open spec fn same_but_holders(a: Seq<GpuView>, b: Seq<GpuView>) -> bool {
    &&& a.len() == b.len()
    &&& forall|i: int|
        0 <= i < a.len() ==> #[trigger] a[i] == (GpuView {
            running_job_id: a[i].running_job_id,
            slices: a[i].slices,
            ..b[i]
        }) && a[i].slices.len() == b[i].slices.len()
    &&& forall|i: int, k: int|
        0 <= i < a.len() && 0 <= k < a[i].slices.len() ==> #[trigger] a[i].slices[k] == (MigSlice {
            running_job_id: a[i].slices[k].running_job_id,
            ..b[i].slices[k]
        })
}

proof fn lemma_slice_index_same(a: Seq<MigSlice>, b: Seq<MigSlice>, id: Seq<char>)
    requires
        a.len() == b.len(),
        forall|k: int| 0 <= k < a.len() ==> (#[trigger] a[k]).id == b[k].id,
    ensures
        slice_index(a, id) == slice_index(b, id),
    decreases a.len(),
{
    if a.len() > 0 {
        lemma_slice_index_same(a.drop_last(), b.drop_last(), id);
    }
}

proof fn lemma_owner_same(a: Seq<GpuView>, b: Seq<GpuView>, id: Seq<char>)
    requires
        same_but_holders(a, b),
    ensures
        slice_owner(a, id) == slice_owner(b, id),
        gpu_index(a, id) == gpu_index(b, id),
        forall|i: int| 0 <= i < a.len() ==> slice_index(#[trigger] a[i].slices, id) == slice_index(b[i].slices, id),
    decreases a.len(),
{
    assert forall|i: int| 0 <= i < a.len() implies slice_index(#[trigger] a[i].slices, id) == slice_index(b[i].slices, id) by {
        assert(a[i] == (GpuView { running_job_id: a[i].running_job_id, slices: a[i].slices, ..b[i] }));
        assert forall|k: int| 0 <= k < a[i].slices.len() implies (#[trigger] a[i].slices[k]).id == b[i].slices[k].id by {
            assert(a[i].slices[k] == (MigSlice { running_job_id: a[i].slices[k].running_job_id, ..b[i].slices[k] }));
        }
        lemma_slice_index_same(a[i].slices, b[i].slices, id);
    }
    if a.len() > 0 {
        let la = a.drop_last();
        let lb = b.drop_last();
        assert forall|i: int| 0 <= i < la.len() implies #[trigger] la[i] == (GpuView {
            running_job_id: la[i].running_job_id,
            slices: la[i].slices,
            ..lb[i]
        }) && la[i].slices.len() == lb[i].slices.len() by {
            assert(la[i] == a[i] && lb[i] == b[i]);
        }
        assert forall|i: int, k: int| 0 <= i < la.len() && 0 <= k < la[i].slices.len() implies #[trigger] la[i].slices[k]
            == (MigSlice { running_job_id: la[i].slices[k].running_job_id, ..lb[i].slices[k] }) by {
            assert(la[i] == a[i] && lb[i] == b[i]);
        }
        lemma_owner_same(la, lb, id);
        let n = a.len() - 1;
        assert(a[n] == (GpuView { running_job_id: a[n].running_job_id, slices: a[n].slices, ..b[n] }));
        assert(slice_index(a[n].slices, id) == slice_index(b[n].slices, id));
    }
}

/// Slots are found by ids alone, so they stay where they are while holders change.
pub proof fn lemma_loc_same(a: Seq<GpuView>, b: Seq<GpuView>, id: Seq<char>)
    requires
        same_but_holders(a, b),
    ensures
        loc(a, id) == loc(b, id),
{
    lemma_owner_same(a, b, id);
    lemma_index_bounds(a, id);
    let o = slice_owner(a, id);
    if o >= 0 {
        assert(slice_index(a[o].slices, id) == slice_index(b[o].slices, id));
    }
}

pub proof fn lemma_slice_index_bounds(s: Seq<MigSlice>, id: Seq<char>)
    ensures
        -1 <= slice_index(s, id) < s.len(),
        slice_index(s, id) >= 0 ==> s[slice_index(s, id)].id@ == id,
    decreases s.len(),
{
    if s.len() > 0 {
        lemma_slice_index_bounds(s.drop_last(), id);
    }
}

/// A resource that exists names a valid slot.
pub proof fn lemma_loc_valid(gv: Seq<GpuView>, id: Seq<char>)
    ensures
        loc(gv, id).0 >= 0 ==> valid_slot(gv, loc(gv, id).0, loc(gv, id).1),
        loc(gv, id).0 < 0 ==> loc(gv, id) == (-1int, -1int),
{
    lemma_index_bounds(gv, id);
    let o = slice_owner(gv, id);
    if o >= 0 {
        lemma_slice_index_bounds(gv[o].slices, id);
    }
}

pub proof fn lemma_same_trans(a: Seq<GpuView>, b: Seq<GpuView>, c: Seq<GpuView>)
    requires
        same_but_holders(a, b),
        same_but_holders(b, c),
    ensures
        same_but_holders(a, c),
{
    assert forall|i: int| 0 <= i < a.len() implies #[trigger] a[i] == (GpuView {
        running_job_id: a[i].running_job_id,
        slices: a[i].slices,
        ..c[i]
    }) && a[i].slices.len() == c[i].slices.len() by {
        assert(a[i] == (GpuView { running_job_id: a[i].running_job_id, slices: a[i].slices, ..b[i] }));
        assert(b[i] == (GpuView { running_job_id: b[i].running_job_id, slices: b[i].slices, ..c[i] }));
    }
    assert forall|i: int, k: int| 0 <= i < a.len() && 0 <= k < a[i].slices.len() implies #[trigger] a[i].slices[k] == (
    MigSlice { running_job_id: a[i].slices[k].running_job_id, ..c[i].slices[k] }) by {
        assert(a[i] == (GpuView { running_job_id: a[i].running_job_id, slices: a[i].slices, ..b[i] }));
        assert(a[i].slices[k] == (MigSlice { running_job_id: a[i].slices[k].running_job_id, ..b[i].slices[k] }));
        assert(b[i].slices[k] == (MigSlice { running_job_id: b[i].slices[k].running_job_id, ..c[i].slices[k] }));
    }
}

/// Setting the holder of `id` changes only the holder of its slot.
pub proof fn lemma_set_resource(gv: Seq<GpuView>, id: Seq<char>, h: Option<String>)
    ensures
        same_but_holders(set_resource(gv, id, h), gv),
        forall|i: int, k: int|
            valid_slot(gv, i, k) ==> #[trigger] hold(set_resource(gv, id, h), i, k) == if (i, k) == loc(gv, id) {
                h
            } else {
                hold(gv, i, k)
            },
{
    let r = set_resource(gv, id, h);
    lemma_loc_valid(gv, id);
    lemma_index_bounds(gv, id);
    let o = slice_owner(gv, id);
    if o >= 0 {
        let g = gv[o];
        let k0 = slice_index(g.slices, id);
        lemma_slice_index_bounds(g.slices, id);
        assert forall|i: int| 0 <= i < r.len() implies #[trigger] r[i] == (GpuView {
            running_job_id: r[i].running_job_id,
            slices: r[i].slices,
            ..gv[i]
        }) && r[i].slices.len() == gv[i].slices.len() by {}
        assert forall|i: int, k: int| 0 <= i < r.len() && 0 <= k < r[i].slices.len() implies #[trigger] r[i].slices[k]
            == (MigSlice { running_job_id: r[i].slices[k].running_job_id, ..gv[i].slices[k] }) by {
            if i == o && k == k0 {
            } else {
            }
        }
        assert forall|i: int, k: int| valid_slot(gv, i, k) implies #[trigger] hold(r, i, k) == if (i, k) == loc(gv, id) {
            h
        } else {
            hold(gv, i, k)
        } by {
            if i == o {
                assert(r[i].slices == g.slices.update(k0, MigSlice { running_job_id: h, ..g.slices[k0] }));
                if k >= 0 && k != k0 {
                    assert(r[i].slices[k] == g.slices[k]);
                }
            } else {
                assert(r[i] == gv[i]);
            }
        }
    } else {
        let i0 = gpu_index(gv, id);
        assert forall|i: int| 0 <= i < r.len() implies #[trigger] r[i] == (GpuView {
            running_job_id: r[i].running_job_id,
            slices: r[i].slices,
            ..gv[i]
        }) && r[i].slices.len() == gv[i].slices.len() by {}
        assert forall|i: int, k: int| 0 <= i < r.len() && 0 <= k < r[i].slices.len() implies #[trigger] r[i].slices[k]
            == (MigSlice { running_job_id: r[i].slices[k].running_job_id, ..gv[i].slices[k] }) by {}
        assert forall|i: int, k: int| valid_slot(gv, i, k) implies #[trigger] hold(r, i, k) == if (i, k) == loc(gv, id) {
            h
        } else {
            hold(gv, i, k)
        } by {
            if i0 >= 0 && i == i0 {
                assert(r[i].slices == gv[i].slices);
            } else {
                assert(r[i] == gv[i]);
            }
        }
    }
}

/// Some resource of `ids` names slot `(i, k)` of `gv`.
pub open spec fn writes(gv: Seq<GpuView>, ids: Seq<Seq<char>>, i: int, k: int) -> bool {
    exists|j: int| 0 <= j < ids.len() && #[trigger] loc(gv, ids[j]) == (i, k)
}

/// Setting the holders of `ids` gives each slot they name holder `h`, and
/// changes nothing else.
pub proof fn lemma_set_resources(gv: Seq<GpuView>, ids: Seq<Seq<char>>, h: Option<String>)
    ensures
        same_but_holders(set_resources(gv, ids, h), gv),
        forall|i: int, k: int|
            valid_slot(gv, i, k) ==> #[trigger] hold(set_resources(gv, ids, h), i, k) == if writes(gv, ids, i, k) {
                h
            } else {
                hold(gv, i, k)
            },
    decreases ids.len(),
{
    let r = set_resources(gv, ids, h);
    if ids.len() == 0 {
        assert(same_but_holders(gv, gv)) by {
            assert forall|i: int| 0 <= i < gv.len() implies #[trigger] gv[i] == (GpuView {
                running_job_id: gv[i].running_job_id,
                slices: gv[i].slices,
                ..gv[i]
            }) && gv[i].slices.len() == gv[i].slices.len() by {}
            assert forall|i: int, k: int| 0 <= i < gv.len() && 0 <= k < gv[i].slices.len() implies #[trigger] gv[i].slices[k]
                == (MigSlice { running_job_id: gv[i].slices[k].running_job_id, ..gv[i].slices[k] }) by {}
        }
    } else {
        let d = ids.drop_last();
        let last = ids.last();
        let r1 = set_resources(gv, d, h);
        lemma_set_resources(gv, d, h);
        lemma_set_resource(r1, last, h);
        lemma_same_trans(r, r1, gv);
        lemma_loc_same(r1, gv, last);
        assert forall|i: int, k: int| valid_slot(gv, i, k) implies #[trigger] hold(r, i, k) == if writes(gv, ids, i, k) {
            h
        } else {
            hold(gv, i, k)
        } by {
            assert(valid_slot(r1, i, k));
            if writes(gv, d, i, k) {
                let j = choose|j: int| 0 <= j < d.len() && #[trigger] loc(gv, d[j]) == (i, k);
                assert(ids[j] == d[j]);
            }
            if loc(gv, last) == (i, k) {
                assert(ids[ids.len() - 1] == last);
            }
            if writes(gv, ids, i, k) {
                let j = choose|j: int| 0 <= j < ids.len() && #[trigger] loc(gv, ids[j]) == (i, k);
                if j < d.len() {
                    assert(d[j] == ids[j]);
                }
            }
        }
    }
}

/// GPUs that differ at most in holders, with the same holder in every slot, are equal.
pub proof fn lemma_same_holders_equal(a: Seq<GpuView>, b: Seq<GpuView>)
    requires
        same_but_holders(a, b),
        forall|i: int, k: int| valid_slot(b, i, k) ==> #[trigger] hold(a, i, k) == hold(b, i, k),
    ensures
        a == b,
{
    assert forall|i: int| 0 <= i < a.len() implies a[i] == b[i] by {
        assert(a[i] == (GpuView { running_job_id: a[i].running_job_id, slices: a[i].slices, ..b[i] }));
        assert(valid_slot(b, i, -1));
        assert(hold(a, i, -1) == hold(b, i, -1));
        assert forall|k: int| 0 <= k < a[i].slices.len() implies a[i].slices[k] == b[i].slices[k] by {
            assert(a[i].slices[k] == (MigSlice { running_job_id: a[i].slices[k].running_job_id, ..b[i].slices[k] }));
            assert(valid_slot(b, i, k));
            assert(hold(a, i, k) == hold(b, i, k));
        }
        assert(a[i].slices =~= b[i].slices);
    }
    assert(a =~= b);
}

pub proof fn lemma_same_refl(gv: Seq<GpuView>)
    ensures
        same_but_holders(gv, gv),
{
    assert forall|i: int| 0 <= i < gv.len() implies #[trigger] gv[i] == (GpuView {
        running_job_id: gv[i].running_job_id,
        slices: gv[i].slices,
        ..gv[i]
    }) && gv[i].slices.len() == gv[i].slices.len() by {}
    assert forall|i: int, k: int| 0 <= i < gv.len() && 0 <= k < gv[i].slices.len() implies #[trigger] gv[i].slices[k] == (
    MigSlice { running_job_id: gv[i].slices[k].running_job_id, ..gv[i].slices[k] }) by {}
}

/// Which slots `ids` name does not depend on the holders.
pub proof fn lemma_writes_same(a: Seq<GpuView>, b: Seq<GpuView>, ids: Seq<Seq<char>>)
    requires
        same_but_holders(a, b),
    ensures
        forall|i: int, k: int| #[trigger] writes(a, ids, i, k) == writes(b, ids, i, k),
{
    assert forall|j: int| 0 <= j < ids.len() implies #[trigger] loc(a, ids[j]) == loc(b, ids[j]) by {
        lemma_loc_same(a, b, ids[j]);
    }
    assert forall|i: int, k: int| #[trigger] writes(a, ids, i, k) == writes(b, ids, i, k) by {
        if writes(a, ids, i, k) {
            let j = choose|j: int| 0 <= j < ids.len() && #[trigger] loc(a, ids[j]) == (i, k);
            assert(loc(b, ids[j]) == (i, k));
        }
        if writes(b, ids, i, k) {
            let j = choose|j: int| 0 <= j < ids.len() && #[trigger] loc(b, ids[j]) == (i, k);
            assert(loc(a, ids[j]) == (i, k));
        }
    }
}

} // verus!
