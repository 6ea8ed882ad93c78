//! Multi-Instance GPU (MIG) partition and reconfiguration model.

use vstd::prelude::*;

use crate::error::SimError;
use crate::model::{count_free_slices, lemma_count_free_slices_le, Gpu, GpuView, MigSlice};
use crate::strmap::StrMap;
use crate::text::{decimal, lemma_decimal_injective, push_decimal, push_str};

verus! {

/// Size and packing limit of one MIG profile.
#[derive(Debug, Clone, Copy, PartialEq, Eq, Structural)]
pub struct MigProfileSpec {
    pub memory_gb: u64,
    pub max_per_gpu: u32,
}

/// MIG profiles offered by one hardware model.
#[derive(Debug, Clone)]
pub struct MigHardwareConfig {
    pub hardware: String,
    pub reconfig_seconds: u64,
    pub profiles: StrMap<MigProfileSpec>,
}

/// Seconds a MIG reconfiguration takes when a configuration does not say.
pub fn default_reconfig_seconds() -> (r: u64)
    ensures
        r == 30,
{
    30
}

/// Lookup table of MIG profiles by name.
#[derive(Debug, Clone)]
pub struct MigProfileRegistry {
    pub reconfig_seconds: u64,
    pub profiles: StrMap<MigProfileSpec>,
}

impl MigProfileRegistry {
    pub fn from_config(config: MigHardwareConfig) -> (r: MigProfileRegistry)
        ensures
            r.reconfig_seconds == config.reconfig_seconds,
            r.profiles == config.profiles,
    {
        MigProfileRegistry { reconfig_seconds: config.reconfig_seconds, profiles: config.profiles }
    }

    /// The spec of profile `name`, or a configuration error naming it.
    pub fn profile(&self, name: &String) -> (r: Result<MigProfileSpec, SimError>)
        ensures
            r matches Ok(spec) ==> self.profiles.lookup(name@) == Some(spec),
            r is Err <==> self.profiles.lookup(name@) is None,
            r matches Err(e) ==> e matches SimError::Config(m) && m@ == "unknown MIG profile '"@ + name@
                + "'"@,
    {
        match self.profiles.get(name) {
            Some(spec) => Ok(*spec),
            None => {
                let mut m = String::new();
                push_str(&mut m, "unknown MIG profile '");
                push_str(&mut m, name.as_str());
                push_str(&mut m, "'");
                Err(SimError::Config(m))
            },
        }
    }
}

/// How a GPU is currently laid out.
#[derive(Debug, Clone, PartialEq, Eq)]
pub enum GpuMigMode {
    WholeGpu,
    Partitioned(String),
}

impl Gpu {
    /// Whole when not MIG-capable or not partitioned; otherwise partitioned into
    /// the active profile (empty when none is recorded).
    pub fn mig_mode(&self) -> (m: GpuMigMode)
        ensures
            (!self.mig_capable || self.slices@.len() == 0) ==> m == GpuMigMode::WholeGpu,
            (self.mig_capable && self.slices@.len() > 0) ==> (m matches GpuMigMode::Partitioned(p) && (
            match self.active_mig_profile {
                Some(a) => p@ == a@,
                None => p@ == Seq::<char>::empty(),
            })),
    {
        if !self.mig_capable || self.slices.len() == 0 {
            GpuMigMode::WholeGpu
        } else {
            match &self.active_mig_profile {
                Some(a) => GpuMigMode::Partitioned(a.clone()),
                None => GpuMigMode::Partitioned(String::new()),
            }
        }
    }

    pub fn is_whole_gpu_free(&self) -> (r: bool)
        ensures
            r == self@.whole_free(),
    {
        self.running_job_id.is_none() && self.slices.len() == 0
    }

    pub fn is_fully_idle(&self) -> (r: bool)
        ensures
            r == self@.fully_idle(),
    {
        if !self.mig_capable {
            return self.is_free();
        }
        if self.slices.len() > 0 {
            let mut k: usize = 0;
            while k < self.slices.len()
                invariant
                    self.mig_capable,
                    self.slices@.len() > 0,
                    k <= self.slices@.len(),
                    forall|q: int| 0 <= q < k ==> (#[trigger] self.slices@[q]).running_job_id is None,
                decreases self.slices.len() - k,
            {
                if self.slices[k].running_job_id.is_some() {
                    assert(self@.slices[k as int].running_job_id is Some);
                    return false;
                }
                k = k + 1;
            }
            return true;
        }
        self.running_job_id.is_none()
    }

    pub fn free_mig_slice_count(&self, profile: &String) -> (n: u32)
        requires
            self.slices@.len() <= u32::MAX,
        ensures
            n == self@.free_slices(profile@),
    {
        let mut n: u32 = 0;
        let mut k: usize = 0;
        while k < self.slices.len()
            invariant
                self.slices@.len() <= u32::MAX,
                k <= self.slices@.len(),
                n == count_free_slices(self.slices@.take(k as int), profile@),
                n <= k,
            decreases self.slices.len() - k,
        {
            proof {
                assert(self.slices@.take(k as int + 1).drop_last() == self.slices@.take(k as int));
            }
            if self.slices[k].profile == *profile && self.slices[k].running_job_id.is_none() {
                n = n + 1;
            }
            k = k + 1;
        }
        proof {
            assert(self.slices@.take(k as int) == self.slices@);
        }
        n
    }
}


/// Identifier of slice `k` of GPU `gpu_id`.
pub open spec fn slice_id(gpu_id: Seq<char>, k: nat) -> Seq<char> {
    gpu_id + "-mig-"@ + decimal(k)
}

/// Slices of one GPU numbered differently have different ids.
pub proof fn lemma_slice_id_injective(gpu_id: Seq<char>, a: nat, b: nat)
    requires
        slice_id(gpu_id, a) == slice_id(gpu_id, b),
    ensures
        a == b,
{
    let pre = gpu_id + "-mig-"@;
    assert(slice_id(gpu_id, a) == pre + decimal(a));
    assert(slice_id(gpu_id, b) == pre + decimal(b));
    assert((pre + decimal(a)).skip(pre.len() as int) == decimal(a));
    assert((pre + decimal(b)).skip(pre.len() as int) == decimal(b));
    lemma_decimal_injective(a, b);
}

/// `new` is `old` partitioned into `count` free slices of profile `p` with `memory_gb` each.
pub open spec fn is_layout(old: GpuView, new: GpuView, p: Seq<char>, count: nat, memory_gb: u64) -> bool {
    &&& new.id == old.id
    &&& new.node_id == old.node_id
    &&& new.profile == old.profile
    &&& new.memory_gb == old.memory_gb
    &&& new.nvlink_group == old.nvlink_group
    &&& new.mig_capable == old.mig_capable
    &&& new.running_job_id is None
    &&& new.active_mig_profile matches Some(a) && a@ == p
    &&& new.slices.len() == count
    &&& forall|k: int|
        0 <= k < count ==> {
            &&& (#[trigger] new.slices[k]).id@ == slice_id(old.id@, k as nat)
            &&& new.slices[k].profile@ == p
            &&& new.slices[k].memory_gb == memory_gb
            &&& new.slices[k].running_job_id is None
        }
}

/// Repartitions `gpu` into `count` free slices of `profile`.
pub fn apply_mig_layout(gpu: &mut Gpu, profile: &String, count: u32, spec: &MigProfileSpec)
    ensures
        is_layout(old(gpu)@, final(gpu)@, profile@, count as nat, spec.memory_gb),
{
    gpu.running_job_id = None;
    gpu.slices.clear();
    gpu.active_mig_profile = Some(profile.clone());
    let mut i: u32 = 0;
    while i < count
        invariant
            i <= count,
            gpu.id == old(gpu).id,
            gpu.slices@.len() == i,
            forall|k: int|
                0 <= k < i ==> {
                    &&& (#[trigger] gpu.slices@[k]).id@ == slice_id(old(gpu).id@, k as nat)
                    &&& gpu.slices@[k].profile@ == profile@
                    &&& gpu.slices@[k].memory_gb == spec.memory_gb
                    &&& gpu.slices@[k].running_job_id is None
                },
            gpu.node_id == old(gpu).node_id,
            gpu.profile == old(gpu).profile,
            gpu.memory_gb == old(gpu).memory_gb,
            gpu.nvlink_group == old(gpu).nvlink_group,
            gpu.mig_capable == old(gpu).mig_capable,
            gpu.running_job_id is None,
            gpu.active_mig_profile matches Some(a) && a@ == profile@,
        decreases count - i,
    {
        let mut id = gpu.id.clone();
        push_str(&mut id, "-mig-");
        push_decimal(&mut id, i as u64);
        gpu.slices.push(MigSlice {
            id,
            profile: profile.clone(),
            memory_gb: spec.memory_gb,
            running_job_id: None,
        });
        i = i + 1;
    }
}

/// Returns `gpu` to whole-GPU mode with nothing running.
pub fn reset_gpu_to_whole(gpu: &mut Gpu)
    ensures
        final(gpu)@ == (GpuView {
            slices: Seq::empty(),
            active_mig_profile: None,
            running_job_id: None,
            ..old(gpu)@
        }),
{
    gpu.slices.clear();
    gpu.active_mig_profile = None;
    gpu.running_job_id = None;
}

/// Outcome of asking to partition `g` into `count` slices of `p`.
pub enum ReconfigureCheck {
    NotMigCapable,
    Busy,
    UnknownProfile,
    TooManySlices,
    Allowed,
}

pub open spec fn reconfigure_check(g: GpuView, p: Seq<char>, count: u32, reg: MigProfileRegistry) -> ReconfigureCheck {
    if !g.mig_capable {
        ReconfigureCheck::NotMigCapable
    } else if !g.fully_idle() {
        ReconfigureCheck::Busy
    } else if reg.profiles.lookup(p) is None {
        ReconfigureCheck::UnknownProfile
    } else if count > reg.profiles.lookup(p).unwrap().max_per_gpu {
        ReconfigureCheck::TooManySlices
    } else {
        ReconfigureCheck::Allowed
    }
}

/// Partitions an idle MIG-capable `gpu` into `count` slices of `profile`.
/// Fails, leaving the GPU unchanged, when the GPU is not MIG-capable, is busy,
/// the profile is unknown, or `count` exceeds the profile's per-GPU limit.
pub fn reconfigure_gpu(gpu: &mut Gpu, profile: &String, count: u32, registry: &MigProfileRegistry) -> (r: Result<(), SimError>)
    ensures
        r is Ok <==> reconfigure_check(old(gpu)@, profile@, count, *registry) is Allowed,
        r is Ok ==> is_layout(
            old(gpu)@,
            final(gpu)@,
            profile@,
            count as nat,
            registry.profiles.lookup(profile@).unwrap().memory_gb,
        ),
        r is Err ==> final(gpu)@ == old(gpu)@,
        r matches Err(e) ==> e is Config,
{
    if !gpu.mig_capable {
        let mut m = String::from_str("gpu '");
        push_str(&mut m, gpu.id.as_str());
        push_str(&mut m, "' is not MIG-capable");
        return Err(SimError::Config(m));
    }
    if !gpu.is_fully_idle() {
        let mut m = String::from_str("gpu '");
        push_str(&mut m, gpu.id.as_str());
        push_str(&mut m, "' is busy; cannot reconfigure MIG layout");
        return Err(SimError::Config(m));
    }
    let spec = match registry.profile(profile) {
        Ok(s) => s,
        Err(e) => return Err(e),
    };
    if count > spec.max_per_gpu {
        let mut m = String::from_str("profile '");
        push_str(&mut m, profile.as_str());
        push_str(&mut m, "' allows at most ");
        push_decimal(&mut m, spec.max_per_gpu as u64);
        push_str(&mut m, " slices per gpu, requested ");
        push_decimal(&mut m, count as u64);
        return Err(SimError::Config(m));
    }
    apply_mig_layout(gpu, profile, count, &spec);
    Ok(())
}

/// A GPU that can host `needed` slices of `p` without disturbing running work.
pub open spec fn reconfigurable(g: GpuView, p: Seq<char>, needed: u32, spec: MigProfileSpec) -> bool {
    &&& g.mig_capable
    &&& g.fully_idle()
    &&& (g.free_slices(p) >= needed || (needed <= spec.max_per_gpu && (g.slices.len() == 0
        || active_name(g) != p)))
}

/// Name of the active MIG profile, empty when none is recorded.
pub open spec fn active_name(g: GpuView) -> Seq<char> {
    match g.active_mig_profile {
        Some(a) => a@,
        None => Seq::empty(),
    }
}

/// First GPU that is MIG-capable, idle, and either already offers `needed` free
/// slices of `profile` or may be repartitioned into them; `None` when the profile
/// is unknown.
pub fn find_reconfigurable_gpu<'a>(
    gpus: &'a Vec<Gpu>,
    profile: &String,
    needed: u32,
    registry: &MigProfileRegistry,
) -> (r: Option<&'a Gpu>)
    requires
        forall|k: int| 0 <= k < gpus@.len() ==> (#[trigger] gpus@[k]).slices@.len() <= u32::MAX,
    ensures
        registry.profiles.lookup(profile@) is None ==> r is None,
        registry.profiles.lookup(profile@) matches Some(spec) ==> match r {
            Some(g) => exists|k: int|
                0 <= k < gpus@.len() && gpus@[k] == *g && reconfigurable(gpus@[k]@, profile@, needed, spec)
                    && forall|q: int| 0 <= q < k ==> !reconfigurable(#[trigger] gpus@[q]@, profile@, needed, spec),
            None => forall|q: int| 0 <= q < gpus@.len() ==> !reconfigurable(#[trigger] gpus@[q]@, profile@, needed, spec),
        },
{
    let spec = match registry.profile(profile) {
        Ok(s) => s,
        Err(_) => return None,
    };
    let mut k: usize = 0;
    while k < gpus.len()
        invariant
            k <= gpus@.len(),
            registry.profiles.lookup(profile@) == Some(spec),
            forall|j: int| 0 <= j < gpus@.len() ==> (#[trigger] gpus@[j]).slices@.len() <= u32::MAX,
            forall|q: int| 0 <= q < k ==> !reconfigurable(#[trigger] gpus@[q]@, profile@, needed, spec),
        decreases gpus.len() - k,
    {
        let g = &gpus[k];
        if g.mig_capable && g.is_fully_idle() {
            let ok = if g.free_mig_slice_count(profile) >= needed {
                true
            } else if needed > spec.max_per_gpu {
                false
            } else {
                match g.mig_mode() {
                    GpuMigMode::WholeGpu => true,
                    GpuMigMode::Partitioned(active) => !(active == *profile),
                }
            };
            assert(ok == reconfigurable(gpus@[k as int]@, profile@, needed, spec));
            if ok {
                return Some(g);
            }
        }
        assert(!reconfigurable(gpus@[k as int]@, profile@, needed, spec));
        k = k + 1;
    }
    None
}

} // verus!
