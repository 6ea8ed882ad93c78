use zyvor_janus::mig::{reconfigure_gpu, reset_gpu_to_whole, GpuMigMode, MigHardwareConfig, MigProfileRegistry, MigProfileSpec};
use zyvor_janus::model::Gpu;
use zyvor_janus::strmap::StrMap;

fn registry() -> MigProfileRegistry {
    let mut profiles = StrMap::new();
    profiles.insert("1g.10gb".to_string(), MigProfileSpec { memory_gb: 10, max_per_gpu: 7 });
    profiles.insert("7g.80gb".to_string(), MigProfileSpec { memory_gb: 80, max_per_gpu: 1 });
    MigProfileRegistry::from_config(MigHardwareConfig { hardware: "H100_80GB".into(), reconfig_seconds: 30, profiles })
}

fn mig_gpu(id: &str) -> Gpu {
    Gpu {
        id: id.into(),
        node_id: "node-0".into(),
        profile: "H100_80GB".into(),
        memory_gb: 80,
        nvlink_group: None,
        running_job_id: None,
        mig_capable: true,
        active_mig_profile: None,
        slices: Vec::new(),
    }
}

#[test]
fn reconfigure_creates_slices() {
    let reg = registry();
    let mut gpu = mig_gpu("gpu-0");
    reconfigure_gpu(&mut gpu, &"1g.10gb".to_string(), 3, &reg).unwrap();
    assert_eq!(gpu.slices.len(), 3);
    assert_eq!(gpu.slices[0].profile, "1g.10gb");
}

#[test]
fn rejects_over_max_slices() {
    let reg = registry();
    let mut gpu = mig_gpu("gpu-0");
    assert!(reconfigure_gpu(&mut gpu, &"1g.10gb".to_string(), 8, &reg).is_err());
}

#[test]
fn unknown_profile_is_rejected() {
    let reg = registry();
    assert!(reg.profile(&"3g.40gb".to_string()).is_err());
    assert_eq!(reg.profile(&"7g.80gb".to_string()).unwrap().max_per_gpu, 1);
}

#[test]
fn reset_returns_gpu_to_whole_mode() {
    let reg = registry();
    let mut gpu = mig_gpu("gpu-0");
    reconfigure_gpu(&mut gpu, &"1g.10gb".to_string(), 2, &reg).unwrap();
    assert_eq!(gpu.free_mig_slice_count(&"1g.10gb".to_string()), 2);
    assert!(!gpu.is_whole_gpu_free());
    reset_gpu_to_whole(&mut gpu);
    assert!(gpu.is_whole_gpu_free());
    assert!(matches!(gpu.mig_mode(), GpuMigMode::WholeGpu));
}
