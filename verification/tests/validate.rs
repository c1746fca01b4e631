use gb10x::validate::{validate_gb10, PlatformError};
use gb10x::PlatformSnapshot;

#[test]
fn rejects_x86_even_if_gpu_claims_sm121() {
    let mut p = PlatformSnapshot::gb10_test_fixture();
    p.arch = "x86_64".into();
    assert!(matches!(validate_gb10(&p), Err(PlatformError::Architecture(_))));
}

#[test]
fn rejects_non_121_compute_capability() {
    let mut p = PlatformSnapshot::gb10_test_fixture();
    p.gpu.compute_major = 12;
    p.gpu.compute_minor = 0;
    assert!(matches!(validate_gb10(&p), Err(PlatformError::ComputeCapability { .. })));
}

#[test]
fn accepts_exact_gb10_fixture() {
    let p = PlatformSnapshot::gb10_test_fixture();
    let result = validate_gb10(&p).expect("GB10 fixture must validate");
    assert_eq!(result.compute_capability, (12, 1));
    assert!(result.discovered_l2_bytes > 0);
}

#[test]
fn rejects_impossible_persisting_l2_capacity() {
    let mut p = PlatformSnapshot::gb10_test_fixture();
    p.gpu.persisting_l2_max_bytes = p.gpu.l2_bytes + 1;
    assert_eq!(
        validate_gb10(&p),
        Err(PlatformError::Incomplete("persisting-L2 limit exceeds total GPU L2 capacity"))
    );
}

#[test]
fn accepted_fixture_reports_every_discovered_fact() {
    let p = PlatformSnapshot::gb10_test_fixture();
    let v = validate_gb10(&p).unwrap();
    assert_eq!(v.discovered_l2_bytes, p.gpu.l2_bytes);
    assert_eq!(v.discovered_persisting_l2_max_bytes, p.gpu.persisting_l2_max_bytes);
    assert_eq!(v.discovered_host_memory_bytes, p.mem_total_bytes);
    assert_eq!(v.online_cpu_count, p.online_cpus.len());
    assert_eq!(v.cache_object_count, p.caches.len());
}

#[test]
fn non_gb10_gpu_name_is_rejected() {
    let mut p = PlatformSnapshot::gb10_test_fixture();
    p.gpu.name = "NVIDIA H100".into();
    assert!(matches!(validate_gb10(&p), Err(PlatformError::GpuIdentity(_))));
}

#[test]
fn missing_discovered_facts_are_incomplete() {
    let mut p = PlatformSnapshot::gb10_test_fixture();
    p.online_cpus.clear();
    assert!(matches!(validate_gb10(&p), Err(PlatformError::Incomplete(_))));
    let mut p = PlatformSnapshot::gb10_test_fixture();
    p.gpu.l2_bytes = 0;
    p.gpu.persisting_l2_max_bytes = 0;
    assert!(matches!(validate_gb10(&p), Err(PlatformError::Incomplete(_))));
}
