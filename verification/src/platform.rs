//! Discovered host and GPU facts shared by probing, validation and cache planning.
use vstd::prelude::*;
use vstd::string::StringExecFns;

verus! {

/// Linux cache type reported by sysfs.
#[derive(Clone, Copy, Debug, PartialEq, Eq, Structural)]
pub enum CacheType {
    /// Data-only cache.
    Data,
    /// Instruction-only cache.
    Instruction,
    /// Unified instruction/data cache.
    Unified,
}

/// One physical CPU cache object.
#[derive(Clone, Debug, PartialEq, Eq)]
pub struct CpuCache {
    /// Cache level (1, 2, 3, ...).
    pub level: u8,
    /// Cache type.
    pub cache_type: CacheType,
    /// Capacity in bytes.
    pub size_bytes: u64,
    /// Coherency line size in bytes.
    pub line_bytes: u32,
    /// Sorted, de-duplicated Linux CPU IDs sharing this cache.
    pub shared_cpu_ids: Vec<u32>,
}

/// GPU facts discovered by the CUDA device probe.
#[derive(Clone, Debug, PartialEq, Eq)]
pub struct GpuSnapshot {
    /// Runtime-reported device name.
    pub name: String,
    /// Compute-capability major component.
    pub compute_major: u32,
    /// Compute-capability minor component.
    pub compute_minor: u32,
    /// GPU L2 capacity in bytes.
    pub l2_bytes: u64,
    /// Persisting-L2 maximum in bytes (zero when unavailable).
    pub persisting_l2_max_bytes: u64,
    /// Device-visible memory capacity in bytes.
    pub total_memory_bytes: u64,
}

/// Complete host plus GPU platform snapshot validated before GB10X runs.
#[derive(Clone, Debug, PartialEq, Eq)]
pub struct PlatformSnapshot {
    /// Rust/Linux architecture string.
    pub arch: String,
    /// Linux kernel release string.
    pub kernel_release: String,
    /// CPU model description.
    pub cpu_model: String,
    /// Online Linux CPU IDs.
    pub online_cpus: Vec<u32>,
    /// De-duplicated physical CPU cache objects.
    pub caches: Vec<CpuCache>,
    /// GPU facts.
    pub gpu: GpuSnapshot,
    /// Host physical memory in bytes.
    pub mem_total_bytes: u64,
    /// Base page size in bytes.
    pub page_size_bytes: u64,
}

impl PlatformSnapshot {
    /// A synthetic GB10-shaped snapshot used by host-independent tests.
    pub fn gb10_test_fixture() -> (r: Self)
        ensures
            r.arch@ == "aarch64"@,
            r.kernel_release@ == "6.11.0-gb10x-test"@,
            r.cpu_model@ == "NVIDIA Grace Blackwell GB10"@,
            r.online_cpus@ == seq![0u32, 1, 2, 3],
            r.caches@.len() == 2,
            r.caches@[0].level == 2,
            r.caches@[0].cache_type == CacheType::Unified,
            r.caches@[0].size_bytes == 2 * 1024 * 1024,
            r.caches@[0].line_bytes == 64,
            r.caches@[0].shared_cpu_ids@ == seq![0u32],
            r.caches@[1].level == 3,
            r.caches@[1].cache_type == CacheType::Unified,
            r.caches@[1].size_bytes == 16 * 1024 * 1024,
            r.caches@[1].line_bytes == 64,
            r.caches@[1].shared_cpu_ids@ == seq![0u32, 1, 2, 3],
            r.gpu.name@ == "NVIDIA GB10"@,
            r.gpu.compute_major == 12,
            r.gpu.compute_minor == 1,
            r.gpu.l2_bytes == 24 * 1024 * 1024,
            r.gpu.persisting_l2_max_bytes == 18 * 1024 * 1024,
            r.gpu.total_memory_bytes == 128 * 1024 * 1024 * 1024,
            r.mem_total_bytes == 128 * 1024 * 1024 * 1024,
            r.page_size_bytes == 4096,
    {
        let l2 = CpuCache {
            level: 2,
            cache_type: CacheType::Unified,
            size_bytes: 2 * 1024 * 1024,
            line_bytes: 64,
            shared_cpu_ids: vec![0u32],
        };
        let l3 = CpuCache {
            level: 3,
            cache_type: CacheType::Unified,
            size_bytes: 16 * 1024 * 1024,
            line_bytes: 64,
            shared_cpu_ids: vec![0u32, 1, 2, 3],
        };
        let r = PlatformSnapshot {
            arch: String::from_str("aarch64"),
            kernel_release: String::from_str("6.11.0-gb10x-test"),
            cpu_model: String::from_str("NVIDIA Grace Blackwell GB10"),
            online_cpus: vec![0u32, 1, 2, 3],
            caches: vec![l2, l3],
            gpu: GpuSnapshot {
                name: String::from_str("NVIDIA GB10"),
                compute_major: 12,
                compute_minor: 1,
                l2_bytes: 24 * 1024 * 1024,
                persisting_l2_max_bytes: 18 * 1024 * 1024,
                total_memory_bytes: 128 * 1024 * 1024 * 1024,
            },
            mem_total_bytes: 128 * 1024 * 1024 * 1024,
            page_size_bytes: 4096,
        };
        r
    }
}

} // verus!
