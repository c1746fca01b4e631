//! Fail-closed validation for the only supported GB10X production platform.
use crate::platform::{CpuCache, PlatformSnapshot};
use crate::text::{same_text, upper_contains, upper_contains_text};
use vstd::prelude::*;

verus! {

/// Platform-validation failure.
#[derive(Debug, PartialEq, Eq)]
pub enum PlatformError {
    /// Host architecture is not Linux AArch64 as required by GB10X.
    Architecture(String),
    /// GPU product identity does not identify a GB10 device.
    GpuIdentity(String),
    /// CUDA compute capability is not exactly 12.1.
    ComputeCapability {
        /// Discovered compute-capability major version.
        major: u32,
        /// Discovered compute-capability minor version.
        minor: u32,
    },
    /// A required discovered capacity/topology fact is missing or zero.
    Incomplete(&'static str),
}

/// Validated hardware facts retained for later cache/memory planning.
#[derive(Debug, PartialEq, Eq)]
pub struct Gb10Validation {
    /// Validated compute capability.
    pub compute_capability: (u32, u32),
    /// Discovered GPU L2 capacity; never replaced by a published constant.
    pub discovered_l2_bytes: u64,
    /// Discovered persisting-L2 limit.
    pub discovered_persisting_l2_max_bytes: u64,
    /// Discovered host physical-memory capacity.
    pub discovered_host_memory_bytes: u64,
    /// Number of online CPU IDs observed by Linux.
    pub online_cpu_count: usize,
    /// Number of de-duplicated cache objects observed by Linux.
    pub cache_object_count: usize,
}

impl Clone for Gb10Validation {
    fn clone(&self) -> (r: Self)
        ensures
            r == *self,
    {
        Gb10Validation {
            compute_capability: (self.compute_capability.0, self.compute_capability.1),
            discovered_l2_bytes: self.discovered_l2_bytes,
            discovered_persisting_l2_max_bytes: self.discovered_persisting_l2_max_bytes,
            discovered_host_memory_bytes: self.discovered_host_memory_bytes,
            online_cpu_count: self.online_cpu_count,
            cache_object_count: self.cache_object_count,
        }
    }
}

/// A cache entry with a zero size, a zero line size or no sharing CPU.
pub open spec fn cache_fact_missing(c: CpuCache) -> bool {
    c.size_bytes == 0 || c.line_bytes == 0 || c.shared_cpu_ids@.len() == 0
}

/// The reason the first failing completeness check gives, if any, in the order checked.
pub open spec fn incompleteness(s: PlatformSnapshot) -> Option<&'static str> {
    if s.online_cpus@.len() == 0 {
        Some("online CPU list is empty")
    } else if s.caches@.len() == 0 {
        Some("CPU cache topology is empty")
    } else if exists|i: int| 0 <= i < s.caches@.len() && cache_fact_missing(#[trigger] s.caches@[i]) {
        Some("CPU cache entry contains zero/empty facts")
    } else if s.mem_total_bytes == 0 {
        Some("host memory capacity is zero")
    } else if s.page_size_bytes == 0 {
        Some("base page size is zero")
    } else if s.gpu.l2_bytes == 0 {
        Some("GPU L2 capacity is zero")
    } else if s.gpu.total_memory_bytes == 0 {
        Some("GPU-visible memory capacity is zero")
    } else if s.gpu.persisting_l2_max_bytes > s.gpu.l2_bytes {
        Some("persisting-L2 limit exceeds total GPU L2 capacity")
    } else {
        None
    }
}

/// The facts retained from a snapshot that passed every check.
pub open spec fn validated(s: PlatformSnapshot) -> Gb10Validation {
    Gb10Validation {
        compute_capability: (12, 1),
        discovered_l2_bytes: s.gpu.l2_bytes,
        discovered_persisting_l2_max_bytes: s.gpu.persisting_l2_max_bytes,
        discovered_host_memory_bytes: s.mem_total_bytes,
        online_cpu_count: s.online_cpus@.len() as usize,
        cache_object_count: s.caches@.len() as usize,
    }
}

/// Whether some cache entry lacks a fact.
fn any_cache_fact_missing(caches: &Vec<CpuCache>) -> (r: bool)
    ensures
        r == exists|i: int| 0 <= i < caches@.len() && cache_fact_missing(#[trigger] caches@[i]),
{
    let mut i: usize = 0;
    while i < caches.len()
        invariant
            i <= caches@.len(),
            forall|j: int| 0 <= j < i ==> !cache_fact_missing(#[trigger] caches@[j]),
        decreases caches@.len() - i,
    {
        let c = &caches[i];
        if c.size_bytes == 0 || c.line_bytes == 0 || c.shared_cpu_ids.len() == 0 {
            assert(cache_fact_missing(caches@[i as int]));
            return true;
        }
        i += 1;
    }
    false
}

/// Validate that `snapshot` describes the one production platform supported by GB10X.
///
/// The validator checks discovered facts instead of substituting expected published
/// capacities. Exact cache sizes are consumed later by the cache planner.
pub fn validate_gb10(snapshot: &PlatformSnapshot) -> (r: Result<Gb10Validation, PlatformError>)
    ensures
        snapshot.arch@ != "aarch64"@ ==> r == Err::<Gb10Validation, PlatformError>(
            PlatformError::Architecture(snapshot.arch),
        ),
        snapshot.arch@ == "aarch64"@ && !upper_contains(snapshot.gpu.name@, "GB10"@) ==> r == Err::<
            Gb10Validation,
            PlatformError,
        >(PlatformError::GpuIdentity(snapshot.gpu.name)),
        snapshot.arch@ == "aarch64"@ && upper_contains(snapshot.gpu.name@, "GB10"@) ==> {
            if snapshot.gpu.compute_major != 12 || snapshot.gpu.compute_minor != 1 {
                r == Err::<Gb10Validation, PlatformError>(
                    PlatformError::ComputeCapability {
                        major: snapshot.gpu.compute_major,
                        minor: snapshot.gpu.compute_minor,
                    },
                )
            } else {
                match incompleteness(*snapshot) {
                    Some(reason) => r == Err::<Gb10Validation, PlatformError>(
                        PlatformError::Incomplete(reason),
                    ),
                    None => r == Ok::<Gb10Validation, PlatformError>(validated(*snapshot)),
                }
            }
        },
        r is Ok ==> {
            &&& snapshot.arch@ == "aarch64"@
            &&& upper_contains(snapshot.gpu.name@, "GB10"@)
            &&& snapshot.gpu.compute_major == 12 && snapshot.gpu.compute_minor == 1
            &&& snapshot.online_cpus@.len() > 0
            &&& snapshot.caches@.len() > 0
            &&& forall|i: int|
                0 <= i < snapshot.caches@.len() ==> (#[trigger] snapshot.caches@[i]).size_bytes != 0
                    && snapshot.caches@[i].line_bytes != 0 && snapshot.caches@[i].shared_cpu_ids@.len() > 0
            &&& snapshot.mem_total_bytes != 0
            &&& snapshot.page_size_bytes != 0
            &&& snapshot.gpu.l2_bytes != 0
            &&& snapshot.gpu.total_memory_bytes != 0
            &&& snapshot.gpu.persisting_l2_max_bytes <= snapshot.gpu.l2_bytes
            &&& r->Ok_0.compute_capability == (12u32, 1u32)
            &&& r->Ok_0.discovered_l2_bytes == snapshot.gpu.l2_bytes
            &&& r->Ok_0.discovered_persisting_l2_max_bytes == snapshot.gpu.persisting_l2_max_bytes
            &&& r->Ok_0.discovered_host_memory_bytes == snapshot.mem_total_bytes
            &&& r->Ok_0.online_cpu_count == snapshot.online_cpus@.len()
            &&& r->Ok_0.cache_object_count == snapshot.caches@.len()
        },
{
    if !same_text(snapshot.arch.as_str(), "aarch64") {
        return Err(PlatformError::Architecture(snapshot.arch.clone()));
    }
    if !upper_contains_text(snapshot.gpu.name.as_str(), "GB10") {
        return Err(PlatformError::GpuIdentity(snapshot.gpu.name.clone()));
    }
    if snapshot.gpu.compute_major != 12 || snapshot.gpu.compute_minor != 1 {
        return Err(
            PlatformError::ComputeCapability {
                major: snapshot.gpu.compute_major,
                minor: snapshot.gpu.compute_minor,
            },
        );
    }
    if snapshot.online_cpus.len() == 0 {
        return Err(PlatformError::Incomplete("online CPU list is empty"));
    }
    if snapshot.caches.len() == 0 {
        return Err(PlatformError::Incomplete("CPU cache topology is empty"));
    }
    if any_cache_fact_missing(&snapshot.caches) {
        return Err(PlatformError::Incomplete("CPU cache entry contains zero/empty facts"));
    }
    if snapshot.mem_total_bytes == 0 {
        return Err(PlatformError::Incomplete("host memory capacity is zero"));
    }
    if snapshot.page_size_bytes == 0 {
        return Err(PlatformError::Incomplete("base page size is zero"));
    }
    if snapshot.gpu.l2_bytes == 0 {
        return Err(PlatformError::Incomplete("GPU L2 capacity is zero"));
    }
    if snapshot.gpu.total_memory_bytes == 0 {
        return Err(PlatformError::Incomplete("GPU-visible memory capacity is zero"));
    }
    if snapshot.gpu.persisting_l2_max_bytes > snapshot.gpu.l2_bytes {
        return Err(PlatformError::Incomplete("persisting-L2 limit exceeds total GPU L2 capacity"));
    }
    Ok(
        Gb10Validation {
            compute_capability: (12, 1),
            discovered_l2_bytes: snapshot.gpu.l2_bytes,
            discovered_persisting_l2_max_bytes: snapshot.gpu.persisting_l2_max_bytes,
            discovered_host_memory_bytes: snapshot.mem_total_bytes,
            online_cpu_count: snapshot.online_cpus.len(),
            cache_object_count: snapshot.caches.len(),
        },
    )
}

/// An accepted platform always has a persisting-L2 limit within its L2 capacity and non-zero
/// discovered capacities.
pub proof fn law_accepted_platform_is_consistent(s: PlatformSnapshot)
    requires
        s.arch@ == "aarch64"@,
        upper_contains(s.gpu.name@, "GB10"@),
        s.gpu.compute_major == 12 && s.gpu.compute_minor == 1,
        incompleteness(s) is None,
    ensures
        validated(s).discovered_persisting_l2_max_bytes <= validated(s).discovered_l2_bytes,
        validated(s).discovered_l2_bytes > 0,
        validated(s).discovered_host_memory_bytes > 0,
        validated(s).compute_capability == (12u32, 1u32),
{
}

} // verus!
