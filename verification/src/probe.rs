//! GPU facts of the platform snapshot, taken from validated CUDA device facts.
use crate::device::CudaDeviceInfo;
use crate::platform::GpuSnapshot;
use vstd::prelude::*;

verus! {

/// Convert validated CUDA device facts into the platform GPU snapshot without inventing or
/// normalizing any discovered capacity.
pub fn gpu_snapshot_from_cuda(device: &CudaDeviceInfo) -> (r: GpuSnapshot)
    ensures
        r.name@ == device.name@,
        r.compute_major == device.compute_capability.0,
        r.compute_minor == device.compute_capability.1,
        r.l2_bytes == device.l2_bytes,
        r.persisting_l2_max_bytes == device.persisting_l2_max_bytes,
        r.total_memory_bytes == device.total_memory_bytes,
{
    GpuSnapshot {
        name: device.name.clone(),
        compute_major: device.compute_capability.0,
        compute_minor: device.compute_capability.1,
        l2_bytes: device.l2_bytes,
        persisting_l2_max_bytes: device.persisting_l2_max_bytes,
        total_memory_bytes: device.total_memory_bytes,
    }
}

} // verus!
