//! Records exchanged with the CUDA library and the status codes it returns.
use vstd::prelude::*;

verus! {

/// Status value returned by the CUDA library.
pub type CudaStatus = u32;

/// Version of the fixed CUDA ABI contract.
pub const CUDA_ABI_VERSION: u32 = 1;

/// Successful CUDA ABI operation.
pub const CUDA_STATUS_OK: CudaStatus = 0;

/// Caller and CUDA library disagree about a record layout.
pub const CUDA_STATUS_ABI_MISMATCH: CudaStatus = 1;

/// Caller supplied an invalid argument.
pub const CUDA_STATUS_INVALID_ARGUMENT: CudaStatus = 2;

/// A CUDA runtime query failed.
pub const CUDA_STATUS_CUDA_RUNTIME_FAILURE: CudaStatus = 3;

/// The CUDA library encountered an internal invariant violation.
pub const CUDA_STATUS_INTERNAL_FAILURE: CudaStatus = 4;

/// Encoding used by ABI v1 for the architecture-specific `a` SM variant.
pub const CUDA_TARGET_SM_VARIANT_A: u32 = 1;

/// Build facts reported by the CUDA library.
#[derive(Clone, Copy, Debug, PartialEq, Eq)]
pub struct CudaAbiInfo {
    /// Caller-provided record size in bytes.
    pub struct_size: u32,
    /// ABI version implemented by the CUDA library.
    pub abi_version: u32,
    /// CUDA SM target major version compiled into the library.
    pub target_sm_major: u32,
    /// CUDA SM target minor version compiled into the library.
    pub target_sm_minor: u32,
    /// CUDA SM target variant compiled into the library.
    pub target_sm_variant: u32,
    /// CUDA runtime header version used to compile the library.
    pub cuda_runtime_header_version: u32,
    /// CUDA runtime version loaded by the library.
    pub cuda_runtime_loaded_version: u32,
    /// Reserved and zero on successful ABI v1 calls.
    pub reserved0: u32,
}

impl CudaAbiInfo {
    /// An output record initialized for an ABI v1 call: its own size, every other field zero.
    pub fn new() -> (r: Self)
        ensures
            r.struct_size == vstd::layout::size_of::<CudaAbiInfo>() as u32,
            r.abi_version == 0 && r.target_sm_major == 0 && r.target_sm_minor == 0,
            r.target_sm_variant == 0 && r.cuda_runtime_header_version == 0,
            r.cuda_runtime_loaded_version == 0 && r.reserved0 == 0,
    {
        let size = core::mem::size_of::<CudaAbiInfo>();
        Self {
            struct_size: size as u32,
            abi_version: 0,
            target_sm_major: 0,
            target_sm_minor: 0,
            target_sm_variant: 0,
            cuda_runtime_header_version: 0,
            cuda_runtime_loaded_version: 0,
            reserved0: 0,
        }
    }
}

impl Default for CudaAbiInfo {
    fn default() -> (r: Self)
        ensures
            r.struct_size == vstd::layout::size_of::<CudaAbiInfo>() as u32,
            r.abi_version == 0 && r.reserved0 == 0,
    {
        Self::new()
    }
}

/// CUDA device facts reported by the CUDA library.
#[derive(Clone, Copy, Debug, PartialEq, Eq)]
pub struct CudaDeviceInfo {
    /// Caller-provided record size in bytes.
    pub struct_size: u32,
    /// CUDA device ordinal queried.
    pub device_ordinal: u32,
    /// Device compute-capability major version.
    pub compute_major: u32,
    /// Device compute-capability minor version.
    pub compute_minor: u32,
    /// Device global-memory capacity in bytes.
    pub total_global_memory_bytes: u64,
    /// Device L2-cache capacity in bytes.
    pub l2_cache_bytes: u64,
    /// Device maximum persisting-L2 allocation in bytes.
    pub persisting_l2_max_bytes: u64,
    /// NUL-terminated CUDA device name encoded as bytes.
    pub name: [u8; 256],
}

impl CudaDeviceInfo {
    /// An output record initialized for an ABI v1 call: its own size, every other field zero.
    pub fn new() -> (r: Self)
        ensures
            r.struct_size == vstd::layout::size_of::<CudaDeviceInfo>() as u32,
            r.device_ordinal == 0 && r.compute_major == 0 && r.compute_minor == 0,
            r.total_global_memory_bytes == 0 && r.l2_cache_bytes == 0 && r.persisting_l2_max_bytes == 0,
            forall|i: int| 0 <= i < 256 ==> r.name@[i] == 0,
    {
        let size = core::mem::size_of::<CudaDeviceInfo>();
        Self {
            struct_size: size as u32,
            device_ordinal: 0,
            compute_major: 0,
            compute_minor: 0,
            total_global_memory_bytes: 0,
            l2_cache_bytes: 0,
            persisting_l2_max_bytes: 0,
            name: [0u8; 256],
        }
    }
}

impl Default for CudaDeviceInfo {
    fn default() -> (r: Self)
        ensures
            r.struct_size == vstd::layout::size_of::<CudaDeviceInfo>() as u32,
            r.device_ordinal == 0,
    {
        Self::new()
    }
}

} // verus!
