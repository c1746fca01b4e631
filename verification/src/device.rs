//! Device facts reported by the CUDA runtime and fail-closed GB10 validation.
use crate::text::{all_white_space, is_blank};
use vstd::prelude::*;
use vstd::utf8::{decode_utf8, valid_utf8};

verus! {

/// Version of the raw CUDA device-info record.
pub const CUDA_DEVICE_INFO_ABI_V1: u32 = 1;

/// Fixed byte capacity reserved for the NUL-terminated CUDA device name.
pub const CUDA_DEVICE_NAME_BYTES: usize = 256;

/// Raw device properties as the CUDA side reports them, before any validation.
#[derive(Clone, Copy, Debug, PartialEq, Eq)]
pub struct CudaDeviceInfoRawV1 {
    /// Record version; must equal [`CUDA_DEVICE_INFO_ABI_V1`].
    pub abi_version: u32,
    /// CUDA device ordinal used for the probe.
    pub device_ordinal: i32,
    /// CUDA compute-capability major component.
    pub compute_major: u32,
    /// CUDA compute-capability minor component.
    pub compute_minor: u32,
    /// CUDA-reported total device-visible memory in bytes.
    pub total_memory_bytes: u64,
    /// CUDA-reported L2 cache capacity in bytes.
    pub l2_bytes: u64,
    /// Maximum persisting-L2 capacity reported by the runtime, or zero when unavailable.
    pub persisting_l2_max_bytes: u64,
    /// Number of streaming multiprocessors reported by CUDA.
    pub sm_count: u32,
    /// CUDA warp size.
    pub warp_size: u32,
    /// NUL-terminated UTF-8 CUDA device name.
    pub name: [u8; CUDA_DEVICE_NAME_BYTES],
}

/// Validated CUDA properties accepted by the GB10X native layer.
#[derive(Debug, PartialEq, Eq)]
pub struct CudaDeviceInfo {
    /// CUDA device ordinal.
    pub device_ordinal: i32,
    /// Exact CUDA compute capability.
    pub compute_capability: (u32, u32),
    /// Runtime-reported UTF-8 device name.
    pub name: String,
    /// Runtime-reported device-visible memory capacity.
    pub total_memory_bytes: u64,
    /// Runtime-reported GPU L2 capacity.
    pub l2_bytes: u64,
    /// Runtime-reported persisting-L2 maximum; zero means unavailable/unsupported.
    pub persisting_l2_max_bytes: u64,
    /// Runtime-reported SM count.
    pub sm_count: u32,
    /// Runtime-reported warp size.
    pub warp_size: u32,
}

impl Clone for CudaDeviceInfo {
    fn clone(&self) -> (r: Self)
        ensures
            r == *self,
    {
        CudaDeviceInfo {
            device_ordinal: self.device_ordinal,
            compute_capability: (self.compute_capability.0, self.compute_capability.1),
            name: self.name.clone(),
            total_memory_bytes: self.total_memory_bytes,
            l2_bytes: self.l2_bytes,
            persisting_l2_max_bytes: self.persisting_l2_max_bytes,
            sm_count: self.sm_count,
            warp_size: self.warp_size,
        }
    }
}

/// Failure while converting raw CUDA facts into a GB10X device contract.
#[derive(Clone, Debug, PartialEq, Eq)]
pub enum CudaDeviceInfoError {
    /// Raw record version is not supported.
    AbiVersion {
        /// Version received.
        found: u32,
    },
    /// Device ordinal is invalid.
    DeviceOrdinal(i32),
    /// Compute capability is not the GB10 target 12.1.
    ComputeCapability {
        /// Discovered major component.
        major: u32,
        /// Discovered minor component.
        minor: u32,
    },
    /// Required runtime geometry was zero.
    ZeroGeometry(&'static str),
    /// Persisting-L2 capacity cannot exceed total L2 capacity.
    PersistingL2ExceedsL2 {
        /// Runtime-reported persisting-L2 maximum.
        persisting_l2_max_bytes: u64,
        /// Runtime-reported total L2 capacity.
        l2_bytes: u64,
    },
    /// Fixed name buffer contained no NUL terminator.
    DeviceNameNotTerminated,
    /// Device-name bytes before the NUL terminator were not valid UTF-8.
    DeviceNameUtf8,
    /// Device name was empty or whitespace-only.
    DeviceNameEmpty,
}

/// Index of the first NUL byte of `name`.
pub open spec fn nul_position(name: Seq<u8>) -> Option<int> {
    if exists|i: int| 0 <= i < name.len() && name[i] == 0 {
        Some(choose|i: int| 0 <= i < name.len() && name[i] == 0 && forall|j: int| 0 <= j < i ==> name[j] != 0)
    } else {
        None
    }
}

/// The first failing geometry check of `raw`, if any, in the order checked.
pub open spec fn geometry_error(raw: CudaDeviceInfoRawV1) -> Option<CudaDeviceInfoError> {
    if raw.total_memory_bytes == 0 {
        Some(CudaDeviceInfoError::ZeroGeometry("total_memory_bytes"))
    } else if raw.l2_bytes == 0 {
        Some(CudaDeviceInfoError::ZeroGeometry("l2_bytes"))
    } else if raw.sm_count == 0 {
        Some(CudaDeviceInfoError::ZeroGeometry("sm_count"))
    } else if raw.warp_size == 0 {
        Some(CudaDeviceInfoError::ZeroGeometry("warp_size"))
    } else if raw.persisting_l2_max_bytes > raw.l2_bytes {
        Some(
            CudaDeviceInfoError::PersistingL2ExceedsL2 {
                persisting_l2_max_bytes: raw.persisting_l2_max_bytes,
                l2_bytes: raw.l2_bytes,
            },
        )
    } else {
        None
    }
}

/// The first failing numeric check of `raw`, if any, in the order checked.
pub open spec fn numeric_error(raw: CudaDeviceInfoRawV1) -> Option<CudaDeviceInfoError> {
    if raw.abi_version != CUDA_DEVICE_INFO_ABI_V1 {
        Some(CudaDeviceInfoError::AbiVersion { found: raw.abi_version })
    } else if raw.device_ordinal < 0 {
        Some(CudaDeviceInfoError::DeviceOrdinal(raw.device_ordinal))
    } else if raw.compute_major != 12 || raw.compute_minor != 1 {
        Some(CudaDeviceInfoError::ComputeCapability { major: raw.compute_major, minor: raw.compute_minor })
    } else {
        geometry_error(raw)
    }
}

/// The device name bytes of `raw`: those before its first NUL.
pub open spec fn name_bytes(raw: CudaDeviceInfoRawV1) -> Seq<u8> {
    raw.name@.take(nul_position(raw.name@)->0)
}

/// The accepted record carries every numeric field of `raw` unchanged and the given name.
pub open spec fn carries(info: CudaDeviceInfo, raw: CudaDeviceInfoRawV1, name: Seq<char>) -> bool {
    &&& info.device_ordinal == raw.device_ordinal
    &&& info.compute_capability == (raw.compute_major, raw.compute_minor)
    &&& info.name@ == name
    &&& info.total_memory_bytes == raw.total_memory_bytes
    &&& info.l2_bytes == raw.l2_bytes
    &&& info.persisting_l2_max_bytes == raw.persisting_l2_max_bytes
    &&& info.sm_count == raw.sm_count
    &&& info.warp_size == raw.warp_size
}

/// The UTF-8 text of `bytes`, if they are valid UTF-8 (`std::str::from_utf8`).
///
/// The standard library documents that this succeeds exactly on valid UTF-8 and then views the
/// same bytes as text; the contract states that over vstd's UTF-8 decoding.
#[verifier::external_body]
fn utf8_text(bytes: &[u8]) -> (r: Option<&str>)
    ensures
        match r {
            Some(s) => valid_utf8(bytes@) && s@ == decode_utf8(bytes@),
            None => !valid_utf8(bytes@),
        },
{
    std::str::from_utf8(bytes).ok()
}

/// `Err(ZeroGeometry(field))` when `value` is zero.
fn require_nonzero(value: u64, field: &'static str) -> (r: Result<(), CudaDeviceInfoError>)
    ensures
        value == 0 ==> r == Err::<(), CudaDeviceInfoError>(CudaDeviceInfoError::ZeroGeometry(field)),
        value != 0 ==> r is Ok,
{
    if value == 0 {
        Err(CudaDeviceInfoError::ZeroGeometry(field))
    } else {
        Ok(())
    }
}

/// What validating the raw record `raw` gives: the first failing check, or the device whose
/// facts are those of `raw` and whose name is the decoded name bytes.
pub open spec fn device_outcome(raw: CudaDeviceInfoRawV1, r: Result<CudaDeviceInfo, CudaDeviceInfoError>) -> bool {
    match numeric_error(raw) {
        Some(e) => r == Err::<CudaDeviceInfo, CudaDeviceInfoError>(e),
        None => match nul_position(raw.name@) {
            None => r == Err::<CudaDeviceInfo, CudaDeviceInfoError>(
                CudaDeviceInfoError::DeviceNameNotTerminated,
            ),
            Some(_) => if !valid_utf8(name_bytes(raw)) {
                r == Err::<CudaDeviceInfo, CudaDeviceInfoError>(CudaDeviceInfoError::DeviceNameUtf8)
            } else if all_white_space(decode_utf8(name_bytes(raw))) {
                r == Err::<CudaDeviceInfo, CudaDeviceInfoError>(CudaDeviceInfoError::DeviceNameEmpty)
            } else {
                r is Ok && carries(r->Ok_0, raw, decode_utf8(name_bytes(raw)))
            },
        },
    }
}

/// Failure while invoking or validating a native CUDA operation.
#[derive(Clone, Debug, PartialEq, Eq)]
pub enum CudaNativeError {
    /// The native C ABI returned a nonzero status code.
    NativeStatus(i32),
    /// Native bytes were returned, but they violated the GB10 device contract.
    DeviceInfo(CudaDeviceInfoError),
}

/// The result of a native device probe that returned `status` and, on success, the record
/// `raw`: a nonzero status is the failure; a success is never taken on trust, the record is
/// validated.
pub fn device_from_native(status: i32, raw: CudaDeviceInfoRawV1) -> (r: Result<CudaDeviceInfo, CudaNativeError>)
    ensures
        status != 0 ==> r == Err::<CudaDeviceInfo, CudaNativeError>(CudaNativeError::NativeStatus(status)),
        status == 0 ==> match r {
            Ok(info) => device_outcome(raw, Ok(info)),
            Err(CudaNativeError::DeviceInfo(e)) => device_outcome(raw, Err(e)),
            Err(CudaNativeError::NativeStatus(_)) => false,
        },
        r matches Ok(info) ==> {
            &&& status == 0
            &&& info.compute_capability == (12u32, 1u32)
            &&& info.total_memory_bytes == raw.total_memory_bytes && raw.total_memory_bytes > 0
            &&& info.l2_bytes == raw.l2_bytes && raw.l2_bytes > 0
            &&& info.persisting_l2_max_bytes == raw.persisting_l2_max_bytes && raw.persisting_l2_max_bytes <= raw.l2_bytes
            &&& info.sm_count == raw.sm_count && raw.sm_count > 0
            &&& info.warp_size == raw.warp_size && raw.warp_size > 0
            &&& !all_white_space(info.name@)
        },
{
    if status != 0 {
        return Err(CudaNativeError::NativeStatus(status));
    }
    match CudaDeviceInfo::try_from(raw) {
        Ok(info) => Ok(info),
        Err(e) => Err(CudaNativeError::DeviceInfo(e)),
    }
}

/// The result of a native smoke run that returned `status` and `checksum`: the checksum only
/// when the status is zero.
pub fn smoke_from_native(status: i32, checksum: u64) -> (r: Result<u64, CudaNativeError>)
    ensures
        status != 0 ==> r == Err::<u64, CudaNativeError>(CudaNativeError::NativeStatus(status)),
        status == 0 ==> r == Ok::<u64, CudaNativeError>(checksum),
{
    if status != 0 {
        return Err(CudaNativeError::NativeStatus(status));
    }
    Ok(checksum)
}

impl CudaDeviceInfo {
    /// Validate a raw device record: version, ordinal, compute capability 12.1, non-zero
    /// geometry, persisting L2 within L2, then a NUL-terminated, UTF-8, non-blank name.
    pub fn try_from(raw: CudaDeviceInfoRawV1) -> (r: Result<Self, CudaDeviceInfoError>)
        ensures
            device_outcome(raw, r),
            r matches Ok(info) ==> {
                &&& raw.abi_version == CUDA_DEVICE_INFO_ABI_V1
                &&& raw.device_ordinal >= 0
                &&& raw.compute_major == 12 && raw.compute_minor == 1
                &&& raw.total_memory_bytes > 0 && raw.l2_bytes > 0 && raw.sm_count > 0 && raw.warp_size > 0
                &&& raw.persisting_l2_max_bytes <= raw.l2_bytes
                &&& exists|n: int|
                    0 <= n < raw.name@.len() && raw.name@[n] == 0 && (forall|j: int| 0 <= j < n ==> raw.name@[j] != 0)
                        && valid_utf8(raw.name@.take(n)) && info.name@ == decode_utf8(raw.name@.take(n))
                &&& !all_white_space(info.name@)
                &&& info.device_ordinal == raw.device_ordinal
                &&& info.compute_capability == (12u32, 1u32)
                &&& info.total_memory_bytes == raw.total_memory_bytes
                &&& info.l2_bytes == raw.l2_bytes
                &&& info.persisting_l2_max_bytes == raw.persisting_l2_max_bytes
                &&& info.sm_count == raw.sm_count
                &&& info.warp_size == raw.warp_size
            },
    {
        if raw.abi_version != CUDA_DEVICE_INFO_ABI_V1 {
            return Err(CudaDeviceInfoError::AbiVersion { found: raw.abi_version });
        }
        if raw.device_ordinal < 0 {
            return Err(CudaDeviceInfoError::DeviceOrdinal(raw.device_ordinal));
        }
        if raw.compute_major != 12 || raw.compute_minor != 1 {
            return Err(
                CudaDeviceInfoError::ComputeCapability {
                    major: raw.compute_major,
                    minor: raw.compute_minor,
                },
            );
        }
        require_nonzero(raw.total_memory_bytes, "total_memory_bytes")?;
        require_nonzero(raw.l2_bytes, "l2_bytes")?;
        require_nonzero(raw.sm_count as u64, "sm_count")?;
        require_nonzero(raw.warp_size as u64, "warp_size")?;
        if raw.persisting_l2_max_bytes > raw.l2_bytes {
            return Err(
                CudaDeviceInfoError::PersistingL2ExceedsL2 {
                    persisting_l2_max_bytes: raw.persisting_l2_max_bytes,
                    l2_bytes: raw.l2_bytes,
                },
            );
        }
        let bytes = raw.name.as_slice();
        let mut nul: usize = 0;
        while nul < bytes.len() && bytes[nul] != 0
            invariant
                bytes@ == raw.name@,
                nul <= bytes@.len(),
                forall|j: int| 0 <= j < nul ==> bytes@[j] != 0,
            decreases bytes@.len() - nul,
        {
            nul += 1;
        }
        if nul == bytes.len() {
            return Err(CudaDeviceInfoError::DeviceNameNotTerminated);
        }
        proof {
            let p = nul_position(raw.name@)->0;
            assert(raw.name@[nul as int] == 0);
            assert(p == nul) by {
                if p < nul {
                    assert(raw.name@[p] != 0);
                }
                if p > nul {
                    assert(raw.name@[nul as int] != 0);
                }
            }
        }
        let head = vstd::slice::slice_subrange(bytes, 0, nul);
        assert(head@ == name_bytes(raw));
        let name = match utf8_text(head) {
            Some(text) => text,
            None => {
                return Err(CudaDeviceInfoError::DeviceNameUtf8);
            },
        };
        if is_blank(name) {
            return Err(CudaDeviceInfoError::DeviceNameEmpty);
        }
        Ok(
            CudaDeviceInfo {
                device_ordinal: raw.device_ordinal,
                compute_capability: (raw.compute_major, raw.compute_minor),
                name: name.to_owned(),
                total_memory_bytes: raw.total_memory_bytes,
                l2_bytes: raw.l2_bytes,
                persisting_l2_max_bytes: raw.persisting_l2_max_bytes,
                sm_count: raw.sm_count,
                warp_size: raw.warp_size,
            },
        )
    }
}

/// An accepted device always has compute capability 12.1, non-zero geometry and a persisting
/// L2 within its L2.
pub proof fn law_accepted_device_is_consistent(raw: CudaDeviceInfoRawV1)
    requires
        numeric_error(raw) is None,
    ensures
        raw.compute_major == 12 && raw.compute_minor == 1,
        raw.device_ordinal >= 0,
        raw.total_memory_bytes > 0 && raw.l2_bytes > 0 && raw.sm_count > 0 && raw.warp_size > 0,
        raw.persisting_l2_max_bytes <= raw.l2_bytes,
{
}

} // verus!
