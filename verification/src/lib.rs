//! GB10X: exact Qwen3.8 PLE hashing, PLEPack storage layout, CPU cache-fabric planning and
//! fail-closed platform contracts, with their behaviour stated and proved in Verus.

pub mod cache_fabric;
pub mod cuda_abi;
pub mod device;
pub mod digest;
pub mod disk;
pub mod format;
pub mod hash_buffers;
pub mod json;
pub mod layout;
pub mod linux_probe;
pub mod platform;
pub mod plepack;
pub mod probe;
pub mod qwen38_manifest;
pub mod raw_source;
pub mod reader;
pub mod safetensors;
pub mod sidecar_roundtrip;
pub mod ple_hydra;
pub mod ple_hash;
pub mod telemetry;
pub mod text;
pub mod toolchain;
pub mod validate;
pub mod writer;

pub use format::{
    PlePackError, PlePackHeader, PlePackIoError, LOGICAL_ROW_SPACE, PLEPACK_MAGIC, PLEPACK_VERSION,
};
pub use platform::{CacheType, CpuCache, GpuSnapshot, PlatformSnapshot};
pub use ple_hash::{PleHashError, PleHashPlan, PleTokenWindow};
