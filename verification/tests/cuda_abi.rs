use gb10x::cuda_abi::{
    CudaAbiInfo, CudaDeviceInfo, CUDA_ABI_VERSION, CUDA_STATUS_ABI_MISMATCH,
    CUDA_STATUS_CUDA_RUNTIME_FAILURE, CUDA_STATUS_INTERNAL_FAILURE, CUDA_STATUS_INVALID_ARGUMENT,
    CUDA_STATUS_OK, CUDA_TARGET_SM_VARIANT_A,
};
use std::mem::size_of;

#[test]
fn constructors_encode_the_v1_output_contract() {
    let abi = CudaAbiInfo::new();
    assert_eq!(abi.struct_size as usize, size_of::<CudaAbiInfo>());
    assert_eq!(abi.abi_version, 0);
    assert_eq!(abi.target_sm_major, 0);
    assert_eq!(abi.reserved0, 0);

    let device = CudaDeviceInfo::new();
    assert_eq!(device.struct_size as usize, size_of::<CudaDeviceInfo>());
    assert_eq!(device.device_ordinal, 0);
    assert_eq!(device.name, [0; 256]);
}

#[test]
fn v1_numeric_constants_are_stable() {
    assert_eq!(CUDA_ABI_VERSION, 1);
    assert_eq!(CUDA_STATUS_OK, 0);
    assert_eq!(CUDA_STATUS_ABI_MISMATCH, 1);
    assert_eq!(CUDA_STATUS_INVALID_ARGUMENT, 2);
    assert_eq!(CUDA_STATUS_CUDA_RUNTIME_FAILURE, 3);
    assert_eq!(CUDA_STATUS_INTERNAL_FAILURE, 4);
    assert_eq!(CUDA_TARGET_SM_VARIANT_A, 1);
}

#[test]
fn defaults_are_the_zeroed_output_records() {
    assert_eq!(CudaAbiInfo::default(), CudaAbiInfo::new());
    assert_eq!(CudaDeviceInfo::default(), CudaDeviceInfo::new());
    let device = CudaDeviceInfo::new();
    assert_eq!(device.total_global_memory_bytes, 0);
    assert_eq!(device.l2_cache_bytes, 0);
    assert_eq!(device.persisting_l2_max_bytes, 0);
}
