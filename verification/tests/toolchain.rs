use gb10x::toolchain::{
    parse_nvcc_version, validate_nvcc_for_gb10, CudaBuildContract, CudaToolchainError, NvccVersion,
};

#[test]
fn gb10_contract_is_architecture_specific() {
    let contract = CudaBuildContract::gb10();
    assert_eq!(contract.virtual_arch(), "compute_121a");
    assert_eq!(contract.real_arch(), "sm_121a");
    assert!(contract.is_arch_specific());
}

#[test]
fn nvcc_release_line_is_parsed_exactly() {
    let version = parse_nvcc_version("Cuda compilation tools, release 13.2, V13.2.51")
        .expect("valid nvcc release line");
    assert_eq!(
        (version.major, version.minor, version.patch),
        (13, 2, Some(51))
    );
}

#[test]
fn cuda_12_8_is_rejected_for_sm121a_m2() {
    let version = NvccVersion {
        major: 12,
        minor: 8,
        patch: None,
    };
    assert!(validate_nvcc_for_gb10(&version).is_err());
}

#[test]
fn cuda_12_9_is_accepted_for_sm121a_m2() {
    let version = NvccVersion {
        major: 12,
        minor: 9,
        patch: None,
    };
    validate_nvcc_for_gb10(&version).expect("CUDA 12.9 supports sm_121a");
}

#[test]
fn full_nvcc_banner_is_parsed() {
    let banner = "nvcc: NVIDIA (R) Cuda compiler driver\nCopyright (c) 2005-2025 NVIDIA Corporation\nBuilt on Wed_Jan_15_19:20:09_PST_2025\nCuda compilation tools, release 12.9, V12.9.41\nBuild cuda_12.9.r12.9/compiler.35404655_0\n";
    let version = parse_nvcc_version(banner).expect("banner");
    assert_eq!(version, NvccVersion { major: 12, minor: 9, patch: Some(41) });
}

#[test]
fn missing_release_is_reported() {
    assert_eq!(
        parse_nvcc_version("nvcc: no version here"),
        Err(CudaToolchainError::MissingRelease)
    );
}

#[test]
fn malformed_release_reports_its_token() {
    assert_eq!(
        parse_nvcc_version("Cuda compilation tools, release 13.2.1, V13.2.1"),
        Err(CudaToolchainError::InvalidRelease("13.2.1".to_owned()))
    );
    assert_eq!(
        parse_nvcc_version("release x.2"),
        Err(CudaToolchainError::InvalidRelease("x.2".to_owned()))
    );
}

#[test]
fn build_token_for_another_release_gives_no_patch() {
    let version = parse_nvcc_version("Cuda compilation tools, release 13.2, V13.1.51").unwrap();
    assert_eq!(version.patch, None);
    let version = parse_nvcc_version("release 13.2,V13.2.7").unwrap();
    assert_eq!(version.patch, Some(7));
}

#[test]
fn unsupported_version_reports_the_requirement() {
    let version = NvccVersion { major: 11, minor: 12, patch: None };
    assert_eq!(
        validate_nvcc_for_gb10(&version),
        Err(CudaToolchainError::UnsupportedVersion {
            found_major: 11,
            found_minor: 12,
            required_major: 12,
            required_minor: 9,
        })
    );
    assert!(validate_nvcc_for_gb10(&NvccVersion { major: 13, minor: 0, patch: None }).is_ok());
}
