use gb10x::linux_probe::{
    check_host_identity, finish_cache_tree, host_probe_from_texts, is_numbered_name, parse_cache_level,
    parse_cache_size, parse_cache_type, parse_cpu_list, parse_cpu_list_for, parse_cpu_model,
    parse_mem_total_bytes, ProbeError,
};
use gb10x::{CacheType, CpuCache, PlatformSnapshot};

fn invalid_field(err: ProbeError) -> (&'static str, String) {
    match err {
        ProbeError::InvalidValue { field, value } => (field, value),
        other => panic!("expected an invalid value, got {other:?}"),
    }
}

#[test]
fn parses_shared_cpu_list_ranges() {
    assert_eq!(
        parse_cpu_list("0-3,8,10-11").expect("valid CPU list"),
        vec![0, 1, 2, 3, 8, 10, 11]
    );
}

#[test]
fn rejects_descending_cpu_ranges() {
    assert!(parse_cpu_list("4-2").is_err());
}

#[test]
fn parses_binary_and_decimal_cache_sizes() {
    assert_eq!(parse_cache_size("64K").unwrap(), 64 * 1024);
    assert_eq!(parse_cache_size("2M").unwrap(), 2 * 1024 * 1024);
    assert_eq!(parse_cache_size("4096").unwrap(), 4096);
}

#[test]
fn meminfo_requires_memtotal() {
    assert!(parse_mem_total_bytes("MemFree: 42 kB\n").is_err());
}

#[test]
fn cpu_lists_are_sorted_and_deduplicated() {
    assert_eq!(parse_cpu_list(" 3,1-2,2 \n").unwrap(), vec![1, 2, 3]);
    assert_eq!(parse_cpu_list("7").unwrap(), vec![7]);
}

#[test]
fn malformed_cpu_lists_report_the_whole_trimmed_list() {
    assert_eq!(
        invalid_field(parse_cpu_list_for("online", " 0,,2 ").unwrap_err()),
        ("online", "0,,2".to_owned())
    );
    assert_eq!(
        invalid_field(parse_cpu_list("  ").unwrap_err()),
        ("shared_cpu_list", String::new())
    );
    assert_eq!(
        invalid_field(parse_cpu_list("1-x").unwrap_err()),
        ("shared_cpu_list", "x".to_owned())
    );
}

#[test]
fn cache_sizes_reject_overflow_and_garbage() {
    assert_eq!(parse_cache_size("1G").unwrap(), 1024 * 1024 * 1024);
    assert_eq!(parse_cache_size(" 32k\n").unwrap(), 32 * 1024);
    assert!(parse_cache_size("K").is_err());
    assert!(parse_cache_size("12T").is_err());
    assert!(parse_cache_size("18446744073709551615K").is_err());
}

#[test]
fn cache_types_and_levels_are_parsed() {
    assert_eq!(parse_cache_type("Data\n").unwrap(), CacheType::Data);
    assert_eq!(parse_cache_type("Instruction").unwrap(), CacheType::Instruction);
    assert_eq!(parse_cache_type(" Unified ").unwrap(), CacheType::Unified);
    assert_eq!(
        invalid_field(parse_cache_type("Other").unwrap_err()),
        ("cache type", "Other".to_owned())
    );
    assert_eq!(parse_cache_level("2\n").unwrap(), 2);
    assert_eq!(
        invalid_field(parse_cache_level("256").unwrap_err()),
        ("cache level", "256".to_owned())
    );
}

#[test]
fn numbered_names_need_digits_after_the_prefix() {
    assert!(is_numbered_name("cpu12", "cpu"));
    assert!(is_numbered_name("index0", "index"));
    assert!(!is_numbered_name("cpu", "cpu"));
    assert!(!is_numbered_name("cpufreq", "cpu"));
    assert!(!is_numbered_name("cache3", "cpu"));
}

#[test]
fn cpu_model_prefers_the_first_named_model_line() {
    let cpuinfo = "processor\t: 0\nmodel name\t: NVIDIA Grace Blackwell GB10\nHardware\t: other\n";
    assert_eq!(parse_cpu_model(cpuinfo).unwrap(), "NVIDIA Grace Blackwell GB10");
    assert!(parse_cpu_model("processor\t: 0\n").is_err());
}

#[test]
fn meminfo_total_is_scaled_from_kibibytes() {
    assert_eq!(
        parse_mem_total_bytes("MemTotal:       131072000 kB\nMemFree: 1 kB\n").unwrap(),
        131_072_000 * 1024
    );
}

#[test]
fn host_identity_rejects_blank_facts_in_order() {
    assert!(check_host_identity("aarch64", "6.11.0", 4096).is_ok());
    assert_eq!(
        invalid_field(check_host_identity(" ", "", 0).unwrap_err()).0,
        "architecture"
    );
    assert_eq!(
        invalid_field(check_host_identity("aarch64", "\n", 0).unwrap_err()).0,
        "kernel release"
    );
    assert_eq!(
        invalid_field(check_host_identity("aarch64", "6.11.0", 0).unwrap_err()),
        ("page size", "0".to_owned())
    );
}

fn cache(level: u8, cache_type: CacheType, cpus: Vec<u32>) -> CpuCache {
    CpuCache { level, cache_type, size_bytes: 1024, line_bytes: 64, shared_cpu_ids: cpus }
}

#[test]
fn cache_tree_is_deduplicated_and_sorted() {
    let found = vec![
        cache(3, CacheType::Unified, vec![0, 1, 2, 3]),
        cache(2, CacheType::Unified, vec![1]),
        cache(1, CacheType::Data, vec![0]),
        cache(1, CacheType::Instruction, vec![0]),
        cache(3, CacheType::Unified, vec![0, 1, 2, 3]),
        cache(2, CacheType::Unified, vec![0]),
    ];
    let tree = finish_cache_tree(found, "/sys".to_owned()).unwrap();
    assert_eq!(
        tree,
        vec![
            cache(1, CacheType::Instruction, vec![0]),
            cache(1, CacheType::Data, vec![0]),
            cache(2, CacheType::Unified, vec![0]),
            cache(2, CacheType::Unified, vec![1]),
            cache(3, CacheType::Unified, vec![0, 1, 2, 3]),
        ]
    );
    assert_eq!(
        tree.iter()
            .filter(|c| c.level == 3 && c.shared_cpu_ids == vec![0, 1, 2, 3])
            .count(),
        1
    );
}

#[test]
fn an_empty_cache_tree_is_rejected() {
    match finish_cache_tree(Vec::new(), "/sys/devices/system/cpu".to_owned()) {
        Err(ProbeError::NoCaches(root)) => assert_eq!(root, "/sys/devices/system/cpu"),
        other => panic!("unexpected {other:?}"),
    }
}

#[test]
fn host_probe_joins_a_gpu_snapshot() {
    let fixture = PlatformSnapshot::gb10_test_fixture();
    let host = gb10x::linux_probe::HostProbe {
        arch: fixture.arch.clone(),
        kernel_release: fixture.kernel_release.clone(),
        cpu_model: fixture.cpu_model.clone(),
        online_cpus: fixture.online_cpus.clone(),
        caches: fixture.caches.clone(),
        mem_total_bytes: fixture.mem_total_bytes,
        page_size_bytes: fixture.page_size_bytes,
    };
    assert_eq!(host.into_platform_snapshot(fixture.gpu.clone()), fixture);
}

/// The host facts the probe reads, as the host-probe fixture holds them.
fn fixture_texts() -> (String, String, String, Vec<CpuCache>) {
    let online = "0-3".to_owned();
    let cpuinfo = "processor\t: 0\nmodel name\t: NVIDIA Grace Blackwell GB10\n".to_owned();
    let meminfo = "MemTotal:       131072000 kB\nMemFree:        1000 kB".to_owned();
    let caches = finish_cache_tree(
        vec![
            cache(2, CacheType::Unified, vec![0]),
            cache(3, CacheType::Unified, vec![0, 1, 2, 3]),
            cache(3, CacheType::Unified, vec![0, 1, 2, 3]),
        ],
        "cache-topology".to_owned(),
    )
    .unwrap();
    (online, cpuinfo, meminfo, caches)
}

#[test]
fn host_probe_fixture_preserves_discovered_facts() {
    let (online, cpuinfo, meminfo, caches) = fixture_texts();
    let probe = host_probe_from_texts(
        "aarch64",
        "6.11.0-gb10x-test",
        4096,
        Ok(online),
        Ok(cpuinfo),
        Ok(meminfo),
        Ok(caches),
    )
    .expect("host probe fixture");

    assert_eq!(probe.arch, "aarch64");
    assert_eq!(probe.kernel_release, "6.11.0-gb10x-test");
    assert_eq!(probe.cpu_model, "NVIDIA Grace Blackwell GB10");
    assert_eq!(probe.online_cpus, vec![0, 1, 2, 3]);
    assert_eq!(probe.mem_total_bytes, 131_072_000 * 1024);
    assert_eq!(probe.page_size_bytes, 4096);
    assert!(!probe.caches.is_empty());
}

#[test]
fn host_probe_reports_the_first_failure_in_read_order() {
    let (online, cpuinfo, _, caches) = fixture_texts();
    let missing_memtotal = host_probe_from_texts(
        "aarch64",
        "6.11.0",
        4096,
        Ok(online.clone()),
        Ok(cpuinfo.clone()),
        Ok("MemFree: 1 kB".to_owned()),
        Err(ProbeError::NoCaches("root".to_owned())),
    );
    assert_eq!(invalid_field(missing_memtotal.unwrap_err()).0, "MemTotal");

    let no_caches = host_probe_from_texts(
        "aarch64",
        "6.11.0",
        4096,
        Ok(online.clone()),
        Ok(cpuinfo.clone()),
        Ok("MemTotal: 1 kB".to_owned()),
        Err(ProbeError::NoCaches("root".to_owned())),
    );
    assert!(matches!(no_caches, Err(ProbeError::NoCaches(_))));

    let bad_online = host_probe_from_texts(
        "aarch64",
        "6.11.0",
        4096,
        Ok("3-1".to_owned()),
        Err(ProbeError::NoCaches("unread".to_owned())),
        Ok(String::new()),
        Ok(caches.clone()),
    );
    assert_eq!(invalid_field(bad_online.unwrap_err()).0, "online CPUs");

    let blank_arch = host_probe_from_texts(
        " ",
        "6.11.0",
        4096,
        Ok(online),
        Ok(cpuinfo),
        Ok(String::new()),
        Ok(caches),
    );
    assert_eq!(invalid_field(blank_arch.unwrap_err()).0, "architecture");
}
