use gb10x::telemetry::{
    validate_evidence, CacheCounters, CacheRunState, CorrectnessGate, CpuPlacement, EvidenceError,
    EvidenceFacts, ExecutionConfig, ExecutionMode, Measurement, PerformanceFacts, RunIdentity,
    SpeculationMetrics, StageTimings, WorkloadShape,
};

fn valid_record() -> EvidenceFacts {
    EvidenceFacts {
        identity: RunIdentity {
            git_commit: "0123456789abcdef0123456789abcdef01234567".into(),
            model_id: "Qwen/Qwen3.8-Flash-Next".into(),
            model_revision: "34567a4".into(),
            model_digest: "sha256:fixture".into(),
            hardware: "NVIDIA GB10".into(),
            mode: ExecutionMode::Exact,
        },
        execution: ExecutionConfig {
            command: vec!["gb10x-serve".into(), "--profile".into(), "exact".into()],
            runtime_profile: "dedicated-server".into(),
            runtime_config_digest: "sha256:runtime".into(),
            cpu_placement: CpuPlacement::Affinity {
                cpus: vec![0, 1, 2, 3],
            },
            precision_mode: "bf16".into(),
            quantization_mode: "none".into(),
            prefix_cache_state: CacheRunState::Cold,
            ple_cache_state: CacheRunState::Warm,
            kv_cache_state: CacheRunState::Cold,
        },
        workload: WorkloadShape {
            context_tokens: 8192,
            prompt_tokens: 2048,
            output_tokens: 256,
            concurrency: 1,
        },
        caches: CacheCounters::default(),
        performance: PerformanceFacts {
            prefill_tokens_per_second: Measurement::Valid,
            decode_tokens_per_second: Measurement::Valid,
            ttft_micros: Some(250_000),
            p50_latency_micros: None,
            p95_latency_micros: None,
            unified_memory_bytes: Some(100_000_000_000),
            power_watts: Measurement::Absent,
            tokens_per_joule: Measurement::Absent,
        },
        speculation: None,
        correctness: Some(CorrectnessGate::Passed {
            oracle: "target-greedy-reference".into(),
            checked_tokens: 256,
        }),
    }
}

#[test]
fn performance_record_without_commit_is_rejected() {
    let mut record = valid_record();
    record.identity.git_commit.clear();
    assert!(matches!(validate_evidence(&record), Err(EvidenceError::Missing("git_commit"))));
}

#[test]
fn record_requires_correctness_result() {
    let mut record = valid_record();
    record.correctness = None;
    assert!(matches!(validate_evidence(&record), Err(EvidenceError::Missing("correctness"))));
}

#[test]
fn speculative_run_requires_acceptance_evidence() {
    let mut record = valid_record();
    record.speculation = Some(SpeculationMetrics {
        strategy: "mtp".into(),
        proposed_tokens: 100,
        accepted_tokens: 0,
        verified_cycles: 0,
    });
    assert!(validate_evidence(&record).is_err());
}

#[test]
fn impossible_workload_is_rejected() {
    let mut record = valid_record();
    record.workload.output_tokens = 0;
    assert!(validate_evidence(&record).is_err());
}

#[test]
fn non_finite_throughput_is_rejected() {
    let mut record = valid_record();
    record.performance.decode_tokens_per_second = Measurement::Invalid;
    assert_eq!(
        validate_evidence(&record),
        Err(EvidenceError::Invalid {
            field: "decode_tokens_per_second",
            reason: "must be finite and greater than zero"
        })
    );
}

#[test]
fn useful_prefetches_cannot_exceed_prefetches() {
    let mut record = valid_record();
    record.caches.ple_prefetched_rows = 5;
    record.caches.ple_prefetch_useful_rows = 6;
    assert!(validate_evidence(&record).is_err());
}

#[test]
fn failed_correctness_is_valid_evidence_when_explained() {
    let mut record = valid_record();
    record.correctness = Some(CorrectnessGate::Failed {
        oracle: "target-greedy-reference".into(),
        checked_tokens: 12,
        reason: "token mismatch at position 12".into(),
    });
    assert!(validate_evidence(&record).is_ok());
}

#[test]
fn experimental_records_need_a_label() {
    let mut record = valid_record();
    record.identity.mode = ExecutionMode::ExperimentalApproximate { label: "ple-nvfp4".into() };
    assert!(validate_evidence(&record).is_ok());
    record.identity.mode = ExecutionMode::ExperimentalApproximate { label: " ".into() };
    assert_eq!(
        validate_evidence(&record),
        Err(EvidenceError::Missing("experimental_mode_label"))
    );
}

#[test]
fn a_record_needs_some_measurement_and_ordered_latencies() {
    let mut record = valid_record();
    record.performance = PerformanceFacts {
        prefill_tokens_per_second: Measurement::Absent,
        decode_tokens_per_second: Measurement::Absent,
        ttft_micros: None,
        p50_latency_micros: None,
        p95_latency_micros: None,
        unified_memory_bytes: None,
        power_watts: Measurement::Absent,
        tokens_per_joule: Measurement::Absent,
    };
    assert_eq!(validate_evidence(&record), Err(EvidenceError::Missing("performance")));
    record.performance.p50_latency_micros = Some(10);
    record.performance.p95_latency_micros = Some(9);
    assert_eq!(
        validate_evidence(&record),
        Err(EvidenceError::Invalid {
            field: "p95_latency_micros",
            reason: "cannot be lower than p50 latency"
        })
    );
    record.performance.p95_latency_micros = Some(10);
    assert!(validate_evidence(&record).is_ok());
}

#[test]
fn prompt_cannot_exceed_context_and_stage_timers_default_to_absent() {
    let mut record = valid_record();
    record.workload.prompt_tokens = record.workload.context_tokens + 1;
    assert_eq!(
        validate_evidence(&record),
        Err(EvidenceError::Invalid {
            field: "prompt_tokens",
            reason: "cannot exceed context_tokens"
        })
    );
    assert_eq!(StageTimings::default().decode_micros, None);
    assert_eq!(CacheCounters::default().ple_hot_hits, 0);
}

#[test]
fn each_present_integer_performance_measurement_must_be_positive() {
    for field in ["ttft_micros", "p50_latency_micros", "p95_latency_micros", "unified_memory_bytes"] {
        let mut record = valid_record();
        match field {
            "ttft_micros" => record.performance.ttft_micros = Some(0),
            "p50_latency_micros" => record.performance.p50_latency_micros = Some(0),
            "p95_latency_micros" => record.performance.p95_latency_micros = Some(0),
            _ => record.performance.unified_memory_bytes = Some(0),
        }
        assert!(
            matches!(validate_evidence(&record), Err(EvidenceError::Invalid { field: actual, .. }) if actual == field),
            "zero-valued performance field {field} was not rejected",
        );
    }
}

#[test]
fn positive_integer_performance_boundaries_are_accepted() {
    for measured in [1, u64::MAX] {
        let mut record = valid_record();
        record.performance.ttft_micros = Some(measured);
        record.performance.p50_latency_micros = Some(measured);
        record.performance.p95_latency_micros = Some(measured);
        record.performance.unified_memory_bytes = Some(measured);
        validate_evidence(&record).expect("positive integer measurements");
    }
}

#[test]
fn omitted_performance_measurements_and_zero_stage_timers_remain_valid() {
    let mut record = valid_record();
    record.performance.ttft_micros = None;
    record.performance.p50_latency_micros = None;
    record.performance.p95_latency_micros = None;
    record.performance.unified_memory_bytes = None;
    validate_evidence(&record).expect("optional measurements");
}

#[test]
fn complete_execution_configuration_is_required() {
    let mut record = valid_record();
    record.execution.command.clear();
    assert!(matches!(
        validate_evidence(&record),
        Err(EvidenceError::Missing("execution.command"))
    ));

    let mut record = valid_record();
    record.execution.runtime_config_digest.clear();
    assert!(matches!(
        validate_evidence(&record),
        Err(EvidenceError::Missing("execution.runtime_config_digest"))
    ));
}

#[test]
fn cpu_affinity_must_be_nonempty_sorted_and_unique() {
    let mut record = valid_record();
    record.execution.cpu_placement = CpuPlacement::Affinity { cpus: vec![] };
    assert!(validate_evidence(&record).is_err());

    let mut record = valid_record();
    record.execution.cpu_placement = CpuPlacement::Affinity {
        cpus: vec![2, 1, 1],
    };
    assert!(validate_evidence(&record).is_err());
}

#[test]
fn exact_evidence_rejects_each_unsupported_precision_label() {
    for precision in ["fp8", "nvfp4", "fp16", "fp32", "unknown", "BF16", "bf16 "] {
        let mut record = valid_record();
        record.execution.precision_mode = precision.into();
        assert!(
            matches!(
                validate_evidence(&record),
                Err(EvidenceError::Invalid {
                    field: "execution.precision_mode",
                    ..
                })
            ),
            "unsupported exact precision {precision:?} was not rejected",
        );
    }
}

#[test]
fn exact_evidence_rejects_each_quantized_or_unknown_label() {
    for quantization in [
        "fp8",
        "nvfp4",
        "int8",
        "ple-nvfp4",
        "unknown",
        "NONE",
        "none ",
    ] {
        let mut record = valid_record();
        record.execution.quantization_mode = quantization.into();
        assert!(
            matches!(
                validate_evidence(&record),
                Err(EvidenceError::Invalid {
                    field: "execution.quantization_mode",
                    ..
                })
            ),
            "unsupported exact quantization {quantization:?} was not rejected",
        );
    }
}

#[test]
fn experimental_profiles_may_carry_any_precision_and_quantization() {
    for (precision, quantization) in [
        ("bf16", "none"),
        ("fp8", "fp8"),
        ("nvfp4", "nvfp4"),
        ("bf16", "ple-nvfp4"),
        ("future-experiment", "custom"),
    ] {
        let mut record = valid_record();
        record.identity.mode = ExecutionMode::ExperimentalApproximate {
            label: "independently-gated-experiment".into(),
        };
        record.execution.precision_mode = precision.into();
        record.execution.quantization_mode = quantization.into();
        validate_evidence(&record).expect("labelled experimental evidence");
    }
}

#[test]
fn sorted_unique_affinity_passes_and_a_repeat_is_named() {
    let mut record = valid_record();
    record.execution.cpu_placement = CpuPlacement::Affinity { cpus: vec![5] };
    assert!(validate_evidence(&record).is_ok());
    record.execution.cpu_placement = CpuPlacement::Affinity { cpus: vec![1, 3, 3] };
    assert!(matches!(
        validate_evidence(&record),
        Err(EvidenceError::Invalid { field: "execution.cpu_placement", .. })
    ));
    record.execution.cpu_placement = CpuPlacement::Affinity { cpus: vec![] };
    assert!(matches!(
        validate_evidence(&record),
        Err(EvidenceError::Missing("execution.cpu_placement"))
    ));
}
