//! Evidence records for GB10X correctness and performance runs, and the rules that make a record
//! usable as evidence.
use crate::text::{all_white_space, is_blank, same_text};
use vstd::prelude::*;

verus! {

/// Exactness mode attached to every evidence record.
#[derive(Clone, Debug, PartialEq)]
pub enum ExecutionMode {
    /// Bit/algorithmically exact execution path.
    Exact,
    /// Explicitly approximate experimental path that must never be mixed with exact evidence.
    ExperimentalApproximate {
        /// Human-readable approximation identifier, for example `ple-nvfp4`.
        label: String,
    },
}

/// Immutable identity of one benchmark or correctness run.
#[derive(Clone, Debug, PartialEq)]
pub struct RunIdentity {
    /// Source commit that produced the executable.
    pub git_commit: String,
    /// Canonical model repository/name.
    pub model_id: String,
    /// Pinned model revision.
    pub model_revision: String,
    /// Content digest or manifest digest for the loaded model artifacts.
    pub model_digest: String,
    /// Hardware identity captured for this run.
    pub hardware: String,
    /// Exact versus explicitly approximate execution mode.
    pub mode: ExecutionMode,
}

/// Whether a cache started the run cold or warm.
#[derive(Clone, Copy, Debug, PartialEq, Eq, Structural)]
pub enum CacheRunState {
    /// Emptied before the run.
    Cold,
    /// Populated by earlier work before the run.
    Warm,
}

/// Where the runtime's CPU threads were allowed to run.
#[derive(Clone, Debug, PartialEq, Eq)]
pub enum CpuPlacement {
    /// Pinned to exactly these Linux CPU IDs (sorted, each once).
    Affinity {
        /// Allowed CPU IDs.
        cpus: Vec<u32>,
    },
}

/// The runtime configuration one run was measured under.
#[derive(Clone, Debug, PartialEq)]
pub struct ExecutionConfig {
    /// Command line that started the runtime.
    pub command: Vec<String>,
    /// Named runtime profile.
    pub runtime_profile: String,
    /// Digest of the complete runtime configuration.
    pub runtime_config_digest: String,
    /// CPU placement of the runtime.
    pub cpu_placement: CpuPlacement,
    /// Numeric precision label of the computation.
    pub precision_mode: String,
    /// Quantization label of the weights.
    pub quantization_mode: String,
    /// Prefix-cache state at the start of the run.
    pub prefix_cache_state: CacheRunState,
    /// PLE-cache state at the start of the run.
    pub ple_cache_state: CacheRunState,
    /// KV-cache state at the start of the run.
    pub kv_cache_state: CacheRunState,
}

/// Token/concurrency geometry of one measured workload.
#[derive(Clone, Copy, Debug, PartialEq)]
pub struct WorkloadShape {
    /// Effective context/window size used by the request.
    pub context_tokens: u64,
    /// Number of prompt/prefill tokens.
    pub prompt_tokens: u64,
    /// Number of generated tokens included in the measurement.
    pub output_tokens: u64,
    /// Simultaneous request count.
    pub concurrency: u32,
}

/// Optional stage timings in microseconds.
#[derive(Clone, Copy, Debug, PartialEq)]
pub struct StageTimings {
    /// Prompt tokenization time.
    pub tokenize_micros: Option<u64>,
    /// Scheduler/queue time before GPU execution.
    pub queue_micros: Option<u64>,
    /// Prefill execution time.
    pub prefill_micros: Option<u64>,
    /// Decode execution time.
    pub decode_micros: Option<u64>,
    /// PLE hash computation time.
    pub ple_hash_micros: Option<u64>,
    /// PLE lookup/cache service time.
    pub ple_lookup_micros: Option<u64>,
    /// Attention time when independently measured.
    pub attention_micros: Option<u64>,
    /// MoE routing/expert execution time when independently measured.
    pub moe_micros: Option<u64>,
    /// Speculative/MTP verification time.
    pub speculation_verify_micros: Option<u64>,
    /// Sampling time.
    pub sampling_micros: Option<u64>,
}

impl Default for StageTimings {
    fn default() -> (r: Self)
        ensures
            r.tokenize_micros is None && r.queue_micros is None && r.prefill_micros is None,
            r.decode_micros is None && r.ple_hash_micros is None && r.ple_lookup_micros is None,
            r.attention_micros is None && r.moe_micros is None,
            r.speculation_verify_micros is None && r.sampling_micros is None,
    {
        StageTimings {
            tokenize_micros: None,
            queue_micros: None,
            prefill_micros: None,
            decode_micros: None,
            ple_hash_micros: None,
            ple_lookup_micros: None,
            attention_micros: None,
            moe_micros: None,
            speculation_verify_micros: None,
            sampling_micros: None,
        }
    }
}

/// Integer cache/service counters for one run.
#[derive(Clone, Copy, Debug, PartialEq)]
pub struct CacheCounters {
    /// PLE requests served from the hottest software/cache tier.
    pub ple_hot_hits: u64,
    /// PLE requests served from the exact cold source.
    pub ple_cold_hits: u64,
    /// PLE rows prefetched speculatively or predictively.
    pub ple_prefetched_rows: u64,
    /// Prefetched PLE rows that were subsequently consumed.
    pub ple_prefetch_useful_rows: u64,
    /// Prefix-cache hits at request granularity.
    pub prefix_cache_hits: u64,
    /// Prefix-cache misses at request granularity.
    pub prefix_cache_misses: u64,
    /// Bytes read from the exact cold PLE source.
    pub cold_source_bytes_read: u64,
    /// Bytes read from the PLEPack hot overlay.
    pub hot_overlay_bytes_read: u64,
}

impl Default for CacheCounters {
    fn default() -> (r: Self)
        ensures
            r.ple_hot_hits == 0 && r.ple_cold_hits == 0 && r.ple_prefetched_rows == 0,
            r.ple_prefetch_useful_rows == 0 && r.prefix_cache_hits == 0 && r.prefix_cache_misses == 0,
            r.cold_source_bytes_read == 0 && r.hot_overlay_bytes_read == 0,
    {
        CacheCounters {
            ple_hot_hits: 0,
            ple_cold_hits: 0,
            ple_prefetched_rows: 0,
            ple_prefetch_useful_rows: 0,
            prefix_cache_hits: 0,
            prefix_cache_misses: 0,
            cold_source_bytes_read: 0,
            hot_overlay_bytes_read: 0,
        }
    }
}

/// Evidence captured when speculative decoding/MTP is active.
#[derive(Clone, Debug, PartialEq)]
pub struct SpeculationMetrics {
    /// Strategy identifier such as `mtp` or a future exact draft strategy.
    pub strategy: String,
    /// Number of draft tokens proposed.
    pub proposed_tokens: u64,
    /// Number of draft tokens accepted by target verification.
    pub accepted_tokens: u64,
    /// Number of target-verification cycles actually executed.
    pub verified_cycles: u64,
}

/// Correctness outcome attached to every run that may be used as evidence.
#[derive(Clone, Debug, PartialEq)]
pub enum CorrectnessGate {
    /// Candidate matched its declared correctness oracle for the checked scope.
    Passed {
        /// Oracle/reference path used for comparison.
        oracle: String,
        /// Number of output tokens covered by the comparison.
        checked_tokens: u64,
    },
    /// Candidate failed its declared correctness oracle.
    Failed {
        /// Oracle/reference path used for comparison.
        oracle: String,
        /// Number of output tokens checked before/while detecting the failure.
        checked_tokens: u64,
        /// Concise machine/log-friendly failure description.
        reason: String,
    },
}

/// Validation failure that makes an evidence payload unusable for GB10X decisions.
#[derive(Clone, Debug, PartialEq, Eq)]
pub enum EvidenceError {
    /// Required field is absent or empty.
    Missing(&'static str),
    /// Field value violates a semantic invariant.
    Invalid {
        /// Field or logical group that failed validation.
        field: &'static str,
        /// Stable concise reason.
        reason: &'static str,
    },
}

/// How an optional real-valued measurement stands: absent, present and finite and positive, or
/// present but not.
#[derive(Clone, Copy, Debug, PartialEq, Eq)]
pub enum Measurement {
    /// Not measured.
    Absent,
    /// Measured, finite and greater than zero.
    Valid,
    /// Measured, but not finite or not greater than zero.
    Invalid,
}

/// What the evidence rules read of a run's performance metrics.
#[derive(Clone, Copy, Debug, PartialEq, Eq)]
pub struct PerformanceFacts {
    /// Prefill throughput.
    pub prefill_tokens_per_second: Measurement,
    /// Decode throughput.
    pub decode_tokens_per_second: Measurement,
    /// Time to first token in microseconds.
    pub ttft_micros: Option<u64>,
    /// Median end-to-end latency in microseconds.
    pub p50_latency_micros: Option<u64>,
    /// 95th percentile end-to-end latency in microseconds.
    pub p95_latency_micros: Option<u64>,
    /// Unified/system memory footprint attributed to the run.
    pub unified_memory_bytes: Option<u64>,
    /// Average measured power draw.
    pub power_watts: Measurement,
    /// Generated tokens per joule.
    pub tokens_per_joule: Measurement,
}

/// Everything the evidence rules read of a record.
#[derive(Clone, Debug, PartialEq)]
pub struct EvidenceFacts {
    /// Commit/model/hardware identity.
    pub identity: RunIdentity,
    /// Runtime configuration.
    pub execution: ExecutionConfig,
    /// Workload geometry.
    pub workload: WorkloadShape,
    /// Cache/service counters.
    pub caches: CacheCounters,
    /// What is known of the performance metrics.
    pub performance: PerformanceFacts,
    /// Speculation evidence when speculative execution was enabled.
    pub speculation: Option<SpeculationMetrics>,
    /// Mandatory correctness result.
    pub correctness: Option<CorrectnessGate>,
}

/// `Invalid { field, reason }`.
pub open spec fn invalid(field: &'static str, reason: &'static str) -> Option<EvidenceError> {
    Some(EvidenceError::Invalid { field, reason })
}

/// The message for an invalid real-valued measurement.
pub open spec fn not_positive() -> &'static str {
    "must be finite and greater than zero"
}

/// Some performance metric was measured.
pub open spec fn any_measurement(p: PerformanceFacts) -> bool {
    p.prefill_tokens_per_second != Measurement::Absent || p.decode_tokens_per_second != Measurement::Absent
        || p.ttft_micros is Some || p.p50_latency_micros is Some || p.p95_latency_micros is Some
        || p.unified_memory_bytes is Some || p.power_watts != Measurement::Absent || p.tokens_per_joule
        != Measurement::Absent
}

/// The first failing identity check.
pub open spec fn identity_error(id: RunIdentity) -> Option<EvidenceError> {
    if all_white_space(id.git_commit@) {
        Some(EvidenceError::Missing("git_commit"))
    } else if all_white_space(id.model_id@) {
        Some(EvidenceError::Missing("model_id"))
    } else if all_white_space(id.model_revision@) {
        Some(EvidenceError::Missing("model_revision"))
    } else if all_white_space(id.model_digest@) {
        Some(EvidenceError::Missing("model_digest"))
    } else if all_white_space(id.hardware@) {
        Some(EvidenceError::Missing("hardware"))
    } else {
        match id.mode {
            ExecutionMode::ExperimentalApproximate { label } => if all_white_space(label@) {
                Some(EvidenceError::Missing("experimental_mode_label"))
            } else {
                None
            },
            ExecutionMode::Exact => None,
        }
    }
}

/// `ids` strictly ascend: sorted, each ID once.
pub open spec fn strictly_ascending(ids: Seq<u32>) -> bool {
    forall|i: int, j: int| 0 <= i < j < ids.len() ==> #[trigger] ids[i] < #[trigger] ids[j]
}

/// The first failing execution-configuration check of a run in `mode`: a command, a runtime
/// configuration digest, a nonempty sorted affinity without repeats, and for exact evidence the
/// canonical `bf16` precision and `none` quantization labels.
pub open spec fn execution_error(mode: ExecutionMode, e: ExecutionConfig) -> Option<EvidenceError> {
    if e.command@.len() == 0 {
        Some(EvidenceError::Missing("execution.command"))
    } else if all_white_space(e.runtime_config_digest@) {
        Some(EvidenceError::Missing("execution.runtime_config_digest"))
    } else if e.cpu_placement->cpus@.len() == 0 {
        Some(EvidenceError::Missing("execution.cpu_placement"))
    } else if !strictly_ascending(e.cpu_placement->cpus@) {
        invalid("execution.cpu_placement", "CPU affinity must be sorted and unique")
    } else if mode == ExecutionMode::Exact && e.precision_mode@ != "bf16"@ {
        invalid("execution.precision_mode", "exact evidence requires bf16 precision")
    } else if mode == ExecutionMode::Exact && e.quantization_mode@ != "none"@ {
        invalid("execution.quantization_mode", "exact evidence requires no quantization")
    } else {
        None
    }
}

/// The first failing workload or performance check.
pub open spec fn measurement_error(w: WorkloadShape, p: PerformanceFacts) -> Option<EvidenceError> {
    if w.context_tokens == 0 {
        invalid("context_tokens", "must be nonzero")
    } else if w.prompt_tokens == 0 {
        invalid("prompt_tokens", "must be nonzero")
    } else if w.output_tokens == 0 {
        invalid("output_tokens", "must be nonzero")
    } else if w.concurrency == 0 {
        invalid("concurrency", "must be nonzero")
    } else if w.prompt_tokens > w.context_tokens {
        invalid("prompt_tokens", "cannot exceed context_tokens")
    } else if p.prefill_tokens_per_second == Measurement::Invalid {
        invalid("prefill_tokens_per_second", not_positive())
    } else if p.decode_tokens_per_second == Measurement::Invalid {
        invalid("decode_tokens_per_second", not_positive())
    } else if p.power_watts == Measurement::Invalid {
        invalid("power_watts", not_positive())
    } else if p.tokens_per_joule == Measurement::Invalid {
        invalid("tokens_per_joule", not_positive())
    } else if p.ttft_micros == Some(0u64) {
        invalid("ttft_micros", "must be greater than zero")
    } else if p.p50_latency_micros == Some(0u64) {
        invalid("p50_latency_micros", "must be greater than zero")
    } else if p.p95_latency_micros == Some(0u64) {
        invalid("p95_latency_micros", "must be greater than zero")
    } else if p.unified_memory_bytes == Some(0u64) {
        invalid("unified_memory_bytes", "must be greater than zero")
    } else if !any_measurement(p) {
        Some(EvidenceError::Missing("performance"))
    } else if p.p50_latency_micros matches Some(p50) && p.p95_latency_micros matches Some(p95) && p95 < p50 {
        invalid("p95_latency_micros", "cannot be lower than p50 latency")
    } else {
        None
    }
}

/// The first failing speculation check.
pub open spec fn speculation_error(s: Option<SpeculationMetrics>) -> Option<EvidenceError> {
    match s {
        None => None,
        Some(m) => if all_white_space(m.strategy@) {
            Some(EvidenceError::Missing("speculation.strategy"))
        } else if m.proposed_tokens == 0 {
            invalid("speculation.proposed_tokens", "must be nonzero")
        } else if m.accepted_tokens > m.proposed_tokens {
            invalid("speculation.accepted_tokens", "cannot exceed proposed tokens")
        } else if m.verified_cycles == 0 {
            invalid("speculation.verified_cycles", "must be nonzero")
        } else {
            None
        },
    }
}

/// The first failing correctness check.
pub open spec fn correctness_error(c: Option<CorrectnessGate>) -> Option<EvidenceError> {
    match c {
        None => Some(EvidenceError::Missing("correctness")),
        Some(CorrectnessGate::Passed { oracle, checked_tokens }) => if all_white_space(oracle@) {
            Some(EvidenceError::Missing("correctness.oracle"))
        } else if checked_tokens == 0 {
            invalid("correctness.checked_tokens", "must be nonzero")
        } else {
            None
        },
        Some(CorrectnessGate::Failed { oracle, checked_tokens, reason }) => if all_white_space(oracle@) {
            Some(EvidenceError::Missing("correctness.oracle"))
        } else if all_white_space(reason@) {
            Some(EvidenceError::Missing("correctness.reason"))
        } else if checked_tokens == 0 {
            invalid("correctness.checked_tokens", "must be nonzero")
        } else {
            None
        },
    }
}

/// What every accepted record satisfies, field by field.
pub open spec fn evidence_is_sound(f: EvidenceFacts) -> bool {
    &&& !all_white_space(f.identity.git_commit@)
    &&& !all_white_space(f.identity.model_id@)
    &&& !all_white_space(f.identity.model_revision@)
    &&& !all_white_space(f.identity.model_digest@)
    &&& !all_white_space(f.identity.hardware@)
    &&& (f.identity.mode matches ExecutionMode::ExperimentalApproximate { label } ==> !all_white_space(label@))
    &&& f.execution.command@.len() > 0
    &&& !all_white_space(f.execution.runtime_config_digest@)
    &&& f.execution.cpu_placement->cpus@.len() > 0
    &&& forall|i: int, j: int|
        0 <= i < j < f.execution.cpu_placement->cpus@.len() ==> #[trigger] f.execution.cpu_placement->cpus@[i]
            < #[trigger] f.execution.cpu_placement->cpus@[j]
    &&& (f.identity.mode is Exact ==> f.execution.precision_mode@ == "bf16"@ && f.execution.quantization_mode@
        == "none"@)
    &&& f.workload.context_tokens != 0
    &&& f.workload.prompt_tokens != 0
    &&& f.workload.output_tokens != 0
    &&& f.workload.concurrency != 0
    &&& f.workload.prompt_tokens <= f.workload.context_tokens
    &&& f.performance.prefill_tokens_per_second != Measurement::Invalid
    &&& f.performance.decode_tokens_per_second != Measurement::Invalid
    &&& f.performance.power_watts != Measurement::Invalid
    &&& f.performance.tokens_per_joule != Measurement::Invalid
    &&& f.performance.ttft_micros != Some(0u64)
    &&& f.performance.p50_latency_micros != Some(0u64)
    &&& f.performance.p95_latency_micros != Some(0u64)
    &&& f.performance.unified_memory_bytes != Some(0u64)
    &&& (f.performance.prefill_tokens_per_second == Measurement::Valid
        || f.performance.decode_tokens_per_second == Measurement::Valid
        || f.performance.ttft_micros is Some || f.performance.p50_latency_micros is Some
        || f.performance.p95_latency_micros is Some || f.performance.unified_memory_bytes is Some
        || f.performance.power_watts == Measurement::Valid
        || f.performance.tokens_per_joule == Measurement::Valid)
    &&& (f.performance.p50_latency_micros matches Some(p50) ==> (f.performance.p95_latency_micros matches Some(p95)
        ==> p50 <= p95))
    &&& f.caches.ple_prefetch_useful_rows <= f.caches.ple_prefetched_rows
    &&& (f.speculation matches Some(m) ==> {
        &&& !all_white_space(m.strategy@)
        &&& m.proposed_tokens != 0
        &&& m.accepted_tokens <= m.proposed_tokens
        &&& m.verified_cycles != 0
    })
    &&& f.correctness is Some
    &&& (f.correctness matches Some(CorrectnessGate::Passed { oracle, checked_tokens }) ==> !all_white_space(
        oracle@,
    ) && checked_tokens != 0)
    &&& (f.correctness matches Some(CorrectnessGate::Failed { oracle, checked_tokens, reason })
        ==> !all_white_space(oracle@) && !all_white_space(reason@) && checked_tokens != 0)
}

/// The first failing evidence rule, in the order checked.
pub open spec fn evidence_error(f: EvidenceFacts) -> Option<EvidenceError> {
    match identity_error(f.identity) {
        Some(e) => Some(e),
        None => match execution_error(f.identity.mode, f.execution) {
            Some(e) => Some(e),
            None => match measurement_error(f.workload, f.performance) {
                Some(e) => Some(e),
                None => if f.caches.ple_prefetch_useful_rows > f.caches.ple_prefetched_rows {
                    invalid("ple_prefetch_useful_rows", "cannot exceed prefetched row count")
                } else {
                    match speculation_error(f.speculation) {
                        Some(e) => Some(e),
                        None => correctness_error(f.correctness),
                    }
                },
            },
        },
    }
}

fn require_nonempty(value: &str, field: &'static str) -> (r: Result<(), EvidenceError>)
    ensures
        all_white_space(value@) ==> r == Err::<(), EvidenceError>(EvidenceError::Missing(field)),
        !all_white_space(value@) ==> r is Ok,
{
    if is_blank(value) {
        Err(EvidenceError::Missing(field))
    } else {
        Ok(())
    }
}

fn fail(field: &'static str, reason: &'static str) -> (r: Result<(), EvidenceError>)
    ensures
        r == Err::<(), EvidenceError>(EvidenceError::Invalid { field, reason }),
{
    Err(EvidenceError::Invalid { field, reason })
}

fn check_measurement(m: Measurement, field: &'static str) -> (r: Result<(), EvidenceError>)
    ensures
        m == Measurement::Invalid ==> r == Err::<(), EvidenceError>(
            EvidenceError::Invalid { field, reason: "must be finite and greater than zero" },
        ),
        m != Measurement::Invalid ==> r is Ok,
{
    match m {
        Measurement::Invalid => fail(field, "must be finite and greater than zero"),
        _ => Ok(()),
    }
}

/// A supplied integer measurement must be positive; an omitted one is fine.
fn check_count(m: Option<u64>, field: &'static str) -> (r: Result<(), EvidenceError>)
    ensures
        m == Some(0u64) ==> r == Err::<(), EvidenceError>(
            EvidenceError::Invalid { field, reason: "must be greater than zero" },
        ),
        m != Some(0u64) ==> r is Ok,
{
    match m {
        Some(0) => fail(field, "must be greater than zero"),
        _ => Ok(()),
    }
}

/// Check a run's execution configuration (see `execution_error`).
pub fn validate_execution(mode: &ExecutionMode, e: &ExecutionConfig) -> (r: Result<(), EvidenceError>)
    ensures
        match execution_error(*mode, *e) {
            Some(x) => r == Err::<(), EvidenceError>(x),
            None => r is Ok,
        },
{
    if e.command.len() == 0 {
        return Err(EvidenceError::Missing("execution.command"));
    }
    require_nonempty(e.runtime_config_digest.as_str(), "execution.runtime_config_digest")?;
    let cpus = match &e.cpu_placement {
        CpuPlacement::Affinity { cpus } => cpus,
    };
    if cpus.len() == 0 {
        return Err(EvidenceError::Missing("execution.cpu_placement"));
    }
    let mut i: usize = 1;
    while i < cpus.len()
        invariant
            1 <= i <= cpus@.len(),
            e.command@.len() > 0,
            !all_white_space(e.runtime_config_digest@),
            cpus@ == e.cpu_placement->cpus@,
            forall|a: int, b: int| 0 <= a < b < i ==> #[trigger] cpus@[a] < #[trigger] cpus@[b],
        decreases cpus@.len() - i,
    {
        if cpus[i - 1] >= cpus[i] {
            assert(!strictly_ascending(cpus@)) by {
                assert(!(cpus@[i - 1] < cpus@[i as int]));
            }
            return fail("execution.cpu_placement", "CPU affinity must be sorted and unique");
        }
        i += 1;
    }
    let exact = match mode {
        ExecutionMode::Exact => true,
        ExecutionMode::ExperimentalApproximate { .. } => false,
    };
    proof {
        reveal_strlit("bf16");
        reveal_strlit("none");
    }
    if exact && !same_text(e.precision_mode.as_str(), "bf16") {
        return fail("execution.precision_mode", "exact evidence requires bf16 precision");
    }
    if exact && !same_text(e.quantization_mode.as_str(), "none") {
        return fail("execution.quantization_mode", "exact evidence requires no quantization");
    }
    Ok(())
}

/// Validate that a record's facts are complete and internally consistent enough to act as
/// evidence.
pub fn validate_evidence(f: &EvidenceFacts) -> (r: Result<(), EvidenceError>)
    ensures
        match evidence_error(*f) {
            Some(e) => r == Err::<(), EvidenceError>(e),
            None => r is Ok,
        },
        r is Ok ==> evidence_is_sound(*f),
{
    let id = &f.identity;
    require_nonempty(id.git_commit.as_str(), "git_commit")?;
    require_nonempty(id.model_id.as_str(), "model_id")?;
    require_nonempty(id.model_revision.as_str(), "model_revision")?;
    require_nonempty(id.model_digest.as_str(), "model_digest")?;
    require_nonempty(id.hardware.as_str(), "hardware")?;
    match &id.mode {
        ExecutionMode::ExperimentalApproximate { label } => {
            require_nonempty(label.as_str(), "experimental_mode_label")?;
        },
        ExecutionMode::Exact => {},
    }
    validate_execution(&id.mode, &f.execution)?;
    let w = f.workload;
    if w.context_tokens == 0 {
        return fail("context_tokens", "must be nonzero");
    }
    if w.prompt_tokens == 0 {
        return fail("prompt_tokens", "must be nonzero");
    }
    if w.output_tokens == 0 {
        return fail("output_tokens", "must be nonzero");
    }
    if w.concurrency == 0 {
        return fail("concurrency", "must be nonzero");
    }
    if w.prompt_tokens > w.context_tokens {
        return fail("prompt_tokens", "cannot exceed context_tokens");
    }
    let p = f.performance;
    check_measurement(p.prefill_tokens_per_second, "prefill_tokens_per_second")?;
    check_measurement(p.decode_tokens_per_second, "decode_tokens_per_second")?;
    check_measurement(p.power_watts, "power_watts")?;
    check_measurement(p.tokens_per_joule, "tokens_per_joule")?;
    check_count(p.ttft_micros, "ttft_micros")?;
    check_count(p.p50_latency_micros, "p50_latency_micros")?;
    check_count(p.p95_latency_micros, "p95_latency_micros")?;
    check_count(p.unified_memory_bytes, "unified_memory_bytes")?;
    let any = !matches!(p.prefill_tokens_per_second, Measurement::Absent) || !matches!(
        p.decode_tokens_per_second,
        Measurement::Absent
    ) || p.ttft_micros.is_some() || p.p50_latency_micros.is_some() || p.p95_latency_micros.is_some()
        || p.unified_memory_bytes.is_some() || !matches!(p.power_watts, Measurement::Absent)
        || !matches!(p.tokens_per_joule, Measurement::Absent);
    if !any {
        return Err(EvidenceError::Missing("performance"));
    }
    match (p.p50_latency_micros, p.p95_latency_micros) {
        (Some(p50), Some(p95)) => {
            if p95 < p50 {
                return fail("p95_latency_micros", "cannot be lower than p50 latency");
            }
        },
        _ => {},
    }
    if f.caches.ple_prefetch_useful_rows > f.caches.ple_prefetched_rows {
        return fail("ple_prefetch_useful_rows", "cannot exceed prefetched row count");
    }
    match &f.speculation {
        Some(s) => {
            require_nonempty(s.strategy.as_str(), "speculation.strategy")?;
            if s.proposed_tokens == 0 {
                return fail("speculation.proposed_tokens", "must be nonzero");
            }
            if s.accepted_tokens > s.proposed_tokens {
                return fail("speculation.accepted_tokens", "cannot exceed proposed tokens");
            }
            if s.verified_cycles == 0 {
                return fail("speculation.verified_cycles", "must be nonzero");
            }
        },
        None => {},
    }
    match &f.correctness {
        None => Err(EvidenceError::Missing("correctness")),
        Some(CorrectnessGate::Passed { oracle, checked_tokens }) => {
            require_nonempty(oracle.as_str(), "correctness.oracle")?;
            if *checked_tokens == 0 {
                return fail("correctness.checked_tokens", "must be nonzero");
            }
            Ok(())
        },
        Some(CorrectnessGate::Failed { oracle, checked_tokens, reason }) => {
            require_nonempty(oracle.as_str(), "correctness.oracle")?;
            require_nonempty(reason.as_str(), "correctness.reason")?;
            if *checked_tokens == 0 {
                return fail("correctness.checked_tokens", "must be nonzero");
            }
            Ok(())
        },
    }
}


/// Every record the evidence rules accept is sound field by field: identity present, execution
/// configuration complete, workload consistent, measurements positive and ordered, speculation
/// accepting no more than it proposed, and a correctness result present.
pub proof fn law_accepted_evidence_is_sound(f: EvidenceFacts)
    requires
        evidence_error(f) is None,
    ensures
        evidence_is_sound(f),
{
}
} // verus!
