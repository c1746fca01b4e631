//! PLEPack planning from a JSON workload trace.
use crate::format::PlePackError;
use crate::layout::{
    first_row_out_of_range, layout_geometry_error, plan_exact_layout_with_budget, planned_layout,
    trace_view, unbounded_budget, LayoutPlan, OverlayAdmissionBudget,
};
use vstd::prelude::*;

verus! {

/// `serde_json::Error` only travels through [`PlanFromTraceError::Json`]; its contents are never
/// read.
#[verifier::external_type_specification]
#[verifier::external_body]
pub struct ExJsonError(serde_json::Error);

/// Failure while converting a JSON workload trace into an exact PLEPack layout plan.
#[derive(Debug)]
pub enum PlanFromTraceError {
    /// Workload trace JSON was malformed.
    Json(serde_json::Error),
    /// The decoded trace or requested geometry violated exact PLEPack constraints.
    Layout(PlePackError),
}

/// The trace that `serde_json::from_str::<Vec<Vec<u32>>>` decodes from `text`, or `None` when
/// it rejects the text.
pub uninterp spec fn json_trace(text: Seq<char>) -> Option<Seq<Seq<u32>>>;

/// Decode a JSON array of arrays of `u32` (`serde_json::from_str::<Vec<Vec<u32>>>`).
///
/// The contract names the decoded trace `json_trace(text)`; what serde_json accepts is not
/// restated here.
#[verifier::external_body]
fn decode_trace(text: &str) -> (r: Result<Vec<Vec<u32>>, serde_json::Error>)
    ensures
        match r {
            Ok(trace) => json_trace(text@) == Some(trace_view(trace@)),
            Err(_) => json_trace(text@) is None,
        },
{
    serde_json::from_str::<Vec<Vec<u32>>>(text)
}

/// What planning a decoded trace gives: the layout of `plan_exact_layout_with_budget`.
pub open spec fn trace_plan_outcome(
    row_count: u64,
    row_bytes: u32,
    block_bytes: u32,
    trace: Seq<Seq<u32>>,
    budget: OverlayAdmissionBudget,
    r: Result<LayoutPlan, PlanFromTraceError>,
) -> bool {
    match layout_geometry_error(row_count, row_bytes, block_bytes) {
        Some(e) => r matches Err(PlanFromTraceError::Layout(x)) && x == e,
        None => match first_row_out_of_range(trace, row_count as int) {
            Some(row) => r matches Err(PlanFromTraceError::Layout(x)) && x
                == PlePackError::TraceRowOutOfRange { row, row_count },
            None => r is Ok && r->Ok_0@ == planned_layout(row_count, row_bytes, block_bytes, trace, budget),
        },
    }
}

/// Parse a JSON array-of-arrays trace and build the deterministic exact PLEPack layout under a
/// caller-supplied overlay admission budget.
pub fn plan_from_trace_json_with_budget(
    row_count: u64,
    row_bytes: u32,
    block_bytes: u32,
    trace_json: &str,
    budget: OverlayAdmissionBudget,
) -> (r: Result<LayoutPlan, PlanFromTraceError>)
    ensures
        match json_trace(trace_json@) {
            None => r matches Err(PlanFromTraceError::Json(_)),
            Some(trace) => trace_plan_outcome(row_count, row_bytes, block_bytes, trace, budget, r),
        },
        r is Ok ==> json_trace(trace_json@) is Some && 0 < row_count <= 0x1_0000_0000 && 0 < row_bytes
            <= block_bytes && forall|k: int, j: int|
            0 <= k < json_trace(trace_json@)->0.len() && 0 <= j < json_trace(trace_json@)->0[k].len()
                ==> #[trigger] json_trace(trace_json@)->0[k][j] < row_count,
{
    let trace = match decode_trace(trace_json) {
        Ok(trace) => trace,
        Err(e) => {
            return Err(PlanFromTraceError::Json(e));
        },
    };
    match plan_exact_layout_with_budget(row_count, row_bytes, block_bytes, trace.as_slice(), budget) {
        Ok(plan) => Ok(plan),
        Err(e) => Err(PlanFromTraceError::Layout(e)),
    }
}

/// Parse a JSON array-of-arrays trace and build the deterministic exact PLEPack layout with no
/// overlay admission limit.
pub fn plan_from_trace_json(row_count: u64, row_bytes: u32, block_bytes: u32, trace_json: &str) -> (r:
    Result<LayoutPlan, PlanFromTraceError>)
    ensures
        match json_trace(trace_json@) {
            None => r matches Err(PlanFromTraceError::Json(_)),
            Some(trace) => trace_plan_outcome(
                row_count,
                row_bytes,
                block_bytes,
                trace,
                unbounded_budget(),
                r,
            ),
        },
        r is Ok ==> json_trace(trace_json@) is Some && 0 < row_count <= 0x1_0000_0000 && 0 < row_bytes
            <= block_bytes && forall|k: int, j: int|
            0 <= k < json_trace(trace_json@)->0.len() && 0 <= j < json_trace(trace_json@)->0[k].len()
                ==> #[trigger] json_trace(trace_json@)->0[k][j] < row_count,
{
    plan_from_trace_json_with_budget(
        row_count,
        row_bytes,
        block_bytes,
        trace_json,
        OverlayAdmissionBudget::unbounded(),
    )
}

} // verus!
