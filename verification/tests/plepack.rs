use gb10x::layout::OverlayAdmissionBudget;
use gb10x::plepack::{plan_from_trace_json, plan_from_trace_json_with_budget, PlanFromTraceError};
use gb10x::PlePackError;

#[test]
fn trace_json_builds_deterministic_hot_overlay_plan() {
    let trace = r#"[[9,3,7,3],[9,7,11],[2,1],[7,9]]"#;
    let plan = plan_from_trace_json(40, 320, 4096, trace).expect("plan");
    assert_eq!(plan.hot_physical_order(), &[3, 7, 9, 11, 1, 2]);
    assert_eq!(plan.hot_overlay_placements().len(), 6);
}

#[test]
fn invalid_trace_json_is_rejected() {
    assert!(plan_from_trace_json(40, 320, 4096, "not-json").is_err());
}

#[test]
fn trace_json_admission_respects_the_requested_overlay_budget() {
    let trace = r#"[[9,3,7,3],[9,7,11],[2,1],[7,9]]"#;
    let budget = OverlayAdmissionBudget::with_hot_row_cap(2).with_overlay_byte_cap(4_096);
    let plan =
        plan_from_trace_json_with_budget(40, 320, 4_096, trace, budget).expect("bounded plan");
    assert_eq!(plan.hot_physical_order(), &[3, 7]);
}

#[test]
fn decoded_trace_errors_keep_their_source() {
    assert!(matches!(
        plan_from_trace_json(40, 320, 4096, "[[1,-2]]"),
        Err(PlanFromTraceError::Json(_))
    ));
    assert!(matches!(
        plan_from_trace_json(4, 320, 4096, "[[1],[4]]"),
        Err(PlanFromTraceError::Layout(PlePackError::TraceRowOutOfRange { row: 4, row_count: 4 }))
    ));
    assert!(matches!(
        plan_from_trace_json(4, 0, 4096, "[]"),
        Err(PlanFromTraceError::Layout(_))
    ));
}

#[test]
fn an_empty_trace_plans_no_overlay() {
    let plan = plan_from_trace_json(8, 64, 4096, "[]").unwrap();
    assert!(plan.hot_physical_order().is_empty());
    assert_eq!(plan.base_row_count(), 8);
    assert_eq!(plan.base_offset(3).unwrap(), 3 * 64);
}
