use gb10x::format::PlePackError;
use gb10x::layout::{plan_exact_layout, plan_exact_layout_with_budget, OverlayAdmissionBudget};
use std::collections::BTreeSet;

fn trace() -> Vec<Vec<u32>> {
    vec![vec![9, 3, 7, 3], vec![9, 7, 11], vec![2, 1], vec![7, 9]]
}

#[test]
fn same_trace_produces_byte_identical_plan() {
    let first = plan_exact_layout(40, 320, 4096, &trace()).expect("layout");
    let second = plan_exact_layout(40, 320, 4096, &trace()).expect("layout");
    assert_eq!(first.hot_physical_order(), second.hot_physical_order());
    assert_eq!(first.hot_overlay_placements(), second.hot_overlay_placements());
    assert_eq!(first.base_row_count(), second.base_row_count());
    assert_eq!(first.row_bytes(), second.row_bytes());
    assert_eq!(first.block_bytes(), second.block_bytes());
}

#[test]
fn cold_base_region_maps_every_logical_row_without_an_index() {
    let plan = plan_exact_layout(40, 320, 4096, &trace()).expect("layout");
    assert_eq!(plan.base_row_count(), 40);
    assert_eq!(plan.base_offset(0).unwrap(), 0);
    assert_eq!(plan.base_offset(1).unwrap(), 320);
    assert_eq!(plan.base_offset(39).unwrap(), 39 * 320);
    assert!(plan.base_offset(40).is_err());
}

#[test]
fn hot_overlay_contains_each_observed_row_at_most_once() {
    let plan = plan_exact_layout(40, 320, 4096, &trace()).expect("layout");
    let rows = plan
        .hot_overlay_placements()
        .iter()
        .map(|placement| placement.logical_row)
        .collect::<BTreeSet<_>>();
    assert_eq!(rows, BTreeSet::from([1, 2, 3, 7, 9, 11]));
    assert_eq!(rows.len(), plan.hot_overlay_placements().len());
}

#[test]
fn no_hot_overlay_row_crosses_block_boundary() {
    let plan = plan_exact_layout(40, 320, 4096, &trace()).expect("layout");
    for placement in plan.hot_overlay_placements() {
        assert!(placement.offset_in_block as u64 + 320 <= 4096);
    }
}

#[test]
fn first_observed_coaccess_group_is_physically_adjacent() {
    let plan = plan_exact_layout(40, 320, 4096, &trace()).expect("layout");
    assert_eq!(&plan.hot_physical_order()[..3], &[3, 7, 9]);
}

#[test]
fn rejects_impossible_block_geometry_and_out_of_range_trace_rows() {
    assert!(plan_exact_layout(40, 320, 256, &trace()).is_err());
    assert!(plan_exact_layout(40, 320, 4096, &[vec![40]]).is_err());
}

#[test]
fn placements_pack_whole_rows_into_consecutive_slots() {
    let plan = plan_exact_layout(40, 320, 1000, &trace()).expect("layout");
    let placements = plan.hot_overlay_placements();
    assert_eq!(plan.hot_physical_order(), &[3, 7, 9, 11, 1, 2]);
    let slots: Vec<(u64, u32)> = placements.iter().map(|p| (p.block_id, p.offset_in_block)).collect();
    assert_eq!(slots, vec![(0, 0), (0, 320), (0, 640), (1, 0), (1, 320), (1, 640)]);
    assert_eq!(plan.hot_overlay_storage_bytes().unwrap(), 2000);
}

#[test]
fn geometry_errors_are_reported_in_order() {
    assert_eq!(
        plan_exact_layout(0, 320, 4096, &trace()).unwrap_err(),
        PlePackError::InvalidGeometry("row_count must be nonzero")
    );
    assert_eq!(
        plan_exact_layout(40, 0, 4096, &trace()).unwrap_err(),
        PlePackError::InvalidGeometry("row_bytes must be nonzero")
    );
    assert_eq!(
        plan_exact_layout(40, 320, 4096, &[vec![1], vec![41, 50]]).unwrap_err(),
        PlePackError::TraceRowOutOfRange { row: 41, row_count: 40 }
    );
    let budget = OverlayAdmissionBudget::unbounded();
    assert!(plan_exact_layout_with_budget(40, 320, 4096, &[], budget).unwrap().hot_physical_order().is_empty());
}

#[test]
fn reordering_or_repeating_rows_within_a_batch_keeps_the_plan() {
    let a = vec![vec![9, 3, 7], vec![4, 1], vec![3, 12]];
    let b = vec![vec![7, 9, 3, 3, 9], vec![1, 4, 1], vec![12, 3]];
    let pa = plan_exact_layout(64, 128, 4096, &a).unwrap();
    let pb = plan_exact_layout(64, 128, 4096, &b).unwrap();
    assert_eq!(pa, pb);
    assert_eq!(pa.hot_physical_order(), &[3, 7, 9, 1, 4, 12]);
    let wide_a = vec![vec![70, 3], vec![65]];
    let wide_b = vec![vec![3, 70, 70], vec![65]];
    assert_eq!(
        format!("{:?}", plan_exact_layout(64, 128, 4096, &wide_a)),
        format!("{:?}", plan_exact_layout(64, 128, 4096, &wide_b))
    );
}
