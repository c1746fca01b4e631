//! Deterministic exact PLEPack base/overlay layout planning.
use crate::format::{PlePackError, LOGICAL_ROW_SPACE};
use std::collections::BTreeSet;
use vstd::prelude::*;

verus! {

broadcast use {vstd::std_specs::btree::group_btree_axioms, vstd::laws_cmp::group_laws_cmp};

/// Physical location of one duplicated hot logical row inside the overlay region.
#[derive(Clone, Copy, Debug, PartialEq, Eq)]
pub struct HotOverlayPlacement {
    /// Logical PLE row ID in the immutable exact base region.
    pub logical_row: u32,
    /// Zero-based block ID relative to the beginning of the hot overlay region.
    pub block_id: u64,
    /// Byte offset of the complete row inside its overlay block.
    pub offset_in_block: u32,
}

/// Caps on how much of a trace is admitted into the hot overlay.
#[derive(Clone, Copy, Debug, PartialEq, Eq)]
pub struct OverlayAdmissionBudget {
    /// Maximum number of unique hot rows, if capped.
    pub max_hot_rows: Option<u64>,
    /// Maximum block-padded overlay data bytes, if capped.
    pub max_overlay_bytes: Option<u64>,
}

/// Number of whole blocks needed for `n` rows packed `rows_per_block` to a block.
pub open spec fn blocks_for(n: int, rows_per_block: int) -> int {
    (n + rows_per_block - 1) / rows_per_block
}

/// Block-padded overlay bytes needed for `n` hot rows.
pub open spec fn overlay_bytes_for(n: int, rows_per_block: int, block_bytes: int) -> int {
    blocks_for(n, rows_per_block) * block_bytes
}

impl OverlayAdmissionBudget {
    /// No cap: every traced row is admitted.
    pub fn unbounded() -> (r: Self)
        ensures
            r.max_hot_rows is None && r.max_overlay_bytes is None,
    {
        Self { max_hot_rows: None, max_overlay_bytes: None }
    }

    /// Admit at most `max_hot_rows` unique hot rows.
    pub fn with_hot_row_cap(max_hot_rows: u64) -> (r: Self)
        ensures
            r.max_hot_rows == Some(max_hot_rows) && r.max_overlay_bytes is None,
    {
        Self { max_hot_rows: Some(max_hot_rows), max_overlay_bytes: None }
    }

    /// Additionally cap the block-padded overlay data bytes.
    pub fn with_overlay_byte_cap(self, max_overlay_bytes: u64) -> (r: Self)
        ensures
            r.max_hot_rows == self.max_hot_rows && r.max_overlay_bytes == Some(max_overlay_bytes),
    {
        Self { max_overlay_bytes: Some(max_overlay_bytes), ..self }
    }

    /// Whether `n` hot rows fit both caps.
    pub open spec fn admits(self, n: int, rows_per_block: int, block_bytes: int) -> bool {
        &&& (self.max_hot_rows matches Some(cap) ==> n <= cap)
        &&& (self.max_overlay_bytes matches Some(cap) ==> overlay_bytes_for(
            n,
            rows_per_block,
            block_bytes,
        ) <= cap)
    }

    /// Largest `k <= n` such that `k` hot rows fit the budget.
    pub open spec fn admitted_count(self, n: nat, rows_per_block: int, block_bytes: int) -> nat
        decreases n,
    {
        if n == 0 || self.admits(n as int, rows_per_block, block_bytes) {
            n
        } else {
            self.admitted_count((n - 1) as nat, rows_per_block, block_bytes)
        }
    }
}

/// Smallest element of `group` that is at least `lo`.
pub open spec fn min_at_least(group: Seq<u32>, lo: int) -> Option<u32>
    decreases group.len(),
{
    if group.len() == 0 {
        None
    } else {
        let rest = min_at_least(group.drop_last(), lo);
        let x = group.last();
        if x < lo {
            rest
        } else {
            match rest {
                None => Some(x),
                Some(m) => if x < m {
                    Some(x)
                } else {
                    Some(m)
                },
            }
        }
    }
}

/// Distinct elements of `group` that are at least `lo`, in ascending order.
pub open spec fn ascending_from(group: Seq<u32>, lo: int) -> Seq<u32>
    decreases LOGICAL_ROW_SPACE - lo,
{
    match min_at_least(group, lo) {
        None => Seq::empty(),
        Some(m) => {
            proof {
                lemma_min_at_least(group, lo);
            }
            seq![m] + ascending_from(group, m + 1)
        },
    }
}

/// `seen` extended, in order, by each element of `rows` it does not contain yet.
pub open spec fn admit_unseen(seen: Seq<u32>, rows: Seq<u32>) -> Seq<u32>
    decreases rows.len(),
{
    if rows.len() == 0 {
        seen
    } else {
        let before = admit_unseen(seen, rows.drop_last());
        if before.contains(rows.last()) {
            before
        } else {
            before.push(rows.last())
        }
    }
}

/// Hot rows in physical order: every traced row once, groups in trace order, each group's new
/// rows ascending.
pub open spec fn hot_order(trace: Seq<Seq<u32>>) -> Seq<u32>
    decreases trace.len(),
{
    if trace.len() == 0 {
        Seq::empty()
    } else {
        admit_unseen(hot_order(trace.drop_last()), ascending_from(trace.last(), 0))
    }
}

/// The first traced row at or beyond `row_count`, scanning groups in order and each group
/// ascending.
pub open spec fn first_row_out_of_range(trace: Seq<Seq<u32>>, row_count: int) -> Option<u32>
    decreases trace.len(),
{
    if trace.len() == 0 {
        None
    } else {
        match first_row_out_of_range(trace.drop_last(), row_count) {
            Some(r) => Some(r),
            None => min_at_least(trace.last(), row_count),
        }
    }
}

/// Placement of the `ordinal`-th hot row: consecutive whole-row slots, `rows_per_block` per block.
pub open spec fn placement_for(ordinal: int, row: u32, rows_per_block: int, row_bytes: int) -> HotOverlayPlacement {
    HotOverlayPlacement {
        logical_row: row,
        block_id: (ordinal / rows_per_block) as u64,
        offset_in_block: ((ordinal % rows_per_block) * row_bytes) as u32,
    }
}

/// Abstract exact layout: cold-base geometry plus the hot overlay order and placements.
pub struct LayoutView {
    pub row_count: u64,
    pub row_bytes: u32,
    pub block_bytes: u32,
    pub hot_physical_order: Seq<u32>,
    pub placements: Seq<HotOverlayPlacement>,
}

impl LayoutView {
    pub open spec fn rows_per_block(self) -> int {
        self.block_bytes as int / self.row_bytes as int
    }

    /// Placements are derived from the hot order, which holds distinct in-range rows.
    pub open spec fn well_formed(self) -> bool {
        &&& 1 <= self.row_count <= LOGICAL_ROW_SPACE
        &&& self.row_bytes > 0
        &&& self.block_bytes >= self.row_bytes
        &&& self.placements.len() == self.hot_physical_order.len()
        &&& self.hot_physical_order.no_duplicates()
        &&& self.hot_physical_order.len() <= LOGICAL_ROW_SPACE
        &&& forall|i: int|
            0 <= i < self.hot_physical_order.len() ==> #[trigger] self.hot_physical_order[i]
                < self.row_count
        &&& forall|i: int|
            0 <= i < self.placements.len() ==> #[trigger] self.placements[i] == placement_for(
                i,
                self.hot_physical_order[i],
                self.rows_per_block(),
                self.row_bytes as int,
            )
    }
}

/// What planning rejects, in the order it checks; `None` when the geometry is valid.
pub open spec fn layout_geometry_error(row_count: u64, row_bytes: u32, block_bytes: u32) -> Option<
    PlePackError,
> {
    if row_count == 0 {
        Some(PlePackError::InvalidGeometry("row_count must be nonzero"))
    } else if row_count > LOGICAL_ROW_SPACE {
        Some(PlePackError::InvalidGeometry("logical row space must fit u32 row identifiers"))
    } else if row_bytes == 0 {
        Some(PlePackError::InvalidGeometry("row_bytes must be nonzero"))
    } else if block_bytes < row_bytes {
        Some(PlePackError::InvalidGeometry("block_bytes must fit at least one complete row"))
    } else {
        None
    }
}

/// The plan `plan_exact_layout_with_budget` produces for valid inputs.
pub open spec fn planned_layout(
    row_count: u64,
    row_bytes: u32,
    block_bytes: u32,
    trace: Seq<Seq<u32>>,
    budget: OverlayAdmissionBudget,
) -> LayoutView {
    let rows_per_block = block_bytes as int / row_bytes as int;
    let all_hot = hot_order(trace);
    let order = all_hot.take(
        budget.admitted_count(all_hot.len(), rows_per_block, block_bytes as int) as int,
    );
    LayoutView {
        row_count,
        row_bytes,
        block_bytes,
        hot_physical_order: order,
        placements: Seq::new(
            order.len(),
            |i: int| placement_for(i, order[i], rows_per_block, row_bytes as int),
        ),
    }
}

/// Exact PLEPack layout: identity-mapped cold base plus bounded locality-optimized hot overlay.
#[derive(Debug, PartialEq, Eq)]
pub struct LayoutPlan {
    row_count: u64,
    row_bytes: u32,
    block_bytes: u32,
    hot_physical_order: Vec<u32>,
    hot_overlay_placements: Vec<HotOverlayPlacement>,
}

impl View for LayoutPlan {
    type V = LayoutView;

    closed spec fn view(&self) -> LayoutView {
        LayoutView {
            row_count: self.row_count,
            row_bytes: self.row_bytes,
            block_bytes: self.block_bytes,
            hot_physical_order: self.hot_physical_order@,
            placements: self.hot_overlay_placements@,
        }
    }
}

impl LayoutPlan {
    #[verifier::type_invariant]
    closed spec fn inv(self) -> bool {
        self@.well_formed()
    }
}

impl Clone for LayoutPlan {
    fn clone(&self) -> (c: Self)
        ensures
            c@ == self@,
    {
        proof {
            use_type_invariant(self);
        }
        let order = self.hot_physical_order.clone();
        let placements = self.hot_overlay_placements.clone();
        assert(order@ =~= self.hot_physical_order@);
        assert(placements@ =~= self.hot_overlay_placements@);
        Self {
            row_count: self.row_count,
            row_bytes: self.row_bytes,
            block_bytes: self.block_bytes,
            hot_physical_order: order,
            hot_overlay_placements: placements,
        }
    }
}

impl LayoutPlan {
    /// Number of exact rows in the immutable identity-mapped cold base region.
    pub fn base_row_count(&self) -> (r: u64)
        ensures
            r == self@.row_count,
    {
        self.row_count
    }

    /// Byte offset of `logical_row` inside the exact cold base region: the base keeps logical
    /// order, so no index is needed.
    pub fn base_offset(&self, logical_row: u32) -> (r: Result<u64, PlePackError>)
        ensures
            logical_row >= self@.row_count ==> r == Err::<u64, PlePackError>(
                PlePackError::LogicalRowOutOfRange { row: logical_row, row_count: self@.row_count },
            ),
            logical_row < self@.row_count ==> r == Ok::<u64, PlePackError>(
                (logical_row * self@.row_bytes) as u64,
            ),
    {
        if logical_row as u64 >= self.row_count {
            return Err(
                PlePackError::LogicalRowOutOfRange { row: logical_row, row_count: self.row_count },
            );
        }
        assert(logical_row as u64 * self.row_bytes as u64 <= u64::MAX) by (nonlinear_arith)
            requires
                logical_row <= u32::MAX,
                self.row_bytes <= u32::MAX,
        {}
        match (logical_row as u64).checked_mul(self.row_bytes as u64) {
            Some(offset) => Ok(offset),
            None => Err(PlePackError::Overflow("cold base row offset")),
        }
    }

    /// Hot rows in their deterministic physical overlay order.
    pub fn hot_physical_order(&self) -> (r: &[u32])
        ensures
            r@ == self@.hot_physical_order,
    {
        self.hot_physical_order.as_slice()
    }

    /// Physical overlay placements corresponding to [`Self::hot_physical_order`].
    pub fn hot_overlay_placements(&self) -> (r: &[HotOverlayPlacement])
        ensures
            r@ == self@.placements,
    {
        self.hot_overlay_placements.as_slice()
    }

    /// Exact logical row width in bytes.
    pub fn row_bytes(&self) -> (r: u32)
        ensures
            r == self@.row_bytes,
    {
        self.row_bytes
    }

    /// Overlay block size in bytes.
    pub fn block_bytes(&self) -> (r: u32)
        ensures
            r == self@.block_bytes,
    {
        self.block_bytes
    }

    /// Block-padded byte size of the hot overlay data region.
    pub fn hot_overlay_storage_bytes(&self) -> (r: Result<u64, PlePackError>)
        ensures
            ({
                let bytes = overlay_bytes_for(
                    self@.placements.len() as int,
                    self@.rows_per_block(),
                    self@.block_bytes as int,
                );
                &&& bytes <= u64::MAX ==> r == Ok::<u64, PlePackError>(bytes as u64)
                &&& bytes > u64::MAX ==> r == Err::<u64, PlePackError>(
                    PlePackError::Overflow("hot overlay storage size"),
                )
            }),
    {
        proof {
            use_type_invariant(self);
            lemma_rows_per_block_positive(self@);
        }
        let n = self.hot_overlay_placements.len();
        if n == 0 {
            proof {
                assert(blocks_for(0, self@.rows_per_block()) == 0) by (nonlinear_arith)
                    requires
                        self@.rows_per_block() > 0,
                {}
            }
            return Ok(0);
        }
        let last = self.hot_overlay_placements[n - 1];
        proof {
            let rpb = self@.rows_per_block();
            assert(last.block_id == (n - 1) / rpb);
            vstd::arithmetic::div_mod::lemma_hoist_over_denominator(n - 1, 1, rpb as nat);
        }
        match last.block_id.checked_add(1) {
            Some(blocks) => match blocks.checked_mul(self.block_bytes as u64) {
                Some(bytes) => Ok(bytes),
                None => Err(PlePackError::Overflow("hot overlay storage size")),
            },
            None => {
                proof {
                    assert((last.block_id + 1) * self.block_bytes > u64::MAX) by (nonlinear_arith)
                        requires
                            last.block_id + 1 > u64::MAX,
                            self.block_bytes >= 1,
                    {}
                }
                Err(PlePackError::Overflow("hot overlay storage size"))
            },
        }
    }
}

/// A well-formed layout packs at least one row per block.
pub proof fn lemma_rows_per_block_positive(plan: LayoutView)
    requires
        plan.well_formed(),
    ensures
        plan.rows_per_block() >= 1,
{
    vstd::arithmetic::div_mod::lemma_div_is_ordered(
        plan.row_bytes as int,
        plan.block_bytes as int,
        plan.row_bytes as int,
    );
    vstd::arithmetic::div_mod::lemma_div_basics(plan.row_bytes as int);
}

/// Facts about `min_at_least`: it is the least element not below `lo`, if there is one.
pub proof fn lemma_min_at_least(group: Seq<u32>, lo: int)
    ensures
        match min_at_least(group, lo) {
            None => forall|i: int| 0 <= i < group.len() ==> #[trigger] group[i] < lo,
            Some(m) => {
                &&& m >= lo
                &&& group.contains(m)
                &&& forall|i: int| 0 <= i < group.len() && group[i] >= lo ==> m <= #[trigger] group[i]
            },
        },
    decreases group.len(),
{
    if group.len() > 0 {
        let init = group.drop_last();
        lemma_min_at_least(init, lo);
        assert forall|i: int| 0 <= i < init.len() implies init[i] == group[i] by {}
        if let Some(m) = min_at_least(init, lo) {
            let k = choose|k: int| 0 <= k < init.len() && init[k] == m;
            assert(group[k] == m);
        }
        assert(group[group.len() - 1] == group.last());
    }
}

/// Group `k` of `trace`, viewed as a sequence.
pub open spec fn trace_view(trace: Seq<Vec<u32>>) -> Seq<Seq<u32>> {
    trace.map_values(|group: Vec<u32>| group@)
}

/// Admission never gets easier with more rows: a budget that fits `n` rows fits fewer.
pub proof fn lemma_admits_monotone(
    budget: OverlayAdmissionBudget,
    m: int,
    n: int,
    rows_per_block: int,
    block_bytes: int,
)
    requires
        0 <= m <= n,
        rows_per_block > 0,
        block_bytes >= 0,
        budget.admits(n, rows_per_block, block_bytes),
    ensures
        budget.admits(m, rows_per_block, block_bytes),
{
    assert(blocks_for(m, rows_per_block) <= blocks_for(n, rows_per_block)) by (nonlinear_arith)
        requires
            0 <= m <= n,
            rows_per_block > 0,
    {
        vstd::arithmetic::div_mod::lemma_div_is_ordered(
            m + rows_per_block - 1,
            n + rows_per_block - 1,
            rows_per_block,
        );
    }
    assert(overlay_bytes_for(m, rows_per_block, block_bytes) <= overlay_bytes_for(
        n,
        rows_per_block,
        block_bytes,
    )) by (nonlinear_arith)
        requires
            blocks_for(m, rows_per_block) <= blocks_for(n, rows_per_block),
            block_bytes >= 0,
    {}
}

/// `admitted_count(n)` is the largest admissible row count not above `n`.
pub proof fn lemma_admitted_count(
    budget: OverlayAdmissionBudget,
    n: nat,
    rows_per_block: int,
    block_bytes: int,
)
    requires
        rows_per_block > 0,
        block_bytes >= 0,
    ensures
        budget.admitted_count(n, rows_per_block, block_bytes) <= n,
        budget.admits(budget.admitted_count(n, rows_per_block, block_bytes) as int, rows_per_block, block_bytes),
        budget.admitted_count(n, rows_per_block, block_bytes) < n ==> !budget.admits(
            (budget.admitted_count(n, rows_per_block, block_bytes) + 1) as int,
            rows_per_block,
            block_bytes,
        ),
    decreases n,
{
    if n == 0 {
        assert(blocks_for(0, rows_per_block) == 0) by (nonlinear_arith)
            requires
                rows_per_block > 0,
        {}
    } else if !budget.admits(n as int, rows_per_block, block_bytes) {
        lemma_admitted_count(budget, (n - 1) as nat, rows_per_block, block_bytes);
    }
}

/// Appending one more traced row moves the admitted count by at most that row.
proof fn lemma_admitted_count_step(
    budget: OverlayAdmissionBudget,
    n: nat,
    rows_per_block: int,
    block_bytes: int,
)
    requires
        rows_per_block > 0,
        block_bytes >= 0,
    ensures
        budget.admitted_count(n, rows_per_block, block_bytes) == n ==> budget.admitted_count(
            n + 1,
            rows_per_block,
            block_bytes,
        ) == if budget.admits((n + 1) as int, rows_per_block, block_bytes) {
            n + 1
        } else {
            n
        },
        budget.admitted_count(n, rows_per_block, block_bytes) < n ==> budget.admitted_count(
            n + 1,
            rows_per_block,
            block_bytes,
        ) == budget.admitted_count(n, rows_per_block, block_bytes),
{
    lemma_admitted_count(budget, n, rows_per_block, block_bytes);
    let k = budget.admitted_count(n, rows_per_block, block_bytes);
    if k < n {
        if budget.admits((n + 1) as int, rows_per_block, block_bytes) {
            lemma_admits_monotone(budget, (k + 1) as int, (n + 1) as int, rows_per_block, block_bytes);
        }
    }
}

/// A later prefix of the trace reports the same first out-of-range row as an earlier one.
proof fn lemma_first_out_of_range_prefix(trace: Seq<Seq<u32>>, k: int, j: int, row_count: int)
    requires
        0 <= k <= j <= trace.len(),
        first_row_out_of_range(trace.take(k), row_count) is Some,
    ensures
        first_row_out_of_range(trace.take(j), row_count) == first_row_out_of_range(
            trace.take(k),
            row_count,
        ),
    decreases j - k,
{
    if j > k {
        lemma_first_out_of_range_prefix(trace, k, j - 1, row_count);
        assert(trace.take(j).drop_last() =~= trace.take(j - 1));
    }
}

/// Budget check for `n` hot rows.
fn budget_admits(budget: OverlayAdmissionBudget, n: u128, rows_per_block: u64, block_bytes: u32) -> (r: bool)
    requires
        rows_per_block > 0,
        n <= u64::MAX + 1,
    ensures
        r == budget.admits(n as int, rows_per_block as int, block_bytes as int),
{
    if let Some(cap) = budget.max_hot_rows {
        if n > cap as u128 {
            return false;
        }
    }
    if let Some(cap) = budget.max_overlay_bytes {
        let blocks: u128 = (n + rows_per_block as u128 - 1) / rows_per_block as u128;
        assert(blocks <= 0x1_0000_0000_0000_0000u128) by (nonlinear_arith)
            requires
                blocks == (n as int + rows_per_block as int - 1) / rows_per_block as int,
                rows_per_block >= 1,
                n <= u64::MAX + 1,
        {}
        assert(blocks * (block_bytes as u128) <= 0x1_0000_0000_0000_0000u128 * 0x1_0000_0000u128)
            by (nonlinear_arith)
            requires
                blocks <= 0x1_0000_0000_0000_0000u128,
                block_bytes <= u32::MAX,
        {}
        let bytes: u128 = blocks * block_bytes as u128;
        if bytes > cap as u128 {
            return false;
        }
    }
    true
}

/// Smallest element of `group` that is at least `lo`.
pub fn find_min_at_least(group: &Vec<u32>, lo: u64) -> (r: Option<u32>)
    ensures
        r == min_at_least(group@, lo as int),
{
    let mut best: Option<u32> = None;
    let mut i: usize = 0;
    while i < group.len()
        invariant
            i <= group@.len(),
            best == min_at_least(group@.take(i as int), lo as int),
        decreases group@.len() - i,
    {
        assert(group@.take(i + 1).drop_last() =~= group@.take(i as int));
        let x = group[i];
        if x as u64 >= lo {
            best = match best {
                None => Some(x),
                Some(m) => if x < m {
                    Some(x)
                } else {
                    Some(m)
                },
            };
        }
        i += 1;
    }
    assert(group@.take(i as int) =~= group@);
    best
}

/// Build a deterministic exact PLEPack layout from observed row co-access traces, admitting hot
/// rows in trace order while they fit `budget`.
///
/// Every logical row stays exactly once in the index-free cold base. Only traced rows are
/// duplicated into the hot overlay; within each first-seen trace group the new rows are placed in
/// ascending order, so the same trace always yields the same plan. All trace rows are range-checked
/// even after the budget is exhausted.
pub fn plan_exact_layout_with_budget(
    row_count: u64,
    row_bytes: u32,
    block_bytes: u32,
    trace: &[Vec<u32>],
    budget: OverlayAdmissionBudget,
) -> (r: Result<LayoutPlan, PlePackError>)
    ensures
        match layout_geometry_error(row_count, row_bytes, block_bytes) {
            Some(e) => r == Err::<LayoutPlan, PlePackError>(e),
            None => match first_row_out_of_range(trace_view(trace@), row_count as int) {
                Some(row) => r == Err::<LayoutPlan, PlePackError>(
                    PlePackError::TraceRowOutOfRange { row, row_count },
                ),
                None => r is Ok && r->Ok_0@ == planned_layout(
                    row_count,
                    row_bytes,
                    block_bytes,
                    trace_view(trace@),
                    budget,
                ),
            },
        },
        r is Ok ==> 0 < row_count <= 0x1_0000_0000 && 0 < row_bytes <= block_bytes && forall|k: int, j: int|
            0 <= k < trace@.len() && 0 <= j < trace@[k]@.len() ==> #[trigger] trace@[k]@[j] < row_count,
        r matches Err(PlePackError::TraceRowOutOfRange { row, row_count: rc }) ==> rc == row_count && row
            >= row_count && exists|k: int| 0 <= k < trace@.len() && #[trigger] trace@[k]@.contains(row),
{
    proof {
        lemma_first_row_out_of_range(trace_view(trace@), row_count as int);
        assert forall|k: int| 0 <= k < trace@.len() implies #[trigger] trace_view(trace@)[k] == trace@[k]@ by {}
    }
    if row_count == 0 {
        return Err(PlePackError::InvalidGeometry("row_count must be nonzero"));
    }
    if row_count > LOGICAL_ROW_SPACE {
        return Err(PlePackError::InvalidGeometry("logical row space must fit u32 row identifiers"));
    }
    if row_bytes == 0 {
        return Err(PlePackError::InvalidGeometry("row_bytes must be nonzero"));
    }
    if block_bytes < row_bytes {
        return Err(PlePackError::InvalidGeometry("block_bytes must fit at least one complete row"));
    }
    let rows_per_block_u32 = block_bytes / row_bytes;
    assert(rows_per_block_u32 >= 1) by (nonlinear_arith)
        requires
            rows_per_block_u32 == block_bytes as int / row_bytes as int,
            block_bytes >= row_bytes,
            row_bytes > 0,
    {
        vstd::arithmetic::div_mod::lemma_div_is_ordered(row_bytes as int, block_bytes as int, row_bytes as int);
    }
    if rows_per_block_u32 == 0 {
        return Err(PlePackError::InvalidGeometry("block geometry yields zero complete rows"));
    }
    let rows_per_block = rows_per_block_u32 as u64;
    let ghost rpb = rows_per_block as int;
    let ghost bb = block_bytes as int;
    let ghost rc = row_count as int;
    let ghost tv = trace_view(trace@);

    let mut seen: BTreeSet<u32> = BTreeSet::new();
    let mut hot: Vec<u32> = Vec::new();
    let ghost mut full: Seq<u32> = Seq::empty();
    assert(tv.take(0) =~= Seq::<Seq<u32>>::empty());
    assert(hot@ =~= full.take(budget.admitted_count(full.len(), rpb, bb) as int));

    let mut k: usize = 0;
    while k < trace.len()
        invariant
            k <= trace@.len(),
            rows_per_block > 0,
            rpb == rows_per_block,
            bb == block_bytes,
            rc == row_count,
            1 <= row_count <= LOGICAL_ROW_SPACE,
            layout_geometry_error(row_count, row_bytes, block_bytes) is None,
            tv == trace_view(trace@),
            tv.len() == trace@.len(),
            first_row_out_of_range(tv.take(k as int), rc) is None,
            full == hot_order(tv.take(k as int)),
            full.no_duplicates(),
            forall|i: int| 0 <= i < full.len() ==> #[trigger] full[i] < rc,
            hot@ == full.take(budget.admitted_count(full.len(), rpb, bb) as int),
            seen@ == hot@.to_set(),
        decreases trace@.len() - k,
    {
        let group = &trace[k];
        assert(tv[k as int] == group@);
        assert(tv.take(k + 1).drop_last() =~= tv.take(k as int));
        assert(tv.take(k + 1).last() == group@);
        let ghost full_before = full;
        let ghost mut processed: Seq<u32> = Seq::empty();
        let mut lo: u64 = 0;
        assert(ascending_from(group@, 0) =~= processed + ascending_from(group@, lo as int));
        loop
            invariant
                rows_per_block > 0,
                rpb == rows_per_block,
                bb == block_bytes,
                rc == row_count,
                1 <= row_count <= LOGICAL_ROW_SPACE,
                lo <= row_count,
                layout_geometry_error(row_count, row_bytes, block_bytes) is None,
                tv == trace_view(trace@),
                ascending_from(group@, 0) == processed + ascending_from(group@, lo as int),
                full == admit_unseen(full_before, processed),
                full.no_duplicates(),
                forall|i: int| 0 <= i < full.len() ==> #[trigger] full[i] < rc,
                hot@ == full.take(budget.admitted_count(full.len(), rpb, bb) as int),
                seen@ == hot@.to_set(),
                first_row_out_of_range(tv.take(k as int), rc) is None,
                tv.take(k + 1).drop_last() == tv.take(k as int),
                tv.take(k + 1).last() == group@,
                k < trace@.len(),
                tv.len() == trace@.len(),
            ensures
                processed == ascending_from(group@, 0),
                forall|i: int| 0 <= i < group@.len() ==> #[trigger] group@[i] < row_count,
            decreases LOGICAL_ROW_SPACE - lo,
        {
            let next = find_min_at_least(group, lo);
            proof {
                lemma_min_at_least(group@, lo as int);
            }
            match next {
                None => {
                    assert(ascending_from(group@, lo as int) =~= Seq::<u32>::empty());
                    assert(processed + Seq::<u32>::empty() =~= processed);
                    break;
                },
                Some(x) => {
                    if x as u64 >= row_count {
                        proof {
                            lemma_min_at_least(group@, rc);
                            let xi = choose|i: int| 0 <= i < group@.len() && group@[i] == x;
                            assert(group@[xi] >= rc);
                            let m = min_at_least(group@, rc)->0;
                            let mi = choose|i: int| 0 <= i < group@.len() && group@[i] == m;
                            assert(group@[mi] >= lo);
                            assert(m == x);
                            assert(first_row_out_of_range(tv.take(k + 1), rc) == Some(x));
                            lemma_first_out_of_range_prefix(tv, k + 1, tv.len() as int, rc);
                            assert(tv.take(tv.len() as int) =~= tv);
                        }
                        return Err(PlePackError::TraceRowOutOfRange { row: x, row_count });
                    }
                    proof {
                        assert(ascending_from(group@, lo as int) == seq![x] + ascending_from(
                            group@,
                            x + 1,
                        ));
                        assert(processed.push(x) + ascending_from(group@, x + 1) =~= processed + (
                        seq![x] + ascending_from(group@, x + 1)));
                        assert(processed.push(x).drop_last() =~= processed);
                        lemma_admitted_count_step(budget, full.len(), rpb, bb);
                        lemma_admitted_count(budget, full.len(), rpb, bb);
                        if budget.admitted_count(full.len(), rpb, bb) == full.len() {
                            assert(hot@ =~= full);
                        }
                    }
                    let ghost old_hot = hot@;
                    let ghost old_seen = seen@;
                    let admit_next = budget_admits(budget, hot.len() as u128 + 1, rows_per_block, block_bytes);
                    let mut pushed = false;
                    if admit_next && !seen.contains(&x) {
                        hot.push(x);
                        seen.insert(x);
                        pushed = true;
                    }
                    proof {
                        let ac = budget.admitted_count(full.len(), rpb, bb);
                        assert(old_hot.len() == ac);
                        if pushed {
                            assert(hot@ == old_hot.push(x));
                            assert(seen@ == old_seen.insert(x));
                            old_hot.lemma_push_to_set_commute(x);
                        } else {
                            assert(hot@ == old_hot);
                        }
                        let new_full = if full.contains(x) {
                            full
                        } else {
                            full.push(x)
                        };
                        if !full.contains(x) {
                            assert forall|i: int, j: int|
                                0 <= i < j < full.push(x).len() implies full.push(x)[i] != full.push(
                                    x,
                                )[j] by {
                                if j == full.len() {
                                    assert(full[i] == full.push(x)[i]);
                                }
                            }
                        }
                        if full.contains(x) {
                            if ac == full.len() {
                                assert(old_hot =~= full);
                                assert(old_seen.contains(x));
                            }
                            assert(!pushed);
                        } else if ac == full.len() {
                            assert(old_hot =~= full);
                            assert(!old_seen.contains(x));
                            if budget.admits((full.len() + 1) as int, rpb, bb) {
                                assert(pushed);
                                assert(hot@ =~= new_full);
                                assert(new_full.take(new_full.len() as int) =~= new_full);
                            } else {
                                assert(!pushed);
                                assert(new_full.take(ac as int) =~= full);
                            }
                        } else {
                            assert(!pushed);
                            assert(new_full.take(ac as int) =~= full.take(ac as int));
                        }
                        assert(admit_unseen(full_before, processed.push(x)) == new_full);
                        full = new_full;
                        processed = processed.push(x);
                    }
                    lo = x as u64 + 1;
                },
            }
        }
        proof {
            assert(full == hot_order(tv.take(k + 1)));
            if let Some(m) = min_at_least(group@, rc) {
                lemma_min_at_least(group@, rc);
            }
            assert(first_row_out_of_range(tv.take(k + 1), rc) is None);
        }
        k += 1;
    }
    proof {
        assert(tv.take(trace@.len() as int) =~= tv);
    }

    proof {
        lemma_admitted_count(budget, full.len(), rpb, bb);
        assert forall|a: int, b: int| 0 <= a < b < hot@.len() implies hot@[a] != hot@[b] by {
            assert(hot@[a] == full[a] && hot@[b] == full[b]);
        }
        assert forall|a: int| 0 <= a < hot@.len() implies #[trigger] hot@[a] < row_count by {
            assert(hot@[a] == full[a]);
        }
        lemma_distinct_rows_bounded(hot@, row_count as int);
    }
    let n = hot.len();
    let mut placements: Vec<HotOverlayPlacement> = Vec::new();
    let mut i: usize = 0;
    while i < n
        invariant
            i <= n == hot@.len(),
            hot@.no_duplicates(),
            forall|a: int| 0 <= a < hot@.len() ==> #[trigger] hot@[a] < row_count,
            hot@.len() <= row_count,
            hot@ == full.take(budget.admitted_count(full.len(), rpb, bb) as int),
            layout_geometry_error(row_count, row_bytes, block_bytes) is None,
            placements@.len() == i,
            rows_per_block == block_bytes as int / row_bytes as int,
            rows_per_block > 0,
            row_bytes > 0,
            forall|j: int|
                0 <= j < i ==> #[trigger] placements@[j] == placement_for(
                    j,
                    hot@[j],
                    rows_per_block as int,
                    row_bytes as int,
                ),
        decreases n - i,
    {
        let ordinal = i as u64;
        let block_id = ordinal / rows_per_block;
        let slot = ordinal % rows_per_block;
        assert(slot * row_bytes < block_bytes) by (nonlinear_arith)
            requires
                slot < rows_per_block,
                rows_per_block == block_bytes as int / row_bytes as int,
                row_bytes > 0,
        {
            vstd::arithmetic::div_mod::lemma_fundamental_div_mod(block_bytes as int, row_bytes as int);
        }
        let offset = (slot * row_bytes as u64) as u32;
        placements.push(HotOverlayPlacement { logical_row: hot[i], block_id, offset_in_block: offset });
        i += 1;
    }
    let plan = LayoutPlan {
        row_count,
        row_bytes,
        block_bytes,
        hot_physical_order: hot,
        hot_overlay_placements: placements,
    };
    proof {
        let expected = planned_layout(row_count, row_bytes, block_bytes, tv, budget);
        assert(plan@.placements =~= expected.placements);
        assert(plan@.hot_physical_order =~= expected.hot_physical_order);
        lemma_first_row_out_of_range(trace_view(trace@), row_count as int);
        assert forall|k: int, j: int| 0 <= k < trace@.len() && 0 <= j < trace@[k]@.len() implies #[trigger] trace@[k]@[j]
            < row_count by {
            assert(trace_view(trace@)[k] == trace@[k]@);
            assert(trace_view(trace@)[k][j] == trace@[k]@[j]);
        }
    }
    Ok(plan)
}

/// The unbudgeted layout: every traced row is admitted.
pub open spec fn unbounded_budget() -> OverlayAdmissionBudget {
    OverlayAdmissionBudget { max_hot_rows: None, max_overlay_bytes: None }
}

/// Build a deterministic exact PLEPack layout that admits every traced row into the hot overlay.
pub fn plan_exact_layout(row_count: u64, row_bytes: u32, block_bytes: u32, trace: &[Vec<u32>]) -> (r:
    Result<LayoutPlan, PlePackError>)
    ensures
        match layout_geometry_error(row_count, row_bytes, block_bytes) {
            Some(e) => r == Err::<LayoutPlan, PlePackError>(e),
            None => match first_row_out_of_range(trace_view(trace@), row_count as int) {
                Some(row) => r == Err::<LayoutPlan, PlePackError>(
                    PlePackError::TraceRowOutOfRange { row, row_count },
                ),
                None => r is Ok && r->Ok_0@ == planned_layout(
                    row_count,
                    row_bytes,
                    block_bytes,
                    trace_view(trace@),
                    unbounded_budget(),
                ),
            },
        },
        r is Ok ==> 0 < row_count <= 0x1_0000_0000 && 0 < row_bytes <= block_bytes && forall|k: int, j: int|
            0 <= k < trace@.len() && 0 <= j < trace@[k]@.len() ==> #[trigger] trace@[k]@[j] < row_count,
        r matches Err(PlePackError::TraceRowOutOfRange { row, row_count: rc }) ==> rc == row_count && row
            >= row_count && exists|k: int| 0 <= k < trace@.len() && #[trigger] trace@[k]@.contains(row),
{
    plan_exact_layout_with_budget(
        row_count,
        row_bytes,
        block_bytes,
        trace,
        OverlayAdmissionBudget::unbounded(),
    )
}

/// Rows admitted from a list, on top of what was already seen.
pub proof fn lemma_admit_unseen(seen: Seq<u32>, rows: Seq<u32>)
    ensures
        seen.no_duplicates() ==> admit_unseen(seen, rows).no_duplicates(),
        forall|x: u32|
            admit_unseen(seen, rows).contains(x) <==> (seen.contains(x) || rows.contains(x)),
        seen.is_prefix_of(admit_unseen(seen, rows)),
    decreases rows.len(),
{
    if rows.len() > 0 {
        let before = admit_unseen(seen, rows.drop_last());
        lemma_admit_unseen(seen, rows.drop_last());
        let x = rows.last();
        assert forall|y: u32| rows.contains(y) <==> (rows.drop_last().contains(y) || y == x) by {
            if rows.contains(y) {
                let i = choose|i: int| 0 <= i < rows.len() && rows[i] == y;
                if i < rows.len() - 1 {
                    assert(rows.drop_last()[i] == y);
                }
            }
            if rows.drop_last().contains(y) {
                let i = choose|i: int| 0 <= i < rows.drop_last().len() && rows.drop_last()[i] == y;
                assert(rows[i] == y);
            }
            if y == x {
                assert(rows[rows.len() - 1] == y);
            }
        }
        assert forall|y: u32| before.push(x).contains(y) <==> (before.contains(y) || y == x) by {
            if before.push(x).contains(y) && y != x {
                let i = choose|i: int| 0 <= i < before.push(x).len() && before.push(x)[i] == y;
                assert(before[i] == y);
            }
            if before.contains(y) {
                let i = choose|i: int| 0 <= i < before.len() && before[i] == y;
                assert(before.push(x)[i] == y);
            }
            if y == x {
                assert(before.push(x)[before.len() as int] == y);
            }
        }
        if !before.contains(x) && seen.no_duplicates() {
            assert forall|i: int, j: int|
                0 <= i < j < before.push(x).len() implies before.push(x)[i] != before.push(x)[j] by {
                if j == before.len() {
                    assert(before[i] == before.push(x)[i]);
                }
            }
        }
    }
}

/// Distinct rows all below `bound` number at most `bound`.
pub proof fn lemma_distinct_rows_bounded(rows: Seq<u32>, bound: int)
    requires
        0 <= bound,
        rows.no_duplicates(),
        forall|i: int| 0 <= i < rows.len() ==> #[trigger] rows[i] < bound,
    ensures
        rows.len() <= bound,
    decreases bound,
{
    if bound == 0 {
        if rows.len() > 0 {
            assert(rows[0] < 0);
        }
    } else {
        let top = (bound - 1) as u32;
        if rows.contains(top) {
            let i = choose|i: int| 0 <= i < rows.len() && rows[i] == top;
            let rest = rows.remove(i);
            rows.remove_ensures(i);
            assert forall|a: int| 0 <= a < rest.len() implies #[trigger] rest[a] < bound - 1 by {
                if a < i {
                    assert(rest[a] == rows[a]);
                } else {
                    assert(rest[a] == rows[a + 1]);
                }
            }
            assert forall|a: int, b: int| 0 <= a < b < rest.len() implies rest[a] != rest[b] by {
                let ra = if a < i { a } else { a + 1 };
                let rb = if b < i { b } else { b + 1 };
                assert(rest[a] == rows[ra] && rest[b] == rows[rb]);
            }
            lemma_distinct_rows_bounded(rest, bound - 1);
        } else {
            assert forall|a: int| 0 <= a < rows.len() implies #[trigger] rows[a] < bound - 1 by {
                if rows[a] == top {
                    assert(rows.contains(top));
                }
            }
            lemma_distinct_rows_bounded(rows, bound - 1);
        }
    }
}

/// `ascending_from(group, lo)` lists exactly the elements of `group` not below `lo`, each once,
/// in strictly increasing order.
pub proof fn lemma_ascending_from(group: Seq<u32>, lo: int)
    ensures
        forall|x: u32| ascending_from(group, lo).contains(x) <==> (group.contains(x) && x >= lo),
        forall|i: int, j: int|
            0 <= i < j < ascending_from(group, lo).len() ==> ascending_from(group, lo)[i]
                < ascending_from(group, lo)[j],
        forall|i: int| 0 <= i < ascending_from(group, lo).len() ==> ascending_from(group, lo)[i] >= lo,
    decreases LOGICAL_ROW_SPACE - lo,
{
    lemma_min_at_least(group, lo);
    match min_at_least(group, lo) {
        None => {
            assert forall|x: u32| group.contains(x) implies x < lo by {
                let i = choose|i: int| 0 <= i < group.len() && group[i] == x;
            }
        },
        Some(m) => {
            lemma_ascending_from(group, m + 1);
            let rest = ascending_from(group, m + 1);
            let all = ascending_from(group, lo);
            assert(all == seq![m] + rest);
            assert forall|x: u32| all.contains(x) <==> (group.contains(x) && x >= lo) by {
                if all.contains(x) && x != m {
                    let i = choose|i: int| 0 <= i < all.len() && all[i] == x;
                    assert(rest[i - 1] == x);
                }
                if group.contains(x) && x >= lo && x != m {
                    let i = choose|i: int| 0 <= i < group.len() && group[i] == x;
                    assert(x >= m + 1);
                    assert(rest.contains(x));
                    let j = choose|j: int| 0 <= j < rest.len() && rest[j] == x;
                    assert(all[j + 1] == x);
                }
                if x == m {
                    assert(all[0] == x);
                }
            }
            assert forall|i: int, j: int| 0 <= i < j < all.len() implies all[i] < all[j] by {
                if i > 0 {
                    assert(all[i] == rest[i - 1] && all[j] == rest[j - 1]);
                } else {
                    assert(all[j] == rest[j - 1]);
                }
            }
        },
    }
}

/// The hot order holds every traced row exactly once, and nothing else.
pub proof fn lemma_hot_order(trace: Seq<Seq<u32>>)
    ensures
        hot_order(trace).no_duplicates(),
        forall|x: u32|
            hot_order(trace).contains(x) <==> exists|k: int| 0 <= k < trace.len() && #[trigger] trace[k].contains(x),
    decreases trace.len(),
{
    if trace.len() > 0 {
        let init = trace.drop_last();
        lemma_hot_order(init);
        lemma_ascending_from(trace.last(), 0);
        lemma_admit_unseen(hot_order(init), ascending_from(trace.last(), 0));
        assert forall|x: u32|
            hot_order(trace).contains(x) <==> exists|k: int| 0 <= k < trace.len() && #[trigger] trace[k].contains(x) by {
            if hot_order(init).contains(x) {
                let k = choose|k: int| 0 <= k < init.len() && #[trigger] init[k].contains(x);
                assert(trace[k] == init[k]);
            }
            if trace.last().contains(x) {
                assert(trace[trace.len() - 1].contains(x));
            }
            if exists|k: int| 0 <= k < trace.len() && #[trigger] trace[k].contains(x) {
                let k = choose|k: int| 0 <= k < trace.len() && #[trigger] trace[k].contains(x);
                if k < trace.len() - 1 {
                    assert(init[k] == trace[k]);
                }
            }
        }
    }
}

/// A layout produced for valid inputs satisfies every structural invariant of a plan.
pub proof fn law_planned_layout_is_well_formed(
    row_count: u64,
    row_bytes: u32,
    block_bytes: u32,
    trace: Seq<Seq<u32>>,
    budget: OverlayAdmissionBudget,
)
    requires
        layout_geometry_error(row_count, row_bytes, block_bytes) is None,
        first_row_out_of_range(trace, row_count as int) is None,
    ensures
        planned_layout(row_count, row_bytes, block_bytes, trace, budget).well_formed(),
{
    let plan = planned_layout(row_count, row_bytes, block_bytes, trace, budget);
    let all = hot_order(trace);
    lemma_hot_order(trace);
    lemma_rows_per_block_positive_geometry(row_bytes, block_bytes);
    lemma_admitted_count(budget, all.len(), plan.rows_per_block(), block_bytes as int);
    lemma_trace_rows_in_range(trace, row_count as int);
    assert forall|i: int| 0 <= i < plan.hot_physical_order.len() implies #[trigger] plan.hot_physical_order[i]
        < row_count by {
        assert(all.contains(plan.hot_physical_order[i]));
    }
    lemma_distinct_rows_bounded(plan.hot_physical_order, row_count as int);
}

/// Valid geometry packs at least one whole row per block.
proof fn lemma_rows_per_block_positive_geometry(row_bytes: u32, block_bytes: u32)
    requires
        row_bytes > 0,
        block_bytes >= row_bytes,
    ensures
        block_bytes as int / row_bytes as int >= 1,
{
    vstd::arithmetic::div_mod::lemma_div_is_ordered(row_bytes as int, block_bytes as int, row_bytes as int);
    vstd::arithmetic::div_mod::lemma_div_basics(row_bytes as int);
}

/// With no row out of range, every traced row is below `row_count`.
proof fn lemma_trace_rows_in_range(trace: Seq<Seq<u32>>, row_count: int)
    requires
        first_row_out_of_range(trace, row_count) is None,
    ensures
        forall|k: int, x: u32| 0 <= k < trace.len() && #[trigger] trace[k].contains(x) ==> x < row_count,
    decreases trace.len(),
{
    if trace.len() > 0 {
        lemma_trace_rows_in_range(trace.drop_last(), row_count);
        lemma_min_at_least(trace.last(), row_count);
        assert forall|k: int, x: u32| 0 <= k < trace.len() && #[trigger] trace[k].contains(x) implies x < row_count by {
            if k < trace.len() - 1 {
                assert(trace.drop_last()[k] == trace[k]);
            } else {
                let i = choose|i: int| 0 <= i < trace[k].len() && trace[k][i] == x;
                assert(trace.last()[i] == x);
            }
        }
    }
}

/// No hot row crosses an overlay block boundary.
pub proof fn law_no_hot_row_crosses_block_boundary(plan: LayoutView)
    requires
        plan.well_formed(),
    ensures
        forall|i: int|
            0 <= i < plan.placements.len() ==> #[trigger] plan.placements[i].offset_in_block
                + plan.row_bytes <= plan.block_bytes,
{
    lemma_rows_per_block_positive(plan);
    assert forall|i: int| 0 <= i < plan.placements.len() implies #[trigger] plan.placements[i].offset_in_block
        + plan.row_bytes <= plan.block_bytes by {
        let rpb = plan.rows_per_block();
        let rb = plan.row_bytes as int;
        let bb = plan.block_bytes as int;
        assert((i % rpb) * rb + rb <= bb) by (nonlinear_arith)
            requires
                rpb == bb / rb,
                rb > 0,
                rpb >= 1,
                0 <= i,
        {
            vstd::arithmetic::div_mod::lemma_fundamental_div_mod(bb, rb);
            vstd::arithmetic::div_mod::lemma_mod_bound(i, rpb);
        }
        assert(0 <= (i % rpb) * rb < bb) by (nonlinear_arith)
            requires
                (i % rpb) * rb + rb <= bb,
                rb > 0,
                rpb >= 1,
                0 <= i,
        {
            vstd::arithmetic::div_mod::lemma_mod_bound(i, rpb);
        }
    }
}

/// The byte offset of slot `ordinal % rows_per_block` stays inside its block.
proof fn lemma_slot_offset_in_block(ordinal: int, rows_per_block: int, row_bytes: int, block_bytes: int)
    requires
        ordinal >= 0,
        row_bytes > 0,
        rows_per_block >= 1,
        rows_per_block == block_bytes / row_bytes,
    ensures
        0 <= (ordinal % rows_per_block) * row_bytes,
        (ordinal % rows_per_block) * row_bytes + row_bytes <= block_bytes,
{
    assert((ordinal % rows_per_block) * row_bytes + row_bytes <= block_bytes) by (nonlinear_arith)
        requires
            rows_per_block == block_bytes / row_bytes,
            row_bytes > 0,
            rows_per_block >= 1,
            0 <= ordinal,
    {
        vstd::arithmetic::div_mod::lemma_fundamental_div_mod(block_bytes, row_bytes);
        vstd::arithmetic::div_mod::lemma_mod_bound(ordinal, rows_per_block);
    }
    assert(0 <= (ordinal % rows_per_block) * row_bytes) by (nonlinear_arith)
        requires
            row_bytes > 0,
            rows_per_block >= 1,
            0 <= ordinal,
    {
        vstd::arithmetic::div_mod::lemma_mod_bound(ordinal, rows_per_block);
    }
}

/// Distinct hot rows occupy distinct overlay slots.
pub proof fn law_hot_rows_occupy_distinct_slots(plan: LayoutView)
    requires
        plan.well_formed(),
    ensures
        forall|i: int, j: int|
            0 <= i < j < plan.placements.len() ==> (plan.placements[i].block_id, plan.placements[i].offset_in_block)
                != (plan.placements[j].block_id, plan.placements[j].offset_in_block),
{
    lemma_rows_per_block_positive(plan);
    law_no_hot_row_crosses_block_boundary(plan);
    assert forall|i: int, j: int| 0 <= i < j < plan.placements.len() implies (
    plan.placements[i].block_id, plan.placements[i].offset_in_block) != (
    plan.placements[j].block_id, plan.placements[j].offset_in_block) by {
        let rpb = plan.rows_per_block();
        let rb = plan.row_bytes as int;
        let pi = plan.placements[i];
        let pj = plan.placements[j];
        if pi.block_id == pj.block_id && pi.offset_in_block == pj.offset_in_block {
            assert(0 <= i / rpb <= i) by (nonlinear_arith)
                requires
                    rpb >= 1,
                    i >= 0,
            {
                vstd::arithmetic::div_mod::lemma_div_is_ordered_by_denominator(i, 1, rpb);
            }
            assert(0 <= j / rpb <= j) by (nonlinear_arith)
                requires
                    rpb >= 1,
                    j >= 0,
            {
                vstd::arithmetic::div_mod::lemma_div_is_ordered_by_denominator(j, 1, rpb);
            }
            assert(i / rpb == j / rpb);
            lemma_slot_offset_in_block(i, rpb, rb, plan.block_bytes as int);
            lemma_slot_offset_in_block(j, rpb, rb, plan.block_bytes as int);
            assert((i % rpb) * rb == (j % rpb) * rb);
            assert(i % rpb == j % rpb) by (nonlinear_arith)
                requires
                    (i % rpb) * rb == (j % rpb) * rb,
                    rb > 0,
            {}
            vstd::arithmetic::div_mod::lemma_fundamental_div_mod(i, rpb);
            vstd::arithmetic::div_mod::lemma_fundamental_div_mod(j, rpb);
        }
    }
}

/// Without a budget, the hot overlay holds every traced row exactly once and nothing else.
pub proof fn law_unbounded_overlay_holds_each_traced_row_once(
    row_count: u64,
    row_bytes: u32,
    block_bytes: u32,
    trace: Seq<Seq<u32>>,
)
    requires
        layout_geometry_error(row_count, row_bytes, block_bytes) is None,
    ensures
        ({
            let order = planned_layout(
                row_count,
                row_bytes,
                block_bytes,
                trace,
                unbounded_budget(),
            ).hot_physical_order;
            &&& order.no_duplicates()
            &&& forall|x: u32|
                order.contains(x) <==> exists|k: int| 0 <= k < trace.len() && #[trigger] trace[k].contains(x)
        }),
{
    lemma_hot_order(trace);
    lemma_unbounded_admits_all(hot_order(trace).len(), block_bytes as int / row_bytes as int, block_bytes as int);
    assert(hot_order(trace).take(hot_order(trace).len() as int) =~= hot_order(trace));
}

/// The unbudgeted admission count admits every row.
proof fn lemma_unbounded_admits_all(n: nat, rows_per_block: int, block_bytes: int)
    ensures
        unbounded_budget().admitted_count(n, rows_per_block, block_bytes) == n,
{
}

/// A budget only truncates: the budgeted hot order is a prefix of the unbudgeted one, of a
/// length the budget admits.
pub proof fn law_budget_truncates_the_unbounded_order(
    row_count: u64,
    row_bytes: u32,
    block_bytes: u32,
    trace: Seq<Seq<u32>>,
    budget: OverlayAdmissionBudget,
)
    requires
        layout_geometry_error(row_count, row_bytes, block_bytes) is None,
    ensures
        ({
            let bounded = planned_layout(row_count, row_bytes, block_bytes, trace, budget);
            let unbounded = planned_layout(row_count, row_bytes, block_bytes, trace, unbounded_budget());
            &&& bounded.hot_physical_order.is_prefix_of(unbounded.hot_physical_order)
            &&& budget.admits(
                bounded.hot_physical_order.len() as int,
                bounded.rows_per_block(),
                block_bytes as int,
            )
        }),
{
    let all = hot_order(trace);
    let rpb = block_bytes as int / row_bytes as int;
    lemma_rows_per_block_positive_geometry(row_bytes, block_bytes);
    lemma_admitted_count(budget, all.len(), rpb, block_bytes as int);
    lemma_unbounded_admits_all(all.len(), rpb, block_bytes as int);
    assert(all.take(all.len() as int) =~= all);
}

/// The first trace group's rows come first in the overlay, ascending and adjacent.
pub proof fn law_first_group_is_physically_adjacent(trace: Seq<Seq<u32>>)
    requires
        trace.len() >= 1,
    ensures
        ascending_from(trace[0], 0).is_prefix_of(hot_order(trace)),
    decreases trace.len(),
{
    if trace.len() == 1 {
        assert(trace.drop_last() =~= Seq::<Seq<u32>>::empty());
        lemma_ascending_from(trace[0], 0);
        lemma_admit_unseen_distinct(ascending_from(trace[0], 0));
        assert(trace.last() == trace[0]);
        assert(hot_order(trace.drop_last()) == Seq::<u32>::empty());
        assert(hot_order(trace) == admit_unseen(Seq::empty(), ascending_from(trace[0], 0)));
        assert(hot_order(trace) == ascending_from(trace[0], 0));
        assert(hot_order(trace).subrange(0, hot_order(trace).len() as int) =~= hot_order(trace));
    } else {
        law_first_group_is_physically_adjacent(trace.drop_last());
        assert(trace.drop_last()[0] == trace[0]);
        lemma_admit_unseen(hot_order(trace.drop_last()), ascending_from(trace.last(), 0));
        let a = ascending_from(trace[0], 0);
        let b = hot_order(trace.drop_last());
        let c = hot_order(trace);
        assert forall|i: int| 0 <= i < a.len() implies a[i] == c[i] by {
            assert(a[i] == b.subrange(0, a.len() as int)[i]);
            assert(b[i] == c.subrange(0, b.len() as int)[i]);
        }
        assert(a =~= c.subrange(0, a.len() as int));
    }
}

/// Admitting distinct rows into an empty overlay keeps them all, in order.
proof fn lemma_admit_unseen_distinct(rows: Seq<u32>)
    requires
        forall|i: int, j: int| 0 <= i < j < rows.len() ==> rows[i] < rows[j],
    ensures
        admit_unseen(Seq::empty(), rows) == rows,
    decreases rows.len(),
{
    if rows.len() > 0 {
        lemma_admit_unseen_distinct(rows.drop_last());
        if rows.drop_last().contains(rows.last()) {
            let i = choose|i: int| 0 <= i < rows.drop_last().len() && rows.drop_last()[i] == rows.last();
            assert(rows[i] < rows[rows.len() - 1]);
        }
        assert(rows.drop_last().push(rows.last()) =~= rows);
    }
}


/// Two row groups hold the same rows, whatever their order and repetitions.
pub open spec fn same_rows(a: Seq<u32>, b: Seq<u32>) -> bool {
    forall|x: u32| a.contains(x) <==> b.contains(x)
}

/// `min_at_least` depends only on which rows a group holds.
proof fn lemma_min_at_least_same_rows(a: Seq<u32>, b: Seq<u32>, lo: int)
    requires
        same_rows(a, b),
    ensures
        min_at_least(a, lo) == min_at_least(b, lo),
{
    lemma_min_at_least(a, lo);
    lemma_min_at_least(b, lo);
    match (min_at_least(a, lo), min_at_least(b, lo)) {
        (Some(m1), Some(m2)) => {
            assert(b.contains(m1));
            assert(a.contains(m2));
            let i = choose|i: int| 0 <= i < b.len() && b[i] == m1;
            let j = choose|j: int| 0 <= j < a.len() && a[j] == m2;
            assert(m2 <= b[i]);
            assert(m1 <= a[j]);
        },
        (Some(m1), None) => {
            assert(b.contains(m1));
            let i = choose|i: int| 0 <= i < b.len() && b[i] == m1;
            assert(b[i] < lo);
        },
        (None, Some(m2)) => {
            assert(a.contains(m2));
            let j = choose|j: int| 0 <= j < a.len() && a[j] == m2;
            assert(a[j] < lo);
        },
        (None, None) => {},
    }
}

/// `ascending_from` depends only on which rows a group holds.
proof fn lemma_ascending_from_same_rows(a: Seq<u32>, b: Seq<u32>, lo: int)
    requires
        same_rows(a, b),
    ensures
        ascending_from(a, lo) == ascending_from(b, lo),
    decreases LOGICAL_ROW_SPACE - lo,
{
    lemma_min_at_least_same_rows(a, b, lo);
    lemma_min_at_least(a, lo);
    if let Some(m) = min_at_least(a, lo) {
        lemma_ascending_from_same_rows(a, b, m + 1);
    }
}

/// A plan depends on each trace batch only through the rows it holds: reordering or repeating
/// rows within batches, with the batches in the same order, leaves the hot order, the row
/// reported out of range and the planned layout (under any budget) unchanged.
pub proof fn law_plan_ignores_order_and_repeats_within_batches(
    t1: Seq<Seq<u32>>,
    t2: Seq<Seq<u32>>,
    row_count: u64,
    row_bytes: u32,
    block_bytes: u32,
    budget: OverlayAdmissionBudget,
)
    requires
        t1.len() == t2.len(),
        forall|i: int| 0 <= i < t1.len() ==> same_rows(#[trigger] t1[i], t2[i]),
    ensures
        hot_order(t1) == hot_order(t2),
        first_row_out_of_range(t1, row_count as int) == first_row_out_of_range(t2, row_count as int),
        planned_layout(row_count, row_bytes, block_bytes, t1, budget) == planned_layout(
            row_count,
            row_bytes,
            block_bytes,
            t2,
            budget,
        ),
    decreases t1.len(),
{
    if t1.len() > 0 {
        let n = t1.len() - 1;
        assert forall|i: int| 0 <= i < n implies same_rows(#[trigger] t1.drop_last()[i], t2.drop_last()[i]) by {
            assert(same_rows(t1[i], t2[i]));
        }
        law_plan_ignores_order_and_repeats_within_batches(
            t1.drop_last(),
            t2.drop_last(),
            row_count,
            row_bytes,
            block_bytes,
            budget,
        );
        assert(same_rows(t1[n], t2[n]));
        lemma_ascending_from_same_rows(t1.last(), t2.last(), 0);
        lemma_min_at_least_same_rows(t1.last(), t2.last(), row_count as int);
    }
}

/// Index of the first trace batch that holds `x`, or -1 when none does.
pub open spec fn first_batch(trace: Seq<Seq<u32>>, x: u32) -> int
    decreases trace.len(),
{
    if trace.len() == 0 {
        -1
    } else {
        let f = first_batch(trace.drop_last(), x);
        if f >= 0 {
            f
        } else if trace.last().contains(x) {
            trace.len() - 1
        } else {
            -1
        }
    }
}

/// `first_batch` names a batch holding `x` exactly when some batch does.
proof fn lemma_first_batch(trace: Seq<Seq<u32>>, x: u32)
    ensures
        first_batch(trace, x) < trace.len(),
        first_batch(trace, x) >= 0 <==> exists|k: int| 0 <= k < trace.len() && #[trigger] trace[k].contains(x),
    decreases trace.len(),
{
    if trace.len() > 0 {
        let init = trace.drop_last();
        lemma_first_batch(init, x);
        if exists|k: int| 0 <= k < init.len() && #[trigger] init[k].contains(x) {
            let k = choose|k: int| 0 <= k < init.len() && #[trigger] init[k].contains(x);
            assert(trace[k] == init[k]);
        }
        if exists|k: int| 0 <= k < trace.len() && #[trigger] trace[k].contains(x) {
            let k = choose|k: int| 0 <= k < trace.len() && #[trigger] trace[k].contains(x);
            if k < trace.len() - 1 {
                assert(init[k] == trace[k]);
            } else {
                assert(trace.last() == trace[k]);
            }
        }
        if trace.last().contains(x) {
            assert(trace[trace.len() - 1].contains(x));
        }
    }
}

/// Admitting an ascending run appends, in ascending order, exactly its rows not seen before.
proof fn lemma_admit_unseen_order(seen: Seq<u32>, rows: Seq<u32>)
    requires
        forall|i: int, j: int| 0 <= i < j < rows.len() ==> rows[i] < rows[j],
    ensures
        seen.is_prefix_of(admit_unseen(seen, rows)),
        forall|i: int|
            seen.len() <= i < admit_unseen(seen, rows).len() ==> !seen.contains(#[trigger] admit_unseen(seen, rows)[i])
                && rows.contains(admit_unseen(seen, rows)[i]),
        forall|i: int, j: int|
            seen.len() <= i < j < admit_unseen(seen, rows).len() ==> #[trigger] admit_unseen(seen, rows)[i]
                < #[trigger] admit_unseen(seen, rows)[j],
    decreases rows.len(),
{
    if rows.len() > 0 {
        let init = rows.drop_last();
        let x = rows.last();
        let before = admit_unseen(seen, init);
        lemma_admit_unseen_order(seen, init);
        lemma_admit_unseen(seen, init);
        let out = admit_unseen(seen, rows);
        assert forall|i: int| seen.len() <= i < before.len() implies #[trigger] before[i] < x && rows.contains(before[i]) by {
            assert(init.contains(before[i]));
            let k = choose|k: int| 0 <= k < init.len() && init[k] == before[i];
            assert(rows[k] == init[k]);
            assert(rows[rows.len() - 1] == x);
        }
        if !before.contains(x) {
            assert(out == before.push(x));
            assert forall|i: int| seen.len() <= i < out.len() implies !seen.contains(#[trigger] out[i]) && rows.contains(out[i]) by {
                if i == before.len() {
                    assert(rows[rows.len() - 1] == x);
                    if seen.contains(x) {
                        let k = choose|k: int| 0 <= k < seen.len() && seen[k] == x;
                        assert(before[k] == x);
                    }
                } else {
                    assert(out[i] == before[i]);
                }
            }
            assert forall|i: int, j: int| seen.len() <= i < j < out.len() implies #[trigger] out[i] < #[trigger] out[j] by {
                assert(out[i] == before[i]);
                if j < before.len() {
                    assert(out[j] == before[j]);
                }
            }
            assert forall|i: int| 0 <= i < seen.len() implies out[i] == seen[i] by {
                assert(out[i] == before[i]);
            }
        } else {
            assert(out == before);
        }
    }
}

/// The hot order lists rows by the first trace batch that holds them; rows first seen in the
/// same batch come in ascending order.
pub proof fn law_hot_order_follows_first_batches(trace: Seq<Seq<u32>>)
    ensures
        forall|i: int, j: int|
            0 <= i < j < hot_order(trace).len() ==> {
                let a = #[trigger] hot_order(trace)[i];
                let b = #[trigger] hot_order(trace)[j];
                first_batch(trace, a) < first_batch(trace, b) || (first_batch(trace, a) == first_batch(trace, b)
                    && a < b)
            },
    decreases trace.len(),
{
    if trace.len() > 0 {
        let init = trace.drop_last();
        let h0 = hot_order(init);
        let asc = ascending_from(trace.last(), 0);
        let h = hot_order(trace);
        law_hot_order_follows_first_batches(init);
        lemma_hot_order(init);
        lemma_ascending_from(trace.last(), 0);
        lemma_admit_unseen_order(h0, asc);
        assert(h == admit_unseen(h0, asc));
        assert forall|i: int| 0 <= i < h0.len() implies h[i] == h0[i] && first_batch(trace, #[trigger] h[i])
            == first_batch(init, h0[i]) && 0 <= first_batch(init, h0[i]) < init.len() by {
            assert(h0.contains(h0[i]));
            lemma_first_batch(init, h0[i]);
        }
        assert forall|i: int| h0.len() <= i < h.len() implies first_batch(trace, #[trigger] h[i]) == trace.len() - 1 by {
            assert(!h0.contains(h[i]));
            lemma_first_batch(init, h[i]);
            assert(trace.last().contains(h[i]));
        }
        assert forall|i: int, j: int| 0 <= i < j < h.len() implies {
            let a = #[trigger] h[i];
            let b = #[trigger] h[j];
            first_batch(trace, a) < first_batch(trace, b) || (first_batch(trace, a) == first_batch(trace, b) && a < b)
        } by {
            if j < h0.len() {
                assert(h[i] == h0[i] && h[j] == h0[j]);
            } else if i < h0.len() {
                assert(first_batch(trace, h[i]) == first_batch(init, h0[i]));
            }
        }
    }
}

/// The row reported out of range is a traced row at or beyond `row_count`; when none is
/// reported, every traced row is below `row_count`.
proof fn lemma_first_row_out_of_range(trace: Seq<Seq<u32>>, row_count: int)
    ensures
        match first_row_out_of_range(trace, row_count) {
            Some(row) => row >= row_count && exists|k: int| 0 <= k < trace.len() && #[trigger] trace[k].contains(row),
            None => forall|k: int, j: int| 0 <= k < trace.len() && 0 <= j < trace[k].len() ==> #[trigger] trace[k][j]
                < row_count,
        },
    decreases trace.len(),
{
    if trace.len() > 0 {
        let init = trace.drop_last();
        lemma_first_row_out_of_range(init, row_count);
        lemma_min_at_least(trace.last(), row_count);
        match first_row_out_of_range(init, row_count) {
            Some(row) => {
                let k = choose|k: int| 0 <= k < init.len() && #[trigger] init[k].contains(row);
                assert(trace[k] == init[k]);
            },
            None => {
                match min_at_least(trace.last(), row_count) {
                    Some(m) => {
                        assert(trace[trace.len() - 1] == trace.last());
                        assert(trace[trace.len() - 1].contains(m));
                    },
                    None => {
                        assert forall|k: int, j: int| 0 <= k < trace.len() && 0 <= j < trace[k].len() implies #[trigger] trace[k][j]
                            < row_count by {
                            if k < trace.len() - 1 {
                                assert(trace[k] == init[k]);
                            } else {
                                assert(trace[k] == trace.last());
                            }
                        }
                    },
                }
            },
        }
    }
}

/// Whether `n` hot rows, packed `block_bytes / row_bytes` to a block, stay within both caps of
/// `budget`, written out over the caps themselves.
pub open spec fn fits_caps(budget: OverlayAdmissionBudget, n: int, row_bytes: u32, block_bytes: u32) -> bool {
    let per_block = block_bytes as int / row_bytes as int;
    &&& (budget.max_hot_rows matches Some(cap) ==> n <= cap)
    &&& (budget.max_overlay_bytes matches Some(cap) ==> ((n + per_block - 1) / per_block) * block_bytes <= cap)
}

/// A budget keeps the longest prefix of the unbounded hot order that fits its caps: the kept
/// rows fit, and when a row was dropped, one more row would not have fit.
pub proof fn law_budget_keeps_the_longest_fitting_prefix(
    row_count: u64,
    row_bytes: u32,
    block_bytes: u32,
    trace: Seq<Seq<u32>>,
    budget: OverlayAdmissionBudget,
)
    requires
        layout_geometry_error(row_count, row_bytes, block_bytes) is None,
    ensures
        ({
            let kept = planned_layout(row_count, row_bytes, block_bytes, trace, budget).hot_physical_order;
            let all = hot_order(trace);
            &&& kept == all.take(kept.len() as int)
            &&& fits_caps(budget, kept.len() as int, row_bytes, block_bytes)
            &&& kept.len() < all.len() ==> !fits_caps(budget, (kept.len() + 1) as int, row_bytes, block_bytes)
        }),
{
    let all = hot_order(trace);
    let rpb = block_bytes as int / row_bytes as int;
    lemma_rows_per_block_positive_geometry(row_bytes, block_bytes);
    lemma_admitted_count(budget, all.len(), rpb, block_bytes as int);
}
} // verus!
