//! Deterministic CPU hot-cache ownership derived from Linux cache topology.
use crate::layout::{ascending_from, find_min_at_least, lemma_min_at_least, min_at_least};
use crate::platform::{CacheType, CpuCache};
use std::collections::BTreeSet;
use vstd::prelude::*;

verus! {

broadcast use {vstd::std_specs::btree::group_btree_axioms, vstd::laws_cmp::group_laws_cmp};

/// Failure while deriving a CPU hot-cache ownership policy.
#[derive(Clone, Debug, PartialEq, Eq)]
pub enum CacheFabricError {
    /// No CPU was selected for the compute/cache-owner role.
    NoComputeCpus,
    /// A compute CPU was selected more than once.
    DuplicateComputeCpu(u32),
    /// A selected compute CPU lacks a private data-capable L2 cache.
    MissingPrivateL2(u32),
    /// The requested hot-state budget would exceed a private L2 cache.
    BudgetExceedsPrivateL2 {
        /// CPU whose private L2 capacity would be exceeded.
        cpu_id: u32,
        /// Requested per-owner hot-cache budget in bytes.
        requested_bytes: u64,
        /// Discovered private L2 capacity in bytes.
        private_l2_bytes: u64,
    },
    /// A candidate cannot be ranked by saved latency per byte when it has no byte cost.
    ZeroCandidateBytes {
        /// Stable key of the invalid candidate.
        key: u64,
    },
    /// A cache state key was supplied more than once.
    DuplicateCandidateKey {
        /// Repeated stable key.
        key: u64,
    },
}

/// A PLE/cache entry that may be placed in its canonical owner's hot cache.
#[derive(Clone, Copy, Debug, PartialEq, Eq)]
pub struct HotCacheCandidate {
    /// Stable PLE/cache state key.
    pub key: u64,
    /// Bytes required by this entry in the owner's hot cache.
    pub bytes: u64,
    /// Expected latency saved by keeping the entry hot, in nanoseconds.
    pub expected_savings_ns: u64,
}

/// One entry accepted into a CPU owner's hot-cache plan.
#[derive(Clone, Copy, Debug, PartialEq, Eq)]
pub struct HotCachePlacement {
    /// Stable PLE/cache state key.
    pub key: u64,
    /// Canonical Linux CPU responsible for the entry.
    pub owner_cpu: u32,
    /// Bytes reserved by the entry.
    pub bytes: u64,
    /// Expected latency saved by the entry, in nanoseconds.
    pub expected_savings_ns: u64,
}

/// Number of occurrences of `x` in `s`.
pub open spec fn count_of(s: Seq<u32>, x: u32) -> nat
    decreases s.len(),
{
    if s.len() == 0 {
        0
    } else {
        count_of(s.drop_last(), x) + if s.last() == x {
            1nat
        } else {
            0nat
        }
    }
}

/// `x` occurs at least twice in `s` and no smaller value does.
pub open spec fn is_smallest_repeated(s: Seq<u32>, x: u32) -> bool {
    &&& count_of(s, x) >= 2
    &&& forall|y: u32| count_of(s, y) >= 2 ==> x <= y
}

/// `cache` is a level-2 data-capable cache private to `cpu`.
pub open spec fn is_private_l2_of(cache: CpuCache, cpu: u32) -> bool {
    &&& cache.level == 2
    &&& (cache.cache_type == CacheType::Data || cache.cache_type == CacheType::Unified)
    &&& cache.shared_cpu_ids@ == seq![cpu]
}

/// Largest private data-capable L2 of `cpu`, if it has one.
pub open spec fn private_l2_bytes(caches: Seq<CpuCache>, cpu: u32) -> Option<u64>
    decreases caches.len(),
{
    if caches.len() == 0 {
        None
    } else {
        let rest = private_l2_bytes(caches.drop_last(), cpu);
        let c = caches.last();
        if !is_private_l2_of(c, cpu) {
            rest
        } else {
            match rest {
                None => Some(c.size_bytes),
                Some(m) => if c.size_bytes > m {
                    Some(c.size_bytes)
                } else {
                    Some(m)
                },
            }
        }
    }
}

/// First owner (in order) whose private L2 is missing or smaller than `budget`.
pub open spec fn owner_l2_error(caches: Seq<CpuCache>, owners: Seq<u32>, budget: u64) -> Option<
    CacheFabricError,
>
    decreases owners.len(),
{
    if owners.len() == 0 {
        None
    } else {
        match owner_l2_error(caches, owners.drop_last(), budget) {
            Some(e) => Some(e),
            None => {
                let cpu = owners.last();
                match private_l2_bytes(caches, cpu) {
                    None => Some(CacheFabricError::MissingPrivateL2(cpu)),
                    Some(l2) => if budget > l2 {
                        Some(
                            CacheFabricError::BudgetExceedsPrivateL2 {
                                cpu_id: cpu,
                                requested_bytes: budget,
                                private_l2_bytes: l2,
                            },
                        )
                    } else {
                        None
                    },
                }
            },
        }
    }
}

/// Abstract fabric: canonical (ascending) owner CPUs and the uniform per-owner hot budget.
pub struct FabricView {
    pub owners: Seq<u32>,
    pub hot_budget_bytes_per_owner: u64,
}

impl FabricView {
    pub open spec fn well_formed(self) -> bool {
        &&& 1 <= self.owners.len() <= u64::MAX
        &&& forall|i: int, j: int| 0 <= i < j < self.owners.len() ==> self.owners[i] < self.owners[j]
    }

    /// The one owner responsible for `key`.
    pub open spec fn owner_for_key(self, key: u64) -> u32 {
        self.owners[(key % (self.owners.len() as u64)) as int]
    }
}

/// Stable mapping from PLE/cache state keys to canonical CPU owners.
#[derive(Debug, PartialEq, Eq)]
pub struct CpuCacheFabric {
    owners: Vec<u32>,
    hot_budget_bytes_per_owner: u64,
}

impl View for CpuCacheFabric {
    type V = FabricView;

    closed spec fn view(&self) -> FabricView {
        FabricView { owners: self.owners@, hot_budget_bytes_per_owner: self.hot_budget_bytes_per_owner }
    }
}

impl CpuCacheFabric {
    #[verifier::type_invariant]
    closed spec fn inv(self) -> bool {
        self@.well_formed()
    }
}

impl Clone for CpuCacheFabric {
    fn clone(&self) -> (c: Self)
        ensures
            c@ == self@,
    {
        proof {
            use_type_invariant(self);
        }
        let owners = self.owners.clone();
        assert(owners@ =~= self.owners@);
        Self { owners, hot_budget_bytes_per_owner: self.hot_budget_bytes_per_owner }
    }
}

/// Occurrences of `x` in `s`.
fn count_in(s: &[u32], x: u32) -> (r: u64)
    ensures
        r == count_of(s@, x),
{
    let mut n: u64 = 0;
    let mut i: usize = 0;
    while i < s.len()
        invariant
            i <= s@.len(),
            n == count_of(s@.take(i as int), x),
            n <= i,
        decreases s@.len() - i,
    {
        assert(s@.take(i + 1).drop_last() =~= s@.take(i as int));
        if s[i] == x {
            n += 1;
        }
        i += 1;
    }
    assert(s@.take(i as int) =~= s@);
    n
}

/// A value is counted exactly when it occurs.
proof fn lemma_count_of_contains(s: Seq<u32>, x: u32)
    ensures
        count_of(s, x) > 0 <==> s.contains(x),
    decreases s.len(),
{
    if s.len() > 0 {
        lemma_count_of_contains(s.drop_last(), x);
        if s.drop_last().contains(x) {
            let i = choose|i: int| 0 <= i < s.drop_last().len() && s.drop_last()[i] == x;
            assert(s[i] == x);
        }
        if s.contains(x) && s.last() != x {
            let i = choose|i: int| 0 <= i < s.len() && s[i] == x;
            assert(s.drop_last()[i] == x);
        }
    }
}

/// Largest private data-capable L2 of `cpu`.
fn find_private_l2(caches: &[CpuCache], cpu: u32) -> (r: Option<u64>)
    ensures
        r == private_l2_bytes(caches@, cpu),
{
    let mut best: Option<u64> = None;
    let mut i: usize = 0;
    while i < caches.len()
        invariant
            i <= caches@.len(),
            best == private_l2_bytes(caches@.take(i as int), cpu),
        decreases caches@.len() - i,
    {
        assert(caches@.take(i + 1).drop_last() =~= caches@.take(i as int));
        let c = &caches[i];
        let data_capable = match c.cache_type {
            CacheType::Data => true,
            CacheType::Unified => true,
            CacheType::Instruction => false,
        };
        let private = c.shared_cpu_ids.len() == 1 && c.shared_cpu_ids[0] == cpu;
        proof {
            if private {
                assert(c.shared_cpu_ids@ =~= seq![cpu]);
            }
        }
        if c.level == 2 && data_capable && private {
            best = match best {
                None => Some(c.size_bytes),
                Some(m) => if c.size_bytes > m {
                    Some(c.size_bytes)
                } else {
                    Some(m)
                },
            };
        }
        i += 1;
    }
    assert(caches@.take(i as int) =~= caches@);
    best
}

/// What `CpuCacheFabric::from_topology` returns, in the order it checks.
pub open spec fn fabric_outcome(caches: Seq<CpuCache>, compute_cpus: Seq<u32>, budget: u64) -> Result<
    FabricView,
    CacheFabricError,
> {
    if compute_cpus.len() == 0 {
        Err(CacheFabricError::NoComputeCpus)
    } else if exists|y: u32| count_of(compute_cpus, y) >= 2 {
        Err(
            CacheFabricError::DuplicateComputeCpu(
                choose|x: u32| is_smallest_repeated(compute_cpus, x),
            ),
        )
    } else {
        let owners = ascending_from(compute_cpus, 0);
        match owner_l2_error(caches, owners, budget) {
            Some(e) => Err(e),
            None => Ok(FabricView { owners, hot_budget_bytes_per_owner: budget }),
        }
    }
}

impl CpuCacheFabric {
    /// Derive canonical owners (ascending CPU IDs) and validate their hot-cache budget against
    /// each owner's private L2 capacity.
    pub fn from_topology(caches: &[CpuCache], compute_cpus: &[u32], hot_budget_bytes_per_owner: u64) -> (r:
        Result<Self, CacheFabricError>)
        ensures
            match fabric_outcome(caches@, compute_cpus@, hot_budget_bytes_per_owner) {
                Ok(view) => r is Ok && r->Ok_0@ == view,
                Err(e) => r == Err::<Self, CacheFabricError>(e),
            },
            r is Ok ==> fabric_fits_topology(r->Ok_0@, caches@, compute_cpus@, hot_budget_bytes_per_owner),
    {
        proof {
            if let Ok(view) = fabric_outcome(caches@, compute_cpus@, hot_budget_bytes_per_owner) {
                law_accepted_fabric_fits_topology(caches@, compute_cpus@, hot_budget_bytes_per_owner);
            }
        }
        if compute_cpus.len() == 0 {
            return Err(CacheFabricError::NoComputeCpus);
        }
        let cpus = slice_to_vec_u32(compute_cpus);
        let mut owners: Vec<u32> = Vec::new();
        let mut lo: u64 = 0;
        let ghost s = compute_cpus@;
        proof {
            lemma_min_at_least(s, 0);
        }
        assert(owners@ + ascending_from(s, 0) =~= ascending_from(s, 0));
        loop
            invariant
                cpus@ == s,
                s == compute_cpus@,
                s.len() >= 1,
                lo <= 0x1_0000_0000,
                owners@ + ascending_from(s, lo as int) == ascending_from(s, 0),
                forall|y: u32| y < lo ==> #[trigger] count_of(s, y) < 2,
                forall|i: int| 0 <= i < owners@.len() ==> #[trigger] owners@[i] < lo,
                forall|i: int, j: int| 0 <= i < j < owners@.len() ==> owners@[i] < owners@[j],
            ensures
                owners@ == ascending_from(s, 0),
                forall|y: u32| #[trigger] count_of(s, y) < 2,
            decreases 0x1_0000_0000 - lo,
        {
            let next = find_min_at_least(&cpus, lo);
            proof {
                lemma_min_at_least(s, lo as int);
            }
            match next {
                None => {
                    proof {
                        assert(ascending_from(s, lo as int) =~= Seq::<u32>::empty());
                        assert(owners@ + Seq::<u32>::empty() =~= owners@);
                        assert forall|y: u32| #[trigger] count_of(s, y) < 2 by {
                            if y >= lo {
                                lemma_count_of_contains(s, y);
                                if s.contains(y) {
                                    let i = choose|i: int| 0 <= i < s.len() && s[i] == y;
                                }
                            }
                        }
                    }
                    break;
                },
                Some(x) => {
                    let n = count_in(compute_cpus, x);
                    if n >= 2 {
                        proof {
                            assert forall|y: u32| count_of(s, y) >= 2 implies x <= y by {
                                if y < x {
                                    if y >= lo {
                                        lemma_count_of_contains(s, y);
                                        let i = choose|i: int| 0 <= i < s.len() && s[i] == y;
                                    }
                                }
                            }
                            assert(is_smallest_repeated(s, x));
                            let chosen = choose|z: u32| is_smallest_repeated(s, z);
                            assert(chosen <= x && x <= chosen);
                        }
                        return Err(CacheFabricError::DuplicateComputeCpu(x));
                    }
                    proof {
                        assert(ascending_from(s, lo as int) == seq![x] + ascending_from(s, x + 1));
                        assert(owners@.push(x) + ascending_from(s, x + 1) =~= owners@ + (seq![x]
                            + ascending_from(s, x + 1)));
                        assert forall|y: u32| y < x + 1 implies #[trigger] count_of(s, y) < 2 by {
                            if lo <= y < x {
                                lemma_count_of_contains(s, y);
                                if s.contains(y) {
                                    let i = choose|i: int| 0 <= i < s.len() && s[i] == y;
                                }
                            }
                        }
                    }
                    owners.push(x);
                    lo = x as u64 + 1;
                },
            }
        }
        let mut i: usize = 0;
        while i < owners.len()
            invariant
                i <= owners@.len(),
                owners@ == ascending_from(s, 0),
                s == compute_cpus@,
                s.len() >= 1,
                forall|y: u32| #[trigger] count_of(s, y) < 2,
                owner_l2_error(caches@, owners@.take(i as int), hot_budget_bytes_per_owner) is None,
            decreases owners@.len() - i,
        {
            assert(owners@.take(i + 1).drop_last() =~= owners@.take(i as int));
            let cpu = owners[i];
            match find_private_l2(caches, cpu) {
                None => {
                    proof {
                        lemma_owner_l2_error_prefix(caches@, owners@, i + 1, owners@.len() as int, hot_budget_bytes_per_owner);
                        assert(owners@.take(owners@.len() as int) =~= owners@);
                    }
                    return Err(CacheFabricError::MissingPrivateL2(cpu));
                },
                Some(l2) => {
                    if hot_budget_bytes_per_owner > l2 {
                        proof {
                            lemma_owner_l2_error_prefix(caches@, owners@, i + 1, owners@.len() as int, hot_budget_bytes_per_owner);
                            assert(owners@.take(owners@.len() as int) =~= owners@);
                        }
                        return Err(
                            CacheFabricError::BudgetExceedsPrivateL2 {
                                cpu_id: cpu,
                                requested_bytes: hot_budget_bytes_per_owner,
                                private_l2_bytes: l2,
                            },
                        );
                    }
                },
            }
            i += 1;
        }
        proof {
            assert(owners@.take(owners@.len() as int) =~= owners@);
            assert(!(exists|y: u32| count_of(s, y) >= 2));
            lemma_min_at_least(s, 0);
            let x0 = min_at_least(s, 0)->0;
            assert(owners@.len() >= 1);
        }
        Ok(Self { owners, hot_budget_bytes_per_owner })
    }

    /// Canonical Linux CPU IDs selected as cache owners, ascending.
    pub fn owner_cpus(&self) -> (r: Vec<u32>)
        ensures
            r@ == self@.owners,
    {
        let r = self.owners.clone();
        assert(r@ =~= self.owners@);
        r
    }

    /// The one owner responsible for a cache/PLE state key.
    pub fn owner_cpu_for_key(&self, key: u64) -> (r: u32)
        ensures
            r == self@.owner_for_key(key),
    {
        proof {
            use_type_invariant(self);
        }
        let index = (key % self.owners.len() as u64) as usize;
        self.owners[index]
    }

    /// The uniform hot-cache budget of every owner.
    pub fn hot_budget_bytes_per_owner(&self) -> (r: u64)
        ensures
            r == self@.hot_budget_bytes_per_owner,
    {
        self.hot_budget_bytes_per_owner
    }
}

/// A later prefix of the owners reports the same first L2 failure as an earlier one.
proof fn lemma_owner_l2_error_prefix(caches: Seq<CpuCache>, owners: Seq<u32>, k: int, j: int, budget: u64)
    requires
        0 <= k <= j <= owners.len(),
        owner_l2_error(caches, owners.take(k), budget) is Some,
    ensures
        owner_l2_error(caches, owners.take(j), budget) == owner_l2_error(caches, owners.take(k), budget),
    decreases j - k,
{
    if j > k {
        lemma_owner_l2_error_prefix(caches, owners, k, j - 1, budget);
        assert(owners.take(j).drop_last() =~= owners.take(j - 1));
    }
}

/// Copy a slice of CPU IDs.
fn slice_to_vec_u32(s: &[u32]) -> (r: Vec<u32>)
    ensures
        r@ == s@,
{
    let mut out: Vec<u32> = Vec::new();
    let mut i: usize = 0;
    while i < s.len()
        invariant
            i <= s@.len(),
            out@ == s@.take(i as int),
        decreases s@.len() - i,
    {
        out.push(s[i]);
        assert(s@.take(i + 1) =~= s@.take(i as int).push(s@[i as int]));
        i += 1;
    }
    assert(s@.take(i as int) =~= s@);
    out
}


/// Key of the first candidate (in input order) that has no byte cost.
pub open spec fn first_zero_byte_key(cands: Seq<HotCacheCandidate>) -> Option<u64>
    decreases cands.len(),
{
    if cands.len() == 0 {
        None
    } else {
        match first_zero_byte_key(cands.drop_last()) {
            Some(k) => Some(k),
            None => if cands.last().bytes == 0 {
                Some(cands.last().key)
            } else {
                None
            },
        }
    }
}

/// Key of the first candidate (in input order) whose key already occurred before it.
pub open spec fn first_repeated_key(cands: Seq<HotCacheCandidate>) -> Option<u64>
    decreases cands.len(),
{
    if cands.len() == 0 {
        None
    } else {
        match first_repeated_key(cands.drop_last()) {
            Some(k) => Some(k),
            None => if exists|j: int| 0 <= j < cands.len() - 1 && #[trigger] cands[j].key == cands.last().key {
                Some(cands.last().key)
            } else {
                None
            },
        }
    }
}

/// `a` is ranked before `b`: greater saved latency per byte first (compared by cross
/// multiplication), then smaller key, smaller byte cost and smaller saving.
pub open spec fn outranks(a: HotCacheCandidate, b: HotCacheCandidate) -> bool {
    let da = a.expected_savings_ns * b.bytes;
    let db = b.expected_savings_ns * a.bytes;
    ||| da > db
    ||| da == db && a.key < b.key
    ||| da == db && a.key == b.key && a.bytes < b.bytes
    ||| da == db && a.key == b.key && a.bytes == b.bytes && a.expected_savings_ns < b.expected_savings_ns
}

/// Index of the first top-ranked candidate of a non-empty pool.
pub open spec fn best_index(pool: Seq<HotCacheCandidate>) -> int
    decreases pool.len(),
{
    if pool.len() <= 1 {
        0
    } else {
        let b = best_index(pool.drop_last());
        if outranks(pool.last(), pool[b]) {
            pool.len() - 1
        } else {
            b
        }
    }
}

/// The best index of a non-empty pool lies inside it.
pub proof fn lemma_best_index_in_range(pool: Seq<HotCacheCandidate>)
    requires
        pool.len() >= 1,
    ensures
        0 <= best_index(pool) < pool.len(),
    decreases pool.len(),
{
    if pool.len() > 1 {
        lemma_best_index_in_range(pool.drop_last());
    }
}

/// The pool in priority order: the top-ranked candidate, then the rest in priority order.
pub open spec fn priority_order(pool: Seq<HotCacheCandidate>) -> Seq<HotCacheCandidate>
    decreases pool.len(),
{
    if pool.len() == 0 {
        pool
    } else {
        proof {
            lemma_best_index_in_range(pool);
        }
        let b = best_index(pool);
        seq![pool[b]] + priority_order(pool.remove(b))
    }
}

/// The placement that reserves `c` in `owner`'s hot cache.
pub open spec fn placement_of(c: HotCacheCandidate, owner: u32) -> HotCachePlacement {
    HotCachePlacement {
        key: c.key,
        owner_cpu: owner,
        bytes: c.bytes,
        expected_savings_ns: c.expected_savings_ns,
    }
}

/// Greedy reservation along `order`: a candidate with a positive saving is placed when it
/// still fits the remaining budget. Returns the placements and the unused budget.
pub open spec fn greedy(order: Seq<HotCacheCandidate>, owner: u32, remaining: u64) -> (Seq<
    HotCachePlacement,
>, u64)
    decreases order.len(),
{
    if order.len() == 0 {
        (Seq::empty(), remaining)
    } else {
        let c = order[0];
        if c.expected_savings_ns != 0 && c.bytes <= remaining {
            let rest = greedy(order.drop_first(), owner, (remaining - c.bytes) as u64);
            (seq![placement_of(c, owner)] + rest.0, rest.1)
        } else {
            greedy(order.drop_first(), owner, remaining)
        }
    }
}

/// The candidates (in input order) whose key `fabric` routes to `owner`.
pub open spec fn owned_by(cands: Seq<HotCacheCandidate>, fabric: FabricView, owner: u32) -> Seq<
    HotCacheCandidate,
>
    decreases cands.len(),
{
    if cands.len() == 0 {
        cands
    } else {
        let rest = owned_by(cands.drop_last(), fabric, owner);
        if fabric.owner_for_key(cands.last().key) == owner {
            rest.push(cands.last())
        } else {
            rest
        }
    }
}

/// Placements and unused budget of one owner.
pub open spec fn owner_plan(cands: Seq<HotCacheCandidate>, fabric: FabricView, owner: u32) -> (Seq<
    HotCachePlacement,
>, u64) {
    greedy(priority_order(owned_by(cands, fabric, owner)), owner, fabric.hot_budget_bytes_per_owner)
}

/// Placements of the first `n` owners, owner after owner.
pub open spec fn placements_through(cands: Seq<HotCacheCandidate>, fabric: FabricView, n: int) -> Seq<
    HotCachePlacement,
>
    decreases n,
{
    if n <= 0 {
        Seq::empty()
    } else {
        placements_through(cands, fabric, n - 1) + owner_plan(cands, fabric, fabric.owners[n - 1]).0
    }
}

/// Abstract hot-cache plan.
pub struct HotPlanView {
    pub owner_cpus: Seq<u32>,
    pub hot_budget_bytes_per_owner: u64,
    pub placements: Seq<HotCachePlacement>,
    pub remaining_bytes_by_cpu: Seq<(u32, u64)>,
}

/// The plan that `plan_hot_candidates` builds from valid candidates.
pub open spec fn planned_hot(fabric: FabricView, cands: Seq<HotCacheCandidate>) -> HotPlanView {
    HotPlanView {
        owner_cpus: fabric.owners,
        hot_budget_bytes_per_owner: fabric.hot_budget_bytes_per_owner,
        placements: placements_through(cands, fabric, fabric.owners.len() as int),
        remaining_bytes_by_cpu: Seq::new(
            fabric.owners.len(),
            |i: int| (fabric.owners[i], owner_plan(cands, fabric, fabric.owners[i]).1),
        ),
    }
}

/// What `plan_hot_candidates` returns, in the order it checks.
pub open spec fn hot_plan_outcome(fabric: FabricView, cands: Seq<HotCacheCandidate>) -> Result<
    HotPlanView,
    CacheFabricError,
> {
    match first_zero_byte_key(cands) {
        Some(key) => Err(CacheFabricError::ZeroCandidateBytes { key }),
        None => match first_repeated_key(cands) {
            Some(key) => Err(CacheFabricError::DuplicateCandidateKey { key }),
            None => Ok(planned_hot(fabric, cands)),
        },
    }
}

/// Deterministic hot-cache placements and unused budget for each CPU owner.
#[derive(Clone, Debug, PartialEq, Eq)]
pub struct CpuHotCachePlan {
    owner_cpus: Vec<u32>,
    hot_budget_bytes_per_owner: u64,
    placements: Vec<HotCachePlacement>,
    remaining_bytes_by_cpu: Vec<(u32, u64)>,
}

impl View for CpuHotCachePlan {
    type V = HotPlanView;

    closed spec fn view(&self) -> HotPlanView {
        HotPlanView {
            owner_cpus: self.owner_cpus@,
            hot_budget_bytes_per_owner: self.hot_budget_bytes_per_owner,
            placements: self.placements@,
            remaining_bytes_by_cpu: self.remaining_bytes_by_cpu@,
        }
    }
}

/// Remaining budget recorded for `cpu`: the first entry naming it.
pub open spec fn remaining_for(entries: Seq<(u32, u64)>, cpu: u32) -> Option<u64>
    decreases entries.len(),
{
    if entries.len() == 0 {
        None
    } else if entries[0].0 == cpu {
        Some(entries[0].1)
    } else {
        remaining_for(entries.drop_first(), cpu)
    }
}

impl CpuHotCachePlan {
    /// The canonical owner CPUs of the fabric that produced this plan.
    pub fn owner_cpus(&self) -> (r: &[u32])
        ensures
            r@ == self@.owner_cpus,
    {
        self.owner_cpus.as_slice()
    }

    /// The uniform hot-cache budget recorded when this plan was created.
    pub fn hot_budget_bytes_per_owner(&self) -> (r: u64)
        ensures
            r == self@.hot_budget_bytes_per_owner,
    {
        self.hot_budget_bytes_per_owner
    }

    /// Accepted entries in canonical owner and priority order.
    pub fn placements(&self) -> (r: &[HotCachePlacement])
        ensures
            r@ == self@.placements,
    {
        self.placements.as_slice()
    }

    /// The unused hot-cache budget for one owner CPU.
    pub fn remaining_bytes_for_cpu(&self, cpu_id: u32) -> (r: Option<u64>)
        ensures
            r == remaining_for(self@.remaining_bytes_by_cpu, cpu_id),
    {
        let entries = &self.remaining_bytes_by_cpu;
        let mut i: usize = 0;
        assert(entries@.skip(0) =~= entries@);
        while i < entries.len()
            invariant
                i <= entries@.len(),
                entries@ == self@.remaining_bytes_by_cpu,
                remaining_for(entries@, cpu_id) == remaining_for(entries@.skip(i as int), cpu_id),
            decreases entries@.len() - i,
        {
            let (owner_cpu, remaining) = entries[i];
            assert(entries@.skip(i as int)[0] == entries@[i as int]);
            if owner_cpu == cpu_id {
                return Some(remaining);
            }
            assert(entries@.skip(i as int).drop_first() =~= entries@.skip(i + 1));
            i += 1;
        }
        None
    }
}

/// Whether `a` is ranked before `b` (see `outranks`).
fn outranks_exec(a: &HotCacheCandidate, b: &HotCacheCandidate) -> (r: bool)
    ensures
        r == outranks(*a, *b),
{
    let sa = a.expected_savings_ns as u128;
    let sb = b.expected_savings_ns as u128;
    let ba = a.bytes as u128;
    let bb = b.bytes as u128;
    assert(sa * bb <= u64::MAX * u64::MAX) by (nonlinear_arith)
        requires
            sa <= u64::MAX,
            bb <= u64::MAX,
    ;
    assert(sb * ba <= u64::MAX * u64::MAX) by (nonlinear_arith)
        requires
            sb <= u64::MAX,
            ba <= u64::MAX,
    ;
    let da = sa * bb;
    let db = sb * ba;
    if da != db {
        da > db
    } else if a.key != b.key {
        a.key < b.key
    } else if a.bytes != b.bytes {
        a.bytes < b.bytes
    } else {
        a.expected_savings_ns < b.expected_savings_ns
    }
}

/// Index of the first top-ranked candidate.
fn find_best_index(pool: &Vec<HotCacheCandidate>) -> (r: usize)
    requires
        pool@.len() >= 1,
    ensures
        r == best_index(pool@),
{
    let mut best: usize = 0;
    let mut i: usize = 1;
    while i < pool.len()
        invariant
            1 <= i <= pool@.len(),
            best == best_index(pool@.take(i as int)),
            best < i,
        decreases pool@.len() - i,
    {
        assert(pool@.take(i + 1).drop_last() =~= pool@.take(i as int));
        if outranks_exec(&pool[i], &pool[best]) {
            best = i;
        }
        i += 1;
    }
    assert(pool@.take(i as int) =~= pool@);
    best
}


/// Greedy reservation after one more placement: the placed prefix grows by that placement.
proof fn lemma_priority_order_step(pool: Seq<HotCacheCandidate>)
    requires
        pool.len() >= 1,
    ensures
        0 <= best_index(pool) < pool.len(),
        priority_order(pool)[0] == pool[best_index(pool)],
        priority_order(pool).drop_first() == priority_order(pool.remove(best_index(pool))),
        priority_order(pool).len() >= 1,
{
    lemma_best_index_in_range(pool);
    let b = best_index(pool);
    assert((seq![pool[b]] + priority_order(pool.remove(b))).drop_first() =~= priority_order(
        pool.remove(b),
    ));
}

impl CpuCacheFabric {
    /// The candidates (in input order) routed to `owner`.
    fn owned_candidates(&self, candidates: &[HotCacheCandidate], owner: u32) -> (r: Vec<
        HotCacheCandidate,
    >)
        ensures
            r@ == owned_by(candidates@, self@, owner),
    {
        let mut out: Vec<HotCacheCandidate> = Vec::new();
        let mut i: usize = 0;
        while i < candidates.len()
            invariant
                i <= candidates@.len(),
                out@ == owned_by(candidates@.take(i as int), self@, owner),
            decreases candidates@.len() - i,
        {
            assert(candidates@.take(i + 1).drop_last() =~= candidates@.take(i as int));
            let c = candidates[i];
            if self.owner_cpu_for_key(c.key) == owner {
                out.push(c);
            }
            i += 1;
        }
        assert(candidates@.take(i as int) =~= candidates@);
        out
    }

    /// Reserve `owner`'s budget greedily in priority order, appending its placements.
    fn plan_for_owner(
        &self,
        candidates: &[HotCacheCandidate],
        owner: u32,
        placements: &mut Vec<HotCachePlacement>,
    ) -> (remaining: u64)
        ensures
            final(placements)@ == old(placements)@ + owner_plan(candidates@, self@, owner).0,
            remaining == owner_plan(candidates@, self@, owner).1,
    {
        let mut pool = self.owned_candidates(candidates, owner);
        let mut remaining = self.hot_budget_bytes_per_owner;
        let ghost pool0 = pool@;
        let ghost before = placements@;
        let ghost target = owner_plan(candidates@, self@, owner);
        assert(placements@ =~= before + Seq::<HotCachePlacement>::empty());
        while pool.len() > 0
            invariant
                target == greedy(priority_order(pool0), owner, self@.hot_budget_bytes_per_owner),
                placements@.len() >= before.len(),
                placements@.take(before.len() as int) == before,
                placements@.skip(before.len() as int) + greedy(priority_order(pool@), owner, remaining).0
                    == target.0,
                greedy(priority_order(pool@), owner, remaining).1 == target.1,
            decreases pool@.len(),
        {
            proof {
                lemma_priority_order_step(pool@);
            }
            let ghost pool_before = pool@;
            let ghost rem_before = remaining;
            let b = find_best_index(&pool);
            let c = pool.remove(b);
            assert(c == priority_order(pool_before)[0]);
            assert(priority_order(pool_before).drop_first() == priority_order(pool@));
            let ghost old_placed = placements@.skip(before.len() as int);
            if c.expected_savings_ns != 0 && c.bytes <= remaining {
                remaining = remaining - c.bytes;
                placements.push(
                    HotCachePlacement {
                        key: c.key,
                        owner_cpu: owner,
                        bytes: c.bytes,
                        expected_savings_ns: c.expected_savings_ns,
                    },
                );
                proof {
                    assert(placements@.skip(before.len() as int) =~= old_placed.push(placement_of(c, owner)));
                    assert(placements@.take(before.len() as int) =~= before);
                }
            }
        }
        assert(placements@ =~= placements@.take(before.len() as int) + placements@.skip(before.len() as int));
        remaining
    }
}


/// Key of the first zero-byte candidate.
fn find_zero_byte_key(candidates: &[HotCacheCandidate]) -> (r: Option<u64>)
    ensures
        r == first_zero_byte_key(candidates@),
{
    let mut i: usize = 0;
    while i < candidates.len()
        invariant
            i <= candidates@.len(),
            first_zero_byte_key(candidates@.take(i as int)) is None,
        decreases candidates@.len() - i,
    {
        assert(candidates@.take(i + 1).drop_last() =~= candidates@.take(i as int));
        if candidates[i].bytes == 0 {
            proof {
                lemma_first_zero_prefix(candidates@, i + 1, candidates@.len() as int);
                assert(candidates@.take(candidates@.len() as int) =~= candidates@);
            }
            return Some(candidates[i].key);
        }
        i += 1;
    }
    assert(candidates@.take(i as int) =~= candidates@);
    None
}

/// A found zero-byte key stays the first one in every longer prefix.
proof fn lemma_first_zero_prefix(cands: Seq<HotCacheCandidate>, k: int, j: int)
    requires
        0 <= k <= j <= cands.len(),
        first_zero_byte_key(cands.take(k)) is Some,
    ensures
        first_zero_byte_key(cands.take(j)) == first_zero_byte_key(cands.take(k)),
    decreases j - k,
{
    if j > k {
        lemma_first_zero_prefix(cands, k, j - 1);
        assert(cands.take(j).drop_last() =~= cands.take(j - 1));
    }
}

/// A found repeated key stays the first one in every longer prefix.
proof fn lemma_first_repeated_prefix(cands: Seq<HotCacheCandidate>, k: int, j: int)
    requires
        0 <= k <= j <= cands.len(),
        first_repeated_key(cands.take(k)) is Some,
    ensures
        first_repeated_key(cands.take(j)) == first_repeated_key(cands.take(k)),
    decreases j - k,
{
    if j > k {
        lemma_first_repeated_prefix(cands, k, j - 1);
        assert(cands.take(j).drop_last() =~= cands.take(j - 1));
    }
}

/// Key of the first candidate whose key occurred earlier.
fn find_repeated_key(candidates: &[HotCacheCandidate]) -> (r: Option<u64>)
    ensures
        r == first_repeated_key(candidates@),
{
    let mut seen: BTreeSet<u64> = BTreeSet::new();
    let mut i: usize = 0;
    while i < candidates.len()
        invariant
            i <= candidates@.len(),
            first_repeated_key(candidates@.take(i as int)) is None,
            forall|k: u64| seen@.contains(k) <==> exists|j: int| 0 <= j < i && #[trigger] candidates@[j].key == k,
        decreases candidates@.len() - i,
    {
        let ghost prefix = candidates@.take(i + 1);
        assert(prefix.drop_last() =~= candidates@.take(i as int));
        let key = candidates[i].key;
        let fresh = seen.insert(key);
        if !fresh {
            proof {
                let j = choose|j: int| 0 <= j < i && #[trigger] candidates@[j].key == key;
                assert(prefix[j].key == prefix.last().key);
                lemma_first_repeated_prefix(candidates@, i + 1, candidates@.len() as int);
                assert(candidates@.take(candidates@.len() as int) =~= candidates@);
            }
            return Some(key);
        }
        proof {
            assert(!(exists|j: int| 0 <= j < prefix.len() - 1 && #[trigger] prefix[j].key == prefix.last().key)) by {
                if exists|j: int| 0 <= j < prefix.len() - 1 && #[trigger] prefix[j].key == prefix.last().key {
                    let j = choose|j: int| 0 <= j < prefix.len() - 1 && #[trigger] prefix[j].key == prefix.last().key;
                    assert(candidates@[j].key == key);
                }
            }
            assert forall|k: u64| seen@.contains(k) implies exists|j: int| 0 <= j < i + 1 && #[trigger] candidates@[j].key == k by {
                if k == key {
                    assert(candidates@[i as int].key == k);
                } else {
                    let j = choose|j: int| 0 <= j < i && #[trigger] candidates@[j].key == k;
                }
            }
            assert forall|k: u64| (exists|j: int| 0 <= j < i + 1 && #[trigger] candidates@[j].key == k) implies seen@.contains(k) by {
                let j = choose|j: int| 0 <= j < i + 1 && #[trigger] candidates@[j].key == k;
                if j < i {
                    assert(exists|j2: int| 0 <= j2 < i && #[trigger] candidates@[j2].key == k);
                }
            }
        }
        i += 1;
    }
    assert(candidates@.take(i as int) =~= candidates@);
    None
}

impl CpuCacheFabric {
    /// Greedily reserve each owner's budget for positive-savings entries with the greatest
    /// latency saved per byte, owner after owner in canonical order.
    pub fn plan_hot_candidates(&self, candidates: &[HotCacheCandidate]) -> (r: Result<
        CpuHotCachePlan,
        CacheFabricError,
    >)
        ensures
            match hot_plan_outcome(self@, candidates@) {
                Ok(view) => r is Ok && r->Ok_0@ == view,
                Err(e) => r == Err::<CpuHotCachePlan, CacheFabricError>(e),
            },
            r is Ok ==> {
                &&& forall|i: int| 0 <= i < candidates@.len() ==> (#[trigger] candidates@[i]).bytes > 0
                &&& forall|i: int, j: int|
                    0 <= i < j < candidates@.len() ==> (#[trigger] candidates@[i]).key != (#[trigger] candidates@[j]).key
            },
    {
        proof {
            use_type_invariant(self);
            if hot_plan_outcome(self@, candidates@) is Ok {
                lemma_no_zero_bytes(candidates@);
                lemma_no_repeated_key(candidates@);
            }
        }
        if let Some(key) = find_zero_byte_key(candidates) {
            return Err(CacheFabricError::ZeroCandidateBytes { key });
        }
        if let Some(key) = find_repeated_key(candidates) {
            return Err(CacheFabricError::DuplicateCandidateKey { key });
        }
        let mut placements: Vec<HotCachePlacement> = Vec::new();
        let mut remaining_bytes_by_cpu: Vec<(u32, u64)> = Vec::new();
        let ghost target = planned_hot(self@, candidates@);
        let mut k: usize = 0;
        while k < self.owners.len()
            invariant
                self@.well_formed(),
                k <= self@.owners.len(),
                target == planned_hot(self@, candidates@),
                placements@ == placements_through(candidates@, self@, k as int),
                remaining_bytes_by_cpu@ == target.remaining_bytes_by_cpu.take(k as int),
            decreases self@.owners.len() - k,
        {
            let owner = self.owners[k];
            let remaining = self.plan_for_owner(candidates, owner, &mut placements);
            remaining_bytes_by_cpu.push((owner, remaining));
            assert(remaining_bytes_by_cpu@ =~= target.remaining_bytes_by_cpu.take(k + 1));
            k += 1;
        }
        assert(remaining_bytes_by_cpu@ =~= target.remaining_bytes_by_cpu);
        Ok(
            CpuHotCachePlan {
                owner_cpus: self.owner_cpus(),
                hot_budget_bytes_per_owner: self.hot_budget_bytes_per_owner,
                placements,
                remaining_bytes_by_cpu,
            },
        )
    }
}


/// Total bytes reserved by `placements`.
pub open spec fn placed_bytes(placements: Seq<HotCachePlacement>) -> int
    decreases placements.len(),
{
    if placements.len() == 0 {
        0
    } else {
        placements[0].bytes + placed_bytes(placements.drop_first())
    }
}

proof fn lemma_greedy_accounting(order: Seq<HotCacheCandidate>, owner: u32, remaining: u64)
    ensures
        placed_bytes(greedy(order, owner, remaining).0) + greedy(order, owner, remaining).1 == remaining,
        forall|i: int|
            0 <= i < greedy(order, owner, remaining).0.len() ==> {
                let p = #[trigger] greedy(order, owner, remaining).0[i];
                &&& p.owner_cpu == owner
                &&& p.expected_savings_ns > 0
                &&& exists|j: int| 0 <= j < order.len() && placement_of(#[trigger] order[j], owner) == p
            },
    decreases order.len(),
{
    if order.len() > 0 {
        let c = order[0];
        let rest_order = order.drop_first();
        if c.expected_savings_ns != 0 && c.bytes <= remaining {
            let r = (remaining - c.bytes) as u64;
            lemma_greedy_accounting(rest_order, owner, r);
            let out = greedy(order, owner, remaining).0;
            let rest = greedy(rest_order, owner, r).0;
            assert(out.drop_first() =~= rest);
            assert forall|i: int| 0 <= i < out.len() implies {
                let p = #[trigger] out[i];
                &&& p.owner_cpu == owner
                &&& p.expected_savings_ns > 0
                &&& exists|j: int| 0 <= j < order.len() && placement_of(#[trigger] order[j], owner) == p
            } by {
                if i == 0 {
                    assert(placement_of(order[0], owner) == out[0]);
                } else {
                    assert(out[i] == rest[i - 1]);
                    let j = choose|j: int| 0 <= j < rest_order.len() && placement_of(#[trigger] rest_order[j], owner) == rest[i - 1];
                    assert(order[j + 1] == rest_order[j]);
                }
            }
        } else {
            lemma_greedy_accounting(rest_order, owner, remaining);
            let out = greedy(order, owner, remaining).0;
            assert forall|i: int| 0 <= i < out.len() implies {
                let p = #[trigger] out[i];
                &&& p.owner_cpu == owner
                &&& p.expected_savings_ns > 0
                &&& exists|j: int| 0 <= j < order.len() && placement_of(#[trigger] order[j], owner) == p
            } by {
                let j = choose|j: int| 0 <= j < rest_order.len() && placement_of(#[trigger] rest_order[j], owner) == out[i];
                assert(order[j + 1] == rest_order[j]);
            }
        }
    }
}

/// Every candidate of the priority order comes from the pool.
proof fn lemma_priority_order_from_pool(pool: Seq<HotCacheCandidate>)
    ensures
        forall|i: int|
            0 <= i < priority_order(pool).len() ==> pool.contains(#[trigger] priority_order(pool)[i]),
    decreases pool.len(),
{
    if pool.len() > 0 {
        lemma_priority_order_step(pool);
        let b = best_index(pool);
        let rest = pool.remove(b);
        lemma_priority_order_from_pool(rest);
        let order = priority_order(pool);
        assert forall|i: int| 0 <= i < order.len() implies pool.contains(#[trigger] order[i]) by {
            if i == 0 {
                assert(pool[b] == order[0]);
            } else {
                assert(order[i] == order.drop_first()[i - 1]);
                assert(rest.contains(order[i]));
                let k = choose|k: int| 0 <= k < rest.len() && rest[k] == order[i];
                if k < b {
                    assert(pool[k] == rest[k]);
                } else {
                    assert(pool[k + 1] == rest[k]);
                }
            }
        }
    }
}

/// Every candidate routed to `owner` is an input candidate whose key routes to `owner`.
proof fn lemma_owned_by(cands: Seq<HotCacheCandidate>, fabric: FabricView, owner: u32)
    ensures
        forall|c: HotCacheCandidate|
            #[trigger] owned_by(cands, fabric, owner).contains(c) ==> cands.contains(c) && fabric.owner_for_key(c.key)
                == owner,
    decreases cands.len(),
{
    if cands.len() > 0 {
        let rest = cands.drop_last();
        lemma_owned_by(rest, fabric, owner);
        assert forall|c: HotCacheCandidate| owned_by(cands, fabric, owner).contains(c) implies cands.contains(c)
            && fabric.owner_for_key(c.key) == owner by {
            let o = owned_by(cands, fabric, owner);
            let orest = owned_by(rest, fabric, owner);
            let k = choose|k: int| 0 <= k < o.len() && o[k] == c;
            if k < orest.len() {
                if fabric.owner_for_key(cands.last().key) == owner {
                    assert(o == orest.push(cands.last()));
                } else {
                    assert(o == orest);
                }
                assert(orest[k] == c);
                assert(orest.contains(c));
                let m = choose|m: int| 0 <= m < rest.len() && rest[m] == c;
                assert(cands[m] == c);
            } else {
                assert(o == orest.push(cands.last()));
                assert(c == cands.last());
                assert(cands[cands.len() - 1] == c);
            }
        }
    }
}

/// Each owner's placements and unused budget account for exactly its whole hot-cache budget,
/// so no owner is ever over-committed.
pub proof fn law_owner_budget_is_conserved(
    fabric: FabricView,
    cands: Seq<HotCacheCandidate>,
    owner: u32,
)
    ensures
        placed_bytes(owner_plan(cands, fabric, owner).0) + owner_plan(cands, fabric, owner).1
            == fabric.hot_budget_bytes_per_owner,
{
    lemma_greedy_accounting(
        priority_order(owned_by(cands, fabric, owner)),
        owner,
        fabric.hot_budget_bytes_per_owner,
    );
}

/// Every placement of an owner reserves an input candidate, unchanged, whose key routes to that
/// owner and whose predicted saving is positive.
pub proof fn law_placements_are_routed_candidates(
    fabric: FabricView,
    cands: Seq<HotCacheCandidate>,
    owner: u32,
    i: int,
)
    requires
        0 <= i < owner_plan(cands, fabric, owner).0.len(),
    ensures
        ({
            let p = owner_plan(cands, fabric, owner).0[i];
            &&& p.owner_cpu == owner
            &&& p.expected_savings_ns > 0
            &&& exists|c: HotCacheCandidate|
                #[trigger] cands.contains(c) && fabric.owner_for_key(c.key) == owner && placement_of(c, owner)
                    == p
        }),
{
    let pool = owned_by(cands, fabric, owner);
    let order = priority_order(pool);
    lemma_greedy_accounting(order, owner, fabric.hot_budget_bytes_per_owner);
    lemma_priority_order_from_pool(pool);
    lemma_owned_by(cands, fabric, owner);
    let p = owner_plan(cands, fabric, owner).0[i];
    let j = choose|j: int| 0 <= j < order.len() && placement_of(#[trigger] order[j], owner) == p;
    assert(pool.contains(order[j]));
    assert(cands.contains(order[j]));
}

/// Each key is routed to exactly one of the fabric's owners.
pub proof fn law_each_key_routes_to_an_owner(fabric: FabricView, key: u64)
    requires
        fabric.well_formed(),
    ensures
        fabric.owners.contains(fabric.owner_for_key(key)),
{
    let n = fabric.owners.len() as u64;
    assert(key % n < n);
    let i = (key % n) as int;
    assert(fabric.owners[i] == fabric.owner_for_key(key));
}


/// Candidates that passed the zero-byte check all have a byte cost.
proof fn lemma_no_zero_bytes(cands: Seq<HotCacheCandidate>)
    requires
        first_zero_byte_key(cands) is None,
    ensures
        forall|i: int| 0 <= i < cands.len() ==> (#[trigger] cands[i]).bytes > 0,
    decreases cands.len(),
{
    if cands.len() > 0 {
        lemma_no_zero_bytes(cands.drop_last());
        assert forall|i: int| 0 <= i < cands.len() implies (#[trigger] cands[i]).bytes > 0 by {
            if i < cands.len() - 1 {
                assert(cands.drop_last()[i] == cands[i]);
            }
        }
    }
}

/// Comparing saved latency per byte by cross multiplication is transitive when every byte
/// cost is positive: `b.bytes * X(a, c) == c.bytes * X(a, b) + a.bytes * X(b, c)`, where
/// `X(a, b) = a.savings * b.bytes - b.savings * a.bytes`.
proof fn lemma_density_chain(a_s: int, a_b: int, b_s: int, b_b: int, c_s: int, c_b: int)
    requires
        a_b > 0,
        b_b > 0,
        c_b > 0,
    ensures
        a_s * b_b >= b_s * a_b && b_s * c_b >= c_s * b_b ==> a_s * c_b >= c_s * a_b,
        a_s * b_b > b_s * a_b && b_s * c_b >= c_s * b_b ==> a_s * c_b > c_s * a_b,
        a_s * b_b >= b_s * a_b && b_s * c_b > c_s * b_b ==> a_s * c_b > c_s * a_b,
{
    let xab = a_s * b_b - b_s * a_b;
    let xbc = b_s * c_b - c_s * b_b;
    let xac = a_s * c_b - c_s * a_b;
    assert(b_b * xac == c_b * xab + a_b * xbc) by (nonlinear_arith)
        requires
            xab == a_s * b_b - b_s * a_b,
            xbc == b_s * c_b - c_s * b_b,
            xac == a_s * c_b - c_s * a_b,
    ;
    assert(xab >= 0 && xbc >= 0 ==> xac >= 0) by (nonlinear_arith)
        requires
            b_b * xac == c_b * xab + a_b * xbc,
            a_b > 0,
            b_b > 0,
            c_b > 0,
    ;
    assert(xab > 0 && xbc >= 0 ==> xac > 0) by (nonlinear_arith)
        requires
            b_b * xac == c_b * xab + a_b * xbc,
            a_b > 0,
            b_b > 0,
            c_b > 0,
    ;
    assert(xab >= 0 && xbc > 0 ==> xac > 0) by (nonlinear_arith)
        requires
            b_b * xac == c_b * xab + a_b * xbc,
            a_b > 0,
            b_b > 0,
            c_b > 0,
    ;
}

/// Ranking is transitive among candidates with a byte cost.
proof fn lemma_outranks_transitive(a: HotCacheCandidate, b: HotCacheCandidate, c: HotCacheCandidate)
    requires
        a.bytes > 0,
        b.bytes > 0,
        c.bytes > 0,
        outranks(a, b),
        outranks(b, c),
    ensures
        outranks(a, c),
{
    lemma_density_chain(
        a.expected_savings_ns as int,
        a.bytes as int,
        b.expected_savings_ns as int,
        b.bytes as int,
        c.expected_savings_ns as int,
        c.bytes as int,
    );
    lemma_density_chain(
        c.expected_savings_ns as int,
        c.bytes as int,
        b.expected_savings_ns as int,
        b.bytes as int,
        a.expected_savings_ns as int,
        a.bytes as int,
    );
}

/// No candidate of a pool outranks the one `best_index` picks.
proof fn lemma_best_not_outranked(pool: Seq<HotCacheCandidate>)
    requires
        pool.len() >= 1,
        forall|i: int| 0 <= i < pool.len() ==> (#[trigger] pool[i]).bytes > 0,
    ensures
        forall|k: int| 0 <= k < pool.len() ==> !outranks(#[trigger] pool[k], pool[best_index(pool)]),
    decreases pool.len(),
{
    lemma_best_index_in_range(pool);
    if pool.len() > 1 {
        let p = pool.drop_last();
        assert forall|i: int| 0 <= i < p.len() implies (#[trigger] p[i]).bytes > 0 by {
            assert(p[i] == pool[i]);
        }
        lemma_best_not_outranked(p);
        lemma_best_index_in_range(p);
        let b = best_index(p);
        let last = pool.last();
        assert(p[b] == pool[b]);
        if outranks(last, pool[b]) {
            assert forall|k: int| 0 <= k < pool.len() implies !outranks(#[trigger] pool[k], pool[best_index(pool)]) by {
                if k < pool.len() - 1 {
                    assert(p[k] == pool[k]);
                    if outranks(pool[k], last) {
                        lemma_outranks_transitive(pool[k], last, pool[b]);
                    }
                }
            }
        } else {
            assert forall|k: int| 0 <= k < pool.len() implies !outranks(#[trigger] pool[k], pool[best_index(pool)]) by {
                if k < pool.len() - 1 {
                    assert(p[k] == pool[k]);
                }
            }
        }
    }
}

/// In priority order, no candidate outranks one placed before it.
proof fn lemma_priority_order_sorted(pool: Seq<HotCacheCandidate>)
    requires
        forall|i: int| 0 <= i < pool.len() ==> (#[trigger] pool[i]).bytes > 0,
    ensures
        forall|i: int, j: int|
            0 <= i < j < priority_order(pool).len() ==> !outranks(
                #[trigger] priority_order(pool)[j],
                #[trigger] priority_order(pool)[i],
            ),
    decreases pool.len(),
{
    if pool.len() > 0 {
        lemma_priority_order_step(pool);
        lemma_best_not_outranked(pool);
        let b = best_index(pool);
        let rest = pool.remove(b);
        assert forall|i: int| 0 <= i < rest.len() implies (#[trigger] rest[i]).bytes > 0 by {
            if i < b {
                assert(rest[i] == pool[i]);
            } else {
                assert(rest[i] == pool[i + 1]);
            }
        }
        lemma_priority_order_sorted(rest);
        lemma_priority_order_from_pool(rest);
        let order = priority_order(pool);
        let tail = priority_order(rest);
        assert forall|i: int, j: int| 0 <= i < j < order.len() implies !outranks(
            #[trigger] order[j],
            #[trigger] order[i],
        ) by {
            assert(order[j] == tail[j - 1]);
            if i == 0 {
                assert(rest.contains(tail[j - 1]));
                let k = choose|k: int| 0 <= k < rest.len() && rest[k] == tail[j - 1];
                if k < b {
                    assert(pool[k] == rest[k]);
                } else {
                    assert(pool[k + 1] == rest[k]);
                }
            } else {
                assert(order[i] == tail[i - 1]);
            }
        }
    }
}

/// Greedy reservation along an order in which nothing outranks an earlier candidate places
/// entries in non-increasing saved latency per byte.
proof fn lemma_greedy_by_density(order: Seq<HotCacheCandidate>, owner: u32, remaining: u64)
    requires
        forall|i: int, j: int| 0 <= i < j < order.len() ==> !outranks(#[trigger] order[j], #[trigger] order[i]),
    ensures
        forall|i: int, j: int|
            0 <= i < j < greedy(order, owner, remaining).0.len() ==> (#[trigger] greedy(order, owner, remaining).0[i]).expected_savings_ns
                * (#[trigger] greedy(order, owner, remaining).0[j]).bytes >= greedy(order, owner, remaining).0[j].expected_savings_ns
                * greedy(order, owner, remaining).0[i].bytes,
    decreases order.len(),
{
    if order.len() > 0 {
        let c = order[0];
        let rest_order = order.drop_first();
        assert forall|i: int, j: int| 0 <= i < j < rest_order.len() implies !outranks(
            #[trigger] rest_order[j],
            #[trigger] rest_order[i],
        ) by {
            assert(rest_order[j] == order[j + 1] && rest_order[i] == order[i + 1]);
        }
        if c.expected_savings_ns != 0 && c.bytes <= remaining {
            let r = (remaining - c.bytes) as u64;
            lemma_greedy_by_density(rest_order, owner, r);
            lemma_greedy_accounting(rest_order, owner, r);
            let out = greedy(order, owner, remaining).0;
            let rest = greedy(rest_order, owner, r).0;
            assert(out.drop_first() =~= rest);
            assert forall|i: int, j: int| 0 <= i < j < out.len() implies (#[trigger] out[i]).expected_savings_ns
                * (#[trigger] out[j]).bytes >= out[j].expected_savings_ns * out[i].bytes by {
                assert(out[j] == rest[j - 1]);
                if i == 0 {
                    assert(out[0] == placement_of(c, owner));
                    let q = rest[j - 1];
                    let m = choose|m: int| 0 <= m < rest_order.len() && placement_of(#[trigger] rest_order[m], owner) == q;
                    assert(rest_order[m] == order[m + 1]);
                    assert(!outranks(order[m + 1], order[0]));
                } else {
                    assert(out[i] == rest[i - 1]);
                }
            }
        } else {
            lemma_greedy_by_density(rest_order, owner, remaining);
            assert(greedy(order, owner, remaining) == greedy(rest_order, owner, remaining));
        }
    }
}

/// Each owner's budget goes to entries in non-increasing saved latency per byte: of any two
/// placements of one owner, the earlier saves at least as much per byte as the later.
pub proof fn law_owner_placements_by_saved_latency_per_byte(
    fabric: FabricView,
    cands: Seq<HotCacheCandidate>,
    owner: u32,
)
    requires
        first_zero_byte_key(cands) is None,
    ensures
        forall|i: int, j: int|
            0 <= i < j < owner_plan(cands, fabric, owner).0.len() ==> (#[trigger] owner_plan(cands, fabric, owner).0[i]).expected_savings_ns
                * (#[trigger] owner_plan(cands, fabric, owner).0[j]).bytes >= owner_plan(cands, fabric, owner).0[j].expected_savings_ns
                * owner_plan(cands, fabric, owner).0[i].bytes,
{
    let pool = owned_by(cands, fabric, owner);
    lemma_no_zero_bytes(cands);
    lemma_owned_by(cands, fabric, owner);
    assert forall|i: int| 0 <= i < pool.len() implies (#[trigger] pool[i]).bytes > 0 by {
        assert(pool.contains(pool[i]));
        assert(cands.contains(pool[i]));
    }
    lemma_priority_order_sorted(pool);
    lemma_greedy_by_density(priority_order(pool), owner, fabric.hot_budget_bytes_per_owner);
}


/// The unused budget of a greedy reservation is at most the budget it started with.
proof fn lemma_greedy_remaining_at_most(order: Seq<HotCacheCandidate>, owner: u32, remaining: u64)
    ensures
        greedy(order, owner, remaining).1 <= remaining,
    decreases order.len(),
{
    if order.len() > 0 {
        let c = order[0];
        if c.expected_savings_ns != 0 && c.bytes <= remaining {
            lemma_greedy_remaining_at_most(order.drop_first(), owner, (remaining - c.bytes) as u64);
        } else {
            lemma_greedy_remaining_at_most(order.drop_first(), owner, remaining);
        }
    }
}

/// A greedy reservation leaves out a positive-saving candidate only when it does not fit what
/// is left at the end.
proof fn lemma_greedy_maximal(order: Seq<HotCacheCandidate>, owner: u32, remaining: u64, j: int)
    requires
        0 <= j < order.len(),
        order[j].expected_savings_ns != 0,
        !greedy(order, owner, remaining).0.contains(placement_of(order[j], owner)),
    ensures
        order[j].bytes > greedy(order, owner, remaining).1,
    decreases order.len(),
{
    let c = order[0];
    let rest_order = order.drop_first();
    if c.expected_savings_ns != 0 && c.bytes <= remaining {
        let r = (remaining - c.bytes) as u64;
        let out = greedy(order, owner, remaining).0;
        let rest = greedy(rest_order, owner, r).0;
        if j == 0 {
            assert(out[0] == placement_of(c, owner));
        } else {
            assert(rest_order[j - 1] == order[j]);
            if rest.contains(placement_of(order[j], owner)) {
                let k = choose|k: int| 0 <= k < rest.len() && rest[k] == placement_of(order[j], owner);
                assert(out[k + 1] == rest[k]);
            }
            lemma_greedy_maximal(rest_order, owner, r, j - 1);
        }
    } else {
        lemma_greedy_remaining_at_most(rest_order, owner, remaining);
        if j > 0 {
            assert(rest_order[j - 1] == order[j]);
            lemma_greedy_maximal(rest_order, owner, remaining, j - 1);
        }
    }
}

/// Every candidate of the pool appears in its priority order.
proof fn lemma_priority_order_covers_pool(pool: Seq<HotCacheCandidate>, c: HotCacheCandidate)
    requires
        pool.contains(c),
    ensures
        priority_order(pool).contains(c),
    decreases pool.len(),
{
    lemma_priority_order_step(pool);
    let b = best_index(pool);
    let rest = pool.remove(b);
    let order = priority_order(pool);
    if pool[b] == c {
        assert(order[0] == c);
    } else {
        let k = choose|k: int| 0 <= k < pool.len() && pool[k] == c;
        if k < b {
            assert(rest[k] == c);
        } else {
            assert(rest[k - 1] == c);
        }
        lemma_priority_order_covers_pool(rest, c);
        let m = choose|m: int| 0 <= m < priority_order(rest).len() && priority_order(rest)[m] == c;
        assert(order[m + 1] == c);
    }
}

/// Every input candidate whose key routes to `owner` is among the candidates routed to it.
proof fn lemma_owned_by_covers(cands: Seq<HotCacheCandidate>, fabric: FabricView, owner: u32, c: HotCacheCandidate)
    requires
        cands.contains(c),
        fabric.owner_for_key(c.key) == owner,
    ensures
        owned_by(cands, fabric, owner).contains(c),
    decreases cands.len(),
{
    let rest = cands.drop_last();
    let orest = owned_by(rest, fabric, owner);
    if cands.last() == c {
        assert(owned_by(cands, fabric, owner) == orest.push(c));
        assert(owned_by(cands, fabric, owner)[orest.len() as int] == c);
    } else {
        let k = choose|k: int| 0 <= k < cands.len() && cands[k] == c;
        assert(rest[k] == c);
        lemma_owned_by_covers(rest, fabric, owner, c);
        let m = choose|m: int| 0 <= m < orest.len() && orest[m] == c;
        if fabric.owner_for_key(cands.last().key) == owner {
            assert(owned_by(cands, fabric, owner)[m] == c);
        }
    }
}

/// The placements of owner `i` are among the placements of the first `n > i` owners.
proof fn lemma_placements_through_include(cands: Seq<HotCacheCandidate>, fabric: FabricView, n: int, i: int, p: HotCachePlacement)
    requires
        0 <= i < n,
        owner_plan(cands, fabric, fabric.owners[i]).0.contains(p),
    ensures
        placements_through(cands, fabric, n).contains(p),
    decreases n,
{
    let before = placements_through(cands, fabric, n - 1);
    let mine = owner_plan(cands, fabric, fabric.owners[n - 1]).0;
    if i == n - 1 {
        let k = choose|k: int| 0 <= k < mine.len() && mine[k] == p;
        assert((before + mine)[before.len() + k] == p);
    } else {
        lemma_placements_through_include(cands, fabric, n - 1, i, p);
        let k = choose|k: int| 0 <= k < before.len() && before[k] == p;
        assert((before + mine)[k] == p);
    }
}

/// The greedy plan is maximal: a positive-saving candidate routed to owner `i` that the plan
/// does not place is larger than the budget that owner has left, so nothing that still fits is
/// ever left out.
pub proof fn law_unplaced_candidates_do_not_fit(
    fabric: FabricView,
    cands: Seq<HotCacheCandidate>,
    i: int,
    c: HotCacheCandidate,
)
    requires
        0 <= i < fabric.owners.len(),
        cands.contains(c),
        fabric.owner_for_key(c.key) == fabric.owners[i],
        c.expected_savings_ns != 0,
        !planned_hot(fabric, cands).placements.contains(placement_of(c, fabric.owners[i])),
    ensures
        c.bytes > planned_hot(fabric, cands).remaining_bytes_by_cpu[i].1,
        planned_hot(fabric, cands).remaining_bytes_by_cpu[i].0 == fabric.owners[i],
{
    let owner = fabric.owners[i];
    let pool = owned_by(cands, fabric, owner);
    let order = priority_order(pool);
    let budget = fabric.hot_budget_bytes_per_owner;
    if owner_plan(cands, fabric, owner).0.contains(placement_of(c, owner)) {
        lemma_placements_through_include(cands, fabric, fabric.owners.len() as int, i, placement_of(c, owner));
    }
    lemma_owned_by_covers(cands, fabric, owner, c);
    lemma_priority_order_covers_pool(pool, c);
    let j = choose|j: int| 0 <= j < order.len() && order[j] == c;
    lemma_greedy_maximal(order, owner, budget, j);
}

/// A fabric accepted for a topology: the owners are exactly the compute CPUs, in strictly
/// ascending order, the budget is the one asked for, and every owner has a private
/// data-capable L2 cache at least that large.
pub open spec fn fabric_fits_topology(v: FabricView, caches: Seq<CpuCache>, compute_cpus: Seq<u32>, budget: u64) -> bool {
    &&& v.hot_budget_bytes_per_owner == budget
    &&& v.owners.len() > 0
    &&& forall|x: u32| v.owners.contains(x) <==> compute_cpus.contains(x)
    &&& forall|i: int, j: int| 0 <= i < j < v.owners.len() ==> #[trigger] v.owners[i] < #[trigger] v.owners[j]
    &&& forall|i: int| 0 <= i < v.owners.len() ==> has_private_l2_of_at_least(caches, #[trigger] v.owners[i], budget)
}

/// Some cache of `caches` is a level-2 data-capable cache private to `cpu` holding at least
/// `bytes` bytes.
pub open spec fn has_private_l2_of_at_least(caches: Seq<CpuCache>, cpu: u32, bytes: u64) -> bool {
    exists|k: int|
        0 <= k < caches.len() && (#[trigger] caches[k]).level == 2 && (caches[k].cache_type == CacheType::Data
            || caches[k].cache_type == CacheType::Unified) && caches[k].shared_cpu_ids@ == seq![cpu]
            && caches[k].size_bytes >= bytes
}

/// The size `private_l2_bytes` reports is that of one private data-capable L2 of the CPU.
proof fn lemma_private_l2_witness(caches: Seq<CpuCache>, cpu: u32)
    requires
        private_l2_bytes(caches, cpu) is Some,
    ensures
        exists|k: int|
            0 <= k < caches.len() && is_private_l2_of(#[trigger] caches[k], cpu) && caches[k].size_bytes
                == private_l2_bytes(caches, cpu)->0,
    decreases caches.len(),
{
    let rest = caches.drop_last();
    let c = caches.last();
    if is_private_l2_of(c, cpu) && (private_l2_bytes(rest, cpu) is None || c.size_bytes > private_l2_bytes(rest, cpu)->0) {
        assert(caches[caches.len() - 1] == c);
    } else {
        lemma_private_l2_witness(rest, cpu);
        let k = choose|k: int|
            0 <= k < rest.len() && is_private_l2_of(#[trigger] rest[k], cpu) && rest[k].size_bytes
                == private_l2_bytes(rest, cpu)->0;
        assert(caches[k] == rest[k]);
    }
}

/// Owners that pass the L2 check each have a private L2 at least as large as the budget.
proof fn lemma_owner_l2_ok(caches: Seq<CpuCache>, owners: Seq<u32>, budget: u64)
    requires
        owner_l2_error(caches, owners, budget) is None,
    ensures
        forall|i: int|
            0 <= i < owners.len() ==> #[trigger] private_l2_bytes(caches, owners[i]) is Some && budget
                <= private_l2_bytes(caches, owners[i])->0,
    decreases owners.len(),
{
    if owners.len() > 0 {
        lemma_owner_l2_ok(caches, owners.drop_last(), budget);
        assert forall|i: int| 0 <= i < owners.len() implies #[trigger] private_l2_bytes(caches, owners[i]) is Some
            && budget <= private_l2_bytes(caches, owners[i])->0 by {
            if i < owners.len() - 1 {
                assert(owners[i] == owners.drop_last()[i]);
            }
        }
    }
}

/// Every fabric accepted for a topology fits it (see `fabric_fits_topology`).
pub proof fn law_accepted_fabric_fits_topology(caches: Seq<CpuCache>, compute_cpus: Seq<u32>, budget: u64)
    requires
        fabric_outcome(caches, compute_cpus, budget) is Ok,
    ensures
        fabric_fits_topology(fabric_outcome(caches, compute_cpus, budget)->Ok_0, caches, compute_cpus, budget),
{
    let v = fabric_outcome(caches, compute_cpus, budget)->Ok_0;
    let owners = ascending_from(compute_cpus, 0);
    crate::layout::lemma_ascending_from(compute_cpus, 0);
    lemma_owner_l2_ok(caches, owners, budget);
    assert(compute_cpus.contains(compute_cpus[0]));
    assert(owners.contains(compute_cpus[0]));
    assert forall|i: int| 0 <= i < v.owners.len() implies has_private_l2_of_at_least(
        caches,
        #[trigger] v.owners[i],
        budget,
    ) by {
        assert(private_l2_bytes(caches, owners[i]) is Some);
        lemma_private_l2_witness(caches, owners[i]);
    }
}

/// Candidates without a repeated key have pairwise distinct keys.
proof fn lemma_no_repeated_key(cands: Seq<HotCacheCandidate>)
    requires
        first_repeated_key(cands) is None,
    ensures
        forall|i: int, j: int| 0 <= i < j < cands.len() ==> (#[trigger] cands[i]).key != (#[trigger] cands[j]).key,
    decreases cands.len(),
{
    if cands.len() > 0 {
        let init = cands.drop_last();
        lemma_no_repeated_key(init);
        assert forall|i: int, j: int| 0 <= i < j < cands.len() implies (#[trigger] cands[i]).key
            != (#[trigger] cands[j]).key by {
            if j < cands.len() - 1 {
                assert(cands[i] == init[i] && cands[j] == init[j]);
            } else {
                assert(!(cands[i].key == cands.last().key));
            }
        }
    }
}
} // verus!
