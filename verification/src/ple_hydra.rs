//! Deterministic, host-independent PLE-Hydra logical-tier resolution.
use crate::cache_fabric::{
    law_placements_are_routed_candidates, owner_plan, placements_through, planned_hot, CpuCacheFabric,
    CpuHotCachePlan, FabricView, HotCacheCandidate, HotCachePlacement, HotPlanView,
};
use crate::text::{all_white_space, is_blank};
use std::collections::BTreeSet;
use vstd::prelude::*;

verus! {

broadcast use {vstd::std_specs::btree::group_btree_axioms, vstd::laws_cmp::group_laws_cmp};

/// Exactness class for one isolated PLE-Hydra cache hierarchy.
#[derive(Clone, Debug, PartialEq, Eq)]
pub enum PleHydraMode {
    /// Byte/algorithmically exact PLE data and tier state.
    Exact,
    /// Explicitly approximate experimental PLE data that must remain isolated from exact state.
    ExperimentalApproximate {
        /// Human-readable identifier for the approximation experiment.
        label: String,
    },
}

/// Logical PLE-Hydra tier selected for one PLE/cache state key.
#[derive(Clone, Debug, PartialEq, Eq)]
pub enum PleHydraTier {
    /// The entry is assigned to this key's canonical private CPU owner.
    OwnerCpuHot {
        /// Linux CPU ID of the single cache owner.
        owner_cpu: u32,
    },
    /// The entry is in the shared CPU hot/warm tier.
    SharedCpuWarm,
    /// The entry is expected to be available through the mmap/Linux page-cache warm tier.
    PageCacheWarm,
    /// The entry is absent from all warm tiers and requires cold NVMe backing.
    NvmeCold,
}

/// One logical PLE-Hydra lookup observed by a host-independent simulation.
#[derive(Clone, Debug, PartialEq, Eq)]
pub struct PleHydraAccess {
    /// Stable PLE/cache state key that was looked up.
    pub key: u64,
    /// Highest available tier selected for the key.
    pub tier: PleHydraTier,
}

/// Aggregate logical-tier counts collected from one PLE-Hydra simulation trace.
#[derive(Clone, Copy, Debug, PartialEq, Eq)]
pub struct PleHydraTierCounts {
    /// Lookups served by the canonical private CPU-owner tier.
    pub owner_cpu_hot_hits: u64,
    /// Lookups served by the shared CPU hot/warm tier.
    pub shared_cpu_warm_hits: u64,
    /// Lookups served by the mmap/Linux page-cache warm tier.
    pub page_cache_warm_hits: u64,
    /// Lookups that would require the NVMe cold tier.
    pub nvme_cold_reads: u64,
}

/// All counters at zero.
pub open spec fn zero_counts() -> PleHydraTierCounts {
    PleHydraTierCounts {
        owner_cpu_hot_hits: 0,
        shared_cpu_warm_hits: 0,
        page_cache_warm_hits: 0,
        nvme_cold_reads: 0,
    }
}

impl Default for PleHydraTierCounts {
    fn default() -> (r: Self)
        ensures
            r == zero_counts(),
    {
        PleHydraTierCounts {
            owner_cpu_hot_hits: 0,
            shared_cpu_warm_hits: 0,
            page_cache_warm_hits: 0,
            nvme_cold_reads: 0,
        }
    }
}

/// `x + 1`, saturating at `u64::MAX`.
pub open spec fn bump(x: u64) -> u64 {
    if x == u64::MAX {
        x
    } else {
        (x + 1) as u64
    }
}

/// The counters after one more lookup served by `tier`.
pub open spec fn recorded(c: PleHydraTierCounts, tier: PleHydraTier) -> PleHydraTierCounts {
    match tier {
        PleHydraTier::OwnerCpuHot { .. } => PleHydraTierCounts {
            owner_cpu_hot_hits: bump(c.owner_cpu_hot_hits),
            ..c
        },
        PleHydraTier::SharedCpuWarm => PleHydraTierCounts {
            shared_cpu_warm_hits: bump(c.shared_cpu_warm_hits),
            ..c
        },
        PleHydraTier::PageCacheWarm => PleHydraTierCounts {
            page_cache_warm_hits: bump(c.page_cache_warm_hits),
            ..c
        },
        PleHydraTier::NvmeCold => PleHydraTierCounts { nvme_cold_reads: bump(c.nvme_cold_reads), ..c },
    }
}

impl PleHydraTierCounts {
    /// Count one more lookup served by `tier` (saturating).
    pub fn record(&mut self, tier: &PleHydraTier)
        ensures
            *final(self) == recorded(*old(self), *tier),
    {
        match tier {
            PleHydraTier::OwnerCpuHot { .. } => {
                self.owner_cpu_hot_hits = self.owner_cpu_hot_hits.saturating_add(1);
            },
            PleHydraTier::SharedCpuWarm => {
                self.shared_cpu_warm_hits = self.shared_cpu_warm_hits.saturating_add(1);
            },
            PleHydraTier::PageCacheWarm => {
                self.page_cache_warm_hits = self.page_cache_warm_hits.saturating_add(1);
            },
            PleHydraTier::NvmeCold => {
                self.nvme_cold_reads = self.nvme_cold_reads.saturating_add(1);
            },
        }
    }
}

/// Results from resolving a complete logical PLE-Hydra access trace.
#[derive(Clone, Debug, PartialEq, Eq)]
pub struct PleHydraSimulation {
    accesses: Vec<PleHydraAccess>,
    tier_counts: PleHydraTierCounts,
}

impl PleHydraSimulation {
    /// Abstract per-access records, in trace order.
    pub closed spec fn access_seq(&self) -> Seq<PleHydraAccess> {
        self.accesses@
    }

    /// Abstract aggregate counts.
    pub closed spec fn counts(&self) -> PleHydraTierCounts {
        self.tier_counts
    }

    /// One tier-resolution record for each input key in trace order.
    pub fn accesses(&self) -> (r: &[PleHydraAccess])
        ensures
            r@ == self.access_seq(),
    {
        self.accesses.as_slice()
    }

    /// Aggregate counts by logical PLE-Hydra tier.
    pub fn tier_counts(&self) -> (r: PleHydraTierCounts)
        ensures
            r == self.counts(),
    {
        self.tier_counts
    }
}

/// Failure while converting a CPU hot-cache plan into PLE-Hydra tier state.
#[derive(Clone, Debug, PartialEq, Eq)]
pub enum PleHydraError {
    /// An experimental hierarchy lacked the identifier required to keep its evidence distinct.
    EmptyExperimentalModeLabel,
    /// A hot-cache plan was created by a different canonical owner fabric.
    HotPlanFabricMismatch {
        /// Canonical owner CPUs recorded in the supplied plan.
        plan_owner_cpus: Vec<u32>,
        /// Uniform per-owner hot-cache budget recorded in the supplied plan.
        plan_hot_budget_bytes_per_owner: u64,
        /// Canonical owner CPUs in the PLE-Hydra fabric.
        hydra_owner_cpus: Vec<u32>,
        /// Uniform per-owner hot-cache budget in the active PLE-Hydra fabric.
        hydra_hot_budget_bytes_per_owner: u64,
    },
    /// A hot-cache placement was assigned to a CPU that does not own its key.
    HotPlacementOwnerMismatch {
        /// Stable PLE/cache state key.
        key: u64,
        /// CPU named by the supplied placement.
        actual_owner_cpu: u32,
        /// Canonical CPU derived from the cache fabric.
        expected_owner_cpu: u32,
    },
}

/// Abstract PLE-Hydra state. A hot key is only ever held by its canonical owner, so the
/// owner-hot tier is the set of hot keys.
pub struct HydraView {
    pub mode: PleHydraMode,
    pub fabric: FabricView,
    pub owner_hot_keys: Set<u64>,
    pub shared_cpu_warm_keys: Set<u64>,
    pub page_cache_warm_keys: Set<u64>,
}

/// The highest available tier of `key`: owner-hot, then shared warm, then page cache, then NVMe.
pub open spec fn tier_of(h: HydraView, key: u64) -> PleHydraTier {
    if h.owner_hot_keys.contains(key) {
        PleHydraTier::OwnerCpuHot { owner_cpu: h.fabric.owner_for_key(key) }
    } else if h.shared_cpu_warm_keys.contains(key) {
        PleHydraTier::SharedCpuWarm
    } else if h.page_cache_warm_keys.contains(key) {
        PleHydraTier::PageCacheWarm
    } else {
        PleHydraTier::NvmeCold
    }
}

/// The mode is experimental with a label that is empty or only white space.
pub open spec fn mode_label_blank(mode: PleHydraMode) -> bool {
    match mode {
        PleHydraMode::Exact => false,
        PleHydraMode::ExperimentalApproximate { label } => all_white_space(label@),
    }
}

/// The plan was made by a fabric with these owners and this budget.
pub open spec fn plan_matches_fabric(plan: HotPlanView, fabric: FabricView) -> bool {
    plan.owner_cpus == fabric.owners && plan.hot_budget_bytes_per_owner == fabric.hot_budget_bytes_per_owner
}

/// Index of the first placement whose CPU is not its key's canonical owner.
pub open spec fn first_misrouted(placements: Seq<HotCachePlacement>, fabric: FabricView) -> Option<int>
    decreases placements.len(),
{
    if placements.len() == 0 {
        None
    } else {
        match first_misrouted(placements.drop_last(), fabric) {
            Some(i) => Some(i),
            None => {
                let p = placements.last();
                if p.owner_cpu != fabric.owner_for_key(p.key) {
                    Some(placements.len() - 1)
                } else {
                    None
                }
            },
        }
    }
}

/// The keys that `placements` reserve, as a set.
pub open spec fn placed_keys(placements: Seq<HotCachePlacement>) -> Set<u64> {
    placements.map_values(|p: HotCachePlacement| p.key).to_set()
}

/// The state built from a plan that passed every check.
pub open spec fn seeded(
    mode: PleHydraMode,
    fabric: FabricView,
    plan: HotPlanView,
    shared: Seq<u64>,
    page: Seq<u64>,
) -> HydraView {
    HydraView {
        mode,
        fabric,
        owner_hot_keys: placed_keys(plan.placements),
        shared_cpu_warm_keys: shared.to_set(),
        page_cache_warm_keys: page.to_set(),
    }
}

/// Read-only PLE-Hydra logical-tier state derived from a CPU cache-fabric plan.
#[derive(Clone, Debug, PartialEq, Eq)]
pub struct PleHydra {
    mode: PleHydraMode,
    cache_fabric: CpuCacheFabric,
    owner_hot_keys: BTreeSet<u64>,
    shared_cpu_warm_keys: BTreeSet<u64>,
    page_cache_warm_keys: BTreeSet<u64>,
}

impl View for PleHydra {
    type V = HydraView;

    closed spec fn view(&self) -> HydraView {
        HydraView {
            mode: self.mode,
            fabric: self.cache_fabric@,
            owner_hot_keys: self.owner_hot_keys@,
            shared_cpu_warm_keys: self.shared_cpu_warm_keys@,
            page_cache_warm_keys: self.page_cache_warm_keys@,
        }
    }
}

/// The keys of `keys`, as a set.
fn key_set(keys: &[u64]) -> (r: BTreeSet<u64>)
    ensures
        r@ == keys@.to_set(),
{
    let mut set: BTreeSet<u64> = BTreeSet::new();
    let mut i: usize = 0;
    while i < keys.len()
        invariant
            i <= keys@.len(),
            set@ == keys@.take(i as int).to_set(),
        decreases keys@.len() - i,
    {
        set.insert(keys[i]);
        proof {
            let next = keys@.take(i + 1);
            assert(next =~= keys@.take(i as int).push(keys@[i as int]));
            assert forall|k: u64| set@.contains(k) <==> next.contains(k) by {
                if next.contains(k) && k != keys@[i as int] {
                    let j = choose|j: int| 0 <= j < next.len() && next[j] == k;
                    assert(keys@.take(i as int)[j] == k);
                }
                if keys@.take(i as int).contains(k) {
                    let j = choose|j: int| 0 <= j < i && keys@.take(i as int)[j] == k;
                    assert(next[j] == k);
                }
                if k == keys@[i as int] {
                    assert(next[i as int] == k);
                }
            }
            assert(set@ =~= next.to_set());
        }
        i += 1;
    }
    assert(keys@.take(i as int) =~= keys@);
    set
}

/// Whether two CPU lists are equal.
fn same_cpus(a: &[u32], b: &[u32]) -> (r: bool)
    ensures
        r == (a@ == b@),
{
    if a.len() != b.len() {
        return false;
    }
    let mut i: usize = 0;
    while i < a.len()
        invariant
            i <= a@.len(),
            a@.len() == b@.len(),
            forall|j: int| 0 <= j < i ==> a@[j] == b@[j],
        decreases a@.len() - i,
    {
        if a[i] != b[i] {
            return false;
        }
        i += 1;
    }
    assert(a@ =~= b@);
    true
}

/// A found misrouted placement stays the first one in every longer prefix.
proof fn lemma_first_misrouted_prefix(ps: Seq<HotCachePlacement>, fabric: FabricView, k: int, j: int)
    requires
        0 <= k <= j <= ps.len(),
        first_misrouted(ps.take(k), fabric) is Some,
    ensures
        first_misrouted(ps.take(j), fabric) == first_misrouted(ps.take(k), fabric),
    decreases j - k,
{
    if j > k {
        lemma_first_misrouted_prefix(ps, fabric, k, j - 1);
        assert(ps.take(j).drop_last() =~= ps.take(j - 1));
    }
}

impl PleHydra {
    /// Build exact PLE-Hydra tier state from a validated CPU hot-cache plan.
    pub fn from_hot_cache_plan(
        cache_fabric: CpuCacheFabric,
        hot_plan: &CpuHotCachePlan,
        shared_cpu_warm_keys: &[u64],
        page_cache_warm_keys: &[u64],
    ) -> (r: Result<Self, PleHydraError>)
        ensures
            Self::seed_contract(
                PleHydraMode::Exact,
                cache_fabric@,
                hot_plan@,
                shared_cpu_warm_keys@,
                page_cache_warm_keys@,
                r,
            ),
            r is Ok ==> hydra_fits_plan(
                r->Ok_0@,
                cache_fabric@,
                hot_plan@,
                shared_cpu_warm_keys@,
                page_cache_warm_keys@,
            ),
    {
        Self::from_hot_cache_plan_with_mode(
            PleHydraMode::Exact,
            cache_fabric,
            hot_plan,
            shared_cpu_warm_keys,
            page_cache_warm_keys,
        )
    }

    /// What building from a plan returns, in the order it checks: a blank experimental label,
    /// a plan made by another fabric, then the first placement held by a CPU that does not own
    /// its key.
    pub open spec fn seed_contract(
        mode: PleHydraMode,
        fabric: FabricView,
        plan: HotPlanView,
        shared: Seq<u64>,
        page: Seq<u64>,
        r: Result<Self, PleHydraError>,
    ) -> bool {
        if mode_label_blank(mode) {
            r == Err::<Self, PleHydraError>(PleHydraError::EmptyExperimentalModeLabel)
        } else if !plan_matches_fabric(plan, fabric) {
            match r {
                Err(PleHydraError::HotPlanFabricMismatch {
                    plan_owner_cpus,
                    plan_hot_budget_bytes_per_owner,
                    hydra_owner_cpus,
                    hydra_hot_budget_bytes_per_owner,
                }) => {
                    &&& plan_owner_cpus@ == plan.owner_cpus
                    &&& plan_hot_budget_bytes_per_owner == plan.hot_budget_bytes_per_owner
                    &&& hydra_owner_cpus@ == fabric.owners
                    &&& hydra_hot_budget_bytes_per_owner == fabric.hot_budget_bytes_per_owner
                },
                _ => false,
            }
        } else {
            match first_misrouted(plan.placements, fabric) {
                Some(i) => r == Err::<Self, PleHydraError>(
                    PleHydraError::HotPlacementOwnerMismatch {
                        key: plan.placements[i].key,
                        actual_owner_cpu: plan.placements[i].owner_cpu,
                        expected_owner_cpu: fabric.owner_for_key(plan.placements[i].key),
                    },
                ),
                None => r is Ok && r->Ok_0@ == seeded(mode, fabric, plan, shared, page),
            }
        }
    }

    /// Build a PLE-Hydra hierarchy in one explicit exactness mode.
    pub fn from_hot_cache_plan_with_mode(
        mode: PleHydraMode,
        cache_fabric: CpuCacheFabric,
        hot_plan: &CpuHotCachePlan,
        shared_cpu_warm_keys: &[u64],
        page_cache_warm_keys: &[u64],
    ) -> (r: Result<Self, PleHydraError>)
        ensures
            Self::seed_contract(
                mode,
                cache_fabric@,
                hot_plan@,
                shared_cpu_warm_keys@,
                page_cache_warm_keys@,
                r,
            ),
            r is Ok ==> !mode_label_blank(mode) && r->Ok_0@.mode == mode && hydra_fits_plan(
                r->Ok_0@,
                cache_fabric@,
                hot_plan@,
                shared_cpu_warm_keys@,
                page_cache_warm_keys@,
            ),
    {
        proof {
            if first_misrouted(hot_plan@.placements, cache_fabric@) is None {
                lemma_first_misrouted_none(hot_plan@.placements, cache_fabric@);
            }
            lemma_placed_key_set(hot_plan@.placements);
        }
        let blank = match &mode {
            PleHydraMode::Exact => false,
            PleHydraMode::ExperimentalApproximate { label } => is_blank(label.as_str()),
        };
        if blank {
            return Err(PleHydraError::EmptyExperimentalModeLabel);
        }
        let hydra_owner_cpus = cache_fabric.owner_cpus();
        let hydra_hot_budget_bytes_per_owner = cache_fabric.hot_budget_bytes_per_owner();
        if !same_cpus(hot_plan.owner_cpus(), hydra_owner_cpus.as_slice())
            || hot_plan.hot_budget_bytes_per_owner() != hydra_hot_budget_bytes_per_owner {
            let plan_cpus = hot_plan.owner_cpus();
            let mut plan_owner_cpus: Vec<u32> = Vec::new();
            let mut i: usize = 0;
            while i < plan_cpus.len()
                invariant
                    i <= plan_cpus@.len(),
                    plan_owner_cpus@ == plan_cpus@.take(i as int),
                decreases plan_cpus@.len() - i,
            {
                plan_owner_cpus.push(plan_cpus[i]);
                assert(plan_cpus@.take(i + 1) =~= plan_cpus@.take(i as int).push(plan_cpus@[i as int]));
                i += 1;
            }
            assert(plan_cpus@.take(i as int) =~= plan_cpus@);
            return Err(
                PleHydraError::HotPlanFabricMismatch {
                    plan_owner_cpus,
                    plan_hot_budget_bytes_per_owner: hot_plan.hot_budget_bytes_per_owner(),
                    hydra_owner_cpus,
                    hydra_hot_budget_bytes_per_owner,
                },
            );
        }
        let placements = hot_plan.placements();
        let ghost ps = placements@;
        let mut owner_hot_keys: BTreeSet<u64> = BTreeSet::new();
        let mut i: usize = 0;
        while i < placements.len()
            invariant
                i <= ps.len(),
                ps == placements@,
                ps == hot_plan@.placements,
                !mode_label_blank(mode),
                plan_matches_fabric(hot_plan@, cache_fabric@),
                first_misrouted(ps.take(i as int), cache_fabric@) is None,
                owner_hot_keys@ == ps.take(i as int).map_values(|p: HotCachePlacement| p.key).to_set(),
            decreases ps.len() - i,
        {
            assert(ps.take(i + 1).drop_last() =~= ps.take(i as int));
            let p = placements[i];
            let expected_owner_cpu = cache_fabric.owner_cpu_for_key(p.key);
            if p.owner_cpu != expected_owner_cpu {
                proof {
                    lemma_first_misrouted_prefix(ps, cache_fabric@, i + 1, ps.len() as int);
                    assert(ps.take(ps.len() as int) =~= ps);
                }
                return Err(
                    PleHydraError::HotPlacementOwnerMismatch {
                        key: p.key,
                        actual_owner_cpu: p.owner_cpu,
                        expected_owner_cpu,
                    },
                );
            }
            owner_hot_keys.insert(p.key);
            proof {
                let before = ps.take(i as int).map_values(|q: HotCachePlacement| q.key);
                let after = ps.take(i + 1).map_values(|q: HotCachePlacement| q.key);
                assert(after =~= before.push(p.key));
                assert forall|k: u64| owner_hot_keys@.contains(k) <==> after.contains(k) by {
                    if after.contains(k) && k != p.key {
                        let j = choose|j: int| 0 <= j < after.len() && after[j] == k;
                        assert(before[j] == k);
                    }
                    if before.contains(k) {
                        let j = choose|j: int| 0 <= j < before.len() && before[j] == k;
                        assert(after[j] == k);
                    }
                    if k == p.key {
                        assert(after[i as int] == k);
                    }
                }
                assert(owner_hot_keys@ =~= after.to_set());
            }
            i += 1;
        }
        assert(ps.take(i as int) =~= ps);
        let shared = key_set(shared_cpu_warm_keys);
        let page = key_set(page_cache_warm_keys);
        Ok(
            PleHydra {
                mode,
                cache_fabric,
                owner_hot_keys,
                shared_cpu_warm_keys: shared,
                page_cache_warm_keys: page,
            },
        )
    }

    /// This hierarchy's exactness mode.
    pub fn mode(&self) -> (r: &PleHydraMode)
        ensures
            *r == self@.mode,
    {
        &self.mode
    }

    /// Resolve a PLE/cache state key through the owner-hot, shared-warm, page-cache and NVMe
    /// tiers, taking the first that holds it.
    pub fn tier_for_key(&self, key: u64) -> (r: PleHydraTier)
        ensures
            r == tier_of(self@, key),
    {
        let owner_cpu = self.cache_fabric.owner_cpu_for_key(key);
        if self.owner_hot_keys.contains(&key) {
            return PleHydraTier::OwnerCpuHot { owner_cpu };
        }
        if self.shared_cpu_warm_keys.contains(&key) {
            return PleHydraTier::SharedCpuWarm;
        }
        if self.page_cache_warm_keys.contains(&key) {
            return PleHydraTier::PageCacheWarm;
        }
        PleHydraTier::NvmeCold
    }
}

/// The access record of each key, in trace order.
pub open spec fn accesses_of(h: HydraView, keys: Seq<u64>) -> Seq<PleHydraAccess> {
    keys.map_values(|k: u64| PleHydraAccess { key: k, tier: tier_of(h, k) })
}

/// Counters after recording every key of the trace, in order.
pub open spec fn counts_of(h: HydraView, keys: Seq<u64>) -> PleHydraTierCounts
    decreases keys.len(),
{
    if keys.len() == 0 {
        zero_counts()
    } else {
        recorded(counts_of(h, keys.drop_last()), tier_of(h, keys.last()))
    }
}

impl PleHydra {
    /// Resolve a trace without performing real I/O, returning per-access tiers and aggregate
    /// counts.
    pub fn simulate_trace(&self, keys: &[u64]) -> (r: PleHydraSimulation)
        ensures
            r.access_seq() == accesses_of(self@, keys@),
            r.counts() == counts_of(self@, keys@),
    {
        let mut tier_counts = PleHydraTierCounts::default();
        let mut accesses: Vec<PleHydraAccess> = Vec::new();
        let mut i: usize = 0;
        while i < keys.len()
            invariant
                i <= keys@.len(),
                accesses@ == accesses_of(self@, keys@.take(i as int)),
                tier_counts == counts_of(self@, keys@.take(i as int)),
            decreases keys@.len() - i,
        {
            assert(keys@.take(i + 1).drop_last() =~= keys@.take(i as int));
            let key = keys[i];
            let tier = self.tier_for_key(key);
            tier_counts.record(&tier);
            accesses.push(PleHydraAccess { key, tier });
            assert(accesses@ =~= accesses_of(self@, keys@.take(i + 1)));
            i += 1;
        }
        assert(keys@.take(i as int) =~= keys@);
        PleHydraSimulation { accesses, tier_counts }
    }
}

/// Sum of the four counters.
pub open spec fn total(c: PleHydraTierCounts) -> int {
    c.owner_cpu_hot_hits + c.shared_cpu_warm_hits + c.page_cache_warm_hits + c.nvme_cold_reads
}

/// Each lookup of a trace that fits the counters is counted exactly once, in one tier.
pub proof fn law_every_lookup_is_counted_once(h: HydraView, keys: Seq<u64>)
    requires
        keys.len() <= u64::MAX,
    ensures
        total(counts_of(h, keys)) == keys.len(),
    decreases keys.len(),
{
    if keys.len() > 0 {
        law_every_lookup_is_counted_once(h, keys.drop_last());
        let c = counts_of(h, keys.drop_last());
        assert(c.owner_cpu_hot_hits <= keys.len() - 1);
        assert(c.shared_cpu_warm_hits <= keys.len() - 1);
        assert(c.page_cache_warm_hits <= keys.len() - 1);
        assert(c.nvme_cold_reads <= keys.len() - 1);
    }
}

/// A key is served by its canonical owner exactly when it is hot; an owner-hot answer always
/// names the key's canonical owner CPU.
pub proof fn law_owner_hot_names_the_canonical_owner(h: HydraView, key: u64)
    ensures
        (tier_of(h, key) is OwnerCpuHot) == h.owner_hot_keys.contains(key),
        tier_of(h, key) is OwnerCpuHot ==> tier_of(h, key)->owner_cpu == h.fabric.owner_for_key(key),
{
}

/// Every placement of a plan that a fabric made is held by its key's canonical owner, so the
/// plan seeds a PLE-Hydra state on that same fabric without an owner mismatch.
pub proof fn law_fabric_plans_are_routed(fabric: FabricView, cands: Seq<HotCacheCandidate>)
    ensures
        first_misrouted(planned_hot(fabric, cands).placements, fabric) is None,
{
    lemma_placements_through_routed(fabric, cands, fabric.owners.len() as int);
    lemma_no_misrouted(planned_hot(fabric, cands).placements, fabric);
}

proof fn lemma_placements_through_routed(fabric: FabricView, cands: Seq<HotCacheCandidate>, n: int)
    ensures
        forall|i: int|
            0 <= i < placements_through(cands, fabric, n).len() ==> {
                let p = #[trigger] placements_through(cands, fabric, n)[i];
                p.owner_cpu == fabric.owner_for_key(p.key)
            },
    decreases n,
{
    if n > 0 {
        lemma_placements_through_routed(fabric, cands, n - 1);
        let prev = placements_through(cands, fabric, n - 1);
        let owner = fabric.owners[n - 1];
        let mine = owner_plan(cands, fabric, owner).0;
        let all = placements_through(cands, fabric, n);
        assert forall|i: int| 0 <= i < all.len() implies {
            let p = #[trigger] all[i];
            p.owner_cpu == fabric.owner_for_key(p.key)
        } by {
            if i < prev.len() {
                assert(all[i] == prev[i]);
            } else {
                assert(all[i] == mine[i - prev.len()]);
                law_placements_are_routed_candidates(fabric, cands, owner, i - prev.len());
                let c = choose|c: HotCacheCandidate|
                    #[trigger] cands.contains(c) && fabric.owner_for_key(c.key) == owner
                        && crate::cache_fabric::placement_of(c, owner) == mine[i - prev.len()];
            }
        }
    }
}

proof fn lemma_no_misrouted(ps: Seq<HotCachePlacement>, fabric: FabricView)
    requires
        forall|i: int| 0 <= i < ps.len() ==> (#[trigger] ps[i]).owner_cpu == fabric.owner_for_key(ps[i].key),
    ensures
        first_misrouted(ps, fabric) is None,
    decreases ps.len(),
{
    if ps.len() > 0 {
        let rest = ps.drop_last();
        assert forall|i: int| 0 <= i < rest.len() implies (#[trigger] rest[i]).owner_cpu == fabric.owner_for_key(
            rest[i].key,
        ) by {
            assert(rest[i] == ps[i]);
        }
        lemma_no_misrouted(rest, fabric);
        assert(ps.last() == ps[ps.len() - 1]);
    }
}


/// Tier precedence: a key resolves to the highest tier that holds it, owner-hot before shared
/// warm before page cache before NVMe, whatever the lower tiers hold.
pub proof fn law_tier_precedence(h: HydraView, key: u64)
    ensures
        h.owner_hot_keys.contains(key) ==> tier_of(h, key) is OwnerCpuHot,
        !h.owner_hot_keys.contains(key) && h.shared_cpu_warm_keys.contains(key) ==> tier_of(h, key)
            == PleHydraTier::SharedCpuWarm,
        !h.owner_hot_keys.contains(key) && !h.shared_cpu_warm_keys.contains(key)
            && h.page_cache_warm_keys.contains(key) ==> tier_of(h, key) == PleHydraTier::PageCacheWarm,
        !h.owner_hot_keys.contains(key) && !h.shared_cpu_warm_keys.contains(key)
            && !h.page_cache_warm_keys.contains(key) ==> tier_of(h, key) == PleHydraTier::NvmeCold,
{
}

/// A hierarchy built from a plan: the plan was made by the same fabric, every placement is held
/// by its key's canonical owner, and the tiers hold exactly the placed keys, the shared warm
/// keys and the page-cache keys given.
pub open spec fn hydra_fits_plan(h: HydraView, fabric: FabricView, plan: HotPlanView, shared: Seq<u64>, page: Seq<u64>) -> bool {
    &&& h.fabric == fabric
    &&& plan.owner_cpus == fabric.owners
    &&& plan.hot_budget_bytes_per_owner == fabric.hot_budget_bytes_per_owner
    &&& forall|i: int| 0 <= i < plan.placements.len() ==> (#[trigger] plan.placements[i]).owner_cpu
        == fabric.owner_for_key(plan.placements[i].key)
    &&& forall|k: u64| #[trigger] h.owner_hot_keys.contains(k) <==> key_placed(plan.placements, k)
    &&& forall|k: u64| #[trigger] h.shared_cpu_warm_keys.contains(k) <==> shared.contains(k)
    &&& forall|k: u64| #[trigger] h.page_cache_warm_keys.contains(k) <==> page.contains(k)
}

/// Some placement reserves `key`.
pub open spec fn key_placed(placements: Seq<HotCachePlacement>, key: u64) -> bool {
    exists|i: int| 0 <= i < placements.len() && (#[trigger] placements[i]).key == key
}

/// Placements without a misrouted one are all held by their keys' canonical owners.
proof fn lemma_first_misrouted_none(placements: Seq<HotCachePlacement>, fabric: FabricView)
    requires
        first_misrouted(placements, fabric) is None,
    ensures
        forall|i: int| 0 <= i < placements.len() ==> (#[trigger] placements[i]).owner_cpu == fabric.owner_for_key(
            placements[i].key,
        ),
    decreases placements.len(),
{
    if placements.len() > 0 {
        lemma_first_misrouted_none(placements.drop_last(), fabric);
        assert forall|i: int| 0 <= i < placements.len() implies (#[trigger] placements[i]).owner_cpu
            == fabric.owner_for_key(placements[i].key) by {
            if i < placements.len() - 1 {
                assert(placements[i] == placements.drop_last()[i]);
            }
        }
    }
}

/// The keys of placements, as a set, hold exactly the placed keys.
proof fn lemma_placed_key_set(placements: Seq<HotCachePlacement>)
    ensures
        forall|k: u64| #[trigger] placed_keys(placements).contains(k) <==> key_placed(placements, k),
{
    let ks = placements.map_values(|p: HotCachePlacement| p.key);
    assert forall|k: u64| #[trigger] placed_keys(placements).contains(k) <==> key_placed(placements, k) by {
        if ks.to_set().contains(k) {
            assert(ks.contains(k));
            let i = choose|i: int| 0 <= i < ks.len() && ks[i] == k;
            assert(placements[i].key == k);
        }
        if exists|i: int| 0 <= i < placements.len() && (#[trigger] placements[i]).key == k {
            let i = choose|i: int| 0 <= i < placements.len() && (#[trigger] placements[i]).key == k;
            assert(ks[i] == k);
            assert(ks.contains(k));
        }
    }
}

/// How many keys of `keys` satisfy `pred`.
pub open spec fn count_where(keys: Seq<u64>, pred: spec_fn(u64) -> bool) -> nat
    decreases keys.len(),
{
    if keys.len() == 0 {
        0
    } else {
        count_where(keys.drop_last(), pred) + if pred(keys.last()) {
            1nat
        } else {
            0nat
        }
    }
}

/// A count over `keys` is at most their number.
proof fn lemma_count_where_bounded(keys: Seq<u64>, pred: spec_fn(u64) -> bool)
    ensures
        count_where(keys, pred) <= keys.len(),
    decreases keys.len(),
{
    if keys.len() > 0 {
        lemma_count_where_bounded(keys.drop_last(), pred);
    }
}

/// Each counter counts exactly the lookups whose key its tier serves first: owner-hot keys,
/// then shared-warm keys that are not hot, then page-cache keys in neither, then the rest.
pub proof fn law_counts_by_tier(h: HydraView, keys: Seq<u64>)
    requires
        keys.len() <= u64::MAX,
    ensures
        counts_of(h, keys).owner_cpu_hot_hits == count_where(keys, |k: u64| h.owner_hot_keys.contains(k)),
        counts_of(h, keys).shared_cpu_warm_hits == count_where(
            keys,
            |k: u64| !h.owner_hot_keys.contains(k) && h.shared_cpu_warm_keys.contains(k),
        ),
        counts_of(h, keys).page_cache_warm_hits == count_where(
            keys,
            |k: u64| !h.owner_hot_keys.contains(k) && !h.shared_cpu_warm_keys.contains(k) && h.page_cache_warm_keys.contains(k),
        ),
        counts_of(h, keys).nvme_cold_reads == count_where(
            keys,
            |k: u64| !h.owner_hot_keys.contains(k) && !h.shared_cpu_warm_keys.contains(k) && !h.page_cache_warm_keys.contains(k),
        ),
    decreases keys.len(),
{
    let p0 = |k: u64| h.owner_hot_keys.contains(k);
    let p1 = |k: u64| !h.owner_hot_keys.contains(k) && h.shared_cpu_warm_keys.contains(k);
    let p2 = |k: u64| !h.owner_hot_keys.contains(k) && !h.shared_cpu_warm_keys.contains(k) && h.page_cache_warm_keys.contains(k);
    let p3 = |k: u64| !h.owner_hot_keys.contains(k) && !h.shared_cpu_warm_keys.contains(k) && !h.page_cache_warm_keys.contains(k);
    if keys.len() > 0 {
        let init = keys.drop_last();
        law_counts_by_tier(h, init);
        lemma_count_where_bounded(init, p0);
        lemma_count_where_bounded(init, p1);
        lemma_count_where_bounded(init, p2);
        lemma_count_where_bounded(init, p3);
        assert(count_where(keys, p0) == count_where(init, p0) + if p0(keys.last()) { 1nat } else { 0nat });
        assert(count_where(keys, p1) == count_where(init, p1) + if p1(keys.last()) { 1nat } else { 0nat });
        assert(count_where(keys, p2) == count_where(init, p2) + if p2(keys.last()) { 1nat } else { 0nat });
        assert(count_where(keys, p3) == count_where(init, p3) + if p3(keys.last()) { 1nat } else { 0nat });
    }
}
} // verus!
