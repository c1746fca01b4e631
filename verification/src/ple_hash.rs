//! Exact Qwen3.8-Flash-Next PLE hashing and speculative token-window transactions.
use vstd::prelude::*;

verus! {

/// N-gram order of the Qwen3.8 PLE hash (current token plus two left-context tokens).
pub const QWEN38_NGRAM_SIZE: usize = 3;

/// Hash heads contributed by each n-gram order.
pub const QWEN38_HEADS_PER_ORDER: usize = 8;

/// Total PLE hash heads (orders 2 and 3, eight heads each).
pub const QWEN38_PLE_HEADS: usize = 16;

/// Failure while constructing or advancing the exact Qwen3.8 PLE hash state.
#[derive(Debug, PartialEq, Eq)]
pub enum PleHashError {
    /// A constructor argument does not match the fixed Qwen3.8 PLE shape.
    UnsupportedShape(&'static str),
    /// Hash-table metadata is invalid or internally inconsistent.
    InvalidPlan(&'static str),
    /// Hash output does not fit the compact logical row identifier.
    RowOverflow(u64),
    /// Token-window transaction state is invalid for the requested operation.
    Transaction(&'static str),
    /// Plan and token-window immutable parameters do not match.
    IncompatibleWindow,
}

/// `x * y` modulo 2^64, the arithmetic of the reference hash.
pub open spec fn wmul(x: u64, y: u64) -> u64 {
    vstd::wrapping::u64_specs::wrapping_mul(x, y)
}

/// N-gram order that feeds hash head `head`: heads 0..8 use bigrams, heads 8..16 trigrams.
pub open spec fn head_order(head: int) -> int {
    if head < QWEN38_HEADS_PER_ORDER as int {
        2
    } else {
        3
    }
}

/// Mixed n-gram key of `token` with its left context `(previous, before_previous)`.
pub open spec fn mixed_key(multipliers: Seq<u64>, token: u32, context: (u32, u32), order: int) -> u64 {
    let bigram = wmul(token as u64, multipliers[0]) ^ wmul(context.0 as u64, multipliers[1]);
    if order == 2 {
        bigram
    } else {
        bigram ^ wmul(context.1 as u64, multipliers[2])
    }
}

/// A 64-bit key read as a two's-complement `i64`, as the reference int64 arithmetic holds it.
pub open spec fn signed_key(x: u64) -> int {
    if x < 0x8000_0000_0000_0000 {
        x as int
    } else {
        x - 0x1_0000_0000_0000_0000
    }
}

/// The floor (non-negative) remainder of `x`, read as an `i64`, modulo `v`: the reference's
/// int64 `%`, whose result takes the sign of the positive table size.
pub fn signed_floor_mod(x: u64, v: u64) -> (r: u64)
    requires
        0 < v < 0x8000_0000_0000_0000,
    ensures
        r == signed_key(x) % (v as int),
        r < v,
{
    if x < 0x8000_0000_0000_0000 {
        return x % v;
    }
    let m = u64::MAX % v;
    let c = (m + 1) % v;
    let a = x % v;
    let r = if a >= c {
        a - c
    } else {
        a + (v - c)
    };
    proof {
        let vi = v as int;
        let two64: int = 0x1_0000_0000_0000_0000;
        vstd::arithmetic::div_mod::lemma_fundamental_div_mod(x as int, vi);
        vstd::arithmetic::div_mod::lemma_fundamental_div_mod(u64::MAX as int, vi);
        vstd::arithmetic::div_mod::lemma_fundamental_div_mod(m + 1, vi);
        let qa = x as int / vi;
        let qm = u64::MAX as int / vi;
        let qc = (m + 1) / vi;
        assert(two64 == vi * (qm + qc) + c) by (nonlinear_arith)
            requires
                u64::MAX as int == vi * qm + m,
                m + 1 == vi * qc + c,
                two64 == u64::MAX as int + 1,
        ;
        if a >= c {
            assert(x - two64 == (qa - qm - qc) * vi + (a - c)) by (nonlinear_arith)
                requires
                    x as int == vi * qa + a,
                    two64 == vi * (qm + qc) + c,
            ;
            vstd::arithmetic::div_mod::lemma_fundamental_div_mod_converse(x - two64, vi, qa - qm - qc, a - c);
        } else {
            assert(x - two64 == (qa - qm - qc - 1) * vi + (a + vi - c)) by (nonlinear_arith)
                requires
                    x as int == vi * qa + a,
                    two64 == vi * (qm + qc) + c,
            ;
            vstd::arithmetic::div_mod::lemma_fundamental_div_mod_converse(
                x - two64,
                vi,
                qa - qm - qc - 1,
                a + vi - c,
            );
        }
    }
    r
}

/// Abstract hash metadata: three multipliers, sixteen table sizes and offsets, and EOS.
pub struct PlanView {
    pub multipliers: Seq<u64>,
    pub vocab_sizes: Seq<u64>,
    pub offsets: Seq<u64>,
    pub eos_token_id: u32,
}

impl PlanView {
    /// Logical row selected by hash head `head` for `token` after `context`.
    pub open spec fn row(self, token: u32, context: (u32, u32), head: int) -> int {
        self.offsets[head] + signed_key(mixed_key(self.multipliers, token, context, head_order(head)))
            % (self.vocab_sizes[head] as int)
    }

    /// The sixteen head tables are nonempty, adjacent, and end within the u32 row space.
    pub open spec fn well_formed(self) -> bool {
        &&& self.multipliers.len() == QWEN38_NGRAM_SIZE
        &&& self.vocab_sizes.len() == QWEN38_PLE_HEADS
        &&& self.offsets.len() == QWEN38_PLE_HEADS
        &&& forall|i: int| 0 <= i < QWEN38_NGRAM_SIZE ==> #[trigger] self.multipliers[i] != 0
        &&& forall|h: int| 0 <= h < QWEN38_PLE_HEADS ==> #[trigger] self.vocab_sizes[h] != 0
        &&& forall|h: int|
            1 <= h < QWEN38_PLE_HEADS ==> #[trigger] self.offsets[h] == self.offsets[h - 1]
                + self.vocab_sizes[h - 1]
        &&& self.offsets[15] + self.vocab_sizes[15] <= u32::MAX + 1
    }
}

/// First failure of the head-table adjacency scan starting at head `head`.
pub open spec fn table_scan_error(offsets: Seq<u64>, vocab_sizes: Seq<u64>, head: int) -> Option<
    PleHashError,
>
    decreases QWEN38_PLE_HEADS - head,
{
    if head >= QWEN38_PLE_HEADS || head < 1 {
        None
    } else if offsets[head - 1] + vocab_sizes[head - 1] > u64::MAX {
        Some(PleHashError::InvalidPlan("head table offset overflow"))
    } else if offsets[head] != offsets[head - 1] + vocab_sizes[head - 1] {
        Some(PleHashError::InvalidPlan("head tables must be contiguous"))
    } else {
        table_scan_error(offsets, vocab_sizes, head + 1)
    }
}

/// What `PleHashPlan::new` returns, checked in the order the constructor checks.
pub open spec fn plan_outcome(
    multipliers: Seq<u64>,
    vocab_sizes: Seq<u64>,
    offsets: Seq<u64>,
    heads_per_ngram: usize,
    ngram_size: usize,
    eos_token_id: u32,
) -> Result<PlanView, PleHashError> {
    if ngram_size != QWEN38_NGRAM_SIZE {
        Err(PleHashError::UnsupportedShape("ngram_size must equal 3"))
    } else if heads_per_ngram != QWEN38_HEADS_PER_ORDER {
        Err(PleHashError::UnsupportedShape("heads_per_ngram must equal 8"))
    } else if multipliers.len() != QWEN38_NGRAM_SIZE {
        Err(PleHashError::UnsupportedShape("exactly 3 multipliers are required"))
    } else if vocab_sizes.len() != QWEN38_PLE_HEADS {
        Err(PleHashError::UnsupportedShape("exactly 16 vocab sizes are required"))
    } else if offsets.len() != QWEN38_PLE_HEADS {
        Err(PleHashError::UnsupportedShape("exactly 16 offsets are required"))
    } else if multipliers.contains(0) {
        Err(PleHashError::InvalidPlan("multipliers must be nonzero"))
    } else if vocab_sizes.contains(0) {
        Err(PleHashError::InvalidPlan("vocab sizes must be nonzero"))
    } else if table_scan_error(offsets, vocab_sizes, 1) is Some {
        Err(table_scan_error(offsets, vocab_sizes, 1)->0)
    } else if offsets[15] + vocab_sizes[15] > u64::MAX {
        Err(PleHashError::InvalidPlan("final head table overflow"))
    } else if offsets[15] + vocab_sizes[15] > u32::MAX + 1 {
        Err(PleHashError::InvalidPlan("logical PLE row space exceeds u32"))
    } else {
        Ok(PlanView { multipliers, vocab_sizes, offsets, eos_token_id })
    }
}

/// Immutable exact hash metadata for Qwen3.8-Flash-Next PLE lookup.
#[derive(Debug, PartialEq, Eq)]
pub struct PleHashPlan {
    multipliers: [u64; 3],
    vocab_sizes: [u64; 16],
    offsets: [u64; 16],
    eos_token_id: u32,
}

impl View for PleHashPlan {
    type V = PlanView;

    closed spec fn view(&self) -> PlanView {
        PlanView {
            multipliers: self.multipliers@,
            vocab_sizes: self.vocab_sizes@,
            offsets: self.offsets@,
            eos_token_id: self.eos_token_id,
        }
    }
}

/// Abstract token-window state: committed left context, the snapshot taken when a speculative
/// append began (if one is active), and the EOS token that resets the context.
pub struct WindowState {
    pub context: (u32, u32),
    pub pending: Option<(u32, u32)>,
    pub eos_token_id: u32,
}

/// Left context after observing `token`: EOS clears the history, anything else shifts it.
pub open spec fn next_context(context: (u32, u32), token: u32, eos_token_id: u32) -> (u32, u32) {
    if token == eos_token_id {
        (eos_token_id, eos_token_id)
    } else {
        (token, context.0)
    }
}

impl WindowState {
    /// A window with no history: both context slots hold EOS.
    pub open spec fn fresh(eos_token_id: u32) -> WindowState {
        WindowState { context: (eos_token_id, eos_token_id), pending: None, eos_token_id }
    }

    pub open spec fn push(self, token: u32) -> WindowState {
        WindowState { context: next_context(self.context, token, self.eos_token_id), ..self }
    }

    /// Observe `tokens` in order.
    pub open spec fn push_all(self, tokens: Seq<u32>) -> WindowState
        decreases tokens.len(),
    {
        if tokens.len() == 0 {
            self
        } else {
            self.push_all(tokens.drop_last()).push(tokens.last())
        }
    }

    pub open spec fn begin(self) -> WindowState {
        WindowState { pending: Some(self.context), ..self }
    }

    pub open spec fn commit(self) -> WindowState {
        WindowState { pending: None, ..self }
    }

    pub open spec fn abort(self) -> WindowState {
        WindowState { context: self.pending->0, pending: None, ..self }
    }

    pub open spec fn commit_prefix(self, accepted: Seq<u32>) -> WindowState {
        WindowState { context: self.pending->0, pending: None, ..self }.push_all(accepted)
    }
}

/// Exact two-token left-context window used by the Qwen3.8 PLE hash, with one rollback snapshot
/// for speculative appends.
#[derive(Clone, Debug, PartialEq, Eq)]
pub struct PleTokenWindow {
    previous: [u32; 2],
    rollback: Option<[u32; 2]>,
    eos_token_id: u32,
}

impl View for PleTokenWindow {
    type V = WindowState;

    closed spec fn view(&self) -> WindowState {
        WindowState {
            context: (self.previous[0], self.previous[1]),
            pending: match self.rollback {
                Some(saved) => Some((saved[0], saved[1])),
                None => None,
            },
            eos_token_id: self.eos_token_id,
        }
    }
}

impl Clone for PleHashPlan {
    fn clone(&self) -> (c: Self)
        ensures
            c@ == self@,
    {
        proof {
            use_type_invariant(self);
        }
        Self {
            multipliers: self.multipliers,
            vocab_sizes: self.vocab_sizes,
            offsets: self.offsets,
            eos_token_id: self.eos_token_id,
        }
    }
}

impl PleHashPlan {
    #[verifier::type_invariant]
    closed spec fn inv(self) -> bool {
        self@.well_formed()
    }

    /// Construct and validate the released Qwen3.8 PLE hash-table shape.
    #[verifier::loop_isolation(false)]
    pub fn new(
        multipliers: Vec<u64>,
        vocab_sizes: Vec<u64>,
        offsets: Vec<u64>,
        heads_per_ngram: usize,
        ngram_size: usize,
        eos_token_id: u32,
    ) -> (r: Result<Self, PleHashError>)
        ensures
            match plan_outcome(
                multipliers@,
                vocab_sizes@,
                offsets@,
                heads_per_ngram,
                ngram_size,
                eos_token_id,
            ) {
                Ok(view) => r is Ok && r->Ok_0@ == view,
                Err(e) => r == Err::<Self, PleHashError>(e),
            },
    {
        if ngram_size != QWEN38_NGRAM_SIZE {
            return Err(PleHashError::UnsupportedShape("ngram_size must equal 3"));
        }
        if heads_per_ngram != QWEN38_HEADS_PER_ORDER {
            return Err(PleHashError::UnsupportedShape("heads_per_ngram must equal 8"));
        }
        if multipliers.len() != QWEN38_NGRAM_SIZE {
            return Err(PleHashError::UnsupportedShape("exactly 3 multipliers are required"));
        }
        if vocab_sizes.len() != QWEN38_PLE_HEADS {
            return Err(PleHashError::UnsupportedShape("exactly 16 vocab sizes are required"));
        }
        if offsets.len() != QWEN38_PLE_HEADS {
            return Err(PleHashError::UnsupportedShape("exactly 16 offsets are required"));
        }
        let mult: [u64; 3] = [multipliers[0], multipliers[1], multipliers[2]];
        let mut vocab: [u64; 16] = [0u64; 16];
        let mut offs: [u64; 16] = [0u64; 16];
        for i in 0..QWEN38_PLE_HEADS
            invariant
                vocab_sizes@.len() == 16,
                offsets@.len() == 16,
                forall|k: int| 0 <= k < i ==> vocab@[k] == vocab_sizes@[k] && offs@[k] == offsets@[k],
        {
            vocab[i] = vocab_sizes[i];
            offs[i] = offsets[i];
        }
        assert(mult@ =~= multipliers@);
        assert(vocab@ =~= vocab_sizes@);
        assert(offs@ =~= offsets@);

        if mult[0] == 0 || mult[1] == 0 || mult[2] == 0 {
            assert(multipliers@.contains(0)) by {
                if mult[0] == 0 {
                    assert(multipliers@[0] == 0);
                } else if mult[1] == 0 {
                    assert(multipliers@[1] == 0);
                } else {
                    assert(multipliers@[2] == 0);
                }
            }
            return Err(PleHashError::InvalidPlan("multipliers must be nonzero"));
        }
        assert(!multipliers@.contains(0)) by {
            assert forall|k: int| 0 <= k < 3 implies multipliers@[k] != 0 by {}
        }
        let mut h: usize = 0;
        while h < QWEN38_PLE_HEADS
            invariant
                h <= 16,
                vocab@ == vocab_sizes@,
                forall|k: int| 0 <= k < h ==> vocab@[k] != 0,
            decreases 16 - h,
        {
            if vocab[h] == 0 {
                assert(vocab_sizes@[h as int] == 0);
                return Err(PleHashError::InvalidPlan("vocab sizes must be nonzero"));
            }
            h += 1;
        }
        assert(!vocab_sizes@.contains(0));

        let mut head: usize = 1;
        while head < QWEN38_PLE_HEADS
            invariant
                1 <= head <= 16,
                vocab@ == vocab_sizes@,
                offs@ == offsets@,
                table_scan_error(offsets@, vocab_sizes@, 1) == table_scan_error(
                    offsets@,
                    vocab_sizes@,
                    head as int,
                ),
                forall|k: int| 1 <= k < head ==> #[trigger] offs@[k] == offs@[k - 1] + vocab@[k - 1],
            decreases 16 - head,
        {
            let expected = match offs[head - 1].checked_add(vocab[head - 1]) {
                Some(e) => e,
                None => {
                    return Err(PleHashError::InvalidPlan("head table offset overflow"));
                },
            };
            if offs[head] != expected {
                return Err(PleHashError::InvalidPlan("head tables must be contiguous"));
            }
            head += 1;
        }
        let final_end = match offs[15].checked_add(vocab[15]) {
            Some(e) => e,
            None => {
                return Err(PleHashError::InvalidPlan("final head table overflow"));
            },
        };
        if final_end > 0x1_0000_0000u64 {
            return Err(PleHashError::InvalidPlan("logical PLE row space exceeds u32"));
        }
        Ok(Self { multipliers: mult, vocab_sizes: vocab, offsets: offs, eos_token_id })
    }
}

impl PleHashPlan {
    /// Return the per-head vocabulary-table sizes.
    pub fn vocab_sizes(&self) -> (r: &[u64; 16])
        ensures
            r@ == self@.vocab_sizes,
    {
        &self.vocab_sizes
    }

    /// Return the per-head logical row offsets.
    pub fn offsets(&self) -> (r: &[u64; 16])
        ensures
            r@ == self@.offsets,
    {
        &self.offsets
    }

    /// Hash one token using the current left context, then append that token to the window.
    ///
    /// Multiplication wraps modulo 2^64 as in the reference implementation. Rows are ordered by
    /// the sixteen PLE hash heads; every row lies inside its head's table.
    pub fn rows_for_token(&self, window: &mut PleTokenWindow, token: u32) -> (r: Result<
        [u32; 16],
        PleHashError,
    >)
        ensures
            old(window)@.eos_token_id != self@.eos_token_id ==> {
                &&& r == Err::<[u32; 16], PleHashError>(PleHashError::IncompatibleWindow)
                &&& final(window)@ == old(window)@
            },
            old(window)@.eos_token_id == self@.eos_token_id ==> {
                &&& r is Ok
                &&& final(window)@ == old(window)@.push(token)
                &&& forall|h: int|
                    0 <= h < QWEN38_PLE_HEADS ==> #[trigger] r->Ok_0@[h] == self@.row(
                        token,
                        old(window)@.context,
                        h,
                    )
                &&& forall|h: int|
                    0 <= h < QWEN38_PLE_HEADS ==> self@.offsets[h] <= #[trigger] r->Ok_0@[h]
                        < self@.offsets[h] + self@.vocab_sizes[h]
            },
    {
        proof {
            use_type_invariant(self);
        }
        if window.eos_token_id != self.eos_token_id {
            return Err(PleHashError::IncompatibleWindow);
        }
        let current = token as u64;
        let previous = window.previous[0] as u64;
        let before_previous = window.previous[1] as u64;
        let bigram = current.wrapping_mul(self.multipliers[0]) ^ previous.wrapping_mul(
            self.multipliers[1],
        );
        let trigram = bigram ^ before_previous.wrapping_mul(self.multipliers[2]);
        let mut rows = [0u32; 16];
        let mut head: usize = 0;
        while head < QWEN38_PLE_HEADS
            invariant
                head <= 16,
                self@.well_formed(),
                window@ == old(window)@,
                window@.eos_token_id == self@.eos_token_id,
                bigram == mixed_key(self@.multipliers, token, window@.context, 2),
                trigram == mixed_key(self@.multipliers, token, window@.context, 3),
                forall|k: int| 0 <= k < head ==> #[trigger] rows@[k] == self@.row(token, window@.context, k),
            decreases 16 - head,
        {
            let mixed = if head < QWEN38_HEADS_PER_ORDER {
                bigram
            } else {
                trigram
            };
            proof {
                lemma_head_end_bound(self@, head as int);
            }
            let row = self.offsets[head] + signed_floor_mod(mixed, self.vocab_sizes[head]);
            if row > u32::MAX as u64 {
                return Err(PleHashError::RowOverflow(row));
            }
            rows[head] = row as u32;
            head += 1;
        }
        proof {
            assert forall|h: int| 0 <= h < QWEN38_PLE_HEADS implies self@.offsets[h] <= #[trigger] rows@[h]
                < self@.offsets[h] + self@.vocab_sizes[h] by {
                assert(rows@[h] == self@.row(token, window@.context, h));
            }
        }
        window.push(token);
        Ok(rows)
    }
}

/// In a well-formed plan, each head table ends no later than the last one.
proof fn lemma_head_end_bound(plan: PlanView, head: int)
    requires
        plan.well_formed(),
        0 <= head < QWEN38_PLE_HEADS,
    ensures
        plan.offsets[head] + plan.vocab_sizes[head] <= plan.offsets[15] + plan.vocab_sizes[15],
    decreases QWEN38_PLE_HEADS - head,
{
    if head < 15 {
        lemma_head_end_bound(plan, head + 1);
        assert(plan.offsets[head + 1] == plan.offsets[head] + plan.vocab_sizes[head]);
    }
}

impl PleTokenWindow {
    /// Create an empty Qwen3.8 PLE window whose missing left context is padded with EOS.
    pub fn new(ngram_size: usize, eos_token_id: u32) -> (r: Result<Self, PleHashError>)
        ensures
            ngram_size == QWEN38_NGRAM_SIZE ==> r is Ok && r->Ok_0@ == WindowState::fresh(
                eos_token_id,
            ),
            ngram_size != QWEN38_NGRAM_SIZE ==> r == Err::<Self, PleHashError>(
                PleHashError::UnsupportedShape("ngram_size must equal 3"),
            ),
    {
        if ngram_size != QWEN38_NGRAM_SIZE {
            return Err(PleHashError::UnsupportedShape("ngram_size must equal 3"));
        }
        Ok(Self { previous: [eos_token_id, eos_token_id], rollback: None, eos_token_id })
    }

    /// Start one speculative append transaction.
    pub fn begin_append(&mut self) -> (r: Result<(), PleHashError>)
        ensures
            old(self)@.pending is None ==> r is Ok && final(self)@ == old(self)@.begin(),
            old(self)@.pending is Some ==> r == Err::<(), PleHashError>(
                PleHashError::Transaction("an append transaction is already active"),
            ) && final(self)@ == old(self)@,
    {
        if self.rollback.is_some() {
            return Err(PleHashError::Transaction("an append transaction is already active"));
        }
        self.rollback = Some(self.previous);
        Ok(())
    }

    /// Commit all tokens staged since the current transaction began.
    pub fn commit_append(&mut self) -> (r: Result<(), PleHashError>)
        ensures
            old(self)@.pending is Some ==> r is Ok && final(self)@ == old(self)@.commit(),
            old(self)@.pending is None ==> r == Err::<(), PleHashError>(
                PleHashError::Transaction("no append transaction is active"),
            ) && final(self)@ == old(self)@,
    {
        if self.rollback.is_none() {
            return Err(PleHashError::Transaction("no append transaction is active"));
        }
        self.rollback = None;
        Ok(())
    }

    /// Commit only `accepted_tokens` from the beginning of the current speculative transaction:
    /// the pre-transaction context is restored and only the accepted prefix is replayed.
    pub fn commit_append_prefix(&mut self, accepted_tokens: &[u32]) -> (r: Result<(), PleHashError>)
        ensures
            old(self)@.pending is Some ==> r is Ok && final(self)@ == old(self)@.commit_prefix(
                accepted_tokens@,
            ),
            old(self)@.pending is None ==> r == Err::<(), PleHashError>(
                PleHashError::Transaction("no append transaction is active"),
            ) && final(self)@ == old(self)@,
    {
        let original = match self.rollback {
            Some(saved) => saved,
            None => {
                return Err(PleHashError::Transaction("no append transaction is active"));
            },
        };
        self.rollback = None;
        self.previous = original;
        let ghost start = self@;
        assert(start.push_all(accepted_tokens@.take(0)) == start);
        let mut i: usize = 0;
        while i < accepted_tokens.len()
            invariant
                i <= accepted_tokens@.len(),
                self@ == start.push_all(accepted_tokens@.take(i as int)),
            decreases accepted_tokens@.len() - i,
        {
            self.push(accepted_tokens[i]);
            assert(accepted_tokens@.take(i + 1).drop_last() =~= accepted_tokens@.take(i as int));
            i += 1;
        }
        assert(accepted_tokens@.take(i as int) =~= accepted_tokens@);
        Ok(())
    }

    /// Abort the current speculative transaction and restore its exact starting state.
    pub fn abort_append(&mut self) -> (r: Result<(), PleHashError>)
        ensures
            old(self)@.pending is Some ==> r is Ok && final(self)@ == old(self)@.abort(),
            old(self)@.pending is None ==> r == Err::<(), PleHashError>(
                PleHashError::Transaction("no append transaction is active"),
            ) && final(self)@ == old(self)@,
    {
        let original = match self.rollback {
            Some(saved) => saved,
            None => {
                return Err(PleHashError::Transaction("no append transaction is active"));
            },
        };
        self.rollback = None;
        self.previous = original;
        Ok(())
    }

    /// Copy the committed state for prefix caching or equality checks.
    pub fn snapshot(&self) -> (r: Result<Self, PleHashError>)
        ensures
            self@.pending is None ==> r is Ok && r->Ok_0@ == self@,
            self@.pending is Some ==> r == Err::<Self, PleHashError>(
                PleHashError::Transaction("cannot snapshot an active append transaction"),
            ),
    {
        if self.rollback.is_some() {
            return Err(PleHashError::Transaction("cannot snapshot an active append transaction"));
        }
        Ok(Self { previous: self.previous, rollback: None, eos_token_id: self.eos_token_id })
    }

    fn push(&mut self, token: u32)
        ensures
            final(self)@ == old(self)@.push(token),
    {
        if token == self.eos_token_id {
            self.previous = [self.eos_token_id, self.eos_token_id];
            return;
        }
        self.previous[1] = self.previous[0];
        self.previous[0] = token;
    }
}

/// Observing tokens never touches the transaction snapshot or the EOS token.
pub proof fn lemma_push_all_keeps_frame(w: WindowState, tokens: Seq<u32>)
    ensures
        w.push_all(tokens).pending == w.pending,
        w.push_all(tokens).eos_token_id == w.eos_token_id,
    decreases tokens.len(),
{
    if tokens.len() > 0 {
        lemma_push_all_keeps_frame(w, tokens.drop_last());
    }
}

/// Observing `a` then `b` is observing their concatenation.
pub proof fn law_push_all_concat(w: WindowState, a: Seq<u32>, b: Seq<u32>)
    ensures
        w.push_all(a).push_all(b) == w.push_all(a + b),
    decreases b.len(),
{
    if b.len() == 0 {
        assert(a + b =~= a);
    } else {
        law_push_all_concat(w, a, b.drop_last());
        assert((a + b).drop_last() =~= a + b.drop_last());
        assert((a + b).last() == b.last());
    }
}

/// Aborting a speculative append restores exactly the window that existed when it began,
/// whatever draft tokens were hashed meanwhile.
pub proof fn law_abort_restores_window(w: WindowState, drafts: Seq<u32>)
    requires
        w.pending is None,
    ensures
        w.begin().push_all(drafts).abort() == w,
{
    lemma_push_all_keeps_frame(w.begin(), drafts);
}

/// Committing an accepted prefix leaves the same window as hashing only the accepted tokens:
/// rejected draft suffixes leave no history behind.
pub proof fn law_commit_prefix_replays_only_accepted(
    w: WindowState,
    drafts: Seq<u32>,
    accepted: Seq<u32>,
)
    requires
        w.pending is None,
    ensures
        w.begin().push_all(drafts).commit_prefix(accepted) == w.push_all(accepted),
{
    lemma_push_all_keeps_frame(w.begin(), drafts);
    let restored = WindowState {
        context: w.begin().push_all(drafts).pending->0,
        pending: None,
        ..w.begin().push_all(drafts)
    };
    assert(restored == w);
}

/// Committing a whole speculative append keeps every staged token, as if hashed directly.
pub proof fn law_commit_keeps_all_staged(w: WindowState, drafts: Seq<u32>)
    requires
        w.pending is None,
    ensures
        w.begin().push_all(drafts).commit() == w.push_all(drafts),
    decreases drafts.len(),
{
    if drafts.len() > 0 {
        law_commit_keeps_all_staged(w, drafts.drop_last());
    }
}

/// An EOS token resets the left context: the window equals a freshly created one.
pub proof fn law_eos_resets_context(w: WindowState)
    requires
        w.pending is None,
    ensures
        w.push(w.eos_token_id) == WindowState::fresh(w.eos_token_id),
{
}


/// Bigram heads (0..8) read only the token and the one before it: the token two back changes
/// none of their rows, and every row stays inside its head's table.
pub proof fn law_bigram_heads_ignore_the_second_context_token(
    plan: PlanView,
    token: u32,
    previous: u32,
    a: u32,
    b: u32,
    head: int,
)
    requires
        plan.well_formed(),
        0 <= head < QWEN38_HEADS_PER_ORDER,
    ensures
        plan.row(token, (previous, a), head) == plan.row(token, (previous, b), head),
        plan.offsets[head] <= plan.row(token, (previous, a), head) < plan.offsets[head] + plan.vocab_sizes[head],
{
}
} // verus!
