use gb10x::ple_hash::{signed_floor_mod, PleHashError, PleHashPlan, PleTokenWindow};

const EOS: u32 = 248_044;

fn plan() -> PleHashPlan {
    let vocab_sizes = (0_u64..16).map(|index| 97 + index).collect::<Vec<_>>();
    let mut offsets = Vec::with_capacity(16);
    let mut next = 0_u64;
    for size in &vocab_sizes {
        offsets.push(next);
        next += *size;
    }
    PleHashPlan::new(vec![3, 5, 7], vocab_sizes, offsets, 8, 3, EOS)
        .expect("valid Qwen3.8-shaped PLE plan")
}

#[test]
fn emits_exactly_sixteen_rows_per_token() {
    let plan = plan();
    let mut window = PleTokenWindow::new(3, EOS).expect("window");
    let rows = plan
        .rows_for_token(&mut window, 42)
        .expect("hashing must succeed");
    assert_eq!(rows.len(), 16);
}

#[test]
fn abort_restores_previous_ngram_window() {
    let plan = plan();
    let mut window = PleTokenWindow::new(3, EOS).expect("window");
    plan.rows_for_token(&mut window, 10).unwrap();
    let before = window.snapshot().expect("clean snapshot");

    window.begin_append().expect("begin speculative append");
    plan.rows_for_token(&mut window, 20).unwrap();
    plan.rows_for_token(&mut window, 30).unwrap();
    window.abort_append().expect("abort speculative append");

    assert_eq!(window, before);
}

#[test]
fn commit_prefix_matches_replaying_only_accepted_tokens() {
    let plan = plan();
    let mut speculative = PleTokenWindow::new(3, EOS).expect("window");
    let mut reference = PleTokenWindow::new(3, EOS).expect("window");

    for token in [11, 12] {
        plan.rows_for_token(&mut speculative, token).unwrap();
        plan.rows_for_token(&mut reference, token).unwrap();
    }

    speculative.begin_append().unwrap();
    for token in [21, 22, 23] {
        plan.rows_for_token(&mut speculative, token).unwrap();
    }
    speculative.commit_append_prefix(&[21, 22]).unwrap();

    for token in [21, 22] {
        plan.rows_for_token(&mut reference, token).unwrap();
    }
    assert_eq!(speculative, reference);
}

#[test]
fn eos_resets_left_context() {
    let plan = plan();
    let mut after_history = PleTokenWindow::new(3, EOS).unwrap();
    for token in [1, 2, 3, EOS] {
        plan.rows_for_token(&mut after_history, token).unwrap();
    }

    let fresh = PleTokenWindow::new(3, EOS).unwrap();
    assert_eq!(after_history, fresh);
}

#[test]
fn every_emitted_row_stays_inside_its_head_table_for_a_fixed_token_stream() {
    let plan = plan();
    let mut window = PleTokenWindow::new(3, EOS).unwrap();
    for token in [0_u32, 1, 42, 97, EOS, u32::MAX, 7, 7, 7, 123_456_789] {
        let rows = plan.rows_for_token(&mut window, token).unwrap();
        for (head, &row) in rows.iter().enumerate() {
            let start = plan.offsets()[head];
            let end = start + plan.vocab_sizes()[head];
            assert!((row as u64) >= start);
            assert!((row as u64) < end);
        }
    }
}

#[test]
fn unsupported_window_shape_is_rejected() {
    assert!(matches!(
        PleTokenWindow::new(4, EOS),
        Err(PleHashError::UnsupportedShape(_))
    ));
}

#[test]
fn a_window_for_another_eos_token_is_incompatible() {
    let plan = plan();
    let mut window = PleTokenWindow::new(3, EOS + 1).unwrap();
    assert_eq!(
        plan.rows_for_token(&mut window, 5),
        Err(PleHashError::IncompatibleWindow)
    );
}

#[test]
fn committing_keeps_every_staged_token_and_transactions_do_not_nest() {
    let plan = plan();
    let mut staged = PleTokenWindow::new(3, EOS).unwrap();
    let mut direct = PleTokenWindow::new(3, EOS).unwrap();
    staged.begin_append().unwrap();
    assert_eq!(
        staged.begin_append(),
        Err(PleHashError::Transaction("an append transaction is already active"))
    );
    assert_eq!(
        staged.snapshot(),
        Err(PleHashError::Transaction("cannot snapshot an active append transaction"))
    );
    for token in [5, 6, 7] {
        plan.rows_for_token(&mut staged, token).unwrap();
        plan.rows_for_token(&mut direct, token).unwrap();
    }
    staged.commit_append().unwrap();
    assert_eq!(staged, direct);
    assert_eq!(
        staged.commit_append(),
        Err(PleHashError::Transaction("no append transaction is active"))
    );
    assert_eq!(
        staged.abort_append(),
        Err(PleHashError::Transaction("no append transaction is active"))
    );
}

fn sized_plan(multipliers: Vec<u64>, size: u64, eos: u32) -> PleHashPlan {
    let vocab_sizes = vec![size; 16];
    let offsets = (0..16).map(|h| h * size).collect::<Vec<_>>();
    PleHashPlan::new(multipliers, vocab_sizes, offsets, 8, 3, eos).unwrap()
}

#[test]
fn a_key_with_the_sign_bit_set_takes_the_signed_floor_remainder() {
    let plan = sized_plan(vec![1 << 63, 1, 1], 97, 0);
    let mut window = PleTokenWindow::new(3, 0).unwrap();
    let rows = plan.rows_for_token(&mut window, 1).unwrap();
    assert_eq!(rows[0], 18);
    assert_eq!(rows[8], 8 * 97 + 18);
    assert_eq!(signed_floor_mod(1 << 63, 97), 18);
    assert_eq!(signed_floor_mod(u64::MAX, 97), 96);
    assert_eq!(signed_floor_mod(100, 97), 3);
}

#[test]
fn rows_follow_int64_wraparound_and_floor_remainder() {
    let multipliers = vec![0x9E37_79B9_7F4A_7C15, 0xC2B2_AE3D_27D4_EB4F, 0x1656_67B1_9E37_79F9];
    let plan = sized_plan(multipliers.clone(), 1_000_003, EOS);
    let mut window = PleTokenWindow::new(3, EOS).unwrap();
    let mut context = [EOS as u64, EOS as u64];
    for token in [7_u32, 123_456, u32::MAX, 0, EOS, 99] {
        let rows = plan.rows_for_token(&mut window, token).unwrap();
        let t = token as i64;
        let bigram = t.wrapping_mul(multipliers[0] as i64)
            ^ (context[0] as i64).wrapping_mul(multipliers[1] as i64);
        let trigram = bigram ^ (context[1] as i64).wrapping_mul(multipliers[2] as i64);
        for h in 0..16_u64 {
            let mixed = if h < 8 { bigram } else { trigram };
            let expected = h * 1_000_003 + mixed.rem_euclid(1_000_003) as u64;
            assert_eq!(rows[h as usize] as u64, expected, "token {token}, head {h}");
        }
        context = if token == EOS { [EOS as u64, EOS as u64] } else { [token as u64, context[0]] };
    }
}
