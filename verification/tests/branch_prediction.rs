use mechanical_sympathy::branch_prediction::{
    count_above_branchless, count_above_branchless_barrier, count_above_branchy, count_above_naive,
    generate_program, generate_random_program, generate_values, run_fnptr, run_match, sorted, Op,
    XorShift64, OPS, THRESHOLD,
};

/// How many of `0..n` lie below `taken * n`: the number of values the
/// generator places above the threshold for a requested proportion.
fn above_for(taken: f64, n: usize) -> usize {
    (0..n).filter(|&i| (i as f64) < taken * n as f64).count()
}

fn values_for(n: usize, taken: f64, seed: u64) -> Vec<i32> {
    generate_values(n, above_for(taken, n), seed)
}

fn histogram(code: &[Op]) -> [usize; 8] {
    let mut counts = [0usize; 8];
    for &op in code {
        counts[op as usize] += 1;
    }
    counts
}

#[test]
fn counting_variants_agree() {
    for taken in [0.0, 0.25, 0.5, 0.75, 1.0] {
        let values = values_for(10_000, taken, 42);
        let expected = values.iter().filter(|&&v| v > THRESHOLD).count() as u64;
        assert_eq!(count_above_naive(&values, THRESHOLD), expected);
        assert_eq!(count_above_branchy(&values, THRESHOLD), expected);
        assert_eq!(count_above_branchless(&values, THRESHOLD), expected);
        assert_eq!(count_above_branchless_barrier(&values, THRESHOLD), expected);
    }
}

#[test]
fn generator_hits_the_requested_proportion() {
    for taken in [0.0, 0.1, 0.5, 0.9, 1.0] {
        let values = values_for(10_000, taken, 7);
        let above = values.iter().filter(|&&v| v > THRESHOLD).count();
        assert_eq!(above, (taken * 10_000.0) as usize, "taken = {taken}");
    }
}

#[test]
fn sorting_preserves_the_multiset() {
    let values = values_for(10_000, 0.5, 1);
    let s = sorted(&values);
    let mut a = values.clone();
    a.sort_unstable();
    assert_eq!(a, s);
    assert_eq!(
        count_above_branchy(&values, THRESHOLD),
        count_above_branchy(&s, THRESHOLD)
    );
}

#[test]
fn every_program_runs_the_same_opcode_mix() {
    let len = 1 << 16;
    let uniform = [len / 8; 8];
    for period in [8, 16, 32, 64, 128, 256, 512, 1024] {
        let code = generate_program(len, period, 3);
        assert_eq!(code.len(), len);
        assert_eq!(histogram(&code), uniform, "period = {period}");
    }
    assert_eq!(histogram(&generate_random_program(len, 3)), uniform);
}

#[test]
fn program_really_repeats_with_its_period() {
    let len = 1 << 12;
    let period = 64;
    let code = generate_program(len, period, 5);
    for i in 0..len {
        assert_eq!(code[i], code[i % period]);
    }
}

#[test]
fn dispatch_variants_agree() {
    for period in [8, 64, 1024] {
        let code = generate_program(1 << 12, period, 11);
        assert_eq!(run_match(&code), run_fnptr(&code), "period = {period}");
    }
}

#[test]
fn xorshift_first_output_from_seed_one() {
    let mut rng = XorShift64::new(1);
    assert_eq!(rng.next(), 1082269761);
    assert_eq!(rng.0, 1082269761);
}

#[test]
fn below_stays_under_its_bound() {
    let mut rng = XorShift64::new(99);
    for n in 1..200usize {
        let mut copy = XorShift64::new(rng.0);
        let expected = (copy.next() % n as u64) as usize;
        assert_eq!(rng.below(n), expected);
        assert!(expected < n);
    }
}

#[test]
fn count_above_on_a_small_slice() {
    let values = [-3, 0, 1, 5, -1, 7];
    assert_eq!(count_above_naive(&values, 0), 3);
    assert_eq!(count_above_branchy(&values, 1), 2);
    assert_eq!(count_above_branchless(&values, -4), 6);
    assert_eq!(count_above_branchless_barrier(&[], 0), 0);
}

#[test]
fn generated_values_come_from_the_two_pools() {
    let values = generate_values(1000, 300, 9);
    assert_eq!(values.len(), 1000);
    assert!(values.iter().all(|&v| (1..=1000).contains(&v) || (-1000..=-1).contains(&v)));
    assert_eq!(values.iter().filter(|&&v| v > THRESHOLD).count(), 300);
    // asking for more than n puts every value above the threshold
    let all = generate_values(50, 80, 9);
    assert_eq!(count_above_naive(&all, THRESHOLD), 50);
    assert!(generate_values(0, 5, 9).is_empty());
}

#[test]
fn sorted_orders_a_small_slice() {
    assert_eq!(sorted(&[3, -1, 2, 2, 0]), vec![-1, 0, 2, 2, 3]);
}

#[test]
fn each_opcode_on_one() {
    assert_eq!(run_match(&[]), 1);
    assert_eq!(run_match(&[Op::Inc]), 2);
    assert_eq!(run_match(&[Op::Dec]), 0);
    assert_eq!(run_match(&[Op::Double]), 2);
    assert_eq!(run_match(&[Op::Negate]), -1);
    assert_eq!(run_match(&[Op::Xor]), 1 ^ 0x5DEECE66D);
    assert_eq!(run_match(&[Op::RotateLeft]), 2);
    assert_eq!(run_match(&[Op::Square]), 1);
    assert_eq!(run_match(&[Op::Complement]), -2);
    // rotating the top bit wraps it round to the bottom
    let code = [Op::Negate, Op::RotateLeft];
    assert_eq!(run_match(&code), (-1i64).rotate_left(1));
    assert_eq!(run_fnptr(&code), run_match(&code));
    for op in OPS {
        assert_eq!(run_fnptr(&[op, op, op]), run_match(&[op, op, op]));
    }
}

#[test]
fn wrapping_at_the_edges() {
    // 1 doubled 63 times is i64::MIN; negating it wraps back to itself
    let mut code = vec![Op::Double; 63];
    assert_eq!(run_match(&code), i64::MIN);
    code.push(Op::Negate);
    assert_eq!(run_match(&code), i64::MIN);
    code.push(Op::Dec);
    assert_eq!(run_match(&code), i64::MAX);
    code.push(Op::Inc);
    assert_eq!(run_fnptr(&code), i64::MIN);
}

#[test]
fn random_program_has_the_uniform_mix() {
    let code = generate_random_program(64, 17);
    assert_eq!(histogram(&code), [8; 8]);
    assert_eq!(generate_program(0, 8, 1), Vec::<Op>::new());
}

#[test]
fn op_index_matches_its_position() {
    for (k, op) in OPS.iter().enumerate() {
        assert_eq!(op.index(), k);
    }
}
