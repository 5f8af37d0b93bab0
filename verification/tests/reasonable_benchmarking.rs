use mechanical_sympathy::reasonable_benchmarking::{
    build_cycle, chase, generate_pattern, generate_values, sum_of_squares, Pattern, XorShift64,
};

#[test]
fn sum_of_squares_is_deterministic() {
    let a = generate_values(1000, 0xC0FFEE);
    let b = generate_values(1000, 0xC0FFEE);
    assert_eq!(a, b);
    assert_eq!(sum_of_squares(&a), sum_of_squares(&b));
}

#[test]
fn patterns_have_the_expected_shape() {
    let sorted = generate_pattern(1000, Pattern::Sorted, 1);
    assert!(sorted.windows(2).all(|w| w[0] <= w[1]));

    let reversed = generate_pattern(1000, Pattern::Reversed, 1);
    assert!(reversed.windows(2).all(|w| w[0] >= w[1]));

    let few = generate_pattern(1000, Pattern::FewUnique, 1);
    assert!(few.iter().all(|&x| x < 8));
}

#[test]
fn seed_zero_is_not_degenerate() {
    // 0 | 1 == 1, so seeds 0 and 1 give the same, non-zero, stream
    let mut a = XorShift64::new(0);
    let mut b = XorShift64::new(1);
    for _ in 0..100 {
        let x = a.next_u64();
        assert_eq!(x, b.next_u64());
        assert_ne!(x, 0);
    }
    assert_eq!(XorShift64::new(0).next_u64(), 1082269761);
}

#[test]
fn sum_of_squares_exact_and_wrapping() {
    assert_eq!(sum_of_squares(&[1, 2, 3]), 14);
    assert_eq!(sum_of_squares(&[]), 0);
    // (2^64 - 1)^2 = 2^128 - 2^65 + 1, which is 1 modulo 2^64
    assert_eq!(sum_of_squares(&[u64::MAX]), 1);
    assert_eq!(sum_of_squares(&[1 << 32, 3]), 9);
}

#[test]
fn generate_values_is_the_generator_stream() {
    let v = generate_values(5, 42);
    let mut rng = XorShift64::new(42);
    for x in v {
        assert_eq!(x, rng.next_u64());
    }
}

fn assert_single_cycle(next: &[usize]) {
    let n = next.len();
    for start in 0..n {
        let mut seen = vec![false; n];
        let mut p = start;
        for step in 0..n {
            assert!(!seen[p], "slot {p} visited twice from {start}");
            seen[p] = true;
            p = next[p];
            if step + 1 < n {
                assert_ne!(p, start);
            }
        }
        assert_eq!(p, start);
    }
}

#[test]
fn build_cycle_is_one_cycle() {
    for n in [1usize, 2, 3, 10, 257] {
        let next = build_cycle(n, 0x5EED);
        assert_eq!(next.len(), n);
        assert_single_cycle(&next);
    }
    assert!(build_cycle(0, 1).is_empty());
}

#[test]
fn chase_follows_the_cycle() {
    let next = build_cycle(1000, 3);
    assert_eq!(chase(&next, 7, 0), 7);
    assert_eq!(chase(&next, 7, 1), next[7]);
    assert_eq!(chase(&next, 7, 1000), 7);
    assert_eq!(chase(&next, 7, 1003), chase(&next, 7, 3));
}

#[test]
fn pattern_names() {
    let names: Vec<&str> = Pattern::ALL.iter().map(|p| p.name()).collect();
    assert_eq!(names, vec!["random", "sorted", "reversed", "few_unique"]);
}

#[test]
fn patterns_are_the_generator_stream_rearranged() {
    let raw = generate_pattern(200, Pattern::Random, 9);
    assert_eq!(raw, generate_values(200, 9));
    let mut ascending = raw.clone();
    ascending.sort_unstable();
    assert_eq!(generate_pattern(200, Pattern::Sorted, 9), ascending);
    let mut descending = ascending.clone();
    descending.reverse();
    assert_eq!(generate_pattern(200, Pattern::Reversed, 9), descending);
    let few: Vec<u64> = raw.iter().map(|x| x % 8).collect();
    assert_eq!(generate_pattern(200, Pattern::FewUnique, 9), few);
}
