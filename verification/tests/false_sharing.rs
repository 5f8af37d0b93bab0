use mechanical_sympathy::false_sharing::{
    combine_totals, generate, physical_cores, sibling_cores, sum_single, thread_slices, XorShift64,
};

#[test]
fn physical_cores_skips_smt_siblings() {
    assert_eq!(physical_cores(4), vec![0, 2, 4, 6]);
    assert_eq!(sibling_cores(4), vec![0, 1, 2, 3]);
}

#[test]
fn sum_single_wraps_negative_temperatures() {
    let readings = generate(4);
    let t: i64 = readings.iter().map(|r| r.temperature as i64).sum();
    assert_eq!(sum_single(&readings, 1), t as u64);
    assert_eq!(sum_single(&readings, 3), (3 * t) as u64);
    assert_eq!(sum_single(&readings, 0), 0);
}

#[test]
fn last_slice_takes_the_remainder() {
    assert_eq!(thread_slices(10, 3), vec![(0, 3), (3, 6), (6, 10)]);
    assert_eq!(thread_slices(3, 2), vec![(0, 1), (1, 3)]);
    assert_eq!(thread_slices(8, 4), vec![(0, 2), (2, 4), (4, 6), (6, 8)]);
    assert_eq!(thread_slices(5, 1), vec![(0, 5)]);
}

#[test]
fn split_totals_combine_to_the_single_total() {
    let readings = generate((1 << 12) + 5);
    for passes in [1usize, 3] {
        let expected = sum_single(&readings, passes);
        for threads in [1usize, 2, 3, 4, 7, 8] {
            let partials: Vec<u64> = thread_slices(readings.len(), threads)
                .iter()
                .map(|&(lo, hi)| sum_single(&readings[lo..hi], passes))
                .collect();
            assert_eq!(combine_totals(&partials), expected, "{threads} threads, {passes} passes");
        }
    }
}

#[test]
fn combine_totals_wraps() {
    assert_eq!(combine_totals(&[u64::MAX, 5]), 4);
    assert_eq!(combine_totals(&[]), 0);
}

#[test]
fn generate_matches_the_first_part_of_the_series() {
    assert_eq!(generate(300), mechanical_sympathy::aos_vs_soa::generate_aos(300));
    let mut rng = XorShift64::new(0x5DEECE66D);
    let r = rng.next();
    assert_eq!(generate(1)[0].station_id, (r % 512) as u32);
}
