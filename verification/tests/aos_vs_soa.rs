use mechanical_sympathy::aos_vs_soa::{
    generate_aos, generate_soa, total_temperature_aos, total_temperature_soa, Reading, Readings,
};

#[test]
fn reading_is_thirty_two_bytes() {
    assert_eq!(std::mem::size_of::<Reading>(), 32);
    assert_eq!(std::mem::align_of::<Reading>(), 8);
}

#[test]
fn both_layouts_hold_the_same_data() {
    let aos = generate_aos(1000);
    let soa = generate_soa(1000);
    assert_eq!(aos.len(), soa.len());
    for (i, reading) in aos.iter().enumerate() {
        assert_eq!(reading.temperature, soa.temperature[i]);
        assert_eq!(reading.timestamp, soa.timestamp[i]);
    }
}

#[test]
fn both_layouts_give_the_same_answer() {
    let aos = generate_aos(100_000);
    let soa = generate_soa(100_000);
    assert_eq!(total_temperature_aos(&aos), total_temperature_soa(&soa));
}

#[test]
fn readings_stay_in_their_ranges() {
    let aos = generate_aos(5000);
    for (i, r) in aos.iter().enumerate() {
        assert_eq!(r.timestamp, 1_700_000_000 + i as u64);
        assert!(r.station_id < 512);
        assert!((-2000..=5000).contains(&r.temperature));
        assert!(r.humidity_tenths <= 1000);
        assert!((9500..=10500).contains(&r.pressure_tenths));
        assert!(r.wind_speed_tenths <= 400);
        assert!(r.rainfall_tenths <= 200);
    }
}

#[test]
fn totals_of_small_inputs() {
    let empty = Readings::default();
    assert!(empty.is_empty());
    assert_eq!(total_temperature_soa(&empty), 0);
    assert_eq!(total_temperature_aos(&[]), 0);
    let aos = generate_aos(3);
    let expected: i64 = aos.iter().map(|r| r.temperature as i64).sum();
    assert_eq!(total_temperature_aos(&aos), expected);
    assert_eq!(generate_soa(3).len(), 3);
}
