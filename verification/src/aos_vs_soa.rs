//! Array of structs against struct of arrays: the same weather station
//! readings in two layouts, and the total of the `temperature` field.
//!
//! The decimal measurements are held exactly, as whole tenths.
use vstd::prelude::*;
use crate::prng::{xorshift_nth, xorshift_advance};
use crate::seq_facts::sum_i32;

verus! {

/// One reading from a weather station. `temperature` is in hundredths of a
/// degree Celsius; humidity (percent), pressure (hPa), wind speed (m/s) and
/// rainfall (mm) are in tenths. Exactly 32 bytes.
#[derive(Clone, Copy, Debug, PartialEq, Eq, Structural)]
pub struct Reading {
    pub timestamp: u64,
    pub station_id: u32,
    pub temperature: i32,
    pub humidity_tenths: u32,
    pub pressure_tenths: u32,
    pub wind_speed_tenths: u32,
    pub rainfall_tenths: u32,
}

/// The same readings, stored one array per field.
#[derive(Clone, Debug, Default)]
pub struct Readings {
    pub timestamp: Vec<u64>,
    pub station_id: Vec<u32>,
    pub temperature: Vec<i32>,
    pub humidity_tenths: Vec<u32>,
    pub pressure_tenths: Vec<u32>,
    pub wind_speed_tenths: Vec<u32>,
    pub rainfall_tenths: Vec<u32>,
}

impl Readings {
    pub fn len(&self) -> (r: usize)
        ensures
            r == self.temperature@.len(),
    {
        self.temperature.len()
    }

    pub fn is_empty(&self) -> (r: bool)
        ensures
            r == (self.temperature@.len() == 0),
    {
        self.temperature.len() == 0
    }
}

/// The temperatures of an array of readings.
pub open spec fn temperatures(s: Seq<Reading>) -> Seq<i32> {
    s.map_values(|r: Reading| r.temperature)
}

/// Every running total of `s`, first to last, fits in an `i64`.
pub open spec fn prefix_sums_fit_i64(s: Seq<i32>) -> bool {
    forall|k: int| 0 <= k <= s.len() ==> i64::MIN <= #[trigger] sum_i32(s.take(k)) <= i64::MAX
}

/// Total the temperature field, reading from an array of structs.
pub fn total_temperature_aos(readings: &[Reading]) -> (r: i64)
    requires
        prefix_sums_fit_i64(temperatures(readings@)),
    ensures
        r == sum_i32(temperatures(readings@)),
{
    let ghost t = temperatures(readings@);
    let mut total: i64 = 0;
    let mut i: usize = 0;
    while i < readings.len()
        invariant
            t == temperatures(readings@),
            t.len() == readings@.len(),
            prefix_sums_fit_i64(t),
            i <= readings@.len(),
            total == sum_i32(t.take(i as int)),
        decreases readings@.len() - i,
    {
        assert(t.take(i + 1).drop_last() =~= t.take(i as int));
        assert(i64::MIN <= sum_i32(t.take(i + 1)) <= i64::MAX);
        total += readings[i].temperature as i64;
        i += 1;
    }
    assert(t.take(i as int) =~= t);
    total
}

/// Total the temperature field, reading from a struct of arrays.
pub fn total_temperature_soa(readings: &Readings) -> (r: i64)
    requires
        prefix_sums_fit_i64(readings.temperature@),
    ensures
        r == sum_i32(readings.temperature@),
{
    let ghost t = readings.temperature@;
    let mut total: i64 = 0;
    let mut i: usize = 0;
    while i < readings.temperature.len()
        invariant
            t == readings.temperature@,
            prefix_sums_fit_i64(t),
            i <= t.len(),
            total == sum_i32(t.take(i as int)),
        decreases t.len() - i,
    {
        assert(t.take(i + 1).drop_last() =~= t.take(i as int));
        assert(i64::MIN <= sum_i32(t.take(i + 1)) <= i64::MAX);
        total += readings.temperature[i] as i64;
        i += 1;
    }
    assert(t.take(i as int) =~= t);
    total
}

/// The seed of the reading generator.
pub open spec fn reading_seed() -> u64 {
    0x5DEECE66Du64
}

/// Reading `i`, made from the generator output `r`.
pub open spec fn reading_from(i: nat, r: u64) -> Reading {
    Reading {
        timestamp: (1_700_000_000 + i) as u64,
        station_id: (r % 512) as u32,
        temperature: ((r % 7001) as int - 2000) as i32,
        humidity_tenths: (r % 1001) as u32,
        pressure_tenths: (9500 + r % 1001) as u32,
        wind_speed_tenths: (r % 401) as u32,
        rainfall_tenths: (r % 201) as u32,
    }
}

/// The `n` readings the generator produces: reading `i` uses the `i + 1`-th
/// output.
pub open spec fn spec_generate_aos(n: nat) -> Seq<Reading> {
    Seq::new(n, |i: int| reading_from(i as nat, xorshift_nth(reading_seed(), (i + 1) as nat)))
}

/// Reading `i` from generator output `r`.
pub(crate) fn make_reading(i: usize, r: u64) -> (out: Reading)
    requires
        i + 1_700_000_000 <= u64::MAX,
    ensures
        out == reading_from(i as nat, r),
{
    Reading {
        timestamp: 1_700_000_000 + i as u64,
        station_id: (r % 512) as u32,
        temperature: (r % 7001) as i32 - 2000,
        humidity_tenths: (r % 1001) as u32,
        pressure_tenths: 9500 + (r % 1001) as u32,
        wind_speed_tenths: (r % 401) as u32,
        rainfall_tenths: (r % 201) as u32,
    }
}

/// Generate `n` readings as an array of structs.
pub fn generate_aos(n: usize) -> (r: Vec<Reading>)
    requires
        n + 1_699_999_999 <= u64::MAX,
    ensures
        r@ == spec_generate_aos(n as nat),
{
    let mut state: u64 = 0x5DEECE66D;
    let mut out: Vec<Reading> = Vec::with_capacity(n);
    let mut i: usize = 0;
    while i < n
        invariant
            i <= n,
            n + 1_699_999_999 <= u64::MAX,
            state == xorshift_nth(reading_seed(), i as nat),
            out@ =~= spec_generate_aos(n as nat).take(i as int),
        decreases n - i,
    {
        state = xorshift_advance(state);
        out.push(make_reading(i, state));
        i += 1;
    }
    assert(out@ =~= spec_generate_aos(n as nat));
    out
}

/// The struct of arrays holds, field by field, the array of structs `aos`.
pub open spec fn same_readings(aos: Seq<Reading>, soa: Readings) -> bool {
    &&& soa.timestamp@ == aos.map_values(|r: Reading| r.timestamp)
    &&& soa.station_id@ == aos.map_values(|r: Reading| r.station_id)
    &&& soa.temperature@ == aos.map_values(|r: Reading| r.temperature)
    &&& soa.humidity_tenths@ == aos.map_values(|r: Reading| r.humidity_tenths)
    &&& soa.pressure_tenths@ == aos.map_values(|r: Reading| r.pressure_tenths)
    &&& soa.wind_speed_tenths@ == aos.map_values(|r: Reading| r.wind_speed_tenths)
    &&& soa.rainfall_tenths@ == aos.map_values(|r: Reading| r.rainfall_tenths)
}

/// Generate the same `n` readings as a struct of arrays.
pub fn generate_soa(n: usize) -> (r: Readings)
    requires
        n + 1_699_999_999 <= u64::MAX,
    ensures
        same_readings(spec_generate_aos(n as nat), r),
{
    let aos = generate_aos(n);
    let mut soa = Readings {
        timestamp: Vec::with_capacity(n),
        station_id: Vec::with_capacity(n),
        temperature: Vec::with_capacity(n),
        humidity_tenths: Vec::with_capacity(n),
        pressure_tenths: Vec::with_capacity(n),
        wind_speed_tenths: Vec::with_capacity(n),
        rainfall_tenths: Vec::with_capacity(n),
    };
    assert(same_readings(aos@.take(0), soa)) by {
        let e = aos@.take(0);
        assert(soa.timestamp@ =~= e.map_values(|r: Reading| r.timestamp));
        assert(soa.station_id@ =~= e.map_values(|r: Reading| r.station_id));
        assert(soa.temperature@ =~= e.map_values(|r: Reading| r.temperature));
        assert(soa.humidity_tenths@ =~= e.map_values(|r: Reading| r.humidity_tenths));
        assert(soa.pressure_tenths@ =~= e.map_values(|r: Reading| r.pressure_tenths));
        assert(soa.wind_speed_tenths@ =~= e.map_values(|r: Reading| r.wind_speed_tenths));
        assert(soa.rainfall_tenths@ =~= e.map_values(|r: Reading| r.rainfall_tenths));
    }
    let mut i: usize = 0;
    while i < aos.len()
        invariant
            i <= aos@.len(),
            same_readings(aos@.take(i as int), soa),
        decreases aos@.len() - i,
    {
        let reading = aos[i];
        soa.timestamp.push(reading.timestamp);
        soa.station_id.push(reading.station_id);
        soa.temperature.push(reading.temperature);
        soa.humidity_tenths.push(reading.humidity_tenths);
        soa.pressure_tenths.push(reading.pressure_tenths);
        soa.wind_speed_tenths.push(reading.wind_speed_tenths);
        soa.rainfall_tenths.push(reading.rainfall_tenths);
        proof {
            let pre = aos@.take(i as int);
            let post = aos@.take(i + 1);
            assert(post =~= pre.push(reading));
            assert(soa.timestamp@ =~= post.map_values(|r: Reading| r.timestamp));
            assert(soa.station_id@ =~= post.map_values(|r: Reading| r.station_id));
            assert(soa.temperature@ =~= post.map_values(|r: Reading| r.temperature));
            assert(soa.humidity_tenths@ =~= post.map_values(|r: Reading| r.humidity_tenths));
            assert(soa.pressure_tenths@ =~= post.map_values(|r: Reading| r.pressure_tenths));
            assert(soa.wind_speed_tenths@ =~= post.map_values(|r: Reading| r.wind_speed_tenths));
            assert(soa.rainfall_tenths@ =~= post.map_values(|r: Reading| r.rainfall_tenths));
        }
        i += 1;
    }
    assert(aos@.take(i as int) =~= aos@);
    soa
}

/// Both layouts give the same answer: a struct of arrays that holds the same
/// readings as an array of structs has the same temperatures, so the same
/// total.
pub proof fn lemma_layouts_give_the_same_answer(aos: Seq<Reading>, soa: Readings)
    requires
        same_readings(aos, soa),
    ensures
        soa.temperature@ == temperatures(aos),
        sum_i32(soa.temperature@) == sum_i32(temperatures(aos)),
{
}

} // verus!
