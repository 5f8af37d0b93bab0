//! False sharing: the same total over the same readings, computed by one
//! thread or split across several.
//!
//! What is computed lives here: the readings, the single threaded total, how
//! the readings are split between threads, and how the per-thread totals are
//! combined. Spawning, pinning and the shared counters stay with the caller.
use vstd::prelude::*;
use crate::prng::{xorshift_step, xorshift_nth, xorshift_advance};
use crate::seq_facts::{sum_i32, sum_u64, wrap64, modulus64, iota, lemma_wrapping_add, lemma_wrapping_add_i32};
use crate::aos_vs_soa::{make_reading, reading_seed, spec_generate_aos, temperatures};

pub use crate::aos_vs_soa::Reading;

verus! {

/// A tiny deterministic PRNG (xorshift64).
pub struct XorShift64(pub u64);

impl XorShift64 {
    pub fn new(seed: u64) -> (r: Self)
        ensures
            r.0 == seed,
    {
        XorShift64(seed)
    }

    pub fn next(&mut self) -> (r: u64)
        ensures
            final(self).0 == xorshift_step(old(self).0),
            r == final(self).0,
    {
        let x = xorshift_advance(self.0);
        self.0 = x;
        x
    }
}

/// The readings of part 1 of the series.
pub fn generate(n: usize) -> (r: Vec<Reading>)
    requires
        n + 1_699_999_999 <= u64::MAX,
    ensures
        r@ == spec_generate_aos(n as nat),
{
    let mut rng = XorShift64::new(0x5DEECE66D);
    let mut out: Vec<Reading> = Vec::with_capacity(n);
    let mut i: usize = 0;
    while i < n
        invariant
            i <= n,
            n + 1_699_999_999 <= u64::MAX,
            rng.0 == xorshift_nth(reading_seed(), i as nat),
            out@ =~= spec_generate_aos(n as nat).take(i as int),
        decreases n - i,
    {
        let r = rng.next();
        out.push(make_reading(i, r));
        i += 1;
    }
    assert(out@ =~= spec_generate_aos(n as nat));
    out
}

/// One logical CPU per physical core: 0, 2, 4, ...
pub fn physical_cores(n: usize) -> (r: Vec<usize>)
    requires
        n <= usize::MAX / 2 + 1,
    ensures
        r@ == Seq::new(n as nat, |i: int| (2 * i) as usize),
{
    let mut out: Vec<usize> = Vec::with_capacity(n);
    let mut i: usize = 0;
    while i < n
        invariant
            i <= n,
            n <= usize::MAX / 2 + 1,
            out@ =~= Seq::new(i as nat, |k: int| (2 * k) as usize),
        decreases n - i,
    {
        out.push(i * 2);
        i += 1;
    }
    out
}

/// Both hyperthreads of the first `n / 2` physical cores: 0, 1, 2, 3, ...
pub fn sibling_cores(n: usize) -> (r: Vec<usize>)
    ensures
        r@ == iota(n as nat),
{
    let mut out: Vec<usize> = Vec::with_capacity(n);
    let mut i: usize = 0;
    while i < n
        invariant
            i <= n,
            out@ =~= iota(i as nat),
        decreases n - i,
    {
        out.push(i);
        i += 1;
    }
    out
}

/// The total of `passes` sweeps over the temperatures, modulo 2^64.
pub open spec fn spec_total(readings: Seq<Reading>, passes: nat) -> u64 {
    wrap64(passes * sum_i32(temperatures(readings)))
}

/// Single threaded reference: `passes` sweeps, each temperature widened to
/// `u64` and added with wrapping.
pub fn sum_single(readings: &[Reading], passes: usize) -> (r: u64)
    ensures
        r == spec_total(readings@, passes as nat),
{
    let ghost t = temperatures(readings@);
    let ghost whole = sum_i32(t);
    let mut total: u64 = 0;
    let mut q: usize = 0;
    while q < passes
        invariant
            t == temperatures(readings@),
            whole == sum_i32(t),
            t.len() == readings@.len(),
            q <= passes,
            total == wrap64(q * whole),
        decreases passes - q,
    {
        let mut i: usize = 0;
        while i < readings.len()
            invariant
                t == temperatures(readings@),
                t.len() == readings@.len(),
                i <= readings@.len(),
                total == wrap64(q * whole + sum_i32(t.take(i as int))),
            decreases readings@.len() - i,
        {
            proof {
                assert(t.take(i + 1).drop_last() =~= t.take(i as int));
                lemma_wrapping_add_i32(total, q * whole + sum_i32(t.take(i as int)), t[i as int]);
            }
            total = total.wrapping_add(readings[i].temperature as u64);
            i += 1;
        }
        proof {
            assert(t.take(i as int) =~= t);
            assert(q * whole + whole == (q + 1) * whole) by (nonlinear_arith);
        }
        q += 1;
    }
    total
}

/// Where thread `t` of `threads` starts sweeping `len` readings.
pub open spec fn slice_start(len: nat, threads: nat, t: int) -> int {
    t * (len / threads) as int
}

/// Where thread `t` of `threads` stops: the next thread's start, or `len` for
/// the last thread, which also takes the readings left over by the division.
pub open spec fn slice_end(len: nat, threads: nat, t: int) -> int {
    if t + 1 == threads {
        len as int
    } else {
        (t + 1) * (len / threads) as int
    }
}

/// How the readings are split between `threads` threads: thread `t` sweeps
/// `[t * chunk, (t + 1) * chunk)` with `chunk = len / threads`, and the last
/// thread runs on to `len`, so every reading belongs to exactly one thread.
pub fn thread_slices(len: usize, threads: usize) -> (r: Vec<(usize, usize)>)
    requires
        threads > 0,
        len / threads > 0,
    ensures
        r@.len() == threads,
        forall|t: int| 0 <= t < threads ==> #[trigger] r@[t] == (
            slice_start(len as nat, threads as nat, t) as usize,
            slice_end(len as nat, threads as nat, t) as usize,
        ),
{
    let chunk = len / threads;
    proof {
        vstd::arithmetic::div_mod::lemma_fundamental_div_mod(len as int, threads as int);
        vstd::arithmetic::div_mod::lemma_mod_bound(len as int, threads as int);
    }
    let mut out: Vec<(usize, usize)> = Vec::with_capacity(threads);
    let mut t: usize = 0;
    let mut lo: usize = 0;
    while t < threads
        invariant
            chunk == len / threads,
            threads * chunk <= len,
            t <= threads,
            lo == t * chunk,
            out@.len() == t,
            forall|k: int| 0 <= k < t ==> #[trigger] out@[k] == (
                slice_start(len as nat, threads as nat, k) as usize,
                slice_end(len as nat, threads as nat, k) as usize,
            ),
        decreases threads - t,
    {
        proof {
            assert((t + 1) * chunk <= threads * chunk) by (nonlinear_arith)
                requires
                    t < threads,
                    chunk >= 0,
            ;
            assert((t + 1) * chunk == t * chunk + chunk) by (nonlinear_arith);
        }
        let hi = if t + 1 == threads { len } else { lo + chunk };
        out.push((lo, hi));
        lo = lo + chunk;
        t += 1;
    }
    out
}

/// Combine the per-thread totals with wrapping addition.
pub fn combine_totals(partials: &[u64]) -> (r: u64)
    ensures
        r == wrap64(sum_u64(partials@)),
{
    let mut total: u64 = 0;
    let mut i: usize = 0;
    while i < partials.len()
        invariant
            i <= partials@.len(),
            total == wrap64(sum_u64(partials@.take(i as int))),
        decreases partials@.len() - i,
    {
        proof {
            lemma_wrapping_add(total, sum_u64(partials@.take(i as int)), partials@[i as int]);
            assert(partials@.take(i + 1).drop_last() =~= partials@.take(i as int));
        }
        total = total.wrapping_add(partials[i]);
        i += 1;
    }
    assert(partials@.take(i as int) =~= partials@);
    total
}


proof fn lemma_sum_i32_concat(a: Seq<i32>, b: Seq<i32>)
    ensures
        sum_i32(a + b) == sum_i32(a) + sum_i32(b),
    decreases b.len(),
{
    if b.len() > 0 {
        lemma_sum_i32_concat(a, b.drop_last());
        assert((a + b).drop_last() =~= a + b.drop_last());
    } else {
        assert(a + b =~= a);
    }
}

proof fn lemma_partial_totals(readings: Seq<Reading>, c: nat, passes: nat, partials: Seq<u64>, m: nat)
    requires
        m <= partials.len(),
        partials.len() * c <= readings.len(),
        forall|t: int| 0 <= t < partials.len() ==> #[trigger] partials[t] == spec_total(
            readings.subrange(t * c, (t + 1) * c),
            passes,
        ),
    ensures
        sum_u64(partials.take(m as int)) % modulus64() == (passes * sum_i32(
            temperatures(readings.subrange(0, (m * c) as int)),
        )) % modulus64(),
    decreases m,
{
    let big = modulus64();
    if m == 0 {
        assert(partials.take(0) =~= Seq::<u64>::empty());
        assert(temperatures(readings.subrange(0, 0)) =~= Seq::<i32>::empty());
        assert(passes * 0 == 0) by (nonlinear_arith);
        assert(0 * c == 0) by (nonlinear_arith);
    } else {
        let m1 = (m - 1) as nat;
        lemma_partial_totals(readings, c, passes, partials, m1);
        let lo: int = (m1 * c) as int;
        let hi: int = (m * c) as int;
        assert(hi == lo + c) by (nonlinear_arith)
            requires
                m1 + 1 == m,
                lo == m1 * c,
                hi == m * c,
        ;
        assert(hi <= readings.len()) by (nonlinear_arith)
            requires
                m <= partials.len(),
                partials.len() * c <= readings.len(),
                hi == m * c,
        ;
        assert(partials.take(m as int).drop_last() =~= partials.take(m1 as int));
        lemma_combine_step(readings, passes, partials.take(m as int), lo, hi);
    }
}

/// Adding the total of the slice `[lo, hi)` to the combined total of the
/// readings before `lo` gives the combined total of the readings before `hi`.
proof fn lemma_combine_step(readings: Seq<Reading>, passes: nat, partials: Seq<u64>, lo: int, hi: int)
    requires
        partials.len() > 0,
        0 <= lo <= hi <= readings.len(),
        sum_u64(partials.drop_last()) % modulus64() == (passes * sum_i32(
            temperatures(readings.subrange(0, lo)),
        )) % modulus64(),
        partials.last() == spec_total(readings.subrange(lo, hi), passes),
    ensures
        sum_u64(partials) % modulus64() == (passes * sum_i32(temperatures(readings.subrange(0, hi))))
            % modulus64(),
{
    let big = modulus64();
    let a = sum_u64(partials.drop_last());
    let pm = partials.last();
    let s0 = sum_i32(temperatures(readings.subrange(0, lo)));
    let s1 = sum_i32(temperatures(readings.subrange(lo, hi)));
    assert(sum_u64(partials) == a + pm);
    assert(temperatures(readings.subrange(0, hi)) =~= temperatures(readings.subrange(0, lo))
        + temperatures(readings.subrange(lo, hi)));
    lemma_sum_i32_concat(temperatures(readings.subrange(0, lo)), temperatures(readings.subrange(lo, hi)));
    vstd::arithmetic::div_mod::lemma_mod_bound(passes * s1, big);
    assert(pm as int == (passes * s1) % big);
    vstd::arithmetic::div_mod::lemma_small_mod(pm as nat, big as nat);
    vstd::arithmetic::div_mod::lemma_add_mod_noop(a, pm as int, big);
    vstd::arithmetic::div_mod::lemma_add_mod_noop(passes * s0, passes * s1, big);
    assert(passes * s0 + passes * s1 == passes * (s0 + s1)) by (nonlinear_arith);
    assert((a + pm) % big == ((a % big) + (pm as int % big)) % big);
    assert((a + pm) % big == ((passes * s0) % big + (passes * s1) % big) % big);
    assert((a + pm) % big == (passes * (s0 + s1)) % big);
    assert(sum_i32(temperatures(readings.subrange(0, hi))) == s0 + s1);
}

/// Splitting the sweep between threads changes nothing: combining the totals
/// of the threads' slices, as `thread_slices` lays them out, gives exactly the
/// single threaded total.
pub proof fn lemma_threaded_total_agrees(readings: Seq<Reading>, threads: nat, passes: nat, partials: Seq<u64>)
    requires
        threads > 0,
        partials.len() == threads,
        forall|t: int| 0 <= t < threads ==> #[trigger] partials[t] == spec_total(
            readings.subrange(
                slice_start(readings.len(), threads, t),
                slice_end(readings.len(), threads, t),
            ),
            passes,
        ),
    ensures
        wrap64(sum_u64(partials)) == spec_total(readings, passes),
{
    let n = readings.len();
    let c = n / threads;
    let t1 = (threads - 1) as nat;
    vstd::arithmetic::div_mod::lemma_fundamental_div_mod(n as int, threads as int);
    vstd::arithmetic::div_mod::lemma_mod_bound(n as int, threads as int);
    assert(t1 * c <= threads * c) by (nonlinear_arith)
        requires
            t1 + 1 == threads,
    ;
    assert(threads * c <= n) by (nonlinear_arith)
        requires
            n as int == threads * c + (n as int) % (threads as int),
            (n as int) % (threads as int) >= 0,
    ;
    let full = partials.take(t1 as int);
    assert forall|t: int| 0 <= t < full.len() implies #[trigger] full[t] == spec_total(
        readings.subrange(t * c, (t + 1) * c),
        passes,
    ) by {
        assert(partials[t] == spec_total(
            readings.subrange(slice_start(n, threads, t), slice_end(n, threads, t)),
            passes,
        ));
    }
    lemma_partial_totals(readings, c, passes, full, t1);
    assert(full.take(t1 as int) =~= full);
    assert(partials.drop_last() =~= full);
    assert(partials.last() == spec_total(
        readings.subrange(slice_start(n, threads, t1 as int), slice_end(n, threads, t1 as int)),
        passes,
    ));
    lemma_combine_step(readings, passes, partials, (t1 * c) as int, n as int);
    assert(readings.subrange(0, n as int) =~= readings);
    vstd::arithmetic::div_mod::lemma_mod_bound(sum_u64(partials), modulus64());
}

} // verus!
