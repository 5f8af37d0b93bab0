//! Deterministic workloads for benchmarking: given the same input they return
//! the same answer on every run and every machine.
use vstd::prelude::*;
use crate::prng::{xorshift_step, xorshift_nth, xorshift_advance, lemma_step_keeps_nonzero, lemma_nth_of_step};
use crate::seq_facts::{follow, chase_path, iota, wrap64, modulus64, lemma_wrapping_add};
use crate::shuffle::{swap, swap_entries, apply_swaps, lemma_apply_swaps_below};
use crate::std_calls::{sort_unstable_u64, reverse};

verus! {

broadcast use vstd::seq_lib::group_to_multiset_ensures;

/// A tiny, fast, deterministic PRNG (xorshift64).
pub struct XorShift64(u64);

impl View for XorShift64 {
    type V = u64;

    closed spec fn view(&self) -> u64 {
        self.0
    }
}

impl XorShift64 {
    /// Any non-zero seed works; the lowest bit is forced on to rule out the
    /// one degenerate value.
    pub fn new(seed: u64) -> (r: Self)
        ensures
            r@ == seed | 1u64,
            r@ != 0,
    {
        assert((seed | 1u64) != 0) by (bit_vector);
        XorShift64(seed | 1)
    }

    pub fn next_u64(&mut self) -> (r: u64)
        ensures
            final(self)@ == xorshift_step(old(self)@),
            r == final(self)@,
            old(self)@ != 0 ==> r != 0,
    {
        proof {
            if self.0 != 0 {
                lemma_step_keeps_nonzero(self.0);
            }
        }
        let x = xorshift_advance(self.0);
        self.0 = x;
        x
    }
}

/// The `k`-th output (counting from 1) of a generator made with `seed`.
pub open spec fn nth_output(seed: u64, k: nat) -> u64 {
    xorshift_nth(seed | 1u64, k)
}

/// A generator made from any seed never reaches the all-zero state, so its
/// outputs never collapse to a constant zero stream.
pub proof fn lemma_outputs_never_zero(seed: u64, k: nat)
    ensures
        nth_output(seed, k) != 0,
{
    assert((seed | 1u64) != 0) by (bit_vector);
    crate::prng::lemma_nth_keeps_nonzero(seed | 1u64, k);
}

/// The exact sum of the squares of `s`.
pub open spec fn sum_of_squares_spec(s: Seq<u64>) -> int
    decreases s.len(),
{
    if s.len() == 0 {
        0
    } else {
        sum_of_squares_spec(s.drop_last()) + s.last() * s.last()
    }
}

/// Sum of squares over a slice, with wrapping arithmetic: the exact sum
/// reduced modulo 2^64.
pub fn sum_of_squares(values: &[u64]) -> (r: u64)
    ensures
        r == wrap64(sum_of_squares_spec(values@)),
{
    let mut acc: u64 = 0;
    let mut i: usize = 0;
    while i < values.len()
        invariant
            i <= values@.len(),
            acc == wrap64(sum_of_squares_spec(values@.take(i as int))),
        decreases values@.len() - i,
    {
        let x = values[i];
        let sq = x.wrapping_mul(x);
        proof {
            let t = sum_of_squares_spec(values@.take(i as int));
            assert(values@.take(i + 1).drop_last() =~= values@.take(i as int));
            assert(sq as int == (x as nat * x as nat) % (modulus64() as nat));
            lemma_wrapping_add(acc, t, sq);
            vstd::arithmetic::div_mod::lemma_add_mod_noop_right(t, x * x, modulus64());
        }
        acc = acc.wrapping_add(sq);
        i += 1;
    }
    assert(values@.take(i as int) =~= values@);
    acc
}

/// The first `n` outputs of a generator made with `seed`.
pub open spec fn spec_generate_values(n: nat, seed: u64) -> Seq<u64> {
    Seq::new(n, |i: int| nth_output(seed, (i + 1) as nat))
}

/// Deterministic input for the sum-of-squares workload.
pub fn generate_values(n: usize, seed: u64) -> (r: Vec<u64>)
    ensures
        r@ == spec_generate_values(n as nat, seed),
{
    let mut rng = XorShift64::new(seed);
    let mut out: Vec<u64> = Vec::with_capacity(n);
    let mut i: usize = 0;
    while i < n
        invariant
            i <= n,
            rng@ == nth_output(seed, i as nat),
            out@ =~= spec_generate_values(n as nat, seed).take(i as int),
        decreases n - i,
    {
        out.push(rng.next_u64());
        i += 1;
    }
    assert(out@ =~= spec_generate_values(n as nat, seed));
    out
}

/// Sattolo's algorithm over the indices `i, i - 1, ..., 1`: each step
/// advances the generator and exchanges index `k` with
/// `(state as usize) % k`.
pub open spec fn sattolo(s: Seq<usize>, state: u64, i: nat) -> Seq<usize>
    decreases i,
{
    if i == 0 {
        s
    } else {
        let st = xorshift_step(state);
        sattolo(swap(s, i as int, ((st as usize) as int) % (i as int)), st, (i - 1) as nat)
    }
}

/// The `next` array that `build_cycle(n, seed)` returns.
pub open spec fn spec_build_cycle(n: nat, seed: u64) -> Seq<usize> {
    if n == 0 {
        iota(0)
    } else {
        sattolo(iota(n), seed | 1u64, (n - 1) as nat)
    }
}

/// The exchanges Sattolo's algorithm makes from generator state `state` over
/// the indices `top, top - 1, ..., 1`.
spec fn sattolo_swaps(state: u64, top: nat) -> Seq<(int, int)> {
    Seq::new(top, |k: int| (top - k, ((xorshift_nth(state, (k + 1) as nat) as usize) as int) % (top - k)))
}

proof fn lemma_sattolo_as_swaps(s: Seq<usize>, state: u64, i: nat)
    ensures
        sattolo(s, state, i) == apply_swaps(s, sattolo_swaps(state, i)),
    decreases i,
{
    if i > 0 {
        let st = xorshift_step(state);
        let j = ((st as usize) as int) % (i as int);
        lemma_sattolo_as_swaps(swap(s, i as int, j), st, (i - 1) as nat);
        let sw = sattolo_swaps(state, i);
        let rest = sattolo_swaps(st, (i - 1) as nat);
        assert forall|k: int| 0 <= k < rest.len() implies #[trigger] sw.drop_first()[k] == rest[k] by {
            lemma_nth_of_step(state, (k + 1) as nat);
        }
        assert(sw.drop_first() =~= rest);
        assert(xorshift_nth(state, 0) == state);
        assert(xorshift_nth(state, 1) == st);
        assert(sw[0] == (i as int, j));
    }
}

/// `build_cycle` is Sattolo's algorithm on the generator seeded with
/// `seed | 1`: starting from `0..n`, for `i = n - 1` down to `1` the slot `i`
/// is exchanged with the `(n - i)`-th output, as a `usize`, reduced modulo
/// `i`. In particular the last slot links to the first output modulo `n - 1`.
pub proof fn lemma_build_cycle_is_sattolo(n: nat, seed: u64)
    requires
        0 < n <= usize::MAX,
    ensures
        spec_build_cycle(n, seed) == apply_swaps(
            Seq::new(n, |i: int| i as usize),
            Seq::new(
                (n - 1) as nat,
                |k: int| (n - 1 - k, ((xorshift_nth(seed | 1u64, (k + 1) as nat) as usize) as int) % (n - 1 - k)),
            ),
        ),
        n >= 2 ==> spec_build_cycle(n, seed)[n - 1] as int == ((xorshift_nth(seed | 1u64, 1) as usize) as int)
            % (n - 1),
{
    let top = (n - 1) as nat;
    let state = seed | 1u64;
    let swaps = Seq::new(
        top,
        |k: int| (n - 1 - k, ((xorshift_nth(state, (k + 1) as nat) as usize) as int) % (n - 1 - k)),
    );
    lemma_sattolo_as_swaps(iota(n), state, top);
    assert(sattolo_swaps(state, top) =~= swaps);
    assert(iota(n) =~= Seq::new(n, |i: int| i as usize));
    if n >= 2 {
        let j0 = ((xorshift_nth(state, 1) as usize) as int) % (n - 1);
        let first = iota(n).update(n - 1, iota(n)[j0]).update(j0, iota(n)[n - 1]);
        assert forall|k: int| 0 <= k < swaps.drop_first().len() implies 0 <= (#[trigger] swaps.drop_first()[k]).0
            < n - 1 && 0 <= swaps.drop_first()[k].1 < n - 1 by {
            assert(swaps.drop_first()[k] == swaps[k + 1]);
        }
        lemma_apply_swaps_below(first, swaps.drop_first(), n - 1);
        assert(first[n - 1] == iota(n)[j0]);
    }
}

/// Build a single random permutation cycle over `n` slots using Sattolo's
/// algorithm, returning a `next` array where `next[i]` is the slot to visit
/// after `i`.
pub fn build_cycle(n: usize, seed: u64) -> (r: Vec<usize>)
    ensures
        r@ == spec_build_cycle(n as nat, seed),
{
    let mut next: Vec<usize> = Vec::with_capacity(n);
    let mut k: usize = 0;
    while k < n
        invariant
            k <= n,
            next@ == iota(k as nat),
        decreases n - k,
    {
        next.push(k);
        k += 1;
        assert(next@ =~= iota(k as nat));
    }
    let mut rng = XorShift64::new(seed);
    let mut i: usize = n;
    while i > 1
        invariant
            next@.len() == n,
            n == 0 ==> i == 0 && next@ == spec_build_cycle(n as nat, seed),
            n > 0 ==> 1 <= i <= n && sattolo(next@, rng@, (i - 1) as nat) == spec_build_cycle(n as nat, seed),
        decreases i,
    {
        i -= 1;
        let j = (rng.next_u64() as usize) % i;
        swap_entries(&mut next, i, j);
    }
    next
}

/// Follow the cycle `steps` times from `start`, returning the final slot.
pub fn chase(next: &[usize], start: usize, steps: usize) -> (r: usize)
    requires
        forall|k: nat| k < steps ==> (#[trigger] follow(next@, start, k) as int) < next@.len(),
    ensures
        r == follow(next@, start, steps as nat),
{
    let mut p = start;
    let mut k: usize = 0;
    while k < steps
        invariant
            k <= steps,
            forall|q: nat| q < steps ==> (#[trigger] follow(next@, start, q) as int) < next@.len(),
            p == follow(next@, start, k as nat),
        decreases steps - k,
    {
        assert((follow(next@, start, k as nat) as int) < next@.len());
        p = next[p];
        k += 1;
    }
    p
}

/// The input shapes for the sort comparison.
#[derive(Clone, Copy, Debug)]
pub enum Pattern {
    /// Uniform random.
    Random,
    /// Already sorted.
    Sorted,
    /// Reverse sorted.
    Reversed,
    /// Only a handful of distinct values, heavily repeated.
    FewUnique,
}

impl Pattern {
    pub const ALL: [Pattern; 4] = [Pattern::Random, Pattern::Sorted, Pattern::Reversed, Pattern::FewUnique];

    pub fn name(self) -> (r: &'static str)
        ensures
            self is Random ==> r@ == "random"@,
            self is Sorted ==> r@ == "sorted"@,
            self is Reversed ==> r@ == "reversed"@,
            self is FewUnique ==> r@ == "few_unique"@,
    {
        match self {
            Pattern::Random => "random",
            Pattern::Sorted => "sorted",
            Pattern::Reversed => "reversed",
            Pattern::FewUnique => "few_unique",
        }
    }
}

/// The shape a pattern's input must have, given the raw generator outputs.
pub open spec fn pattern_shape(pattern: Pattern, raw: Seq<u64>, v: Seq<u64>) -> bool {
    match pattern {
        Pattern::Random => v == raw,
        Pattern::FewUnique => v == raw.map_values(|x: u64| x % 8),
        Pattern::Sorted => {
            &&& v.to_multiset() == raw.to_multiset()
            &&& forall|i: int, j: int| 0 <= i <= j < v.len() ==> v[i] <= v[j]
        },
        Pattern::Reversed => {
            &&& v.to_multiset() == raw.to_multiset()
            &&& forall|i: int, j: int| 0 <= i <= j < v.len() ==> v[i] >= v[j]
        },
    }
}

/// Deterministic input for the sort suite: `n` generator outputs, reduced
/// modulo 8 for `FewUnique`, sorted ascending for `Sorted` and descending for
/// `Reversed`.
pub fn generate_pattern(n: usize, pattern: Pattern, seed: u64) -> (r: Vec<u64>)
    ensures
        r@.len() == n,
        pattern_shape(pattern, spec_generate_values(n as nat, seed), r@),
{
    let ghost raw = spec_generate_values(n as nat, seed);
    let mut rng = XorShift64::new(seed);
    let few = match pattern {
        Pattern::FewUnique => true,
        _ => false,
    };
    let mut v: Vec<u64> = Vec::with_capacity(n);
    let mut i: usize = 0;
    while i < n
        invariant
            i <= n,
            raw == spec_generate_values(n as nat, seed),
            rng@ == nth_output(seed, i as nat),
            few ==> v@ =~= raw.map_values(|x: u64| x % 8).take(i as int),
            !few ==> v@ =~= raw.take(i as int),
        decreases n - i,
    {
        let x = rng.next_u64();
        if few {
            v.push(x % 8);
        } else {
            v.push(x);
        }
        i += 1;
    }
    proof {
        if few {
            assert(v@ =~= raw.map_values(|x: u64| x % 8));
        } else {
            assert(v@ =~= raw);
        }
    }
    match pattern {
        Pattern::Sorted => sort_unstable_u64(&mut v),
        Pattern::Reversed => {
            sort_unstable_u64(&mut v);
            let ghost ascending = v@;
            reverse(&mut v);
            proof {
                ascending.lemma_reverse_to_multiset();
                assert forall|i: int, j: int| 0 <= i <= j < v@.len() implies v@[i] >= v@[j] by {
                    let n1 = ascending.len() - 1;
                    assert(v@[i] == ascending[n1 - i]);
                    assert(v@[j] == ascending[n1 - j]);
                }
            }
        },
        _ => {},
    }
    v
}


// ---------------------------------------------------------------------------
// Why Sattolo's algorithm yields one cycle.
//
// Before the step for index `i`, the permutation splits into exactly `i + 1`
// cycles, one through each of `0..=i`. Each slot `x` is labelled with the
// representative `rep[x]` of its cycle and its position `pos[x]` along that
// cycle from the representative; `len[r]` is the length of the cycle of `r`.
// Exchanging `i` with some `j < i` splices the two cycles of `i` and `j`
// into one, so after the last step a single cycle of length `n` remains.
// ---------------------------------------------------------------------------

/// The sum of `len[0..=i]`.
spec fn sum_to(len: Seq<int>, i: int) -> int
    decreases i + 1,
{
    if i < 0 {
        0
    } else {
        sum_to(len, i - 1) + len[i]
    }
}

/// The position after `p` along a cycle of length `l`.
spec fn next_pos(p: int, l: int) -> int {
    if p + 1 == l {
        0
    } else {
        p + 1
    }
}

/// The cycle structure of `a` before the step for index `i`.
spec fn cycle_inv(a: Seq<usize>, i: int, rep: Seq<int>, pos: Seq<int>, len: Seq<int>) -> bool {
    let n = a.len() as int;
    &&& 0 <= i < n
    &&& rep.len() == n
    &&& pos.len() == n
    &&& len.len() == n
    &&& forall|x: int| 0 <= x < n ==> (#[trigger] a[x] as int) < n
    &&& forall|x: int| 0 <= x < n ==> 0 <= #[trigger] rep[x] <= i
    &&& forall|r: int| 0 <= r <= i ==> #[trigger] rep[r] == r
    &&& forall|r: int| 0 <= r <= i ==> #[trigger] len[r] >= 1
    &&& forall|x: int| 0 <= x < n ==> 0 <= #[trigger] pos[x] < len[rep[x]]
    &&& forall|x: int| 0 <= x < n ==> (#[trigger] pos[x] == 0 <==> x == rep[x])
    &&& forall|x: int| 0 <= x < n ==> #[trigger] rep[a[x] as int] == rep[x]
    &&& forall|x: int| 0 <= x < n ==> #[trigger] pos[a[x] as int] == next_pos(pos[x], len[rep[x]])
    &&& forall|x: int, y: int|
        0 <= x < n && 0 <= y < n && #[trigger] rep[x] == #[trigger] rep[y] && pos[x] == pos[y] ==> x == y
    &&& sum_to(len, i) == n
}

proof fn lemma_sum_to_update(len: Seq<int>, i: int, j: int, v: int)
    requires
        0 <= j <= i < len.len(),
    ensures
        sum_to(len.update(j, v), i) == sum_to(len, i) - len[j] + v,
    decreases i + 1,
{
    if i > j {
        lemma_sum_to_update(len, i - 1, j, v);
    } else {
        assert(sum_to(len.update(j, v), i - 1) == sum_to(len, i - 1)) by {
            lemma_sum_to_same(len, len.update(j, v), i - 1);
        }
    }
}

proof fn lemma_sum_to_same(a: Seq<int>, b: Seq<int>, i: int)
    requires
        i < a.len(),
        a.len() == b.len(),
        forall|k: int| 0 <= k <= i ==> a[k] == b[k],
    ensures
        sum_to(a, i) == sum_to(b, i),
    decreases i + 1,
{
    if i >= 0 {
        lemma_sum_to_same(a, b, i - 1);
    }
}

proof fn lemma_sum_to_ones(len: Seq<int>, i: int)
    requires
        i < len.len(),
        forall|k: int| 0 <= k <= i ==> #[trigger] len[k] == 1,
    ensures
        sum_to(len, i) == i + 1 || i < 0,
    decreases i + 1,
{
    if i >= 0 {
        lemma_sum_to_ones(len, i - 1);
    }
}

/// The state before the first step: every slot is a cycle of its own.
proof fn lemma_cycle_inv_start(n: nat) -> (r: (Seq<int>, Seq<int>, Seq<int>))
    requires
        0 < n <= usize::MAX,
    ensures
        cycle_inv(iota(n), n - 1, r.0, r.1, r.2),
{
    let rep = Seq::new(n, |x: int| x);
    let pos = Seq::new(n, |x: int| 0int);
    let len = Seq::new(n, |x: int| 1int);
    lemma_sum_to_ones(len, n - 1);
    let a = iota(n);
    assert forall|x: int, y: int|
        0 <= x < n && 0 <= y < n && #[trigger] rep[x] == #[trigger] rep[y] && pos[x] == pos[y] implies x == y by {}
    assert forall|x: int| 0 <= x < n implies #[trigger] pos[a[x] as int] == next_pos(pos[x], len[rep[x]]) by {}
    (rep, pos, len)
}

/// One step of Sattolo's algorithm: exchanging `i` with `j < i` merges the
/// cycle of `j` and the cycle of `i` into one, represented by `j`.
proof fn lemma_cycle_inv_step(a: Seq<usize>, i: int, j: int, rep: Seq<int>, pos: Seq<int>, len: Seq<int>)
    -> (r: (Seq<int>, Seq<int>, Seq<int>))
    requires
        cycle_inv(a, i, rep, pos, len),
        1 <= i,
        0 <= j < i,
    ensures
        cycle_inv(swap(a, i, j), i - 1, r.0, r.1, r.2),
{
    let n = a.len() as int;
    let li = len[i];
    let lj = len[j];
    assert(rep[i] == i && rep[j] == j);
    assert(pos[i] == 0 && pos[j] == 0);
    let b = swap(a, i, j);
    let rep2 = Seq::new(n as nat, |x: int| if rep[x] == i || rep[x] == j { j } else { rep[x] });
    let pos2 = Seq::new(
        n as nat,
        |x: int|
            if rep[x] == i {
                if pos[x] == 0 { li } else { pos[x] }
            } else if rep[x] == j {
                if pos[x] == 0 { 0 } else { li + pos[x] }
            } else {
                pos[x]
            },
    );
    let len2 = len.update(j, li + lj);
    assert forall|x: int| 0 <= x < n implies (#[trigger] b[x] as int) < n by {
        if x == i {
            assert(b[x] == a[j]);
        } else if x == j {
            assert(b[x] == a[i]);
        } else {
            assert(b[x] == a[x]);
        }
    }
    assert forall|x: int| 0 <= x < n implies 0 <= #[trigger] pos2[x] < len2[rep2[x]] by {
        assert(0 <= pos[x] < len[rep[x]]);
    }
    assert forall|x: int| 0 <= x < n implies (#[trigger] pos2[x] == 0 <==> x == rep2[x]) by {
        assert(pos[x] == 0 <==> x == rep[x]);
        assert(0 <= pos[x] < len[rep[x]]);
        if rep[x] == i && x == j {
            assert(rep[j] == j);
        }
    }
    assert forall|x: int| 0 <= x < n implies #[trigger] rep2[b[x] as int] == rep2[x]
        && pos2[b[x] as int] == next_pos(pos2[x], len2[rep2[x]]) by {
        let y = a[x] as int;
        assert(rep[y] == rep[x]);
        assert(pos[y] == next_pos(pos[x], len[rep[x]]));
        assert(0 <= pos[x] < len[rep[x]]);
        assert(pos[y] == 0 <==> y == rep[y]);
        if x == i {
            let yj = a[j] as int;
            assert(b[x] == a[j]);
            assert(rep[yj] == j);
            assert(pos[yj] == next_pos(0, lj));
            assert(pos[yj] == 0 <==> yj == rep[yj]);
        } else if x == j {
            let yi = a[i] as int;
            assert(b[x] == a[i]);
            assert(rep[yi] == i);
            assert(pos[yi] == next_pos(0, li));
            assert(pos[yi] == 0 <==> yi == rep[yi]);
        } else {
            assert(b[x] == a[x]);
            assert(pos[x] == 0 <==> x == rep[x]);
        }
    }
    assert forall|x: int| 0 <= x < n implies #[trigger] rep2[b[x] as int] == rep2[x] by {}
    assert forall|x: int| 0 <= x < n implies #[trigger] pos2[b[x] as int] == next_pos(pos2[x], len2[rep2[x]]) by {}
    assert forall|x: int, y: int|
        0 <= x < n && 0 <= y < n && #[trigger] rep2[x] == #[trigger] rep2[y] && pos2[x] == pos2[y] implies x == y by {
        assert(0 <= pos[x] < len[rep[x]]);
        assert(0 <= pos[y] < len[rep[y]]);
        assert(pos[x] == 0 <==> x == rep[x]);
        assert(pos[y] == 0 <==> y == rep[y]);
        if rep[x] == rep[y] && pos[x] == pos[y] {
        } else if rep[x] == i && rep[y] == i {
            assert(pos[x] == pos[y] || pos[x] == 0 || pos[y] == 0);
        } else if rep[x] == j && rep[y] == j {
        } else {
        }
    }
    lemma_sum_to_update(len, i - 1, j, li + lj);
    assert forall|k: int| 0 <= k <= i - 1 implies #[trigger] len2[k] >= 1 by {}
    (rep2, pos2, len2)
}

proof fn lemma_sattolo_keeps_inv(a: Seq<usize>, state: u64, i: nat, rep: Seq<int>, pos: Seq<int>, len: Seq<int>)
    -> (r: (Seq<int>, Seq<int>, Seq<int>))
    requires
        cycle_inv(a, i as int, rep, pos, len),
    ensures
        sattolo(a, state, i).len() == a.len(),
        cycle_inv(sattolo(a, state, i), 0, r.0, r.1, r.2),
    decreases i,
{
    if i == 0 {
        (rep, pos, len)
    } else {
        let st = xorshift_step(state);
        let j = ((st as usize) as int) % (i as int);
        let (rep2, pos2, len2) = lemma_cycle_inv_step(a, i as int, j, rep, pos, len);
        lemma_sattolo_keeps_inv(swap(a, i as int, j), st, (i - 1) as nat, rep2, pos2, len2)
    }
}

proof fn lemma_follow_pos(a: Seq<usize>, rep: Seq<int>, pos: Seq<int>, len: Seq<int>, start: usize, k: nat)
    requires
        cycle_inv(a, 0, rep, pos, len),
        (start as int) < a.len(),
    ensures
        (follow(a, start, k) as int) < a.len(),
        rep[follow(a, start, k) as int] == 0,
        pos[follow(a, start, k) as int] == (pos[start as int] + k) % (a.len() as int),
    decreases k,
{
    let n = a.len() as int;
    assert(len[0] == n) by {
        assert(sum_to(len, -1) == 0);
    }
    vstd::arithmetic::div_mod::lemma_small_mod(pos[start as int] as nat, n as nat);
    if k > 0 {
        lemma_follow_pos(a, rep, pos, len, start, (k - 1) as nat);
        let y = follow(a, start, (k - 1) as nat) as int;
        let p = pos[start as int] + k - 1;
        assert(0 <= pos[y] < n);
        vstd::arithmetic::div_mod::lemma_add_mod_noop_right(1, p, n);
        if pos[y] + 1 == n {
            vstd::arithmetic::div_mod::lemma_mod_self_0(n);
        } else {
            vstd::arithmetic::div_mod::lemma_small_mod((pos[y] + 1) as nat, n as nat);
        }
    }
}

/// Following the `next` array from any slot visits every slot exactly once
/// before returning to the start: it is a single cycle of length `n`.
pub proof fn lemma_build_cycle_is_one_cycle(n: nat, seed: u64, start: usize)
    requires
        0 < n <= usize::MAX,
        (start as int) < n,
    ensures
        spec_build_cycle(n, seed).len() == n,
        follow(spec_build_cycle(n, seed), start, n) == start,
        forall|k: nat| 0 < k < n ==> #[trigger] follow(spec_build_cycle(n, seed), start, k) != start,
        forall|i: usize| (i as int) < n ==> #[trigger] chase_path(spec_build_cycle(n, seed), start, n).contains(i),
{
    let (rep0, pos0, len0) = lemma_cycle_inv_start(n);
    let a = spec_build_cycle(n, seed);
    let (rep, pos, len) = lemma_sattolo_keeps_inv(iota(n), seed | 1u64, (n - 1) as nat, rep0, pos0, len0);
    let p = pos[start as int];
    assert(len[0] == n) by {
        assert(sum_to(len, -1) == 0);
    }
    assert(0 <= p < n);
    lemma_follow_pos(a, rep, pos, len, start, n);
    vstd::arithmetic::div_mod::lemma_add_mod_noop(p, n as int, n as int);
    vstd::arithmetic::div_mod::lemma_mod_self_0(n as int);
    vstd::arithmetic::div_mod::lemma_small_mod(p as nat, n);
    assert(follow(a, start, n) == start);
    assert forall|k: nat| 0 < k < n implies #[trigger] follow(a, start, k) != start by {
        lemma_follow_pos(a, rep, pos, len, start, k);
        let m = p + k;
        if m < n {
            vstd::arithmetic::div_mod::lemma_small_mod(m as nat, n);
        } else {
            vstd::arithmetic::div_mod::lemma_mod_sub_multiples_vanish(m, n as int);
            vstd::arithmetic::div_mod::lemma_small_mod((m - n) as nat, n);
        }
    }
    assert forall|i: usize| (i as int) < n implies #[trigger] chase_path(a, start, n).contains(i) by {
        let q = pos[i as int];
        assert(0 <= q < n);
        let k: int = if q >= p { q - p } else { q - p + n };
        lemma_follow_pos(a, rep, pos, len, start, k as nat);
        if q >= p {
            vstd::arithmetic::div_mod::lemma_small_mod(q as nat, n);
        } else {
            vstd::arithmetic::div_mod::lemma_mod_add_multiples_vanish(q, n as int);
            vstd::arithmetic::div_mod::lemma_small_mod(q as nat, n);
        }
        let y = follow(a, start, k as nat) as int;
        assert(rep[y] == rep[i as int]);
        assert(pos[y] == pos[i as int]);
        assert(chase_path(a, start, n)[k] == i);
    }
}

} // verus!
