//! Branch prediction: counting values above a threshold (a conditional
//! branch), and a small bytecode interpreter (an indirect branch).
use vstd::prelude::*;
use crate::prng::{xorshift_step, xorshift_nth, xorshift_advance, lemma_nth_add};
use crate::shuffle::{shuffled, fisher_yates, swap_entries, lemma_shuffled_multiset, apply_swaps,
    fisher_yates_swaps, lemma_fisher_yates_as_swaps};
use crate::std_calls::{black_box, sort_unstable_i32};

verus! {

broadcast use vstd::seq_lib::group_to_multiset_ensures;

// ---------------------------------------------------------------------------
// Part A: conditional branches
// ---------------------------------------------------------------------------

/// How many entries of `s` exceed `threshold`.
pub open spec fn count_above(s: Seq<i32>, threshold: i32) -> int {
    s.fold_left(0int, |acc: int, v: i32| if v > threshold { acc + 1 } else { acc })
}

proof fn lemma_count_above_step(s: Seq<i32>, threshold: i32, i: int)
    requires
        0 <= i < s.len(),
    ensures
        count_above(s.take(i + 1), threshold) == count_above(s.take(i), threshold) + (if s[i]
            > threshold { 1int } else { 0int }),
        0 <= count_above(s.take(i), threshold) <= i,
    decreases i,
{
    assert(s.take(i + 1).drop_last() =~= s.take(i));
    if i > 0 {
        lemma_count_above_step(s, threshold, i - 1);
    } else {
        assert(s.take(0) =~= Seq::<i32>::empty());
    }
}

/// The count depends only on the multiset of entries, not on their order.
pub proof fn lemma_count_above_permutation(s: Seq<i32>, t: Seq<i32>, threshold: i32)
    requires
        s.to_multiset() == t.to_multiset(),
    ensures
        count_above(s, threshold) == count_above(t, threshold),
{
    let f = |acc: int, v: i32| if v > threshold { acc + 1 } else { acc };
    assert(vstd::seq_lib::commutative_foldl(f)) by {
        assert forall|x: i32, y: i32, v: int| #[trigger] f(f(v, x), y) == f(f(v, y), x) by {}
    }
    vstd::seq_lib::lemma_fold_left_permutation(s, t, f, 0int);
}

/// The obvious way to write it.
pub fn count_above_naive(values: &[i32], threshold: i32) -> (r: u64)
    ensures
        r == count_above(values@, threshold),
{
    let mut count: u64 = 0;
    let mut i: usize = 0;
    while i < values.len()
        invariant
            i <= values@.len(),
            count == count_above(values@.take(i as int), threshold),
        decreases values@.len() - i,
    {
        proof {
            lemma_count_above_step(values@, threshold, i as int);
        }
        let value = values[i];
        if value > threshold {
            count += 1;
        }
        i += 1;
    }
    assert(values@.take(i as int) =~= values@);
    count
}

/// The same loop, with an optimisation barrier inside the taken arm so that a
/// real, data dependent conditional branch survives into the machine code.
pub fn count_above_branchy(values: &[i32], threshold: i32) -> (r: u64)
    ensures
        r == count_above(values@, threshold),
{
    let mut count: u64 = 0;
    let mut i: usize = 0;
    while i < values.len()
        invariant
            i <= values@.len(),
            count == count_above(values@.take(i as int), threshold),
        decreases values@.len() - i,
    {
        proof {
            lemma_count_above_step(values@, threshold, i as int);
        }
        let value = values[i];
        if value > threshold {
            count = black_box(count + 1);
        }
        i += 1;
    }
    assert(values@.take(i as int) =~= values@);
    count
}

/// No branch at all: turn the comparison into a 0 or 1 and add it.
pub fn count_above_branchless(values: &[i32], threshold: i32) -> (r: u64)
    ensures
        r == count_above(values@, threshold),
{
    let mut count: u64 = 0;
    let mut i: usize = 0;
    while i < values.len()
        invariant
            i <= values@.len(),
            count == count_above(values@.take(i as int), threshold),
        decreases values@.len() - i,
    {
        proof {
            lemma_count_above_step(values@, threshold, i as int);
        }
        let value = values[i];
        count += (value > threshold) as u64;
        i += 1;
    }
    assert(values@.take(i as int) =~= values@);
    count
}

/// Branchless, with the same barrier as `count_above_branchy`.
pub fn count_above_branchless_barrier(values: &[i32], threshold: i32) -> (r: u64)
    ensures
        r == count_above(values@, threshold),
{
    let mut count: u64 = 0;
    let mut i: usize = 0;
    while i < values.len()
        invariant
            i <= values@.len(),
            count == count_above(values@.take(i as int), threshold),
        decreases values@.len() - i,
    {
        proof {
            lemma_count_above_step(values@, threshold, i as int);
        }
        let value = values[i];
        count = black_box(count + (value > threshold) as u64);
        i += 1;
    }
    assert(values@.take(i as int) =~= values@);
    count
}


/// A tiny deterministic PRNG (xorshift64).
pub struct XorShift64(pub u64);

impl XorShift64 {
    pub fn new(seed: u64) -> (r: Self)
        ensures
            r.0 == seed,
    {
        XorShift64(seed)
    }

    pub fn next(&mut self) -> (r: u64)
        ensures
            final(self).0 == xorshift_step(old(self).0),
            r == final(self).0,
    {
        let x = xorshift_advance(self.0);
        self.0 = x;
        x
    }

    /// Uniform in `0..n`: the next output reduced modulo `n`.
    pub fn below(&mut self, n: usize) -> (r: usize)
        requires
            n > 0,
        ensures
            final(self).0 == xorshift_step(old(self).0),
            r as int == (final(self).0 as int) % (n as int),
            r < n,
    {
        (self.next() % n as u64) as usize
    }
}

/// The threshold every benchmark compares against.
pub const THRESHOLD: i32 = 0;

/// Value `i` of a batch before shuffling: the first `above` are drawn from
/// `1..=1000`, the rest from `-1000..=-1`, by the generator output `r`.
pub open spec fn pool_value(i: nat, above: nat, r: u64) -> i32 {
    if i < above {
        (1 + (r % 1000) as int) as i32
    } else {
        (-1 - (r % 1000) as int) as i32
    }
}

/// The values before shuffling: value `i` uses the `i + 1`-th output.
pub open spec fn unshuffled_values(n: nat, above: nat, seed: u64) -> Seq<i32> {
    Seq::new(n, |i: int| pool_value(i as nat, above, xorshift_nth(seed, (i + 1) as nat)))
}

/// The generated values: the pools in place, then shuffled by the same
/// generator, continuing where the values left off.
pub open spec fn spec_generate_values(n: nat, above: nat, seed: u64) -> Seq<i32> {
    shuffled(unshuffled_values(n, above, seed), xorshift_nth(seed, n))
}

/// Generate `n` values of which the first `above` (all of them, if `above` is
/// at least `n`) exceed [`THRESHOLD`], then shuffle them.
///
/// The values themselves are always drawn from the same two pools, so the
/// only thing that changes across a sweep is how often the branch is taken.
pub fn generate_values(n: usize, above: usize, seed: u64) -> (r: Vec<i32>)
    ensures
        r@ == spec_generate_values(n as nat, above as nat, seed),
{
    let mut rng = XorShift64::new(seed);
    let mut values: Vec<i32> = Vec::with_capacity(n);
    let mut i: usize = 0;
    while i < n
        invariant
            i <= n,
            rng.0 == xorshift_nth(seed, i as nat),
            values@ =~= unshuffled_values(n as nat, above as nat, seed).take(i as int),
        decreases n - i,
    {
        let r = rng.next();
        if i < above {
            values.push(1 + (r % 1000) as i32);
        } else {
            values.push(-1 - (r % 1000) as i32);
        }
        i += 1;
    }
    assert(values@ =~= unshuffled_values(n as nat, above as nat, seed));
    let mut i: usize = n;
    while i > 1
        invariant
            values@.len() == n,
            n == 0 ==> i == 0 && values@ == spec_generate_values(n as nat, above as nat, seed),
            n > 0 ==> 1 <= i <= n
                && fisher_yates(values@, rng.0, (i - 1) as nat) == spec_generate_values(n as nat, above as nat, seed),
        decreases i,
    {
        i -= 1;
        let j = rng.below(i + 1);
        swap_entries(&mut values, i, j);
    }
    values
}

proof fn lemma_unshuffled_count(n: nat, above: nat, seed: u64, k: nat)
    requires
        k <= n,
    ensures
        count_above(unshuffled_values(n, above, seed).take(k as int), THRESHOLD)
            == if k < above { k as int } else { above as int },
    decreases k,
{
    let s = unshuffled_values(n, above, seed);
    if k > 0 {
        lemma_unshuffled_count(n, above, seed, (k - 1) as nat);
        lemma_count_above_step(s, THRESHOLD, k - 1);
        let r = xorshift_nth(seed, k as nat);
        assert(0 <= r % 1000 < 1000);
    } else {
        assert(s.take(0) =~= Seq::<i32>::empty());
    }
}

/// The generator hits the requested proportion exactly: of `n` values,
/// exactly `min(above, n)` exceed the threshold.
pub proof fn lemma_generator_hits_the_proportion(n: nat, above: nat, seed: u64)
    ensures
        spec_generate_values(n, above, seed).len() == n,
        count_above(spec_generate_values(n, above, seed), THRESHOLD)
            == if above < n { above as int } else { n as int },
{
    let s = unshuffled_values(n, above, seed);
    lemma_shuffled_multiset(s, xorshift_nth(seed, n));
    lemma_unshuffled_count(n, above, seed, n);
    assert(s.take(n as int) =~= s);
    lemma_count_above_permutation(spec_generate_values(n, above, seed), s, THRESHOLD);
}

/// After exchanges whose first one moves the last index and whose later ones
/// stay below it, the last entry is the one the first exchange brought there.
proof fn lemma_last_after_swaps<T>(s: Seq<T>, swaps: Seq<(int, int)>)
    requires
        s.len() > 0,
        swaps.len() > 0 ==> swaps[0].0 == s.len() - 1 && 0 <= swaps[0].1 < s.len(),
        forall|k: int| 1 <= k < swaps.len() ==> 0 <= (#[trigger] swaps[k]).0 < s.len() - 1 && 0 <= swaps[k].1
            < s.len() - 1,
    ensures
        apply_swaps(s, swaps)[s.len() - 1] == if swaps.len() > 0 { s[swaps[0].1] } else { s[s.len() - 1] },
{
    if swaps.len() > 0 {
        let (i, j) = swaps[0];
        let first = s.update(i, s[j]).update(j, s[i]);
        assert forall|k: int| 0 <= k < swaps.drop_first().len() implies 0 <= (#[trigger] swaps.drop_first()[k]).0
            < s.len() - 1 && 0 <= swaps.drop_first()[k].1 < s.len() - 1 by {
            assert(swaps.drop_first()[k] == swaps[k + 1]);
        }
        crate::shuffle::lemma_apply_swaps_below(first, swaps.drop_first(), s.len() - 1);
        if j == i {
            assert(first[i] == s[i]);
        }
    }
}

/// The generated values are in random order: value `i` is first drawn from
/// the `i + 1`-th generator output (the first `above` from `1..=1000`, the
/// rest from `-1000..=-1`), and then, for `i = n - 1` down to `1`, the entry at
/// `i` is exchanged with the one at the `(n + n - i)`-th output reduced modulo
/// `i + 1`: Fisher–Yates, with the generator continuing after the values.
pub proof fn lemma_generated_values_are_shuffled(n: nat, above: nat, seed: u64)
    requires
        n > 0,
    ensures
        spec_generate_values(n, above, seed) == apply_swaps(
            Seq::new(
                n,
                |i: int|
                    if i < above {
                        (1 + (xorshift_nth(seed, (i + 1) as nat) % 1000) as int) as i32
                    } else {
                        (-1 - (xorshift_nth(seed, (i + 1) as nat) % 1000) as int) as i32
                    },
            ),
            Seq::new(
                (n - 1) as nat,
                |k: int| (n - 1 - k, (xorshift_nth(seed, (n + k + 1) as nat) as int) % (n - k)),
            ),
        ),
        ({
            let j = (xorshift_nth(seed, n + 1) as int) % (n as int);
            let r = xorshift_nth(seed, (j + 1) as nat);
            spec_generate_values(n, above, seed)[n - 1] == if j < above {
                (1 + (r % 1000) as int) as i32
            } else {
                (-1 - (r % 1000) as int) as i32
            }
        }),
{
    let top = (n - 1) as nat;
    let state = xorshift_nth(seed, n);
    lemma_fisher_yates_as_swaps(unshuffled_values(n, above, seed), state, top);
    let swaps = Seq::new(top, |k: int| (n - 1 - k, (xorshift_nth(seed, (n + k + 1) as nat) as int) % (n - k)));
    assert forall|k: int| 0 <= k < top implies #[trigger] fisher_yates_swaps(state, top)[k] == swaps[k] by {
        lemma_nth_add(seed, n, (k + 1) as nat);
    }
    assert(fisher_yates_swaps(state, top) =~= swaps);
    lemma_last_after_swaps(unshuffled_values(n, above, seed), swaps);
    lemma_nth_add(seed, n, 1);
    assert(unshuffled_values(n, above, seed) =~= Seq::new(
        n,
        |i: int|
            if i < above {
                (1 + (xorshift_nth(seed, (i + 1) as nat) % 1000) as int) as i32
            } else {
                (-1 - (xorshift_nth(seed, (i + 1) as nat) % 1000) as int) as i32
            },
    ));
}

/// The values are always drawn from the same two pools, `1..=1000` above the
/// threshold and `-1000..=-1` below it, whatever the proportion.
pub proof fn lemma_values_come_from_the_two_pools(n: nat, above: nat, seed: u64)
    ensures
        forall|k: int| 0 <= k < n ==> {
            let v = #[trigger] spec_generate_values(n, above, seed)[k];
            (1 <= v <= 1000) || (-1000 <= v <= -1)
        },
{
    let s = unshuffled_values(n, above, seed);
    let r = spec_generate_values(n, above, seed);
    lemma_shuffled_multiset(s, xorshift_nth(seed, n));
    assert forall|k: int| 0 <= k < n implies {
        let v = #[trigger] r[k];
        (1 <= v <= 1000) || (-1000 <= v <= -1)
    } by {
        assert(r.contains(r[k]));
        assert(r.to_multiset().count(r[k]) > 0);
        assert(s.contains(r[k]));
        let i = choose|i: int| 0 <= i < s.len() && s[i] == r[k];
        let x = xorshift_nth(seed, (i + 1) as nat);
        assert(0 <= x % 1000 < 1000);
    }
}

/// The same values, sorted: same multiset, same count, but now the branch
/// goes one way and then the other.
pub fn sorted(values: &[i32]) -> (r: Vec<i32>)
    ensures
        r@.len() == values@.len(),
        r@.to_multiset() == values@.to_multiset(),
        forall|i: int, j: int| 0 <= i <= j < r@.len() ==> r@[i] <= r@[j],
{
    let mut out: Vec<i32> = Vec::with_capacity(values.len());
    let mut i: usize = 0;
    while i < values.len()
        invariant
            i <= values@.len(),
            out@ =~= values@.take(i as int),
        decreases values@.len() - i,
    {
        out.push(values[i]);
        i += 1;
    }
    assert(out@ =~= values@);
    sort_unstable_i32(&mut out);
    out
}

// ---------------------------------------------------------------------------
// Part B: indirect branches
// ---------------------------------------------------------------------------

/// A tiny bytecode.
///
/// Every operation is total and reads and writes only the accumulator, so any
/// sequence of these is a valid program.
#[derive(Clone, Copy, Debug, PartialEq, Eq, Structural)]
pub enum Op {
    Inc,
    Dec,
    Double,
    Negate,
    Xor,
    RotateLeft,
    Square,
    Complement,
}

/// The eight opcodes, in order. The dispatch is an eight way indirect branch.
pub const OPS: [Op; 8] = [
    Op::Inc,
    Op::Dec,
    Op::Double,
    Op::Negate,
    Op::Xor,
    Op::RotateLeft,
    Op::Square,
    Op::Complement,
];

const XOR_CONST: i64 = 0x5DEECE66D;

/// Rotating the 64 bits of `x` left by one place: the top bit wraps round to
/// the bottom.
pub open spec fn rotate_left_one_spec(x: i64) -> i64 {
    (((x as u64) << 1u64) | ((x as u64) >> 63u64)) as i64
}

/// `x` rotated left by one bit, as `i64::rotate_left(1)` computes it.
fn rotate_left_one(x: i64) -> (r: i64)
    ensures
        r == rotate_left_one_spec(x),
{
    let u = x as u64;
    ((u << 1u64) | (u >> 63u64)) as i64
}

/// `-x`, wrapping only at `i64::MIN`, as `i64::wrapping_neg` computes it.
fn wrapping_neg_i64(x: i64) -> (r: i64)
    ensures
        r == (if x == i64::MIN { x } else { (-x) as i64 }),
{
    if x == i64::MIN {
        x
    } else {
        -x
    }
}

/// The position of an opcode in [`OPS`].
pub open spec fn op_index(op: Op) -> nat {
    match op {
        Op::Inc => 0,
        Op::Dec => 1,
        Op::Double => 2,
        Op::Negate => 3,
        Op::Xor => 4,
        Op::RotateLeft => 5,
        Op::Square => 6,
        Op::Complement => 7,
    }
}

/// The opcode at position `k` of [`OPS`].
pub open spec fn op_at(k: nat) -> Op {
    if k == 0 {
        Op::Inc
    } else if k == 1 {
        Op::Dec
    } else if k == 2 {
        Op::Double
    } else if k == 3 {
        Op::Negate
    } else if k == 4 {
        Op::Xor
    } else if k == 5 {
        Op::RotateLeft
    } else if k == 6 {
        Op::Square
    } else {
        Op::Complement
    }
}

impl Op {
    /// The position of this opcode in [`OPS`].
    pub fn index(self) -> (r: usize)
        ensures
            r == op_index(self),
    {
        match self {
            Op::Inc => 0,
            Op::Dec => 1,
            Op::Double => 2,
            Op::Negate => 3,
            Op::Xor => 4,
            Op::RotateLeft => 5,
            Op::Square => 6,
            Op::Complement => 7,
        }
    }
}

/// The effect of one instruction on the accumulator.
pub open spec fn apply_op(op: Op, acc: i64) -> i64 {
    match op {
        Op::Inc => vstd::wrapping::i64_specs::wrapping_add(acc, 1),
        Op::Dec => vstd::wrapping::i64_specs::wrapping_sub(acc, 1),
        Op::Double => vstd::wrapping::i64_specs::wrapping_mul(acc, 2),
        Op::Negate => if acc == i64::MIN { acc } else { (-acc) as i64 },
        Op::Xor => acc ^ 0x5DEECE66Di64,
        Op::RotateLeft => rotate_left_one_spec(acc),
        Op::Square => vstd::wrapping::i64_specs::wrapping_mul(acc, acc),
        Op::Complement => !acc,
    }
}

/// The accumulator after running `code` from 1.
pub open spec fn run_spec(code: Seq<Op>) -> i64 {
    code.fold_left(1i64, |acc: i64, op: Op| apply_op(op, acc))
}

/// Run a program with a `match` based dispatch loop.
pub fn run_match(code: &[Op]) -> (r: i64)
    ensures
        r == run_spec(code@),
{
    let mut acc: i64 = 1;
    let mut i: usize = 0;
    while i < code.len()
        invariant
            i <= code@.len(),
            acc == run_spec(code@.take(i as int)),
        decreases code@.len() - i,
    {
        assert(code@.take(i + 1).drop_last() =~= code@.take(i as int));
        let op = code[i];
        acc = match op {
            Op::Inc => acc.wrapping_add(1),
            Op::Dec => acc.wrapping_sub(1),
            Op::Double => acc.wrapping_mul(2),
            Op::Negate => wrapping_neg_i64(acc),
            Op::Xor => acc ^ XOR_CONST,
            Op::RotateLeft => rotate_left_one(acc),
            Op::Square => acc.wrapping_mul(acc),
            Op::Complement => !acc,
        };
        i += 1;
    }
    assert(code@.take(i as int) =~= code@);
    acc
}

/// Handler for `Op::Inc`.
pub fn op_inc(acc: i64) -> (r: i64)
    ensures
        r == vstd::wrapping::i64_specs::wrapping_add(acc, 1),
{
    acc.wrapping_add(1)
}

/// Handler for `Op::Dec`.
pub fn op_dec(acc: i64) -> (r: i64)
    ensures
        r == vstd::wrapping::i64_specs::wrapping_sub(acc, 1),
{
    acc.wrapping_sub(1)
}

/// Handler for `Op::Double`.
pub fn op_double(acc: i64) -> (r: i64)
    ensures
        r == vstd::wrapping::i64_specs::wrapping_mul(acc, 2),
{
    acc.wrapping_mul(2)
}

/// Handler for `Op::Negate`.
pub fn op_negate(acc: i64) -> (r: i64)
    ensures
        r == (if acc == i64::MIN { acc } else { (-acc) as i64 }),
{
    wrapping_neg_i64(acc)
}

/// Handler for `Op::Xor`.
pub fn op_xor(acc: i64) -> (r: i64)
    ensures
        r == acc ^ 0x5DEECE66Di64,
{
    acc ^ XOR_CONST
}

/// Handler for `Op::RotateLeft`.
pub fn op_rotate_left(acc: i64) -> (r: i64)
    ensures
        r == rotate_left_one_spec(acc),
{
    rotate_left_one(acc)
}

/// Handler for `Op::Square`.
pub fn op_square(acc: i64) -> (r: i64)
    ensures
        r == vstd::wrapping::i64_specs::wrapping_mul(acc, acc),
{
    acc.wrapping_mul(acc)
}

/// Handler for `Op::Complement`.
pub fn op_complement(acc: i64) -> (r: i64)
    ensures
        r == !acc,
{
    !acc
}

/// What the handler in slot `slot` of the dispatch table computes.
pub open spec fn handler_spec(slot: nat, acc: i64) -> i64 {
    if slot == 0 {
        vstd::wrapping::i64_specs::wrapping_add(acc, 1)
    } else if slot == 1 {
        vstd::wrapping::i64_specs::wrapping_sub(acc, 1)
    } else if slot == 2 {
        vstd::wrapping::i64_specs::wrapping_mul(acc, 2)
    } else if slot == 3 {
        if acc == i64::MIN { acc } else { (-acc) as i64 }
    } else if slot == 4 {
        acc ^ 0x5DEECE66Di64
    } else if slot == 5 {
        rotate_left_one_spec(acc)
    } else if slot == 6 {
        vstd::wrapping::i64_specs::wrapping_mul(acc, acc)
    } else {
        !acc
    }
}

/// The dispatch table: slot `k` holds the handler for the `k`-th opcode.
fn call_handler(slot: usize, acc: i64) -> (r: i64)
    requires
        slot < 8,
    ensures
        r == handler_spec(slot as nat, acc),
{
    match slot {
        0 => op_inc(acc),
        1 => op_dec(acc),
        2 => op_double(acc),
        3 => op_negate(acc),
        4 => op_xor(acc),
        5 => op_rotate_left(acc),
        6 => op_square(acc),
        _ => op_complement(acc),
    }
}

/// The accumulator after running `code` from 1 through the dispatch table.
pub open spec fn run_table_spec(code: Seq<Op>) -> i64 {
    code.fold_left(1i64, |acc: i64, op: Op| handler_spec(op_index(op), acc))
}

/// The same interpreter, dispatching to the handler in the slot given by the
/// opcode's position instead of a `match` on the opcode. The handlers are
/// public so that a caller can hold them in a table of function pointers.
pub fn run_fnptr(code: &[Op]) -> (r: i64)
    ensures
        r == run_table_spec(code@),
{
    let mut acc: i64 = 1;
    let mut i: usize = 0;
    while i < code.len()
        invariant
            i <= code@.len(),
            acc == run_table_spec(code@.take(i as int)),
        decreases code@.len() - i,
    {
        assert(code@.take(i + 1).drop_last() =~= code@.take(i as int));
        let op = code[i];
        acc = call_handler(op.index(), acc);
        i += 1;
    }
    assert(code@.take(i as int) =~= code@);
    acc
}

/// Both dispatch strategies agree on every program.
pub proof fn lemma_dispatch_variants_agree(code: Seq<Op>)
    ensures
        run_table_spec(code) == run_spec(code),
    decreases code.len(),
{
    if code.len() > 0 {
        lemma_dispatch_variants_agree(code.drop_last());
    }
}


/// `m` copies of one opcode.
pub open spec fn run_of(op: Op, m: nat) -> Seq<Op> {
    Seq::new(m, |_i: int| op)
}

/// The first `k` opcodes of [`OPS`], each repeated `m` times, in order.
pub open spec fn block_prefix(m: nat, k: nat) -> Seq<Op>
    decreases k,
{
    if k == 0 {
        Seq::empty()
    } else {
        block_prefix(m, (k - 1) as nat) + run_of(op_at((k - 1) as nat), m)
    }
}

/// One period before shuffling: each of the eight opcodes `period / 8` times.
pub open spec fn program_block(period: nat) -> Seq<Op> {
    block_prefix(period / 8, 8)
}

/// `q` copies of `s`, one after another.
pub open spec fn repeat(s: Seq<Op>, q: nat) -> Seq<Op>
    decreases q,
{
    if q == 0 {
        Seq::empty()
    } else {
        repeat(s, (q - 1) as nat) + s
    }
}

/// The program: the block shuffled once from `seed`, repeated to fill `len`.
pub open spec fn spec_generate_program(len: nat, period: nat, seed: u64) -> Seq<Op> {
    repeat(shuffled(program_block(period), seed), len / period)
}

/// The arguments `generate_program` accepts.
pub open spec fn valid_program_shape(len: nat, period: nat) -> bool {
    &&& period > 0
    &&& period % 8 == 0
    &&& len % period == 0
}

proof fn lemma_block_prefix_len(m: nat, k: nat)
    ensures
        block_prefix(m, k).len() == k * m,
    decreases k,
{
    if k > 0 {
        let k1 = (k - 1) as nat;
        lemma_block_prefix_len(m, k1);
        assert(block_prefix(m, k).len() == block_prefix(m, k1).len() + m);
        assert(k1 * m + m == k * m) by (nonlinear_arith)
            requires
                k1 + 1 == k,
        ;
    } else {
        assert(0 * m == 0) by (nonlinear_arith);
    }
}

proof fn lemma_repeat_len(s: Seq<Op>, q: nat)
    ensures
        repeat(s, q).len() == q * s.len(),
    decreases q,
{
    if q > 0 {
        let q1 = (q - 1) as nat;
        lemma_repeat_len(s, q1);
        assert(q1 * s.len() + s.len() == q * s.len()) by (nonlinear_arith)
            requires
                q1 + 1 == q,
        ;
    } else {
        assert(0 * s.len() == 0) by (nonlinear_arith);
    }
}

/// Build a program of `len` instructions whose opcode sequence repeats with
/// the given `period`.
///
/// Each period block contains each of the eight opcodes exactly `period / 8`
/// times, shuffled, so every program this returns executes exactly the same
/// number of each opcode no matter the period.
pub fn generate_program(len: usize, period: usize, seed: u64) -> (r: Vec<Op>)
    requires
        valid_program_shape(len as nat, period as nat),
    ensures
        r@ == spec_generate_program(len as nat, period as nat, seed),
{
    let mut rng = XorShift64::new(seed);
    let m = period / 8;
    let mut block: Vec<Op> = Vec::with_capacity(period);
    let mut k: usize = 0;
    while k < 8
        invariant
            k <= 8,
            m == period / 8,
            block@ =~= block_prefix(m as nat, k as nat),
        decreases 8 - k,
    {
        let op = OPS[k];
        assert(op == op_at(k as nat));
        let mut t: usize = 0;
        while t < m
            invariant
                t <= m,
                k < 8,
                op == op_at(k as nat),
                block@ =~= block_prefix(m as nat, k as nat) + run_of(op, t as nat),
            decreases m - t,
        {
            block.push(op);
            t += 1;
        }
        k += 1;
    }
    proof {
        lemma_block_prefix_len(m as nat, 8);
        assert(block@.len() == period);
    }
    let ghost start = block@;
    let mut i: usize = block.len();
    while i > 1
        invariant
            block@.len() == period,
            start == program_block(period as nat),
            1 <= i <= period,
            fisher_yates(block@, rng.0, (i - 1) as nat) == shuffled(start, seed),
        decreases i,
    {
        i -= 1;
        let j = rng.below(i + 1);
        swap_entries(&mut block, i, j);
    }
    let ghost sb = block@;
    assert(sb == shuffled(program_block(period as nat), seed));
    let mut code: Vec<Op> = Vec::with_capacity(len);
    let ghost mut c: nat = 0;
    while code.len() < len
        invariant
            block@ == sb,
            sb.len() == period,
            period > 0,
            code@ == repeat(sb, c),
            code@.len() == c * period,
            code@.len() <= len,
            (len - code@.len()) % (period as int) == 0,
        decreases len - code@.len(),
    {
        proof {
            let rest = len - code@.len();
            if rest < period {
                vstd::arithmetic::div_mod::lemma_small_mod(rest as nat, period as nat);
            }
            vstd::arithmetic::div_mod::lemma_mod_sub_multiples_vanish(rest, period as int);
        }
        code.extend_from_slice(block.as_slice());
        proof {
            assert(code@ =~= repeat(sb, c) + sb);
            c = c + 1;
            assert(c * period == (c - 1) * period + period) by (nonlinear_arith);
        }
    }
    proof {
        assert(code@.len() == len);
        vstd::arithmetic::div_mod::lemma_div_multiples_vanish(c as int, period as int);
        assert(c * period == period * c) by (nonlinear_arith);
    }
    code
}

/// A program with no repeating structure at all: the opcode mix is still
/// exactly uniform, but the order is shuffled across the whole length.
pub fn generate_random_program(len: usize, seed: u64) -> (r: Vec<Op>)
    requires
        len > 0,
        len % 8 == 0,
    ensures
        r@ == spec_generate_program(len as nat, len as nat, seed),
{
    proof {
        vstd::arithmetic::div_mod::lemma_mod_self_0(len as int);
    }
    generate_program(len, len, seed)
}


proof fn lemma_repeat_index(s: Seq<Op>, q: nat, i: int)
    requires
        s.len() > 0,
        0 <= i < q * s.len(),
    ensures
        repeat(s, q).len() == q * s.len(),
        repeat(s, q)[i] == s[i % (s.len() as int)],
    decreases q,
{
    let p = s.len() as int;
    lemma_repeat_len(s, q);
    let q1 = (q - 1) as nat;
    assert(q > 0) by (nonlinear_arith)
        requires
            0 <= i < q * p,
    ;
    lemma_repeat_len(s, q1);
    assert(q1 * p + p == q * p) by (nonlinear_arith)
        requires
            q1 + 1 == q,
    ;
    if i < q1 * p {
        lemma_repeat_index(s, q1, i);
    } else {
        let b = i - q1 * p;
        vstd::arithmetic::div_mod::lemma_mod_multiples_vanish(q1 as int, b, p);
        vstd::arithmetic::div_mod::lemma_small_mod(b as nat, p as nat);
        assert(p * q1 == q1 * p) by (nonlinear_arith);
    }
}

/// The program really repeats with its period, and has exactly `len`
/// instructions.
pub proof fn lemma_program_repeats_with_its_period(len: nat, period: nat, seed: u64)
    requires
        valid_program_shape(len, period),
    ensures
        spec_generate_program(len, period, seed).len() == len,
        forall|i: int| 0 <= i < len ==> #[trigger] spec_generate_program(len, period, seed)[i]
            == spec_generate_program(len, period, seed)[i % (period as int)],
{
    let m = period / 8;
    lemma_block_prefix_len(m, 8);
    vstd::arithmetic::div_mod::lemma_fundamental_div_mod(period as int, 8);
    let sb = shuffled(program_block(period), seed);
    lemma_shuffled_multiset(program_block(period), seed);
    assert(sb.len() == period);
    let q = len / period;
    vstd::arithmetic::div_mod::lemma_fundamental_div_mod(len as int, period as int);
    assert(q * period == len) by (nonlinear_arith)
        requires
            len == period * q + len % period,
            len % period == 0,
    ;
    lemma_repeat_len(sb, q);
    assert forall|i: int| 0 <= i < len implies #[trigger] spec_generate_program(len, period, seed)[i]
        == spec_generate_program(len, period, seed)[i % (period as int)] by {
        lemma_repeat_index(sb, q, i);
        let j = i % (period as int);
        vstd::arithmetic::div_mod::lemma_mod_bound(i, period as int);
        vstd::arithmetic::div_mod::lemma_small_mod(j as nat, period);
        assert(j < len) by (nonlinear_arith)
            requires
                j < period,
                period <= len || len == 0,
                0 <= i < len,
        ;
        if len > 0 {
            assert(q >= 1) by (nonlinear_arith)
                requires
                    q * period == len,
                    len > 0,
                    period > 0,
            ;
            assert(period <= len) by (nonlinear_arith)
                requires
                    q * period == len,
                    q >= 1,
                    period > 0,
            ;
        }
        lemma_repeat_index(sb, q, j);
    }
}

proof fn lemma_run_count(op: Op, m: nat, x: Op)
    ensures
        run_of(op, m).to_multiset().count(x) == if x == op { m } else { 0 },
    decreases m,
{
    broadcast use vstd::multiset::group_multiset_axioms;

    if m > 0 {
        lemma_run_count(op, (m - 1) as nat, x);
        assert(run_of(op, m) =~= run_of(op, (m - 1) as nat).push(op));
    } else {
        assert(run_of(op, 0) =~= Seq::<Op>::empty());
    }
}

proof fn lemma_block_prefix_count(m: nat, k: nat, x: Op)
    requires
        k <= 8,
    ensures
        block_prefix(m, k).to_multiset().count(x) == if op_index(x) < k { m } else { 0 },
    decreases k,
{
    broadcast use vstd::multiset::group_multiset_axioms;
    broadcast use vstd::seq_lib::lemma_multiset_commutative;

    if k > 0 {
        let k1 = (k - 1) as nat;
        lemma_block_prefix_count(m, k1, x);
        lemma_run_count(op_at(k1), m, x);
        assert((x == op_at(k1)) == (op_index(x) == k1));
    } else {
        assert(block_prefix(m, 0).to_multiset() =~= vstd::multiset::Multiset::<Op>::empty());
    }
}

proof fn lemma_repeat_count(s: Seq<Op>, q: nat, x: Op)
    ensures
        repeat(s, q).to_multiset().count(x) == q * s.to_multiset().count(x),
    decreases q,
{
    broadcast use vstd::multiset::group_multiset_axioms;
    broadcast use vstd::seq_lib::lemma_multiset_commutative;

    if q > 0 {
        let q1 = (q - 1) as nat;
        lemma_repeat_count(s, q1, x);
        let c = s.to_multiset().count(x);
        assert(q1 * c + c == q * c) by (nonlinear_arith)
            requires
                q1 + 1 == q,
        ;
    } else {
        assert(repeat(s, 0).to_multiset() =~= vstd::multiset::Multiset::<Op>::empty());
        assert(0 * s.to_multiset().count(x) == 0) by (nonlinear_arith);
    }
}

/// Every program runs the same opcode mix: whatever the period, each of the
/// eight opcodes occurs exactly `len / 8` times.
pub proof fn lemma_every_program_runs_the_same_opcode_mix(len: nat, period: nat, seed: u64, x: Op)
    requires
        valid_program_shape(len, period),
    ensures
        spec_generate_program(len, period, seed).to_multiset().count(x) == len / 8,
{
    let m = period / 8;
    let q = len / period;
    let sb = shuffled(program_block(period), seed);
    lemma_shuffled_multiset(program_block(period), seed);
    lemma_block_prefix_count(m, 8, x);
    lemma_repeat_count(sb, q, x);
    vstd::arithmetic::div_mod::lemma_fundamental_div_mod(period as int, 8);
    vstd::arithmetic::div_mod::lemma_fundamental_div_mod(len as int, period as int);
    assert(len == 8 * (q * m)) by (nonlinear_arith)
        requires
            period == 8 * m + period % 8,
            period % 8 == 0,
            len == period * q + len % period,
            len % period == 0,
    ;
    vstd::arithmetic::div_mod::lemma_div_multiples_vanish((q * m) as int, 8);
}


/// The eight opcodes in dispatch order.
spec fn opcode_order() -> Seq<Op> {
    seq![Op::Inc, Op::Dec, Op::Double, Op::Negate, Op::Xor, Op::RotateLeft, Op::Square, Op::Complement]
}

proof fn lemma_block_prefix_closed(m: nat, k: nat)
    requires
        m > 0,
        k <= 8,
    ensures
        block_prefix(m, k) =~= Seq::new(k * m, |x: int| opcode_order()[x / (m as int)]),
    decreases k,
{
    if k == 0 {
        assert(0 * m == 0) by (nonlinear_arith);
    } else {
        let k1 = (k - 1) as nat;
        lemma_block_prefix_closed(m, k1);
        lemma_block_prefix_len(m, k);
        lemma_block_prefix_len(m, k1);
        assert(k1 * m + m == k * m) by (nonlinear_arith)
            requires
                k1 + 1 == k,
        ;
        assert forall|x: int| 0 <= x < k * m implies #[trigger] block_prefix(m, k)[x] == opcode_order()[x
            / (m as int)] by {
            if x < k1 * m {
            } else {
                vstd::arithmetic::div_mod::lemma_fundamental_div_mod_converse(x, m as int, k1 as int, x - k1 * m);
                assert(block_prefix(m, k)[x] == op_at(k1));
            }
        }
    }
}

/// Each period of a program is the block of opcodes in dispatch order (each
/// `period / 8` times in a row) put through Fisher–Yates driven by the
/// generator from `seed`: for `i = period - 1` down to `1`, the
/// `(period - i)`-th output reduced modulo `i + 1` picks the index exchanged
/// with `i`. Instruction `i` of the program is entry `i % period` of that
/// shuffled block.
pub proof fn lemma_program_blocks_are_shuffled(len: nat, period: nat, seed: u64)
    requires
        valid_program_shape(len, period),
    ensures
        forall|i: int| 0 <= i < len ==> #[trigger] spec_generate_program(len, period, seed)[i] == apply_swaps(
            Seq::new(
                period,
                |x: int|
                    seq![Op::Inc, Op::Dec, Op::Double, Op::Negate, Op::Xor, Op::RotateLeft, Op::Square, Op::Complement][x
                        / (period / 8) as int],
            ),
            Seq::new(
                (period - 1) as nat,
                |k: int| (period - 1 - k, (xorshift_nth(seed, (k + 1) as nat) as int) % (period - k)),
            ),
        )[i % (period as int)],
        len > 0 ==> spec_generate_program(len, period, seed)[period - 1] == seq![Op::Inc, Op::Dec, Op::Double, Op::Negate, Op::Xor, Op::RotateLeft, Op::Square, Op::Complement][((xorshift_nth(
            seed,
            1,
        ) as int) % (period as int)) / (period / 8) as int],
{
    let m = period / 8;
    vstd::arithmetic::div_mod::lemma_fundamental_div_mod(period as int, 8);
    assert(m > 0);
    lemma_block_prefix_closed(m, 8);
    assert(8 * m == period);
    let block = Seq::new(period, |x: int| seq![Op::Inc, Op::Dec, Op::Double, Op::Negate, Op::Xor, Op::RotateLeft, Op::Square, Op::Complement][x / (period / 8) as int]);
    assert(opcode_order() =~= seq![Op::Inc, Op::Dec, Op::Double, Op::Negate, Op::Xor, Op::RotateLeft, Op::Square, Op::Complement]);
    assert(program_block(period) =~= block);
    let top = (period - 1) as nat;
    let swaps = Seq::new(top, |k: int| (period - 1 - k, (xorshift_nth(seed, (k + 1) as nat) as int) % (period - k)));
    lemma_fisher_yates_as_swaps(block, seed, top);
    assert(fisher_yates_swaps(seed, top) =~= swaps);
    let sb = shuffled(program_block(period), seed);
    lemma_shuffled_multiset(program_block(period), seed);
    let q = len / period;
    vstd::arithmetic::div_mod::lemma_fundamental_div_mod(len as int, period as int);
    assert(q * period == len) by (nonlinear_arith)
        requires
            len == period * q + len % period,
            len % period == 0,
    ;
    assert forall|i: int| 0 <= i < len implies #[trigger] spec_generate_program(len, period, seed)[i]
        == apply_swaps(block, swaps)[i % (period as int)] by {
        lemma_repeat_index(sb, q, i);
    }    if len > 0 {
        lemma_last_after_swaps(block, swaps);
        assert(xorshift_nth(seed, 0) == seed);
        assert(q >= 1) by (nonlinear_arith)
            requires
                q * period == len,
                len > 0,
                period > 0,
        ;
        assert(period <= len) by (nonlinear_arith)
            requires
                q * period == len,
                q >= 1,
        ;
        lemma_repeat_index(sb, q, period - 1);
        vstd::arithmetic::div_mod::lemma_small_mod((period - 1) as nat, period);
        vstd::arithmetic::div_mod::lemma_mod_bound(xorshift_nth(seed, 1) as int, period as int);
    }
}


proof fn lemma_rotate_bits(u: u64, k: u64)
    by (bit_vector)
    requires
        k < 63,
    ensures
        ((((u << 1u64) | (u >> 63u64)) as i64) as u64 >> (k + 1)) & 1u64 == (u >> k) & 1u64,
        (((u << 1u64) | (u >> 63u64)) as i64) as u64 & 1u64 == u >> 63u64,
{
}

/// `RotateLeft` rotates the accumulator's 64 bits left by one place: bit
/// `k + 1` of the result is bit `k` of the accumulator, and bit 0 of the
/// result is its top bit. The dispatch table's handler does the same.
pub proof fn lemma_rotate_left_is_a_rotation(acc: i64)
    ensures
        forall|k: u64| k < 63 ==> ((apply_op(Op::RotateLeft, acc) as u64) >> (k + 1)) & 1u64
            == (#[trigger] ((acc as u64) >> k)) & 1u64,
        (apply_op(Op::RotateLeft, acc) as u64) & 1u64 == (acc as u64) >> 63u64,
        handler_spec(op_index(Op::RotateLeft), acc) == apply_op(Op::RotateLeft, acc),
{
    let u = acc as u64;
    assert forall|k: u64| k < 63 implies ((apply_op(Op::RotateLeft, acc) as u64) >> (k + 1)) & 1u64
        == (#[trigger] ((acc as u64) >> k)) & 1u64 by {
        lemma_rotate_bits(u, k);
    }
    lemma_rotate_bits(u, 0);
}

/// Running a program one instruction longer applies that instruction to the
/// accumulator the shorter program leaves, under either dispatch.
pub proof fn lemma_run_is_stepwise(code: Seq<Op>, op: Op)
    ensures
        run_spec(code.push(op)) == apply_op(op, run_spec(code)),
        run_table_spec(code.push(op)) == handler_spec(op_index(op), run_table_spec(code)),
        run_spec(Seq::<Op>::empty()) == 1,
        run_table_spec(Seq::<Op>::empty()) == 1,
{
    assert(code.push(op).drop_last() =~= code);
}

} // verus!
