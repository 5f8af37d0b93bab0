//! The xorshift64 generator shared by every workload, as a mathematical
//! function on its 64-bit state.
use vstd::prelude::*;

verus! {

/// One xorshift64 step: the shifts 13, 7 and 17, in that order.
pub open spec fn xorshift_step(x: u64) -> u64 {
    let a = x ^ (x << 13u64);
    let b = a ^ (a >> 7u64);
    b ^ (b << 17u64)
}

/// The state after `k` steps from `seed`.
pub open spec fn xorshift_nth(seed: u64, k: nat) -> u64
    decreases k,
{
    if k == 0 {
        seed
    } else {
        xorshift_step(xorshift_nth(seed, (k - 1) as nat))
    }
}

/// The executable step.
pub fn xorshift_advance(x: u64) -> (r: u64)
    ensures
        r == xorshift_step(x),
{
    let mut y = x;
    y = y ^ (y << 13u64);
    y = y ^ (y >> 7u64);
    y = y ^ (y << 17u64);
    y
}

/// Every step of xorshift64 is invertible and fixes zero, so a non-zero state
/// never becomes zero: the generator cannot get stuck.
pub proof fn lemma_step_keeps_nonzero(x: u64)
    requires
        x != 0,
    ensures
        xorshift_step(x) != 0,
{
    assert(x != 0 ==> ((x ^ (x << 13u64)) ^ ((x ^ (x << 13u64)) >> 7u64)) ^ (((x ^ (x << 13u64))
        ^ ((x ^ (x << 13u64)) >> 7u64)) << 17u64) != 0) by (bit_vector);
}

/// A non-zero seed keeps the state non-zero for every number of steps.
pub proof fn lemma_nth_keeps_nonzero(seed: u64, k: nat)
    requires
        seed != 0,
    ensures
        xorshift_nth(seed, k) != 0,
    decreases k,
{
    if k > 0 {
        lemma_nth_keeps_nonzero(seed, (k - 1) as nat);
        lemma_step_keeps_nonzero(xorshift_nth(seed, (k - 1) as nat));
    }
}


/// Starting one step later is the same as taking one more step.
pub proof fn lemma_nth_of_step(state: u64, k: nat)
    ensures
        xorshift_nth(xorshift_step(state), k) == xorshift_nth(state, k + 1),
    decreases k,
{
    assert(xorshift_nth(state, 0) == state);
    if k > 0 {
        lemma_nth_of_step(state, (k - 1) as nat);
        assert(xorshift_nth(state, k + 1) == xorshift_step(xorshift_nth(state, k)));
    } else {
        assert(xorshift_nth(state, 1) == xorshift_step(xorshift_nth(state, 0)));
    }
}


/// Taking `a` steps and then `b` more is taking `a + b` steps.
pub proof fn lemma_nth_add(seed: u64, a: nat, b: nat)
    ensures
        xorshift_nth(xorshift_nth(seed, a), b) == xorshift_nth(seed, a + b),
    decreases b,
{
    if b > 0 {
        lemma_nth_add(seed, a, (b - 1) as nat);
    }
}

} // verus!
