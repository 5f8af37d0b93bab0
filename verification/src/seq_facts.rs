//! Sums, permutations of `0..n`, and arithmetic modulo 2^64.
use vstd::prelude::*;

verus! {

broadcast use vstd::seq_lib::group_to_multiset_ensures;

/// 2^64, the modulus of `u64` wrapping arithmetic.
pub open spec fn modulus64() -> int {
    0x1_0000_0000_0000_0000
}

/// An integer reduced modulo 2^64.
pub open spec fn wrap64(x: int) -> u64 {
    (x % modulus64()) as u64
}

/// Exact (unbounded) sum of a sequence of `u64`.
pub open spec fn sum_u64(s: Seq<u64>) -> int
    decreases s.len(),
{
    if s.len() == 0 {
        0
    } else {
        sum_u64(s.drop_last()) + s.last()
    }
}

/// The indices `0, 1, ..., n - 1`.
pub open spec fn iota(n: nat) -> Seq<usize> {
    Seq::new(n, |i: int| i as usize)
}

/// The node reached from `start` after `k` steps along `next`.
pub open spec fn follow(next: Seq<usize>, start: usize, k: nat) -> usize
    decreases k,
{
    if k == 0 {
        start
    } else {
        next[follow(next, start, (k - 1) as nat) as int]
    }
}

/// The first `m` nodes of the chase from `start`.
pub open spec fn chase_path(next: Seq<usize>, start: usize, m: nat) -> Seq<usize> {
    Seq::new(m, |k: int| follow(next, start, k as nat))
}

/// `p` lists each of `0..n` exactly once.
pub open spec fn is_permutation(p: Seq<usize>, n: nat) -> bool {
    p.to_multiset() == iota(n).to_multiset()
}

/// The entries of `data` at the positions `idx`, in that order.
pub open spec fn pick(data: Seq<u64>, idx: Seq<usize>) -> Seq<u64> {
    idx.map_values(|i: usize| data[i as int])
}

pub proof fn lemma_wrapping_add(acc: u64, total: int, x: u64)
    requires
        acc == wrap64(total),
    ensures
        vstd::wrapping::u64_specs::wrapping_add(acc, x) == wrap64(total + x),
{
    let m = modulus64();
    vstd::arithmetic::div_mod::lemma_add_mod_noop(total, x as int, m);
    vstd::arithmetic::div_mod::lemma_mod_bound(total, m);
    vstd::arithmetic::div_mod::lemma_mod_bound(total + x, m);
    assert(acc as int == total % m);
    assert((x as int) % m == x as int) by {
        vstd::arithmetic::div_mod::lemma_small_mod(x as nat, m as nat);
    }
    if acc as int + x as int > u64::MAX as int {
        let b = acc as int + x as int - m;
        vstd::arithmetic::div_mod::lemma_mod_add_multiples_vanish(b, m);
        vstd::arithmetic::div_mod::lemma_small_mod(b as nat, m as nat);
    } else {
        vstd::arithmetic::div_mod::lemma_small_mod((acc as int + x as int) as nat, m as nat);
    }
}

/// A permutation of `0..n` has length `n`, stays in range, repeats nothing and
/// reaches every index.
pub proof fn lemma_permutation_facts(p: Seq<usize>, n: nat)
    requires
        is_permutation(p, n),
        n <= usize::MAX + 1,
    ensures
        p.len() == n,
        forall|k: int| 0 <= k < n ==> (#[trigger] p[k] as int) < n,
        p.no_duplicates(),
        forall|v: usize| (v as int) < n ==> p.contains(v),
{
    broadcast use vstd::multiset::group_multiset_axioms;

    let id = iota(n);
    assert(p.len() == p.to_multiset().len());
    assert(id.len() == id.to_multiset().len());
    assert(id.no_duplicates());
    id.lemma_multiset_has_no_duplicates();
    p.lemma_multiset_has_no_duplicates_conv();
    assert forall|k: int| 0 <= k < n implies (#[trigger] p[k] as int) < n by {
        assert(p.contains(p[k]));
        assert(p.to_multiset().count(p[k]) > 0);
        assert(id.contains(p[k]));
    }
    assert forall|v: usize| (v as int) < n implies p.contains(v) by {
        assert(id[v as int] == v);
        assert(id.contains(v));
        assert(id.to_multiset().count(v) > 0);
    }
}

proof fn lemma_pick_fold(data: Seq<u64>, s: Seq<usize>)
    ensures
        sum_u64(pick(data, s)) == s.fold_left(0int, |acc: int, i: usize| acc + data[i as int]),
    decreases s.len(),
{
    if s.len() > 0 {
        lemma_pick_fold(data, s.drop_last());
        assert(pick(data, s).drop_last() =~= pick(data, s.drop_last()));
    }
}

/// Summing `data` in the order given by a permutation of its indices gives the
/// plain sum.
pub proof fn lemma_pick_permutation_sum(data: Seq<u64>, idx: Seq<usize>)
    requires
        is_permutation(idx, data.len()),
        data.len() <= usize::MAX + 1,
    ensures
        sum_u64(pick(data, idx)) == sum_u64(data),
{
    let n = data.len();
    let g = |acc: int, i: usize| acc + data[i as int];
    assert(vstd::seq_lib::commutative_foldl(g)) by {
        assert forall|x: usize, y: usize, v: int| #[trigger] g(g(v, x), y) == g(g(v, y), x) by {}
    }
    vstd::seq_lib::lemma_fold_left_permutation(idx, iota(n), g, 0int);
    lemma_pick_fold(data, idx);
    lemma_pick_fold(data, iota(n));
    assert(pick(data, iota(n)) =~= data);
}


/// A sign-extending cast of an `i32` to `u64` is the value modulo 2^64.
pub proof fn lemma_i32_as_u64(t: i32)
    ensures
        (t as u64) as int == (t as int) % modulus64(),
{
    if t >= 0 {
        assert(t >= 0 ==> (t as u64) as int == t as int) by (bit_vector);
        vstd::arithmetic::div_mod::lemma_small_mod(t as nat, modulus64() as nat);
    } else {
        assert(t < 0 ==> (t as u64) as int == t as int + 0x1_0000_0000_0000_0000) by (bit_vector);
        vstd::arithmetic::div_mod::lemma_mod_add_multiples_vanish(t as int, modulus64());
        vstd::arithmetic::div_mod::lemma_small_mod((t as int + modulus64()) as nat, modulus64() as nat);
    }
}


/// Adding an `i32` sign-extended to `u64` with wrapping adds it modulo 2^64.
pub proof fn lemma_wrapping_add_i32(acc: u64, total: int, t: i32)
    requires
        acc == wrap64(total),
    ensures
        vstd::wrapping::u64_specs::wrapping_add(acc, t as u64) == wrap64(total + t),
{
    lemma_wrapping_add(acc, total, t as u64);
    lemma_i32_as_u64(t);
    vstd::arithmetic::div_mod::lemma_add_mod_noop_right(total, t as int, modulus64());
}

/// Exact (unbounded) sum of a sequence of `i32`.
pub open spec fn sum_i32(s: Seq<i32>) -> int
    decreases s.len(),
{
    if s.len() == 0 {
        0
    } else {
        sum_i32(s.drop_last()) + s.last()
    }
}

} // verus!
