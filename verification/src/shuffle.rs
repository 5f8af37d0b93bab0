//! Fisher–Yates shuffling driven by xorshift64, and the facts that it only
//! rearranges its input.
use vstd::prelude::*;
use crate::prng::{xorshift_step, xorshift_nth, lemma_nth_of_step};

verus! {

broadcast use vstd::seq_lib::group_to_multiset_ensures;

/// `s` with the entries at `i` and `j` exchanged.
pub open spec fn swap<T>(s: Seq<T>, i: int, j: int) -> Seq<T> {
    s.update(i, s[j]).update(j, s[i])
}

/// Fisher–Yates over the indices `i, i - 1, ..., 1`: each step advances the
/// generator and exchanges index `k` with `state % (k + 1)`.
pub open spec fn fisher_yates<T>(s: Seq<T>, state: u64, i: nat) -> Seq<T>
    decreases i,
{
    if i == 0 {
        s
    } else {
        let st = xorshift_step(state);
        fisher_yates(swap(s, i as int, (st as int) % (i as int + 1)), st, (i - 1) as nat)
    }
}

/// The whole sequence shuffled, starting from generator state `seed`.
pub open spec fn shuffled<T>(s: Seq<T>, seed: u64) -> Seq<T> {
    if s.len() == 0 {
        s
    } else {
        fisher_yates(s, seed, (s.len() - 1) as nat)
    }
}

pub proof fn lemma_swap_multiset<T>(s: Seq<T>, i: int, j: int)
    requires
        0 <= i < s.len(),
        0 <= j < s.len(),
    ensures
        swap(s, i, j).len() == s.len(),
        swap(s, i, j).to_multiset() =~= s.to_multiset(),
{
    broadcast use vstd::multiset::group_multiset_axioms;
    broadcast use vstd::seq_lib::to_multiset_update;

    let s1 = s.update(i, s[j]);
    assert(s1.to_multiset() == s.to_multiset().insert(s[j]).remove(s[i]));
    assert(s1.update(j, s[i]).to_multiset() == s1.to_multiset().insert(s[i]).remove(s1[j]));
    if i == j {
        assert(s1 =~= s);
        assert(swap(s, i, j) =~= s);
    } else {
        assert(s1[j] == s[j]);
    }
}

pub proof fn lemma_fisher_yates_multiset<T>(s: Seq<T>, state: u64, i: nat)
    requires
        i < s.len(),
    ensures
        fisher_yates(s, state, i).len() == s.len(),
        fisher_yates(s, state, i).to_multiset() =~= s.to_multiset(),
    decreases i,
{
    if i > 0 {
        let st = xorshift_step(state);
        let j = (st as int) % (i as int + 1);
        lemma_swap_multiset(s, i as int, j);
        lemma_fisher_yates_multiset(swap(s, i as int, j), st, (i - 1) as nat);
    }
}

/// Shuffling keeps the length and the multiset of entries.
pub proof fn lemma_shuffled_multiset<T>(s: Seq<T>, seed: u64)
    ensures
        shuffled(s, seed).len() == s.len(),
        shuffled(s, seed).to_multiset() =~= s.to_multiset(),
{
    if s.len() > 0 {
        lemma_fisher_yates_multiset(s, seed, (s.len() - 1) as nat);
    }
}

/// Exchange two entries of a vector.
pub fn swap_entries<T: Copy>(v: &mut Vec<T>, i: usize, j: usize)
    requires
        i < old(v).len(),
        j < old(v).len(),
    ensures
        final(v)@ == swap(old(v)@, i as int, j as int),
{
    let a = v[i];
    let b = v[j];
    v.set(i, b);
    v.set(j, a);
}


/// `s` with the exchanges listed in `swaps` made one after another, first to
/// last: each pair `(i, j)` exchanges the entries at `i` and `j`.
pub open spec fn apply_swaps<T>(s: Seq<T>, swaps: Seq<(int, int)>) -> Seq<T>
    decreases swaps.len(),
{
    if swaps.len() == 0 {
        s
    } else {
        let (i, j) = swaps[0];
        apply_swaps(s.update(i, s[j]).update(j, s[i]), swaps.drop_first())
    }
}

/// The exchanges Fisher–Yates makes from generator state `state` over the
/// indices `top, top - 1, ..., 1`: the `k`-th exchange (from 0) moves index
/// `top - k` and takes its partner from the `k + 1`-th generator output,
/// reduced modulo `top - k + 1`.
pub open spec fn fisher_yates_swaps(state: u64, top: nat) -> Seq<(int, int)> {
    Seq::new(top, |k: int| (top - k, (xorshift_nth(state, (k + 1) as nat) as int) % (top - k + 1)))
}

pub proof fn lemma_fisher_yates_as_swaps<T>(s: Seq<T>, state: u64, i: nat)
    ensures
        fisher_yates(s, state, i) == apply_swaps(s, fisher_yates_swaps(state, i)),
    decreases i,
{
    if i > 0 {
        let st = xorshift_step(state);
        let j = (st as int) % (i as int + 1);
        lemma_fisher_yates_as_swaps(swap(s, i as int, j), st, (i - 1) as nat);
        let sw = fisher_yates_swaps(state, i);
        let rest = fisher_yates_swaps(st, (i - 1) as nat);
        assert forall|k: int| 0 <= k < rest.len() implies #[trigger] sw.drop_first()[k] == rest[k] by {
            lemma_nth_of_step(state, (k + 1) as nat);
        }
        assert(sw.drop_first() =~= rest);
        assert(xorshift_nth(state, 0) == state);
        assert(xorshift_nth(state, 1) == st);
        assert(sw[0] == (i as int, j));
    }
}

/// Exchanges at indices below `m` leave every entry from `m` on as it was.
pub proof fn lemma_apply_swaps_below<T>(s: Seq<T>, swaps: Seq<(int, int)>, m: int)
    requires
        forall|k: int| 0 <= k < swaps.len() ==> 0 <= (#[trigger] swaps[k]).0 < m && 0 <= swaps[k].1 < m,
        m <= s.len(),
    ensures
        apply_swaps(s, swaps).len() == s.len(),
        forall|x: int| m <= x < s.len() ==> #[trigger] apply_swaps(s, swaps)[x] == s[x],
    decreases swaps.len(),
{
    if swaps.len() > 0 {
        let (i, j) = swaps[0];
        let t = s.update(i, s[j]).update(j, s[i]);
        assert forall|k: int| 0 <= k < swaps.drop_first().len() implies 0 <= (#[trigger] swaps.drop_first()[k]).0 < m
            && 0 <= swaps.drop_first()[k].1 < m by {
            assert(swaps.drop_first()[k] == swaps[k + 1]);
        }
        lemma_apply_swaps_below(t, swaps.drop_first(), m);
    }
}

} // verus!
