//! Pointer chasing: the same values summed contiguously, through one heap
//! node each, and by following a chain of successors.
//!
//! Successors are held as indices into the node table rather than as raw
//! pointers; each node still lives in an allocation of its own.
use vstd::prelude::*;
use crate::prng::{xorshift_step, xorshift_nth, xorshift_advance};
use crate::seq_facts::{follow, chase_path, iota, is_permutation, lemma_permutation_facts, pick, sum_u64, wrap64,
    lemma_wrapping_add, lemma_pick_permutation_sum};
use crate::shuffle::{shuffled, fisher_yates, swap_entries, lemma_shuffled_multiset, apply_swaps,
    fisher_yates_swaps, lemma_fisher_yates_as_swaps, lemma_apply_swaps_below};
use crate::std_calls::black_box;

verus! {

/// A tiny deterministic PRNG (xorshift64).
pub struct XorShift64(pub u64);

impl XorShift64 {
    pub fn new(seed: u64) -> (r: Self)
        ensures
            r.0 == seed,
    {
        XorShift64(seed)
    }

    pub fn next(&mut self) -> (r: u64)
        ensures
            final(self).0 == xorshift_step(old(self).0),
            r == final(self).0,
    {
        let x = xorshift_advance(self.0);
        self.0 = x;
        x
    }
}

/// The visit order for `n` elements: `0..n` shuffled by Fisher–Yates from
/// `seed`.
pub open spec fn spec_visit_order(n: nat, seed: u64) -> Seq<usize> {
    shuffled(iota(n), seed)
}

/// A visit order is a permutation of `0..n`.
pub proof fn lemma_visit_order_is_permutation(n: nat, seed: u64)
    requires
        n <= usize::MAX,
    ensures
        is_permutation(spec_visit_order(n, seed), n),
{
    lemma_shuffled_multiset(iota(n), seed);
}

/// The visit order is `0..n` put through Fisher–Yates driven by the generator
/// from `seed`: for `i = n - 1` down to `1`, the `(n - i)`-th output reduced
/// modulo `i + 1` picks the index exchanged with `i`. In particular the last
/// index visited is the first output modulo `n`.
pub proof fn lemma_visit_order_is_fisher_yates(n: nat, seed: u64)
    requires
        0 < n <= usize::MAX,
    ensures
        spec_visit_order(n, seed) == apply_swaps(
            Seq::new(n, |i: int| i as usize),
            Seq::new(
                (n - 1) as nat,
                |k: int| (n - 1 - k, (xorshift_nth(seed, (k + 1) as nat) as int) % (n - k)),
            ),
        ),
        spec_visit_order(n, seed)[n - 1] as int == (xorshift_nth(seed, 1) as int) % (n as int),
{
    let top = (n - 1) as nat;
    let swaps = Seq::new(top, |k: int| (n - 1 - k, (xorshift_nth(seed, (k + 1) as nat) as int) % (n - k)));
    lemma_fisher_yates_as_swaps(iota(n), seed, top);
    assert(fisher_yates_swaps(seed, top) =~= swaps);
    assert(iota(n) =~= Seq::new(n, |i: int| i as usize));
    if n > 1 {
        let j0 = (xorshift_nth(seed, 1) as int) % (n as int);
        let first = iota(n).update(n - 1, iota(n)[j0]).update(j0, iota(n)[n - 1]);
        assert forall|k: int| 0 <= k < swaps.drop_first().len() implies 0 <= (#[trigger] swaps.drop_first()[k]).0
            < n - 1 && 0 <= swaps.drop_first()[k].1 < n - 1 by {
            assert(swaps.drop_first()[k] == swaps[k + 1]);
        }
        lemma_apply_swaps_below(first, swaps.drop_first(), n - 1);
        if j0 == n - 1 {
            assert(first[n - 1] == iota(n)[n - 1]);
        }
    } else {
        assert(swaps =~= Seq::<(int, int)>::empty());
        vstd::arithmetic::div_mod::lemma_mod_self_0(1);
        vstd::arithmetic::div_mod::lemma_mod_bound(xorshift_nth(seed, 1) as int, 1);
    }
}

/// A permutation of `0..n`, Fisher–Yates.
pub fn visit_order(n: usize, seed: u64) -> (r: Vec<usize>)
    ensures
        r@ == spec_visit_order(n as nat, seed),
        is_permutation(r@, n as nat),
{
    let mut rng = XorShift64::new(seed);
    let mut order: Vec<usize> = Vec::with_capacity(n);
    let mut k: usize = 0;
    while k < n
        invariant
            k <= n,
            order@ == iota(k as nat),
        decreases n - k,
    {
        order.push(k);
        k += 1;
        assert(order@ =~= iota(k as nat));
    }
    proof {
        lemma_visit_order_is_permutation(n as nat, seed);
    }
    let mut i: usize = n;
    while i > 1
        invariant
            n == 0 ==> i == 0 && order@ == iota(0),
            n > 0 ==> 1 <= i <= n && order@.len() == n
                && fisher_yates(order@, rng.0, (i - 1) as nat) == spec_visit_order(n as nat, seed),
        decreases i,
    {
        i -= 1;
        let j = (rng.next() % (i as u64 + 1)) as usize;
        swap_entries(&mut order, i, j);
    }
    order
}

/// One heap node: a payload and the index of whatever comes next.
pub struct Node {
    pub value: u64,
    pub next: usize,
}

/// The heap-object variants share one set of nodes, built once.
///
/// `nodes` owns them, one allocation per node. `order` is the sequence of
/// node indices to visit, and each node's `next` names the same successor, so
/// a chase and a walk of `order` visit identical nodes in identical order.
pub struct Nodes {
    pub nodes: Vec<Box<Node>>,
    pub order: Vec<usize>,
    pub head: usize,
}

/// The payload of every node, in allocation order.
pub open spec fn node_values(nodes: Seq<Box<Node>>) -> Seq<u64> {
    nodes.map_values(|b: Box<Node>| b.value)
}

/// The successor of every node, in allocation order.
pub open spec fn node_successors(nodes: Seq<Box<Node>>) -> Seq<usize> {
    nodes.map_values(|b: Box<Node>| b.next)
}

/// The payload the generator gives node `i`.
pub open spec fn node_value_at(seed: u64, i: nat) -> u64 {
    xorshift_nth(seed ^ 0x9e37_79b9u64, i + 1) >> 16u64
}

/// Every node's successor is the next entry of `order`, the last wrapping to
/// the first, and the chase starts at the first.
pub open spec fn linked_by(order: Seq<usize>, next: Seq<usize>, head: usize) -> bool {
    let n = order.len();
    &&& n > 0
    &&& head == order[0]
    &&& forall|k: int| 0 <= k < n ==> #[trigger] next[order[k] as int] == order[(k + 1) % (n as int)]
}

impl Nodes {
    /// The values of the nodes, in allocation order.
    pub open spec fn values(&self) -> Seq<u64> {
        node_values(self.nodes@)
    }

    /// The successor index held by each node, in allocation order.
    pub open spec fn successors(&self) -> Seq<usize> {
        node_successors(self.nodes@)
    }

    /// `order` is a permutation of the nodes and the successors link it into
    /// one ring starting at `head`.
    pub open spec fn wf(&self) -> bool {
        &&& self.nodes@.len() <= usize::MAX
        &&& is_permutation(self.order@, self.nodes@.len())
        &&& linked_by(self.order@, self.successors(), self.head)
    }

    pub fn new(n: usize, seed: u64) -> (r: Self)
        requires
            n > 0,
        ensures
            r.nodes@.len() == n,
            forall|i: int| 0 <= i < n ==> #[trigger] r.values()[i] == node_value_at(seed, i as nat),
            r.order@ == spec_visit_order(n as nat, seed),
            r.wf(),
    {
        let mut rng = XorShift64::new(seed ^ 0x9e37_79b9);
        let mut nodes: Vec<Box<Node>> = Vec::with_capacity(n);
        let mut i: usize = 0;
        while i < n
            invariant
                i <= n,
                nodes@.len() == i,
                rng.0 == xorshift_nth(seed ^ 0x9e37_79b9u64, i as nat),
                forall|k: int| 0 <= k < i ==> #[trigger] nodes@[k].value == node_value_at(seed, k as nat),
            decreases n - i,
        {
            let v = rng.next() >> 16;
            nodes.push(Box::new(Node { value: v, next: 0 }));
            i += 1;
        }
        let perm = visit_order(n, seed);
        proof {
            lemma_permutation_facts(perm@, n as nat);
        }
        let mut k: usize = 0;
        while k < n
            invariant
                k <= n,
                perm@.len() == n,
                perm@.no_duplicates(),
                forall|q: int| 0 <= q < n ==> (#[trigger] perm@[q] as int) < n,
                nodes@.len() == n,
                forall|q: int| 0 <= q < n ==> #[trigger] nodes@[q].value == node_value_at(seed, q as nat),
                forall|q: int| 0 <= q < k ==> #[trigger] nodes@[perm@[q] as int].next
                    == perm@[(q + 1) % (n as int)],
            decreases n - k,
        {
            let succ = perm[(k + 1) % n];
            let p = perm[k];
            let ghost before = nodes@;
            nodes[p].next = succ;
            assert(nodes@[p as int].next == succ);
            assert(forall|q: int| 0 <= q < n && q != p ==> nodes@[q] == before[q]);
            assert(nodes@[p as int].value == before[p as int].value);
            assert forall|q: int| 0 <= q < k + 1 implies #[trigger] nodes@[perm@[q] as int].next
                == perm@[(q + 1) % (n as int)] by {
                if q < k {
                    assert(perm@[q] != perm@[k as int]);
                }
            }
            k += 1;
        }
        let head = perm[0];
        let order = perm;
        Nodes { nodes, order, head }
    }

    pub fn len(&self) -> (r: usize)
        ensures
            r == self.nodes@.len(),
    {
        self.nodes.len()
    }

    pub fn is_empty(&self) -> (r: bool)
        ensures
            r == (self.nodes@.len() == 0),
    {
        self.nodes.len() == 0
    }

    /// The total every heap variant must agree on: the values summed modulo 2^64.
    pub fn expected(&self) -> (r: u64)
        ensures
            r == wrap64(sum_u64(self.values())),
    {
        let mut total: u64 = 0;
        let mut i: usize = 0;
        while i < self.nodes.len()
            invariant
                i <= self.nodes@.len(),
                total == wrap64(sum_u64(self.values().take(i as int))),
            decreases self.nodes@.len() - i,
        {
            proof {
                lemma_wrapping_add(total, sum_u64(self.values().take(i as int)), self.values()[i as int]);
                assert(self.values().take(i + 1).drop_last() =~= self.values().take(i as int));
            }
            total = total.wrapping_add(self.nodes[i].value);
            i += 1;
        }
        assert(self.values().take(i as int) =~= self.values());
        total
    }

    /// The same values, contiguous.
    pub fn contiguous(&self) -> (r: Vec<u64>)
        ensures
            r@ == self.values(),
    {
        let mut out: Vec<u64> = Vec::with_capacity(self.nodes.len());
        let mut i: usize = 0;
        while i < self.nodes.len()
            invariant
                i <= self.nodes@.len(),
                out@ =~= self.values().take(i as int),
            decreases self.nodes@.len() - i,
        {
            out.push(self.nodes[i].value);
            i += 1;
        }
        out
    }
}


/// One allocation, walked front to back: the values summed modulo 2^64.
pub fn sum_contiguous(values: &[u64]) -> (r: u64)
    ensures
        r == wrap64(sum_u64(values@)),
{
    let mut total: u64 = 0;
    let mut i: usize = 0;
    while i < values.len()
        invariant
            i <= values@.len(),
            total == wrap64(sum_u64(values@.take(i as int))),
        decreases values@.len() - i,
    {
        proof {
            lemma_wrapping_add(total, sum_u64(values@.take(i as int)), values@[i as int]);
            assert(values@.take(i + 1).drop_last() =~= values@.take(i as int));
        }
        total = total.wrapping_add(values[i]);
        i += 1;
    }
    assert(values@.take(i as int) =~= values@);
    black_box(total)
}

/// A pointer per element, dereferenced in allocation order.
pub fn sum_boxed_ordered(nodes: &Nodes) -> (r: u64)
    ensures
        r == wrap64(sum_u64(nodes.values())),
{
    let mut total: u64 = 0;
    let mut i: usize = 0;
    while i < nodes.nodes.len()
        invariant
            i <= nodes.nodes@.len(),
            total == wrap64(sum_u64(nodes.values().take(i as int))),
        decreases nodes.nodes@.len() - i,
    {
        proof {
            lemma_wrapping_add(total, sum_u64(nodes.values().take(i as int)), nodes.values()[i as int]);
            assert(nodes.values().take(i + 1).drop_last() =~= nodes.values().take(i as int));
        }
        total = total.wrapping_add(nodes.nodes[i].value);
        i += 1;
    }
    assert(nodes.values().take(i as int) =~= nodes.values());
    black_box(total)
}

/// The same objects, visited in the order listed by `order`.
pub fn sum_boxed_shuffled(nodes: &Nodes) -> (r: u64)
    requires
        forall|k: int| 0 <= k < nodes.order@.len() ==> (#[trigger] nodes.order@[k] as int) < nodes.nodes@.len(),
    ensures
        r == wrap64(sum_u64(pick(nodes.values(), nodes.order@))),
{
    let mut total: u64 = 0;
    let mut i: usize = 0;
    while i < nodes.order.len()
        invariant
            i <= nodes.order@.len(),
            forall|k: int| 0 <= k < nodes.order@.len() ==> (#[trigger] nodes.order@[k] as int) < nodes.nodes@.len(),
            total == wrap64(sum_u64(pick(nodes.values(), nodes.order@.take(i as int)))),
        decreases nodes.order@.len() - i,
    {
        let p = nodes.order[i];
        proof {
            let prefix = nodes.order@.take(i as int);
            lemma_wrapping_add(total, sum_u64(pick(nodes.values(), prefix)), nodes.values()[p as int]);
            assert(nodes.order@.take(i + 1).drop_last() =~= prefix);
            assert(pick(nodes.values(), nodes.order@.take(i + 1)).drop_last() =~= pick(nodes.values(), prefix));
        }
        total = total.wrapping_add(nodes.nodes[p].value);
        i += 1;
    }
    assert(nodes.order@.take(i as int) =~= nodes.order@);
    black_box(total)
}

/// The same objects again, in the order of the chase: each index is read out
/// of the node before it.
pub fn sum_list_chase(nodes: &Nodes) -> (r: u64)
    requires
        forall|k: nat| k < nodes.nodes@.len() ==> (#[trigger] follow(nodes.successors(), nodes.head, k) as int)
            < nodes.nodes@.len(),
    ensures
        r == wrap64(sum_u64(pick(nodes.values(), chase_path(nodes.successors(), nodes.head, nodes.nodes@.len())))),
{
    let ghost succ = nodes.successors();
    let ghost vals = nodes.values();
    let mut total: u64 = 0;
    let mut p = nodes.head;
    let n = nodes.nodes.len();
    let mut k: usize = 0;
    while k < n
        invariant
            n == nodes.nodes@.len(),
            succ == nodes.successors(),
            vals == nodes.values(),
            k <= n,
            forall|q: nat| q < n ==> (#[trigger] follow(succ, nodes.head, q) as int) < n,
            p == follow(succ, nodes.head, k as nat),
            total == wrap64(sum_u64(pick(vals, chase_path(succ, nodes.head, k as nat)))),
        decreases n - k,
    {
        proof {
            assert((follow(succ, nodes.head, k as nat) as int) < n);
            lemma_wrapping_add(total, sum_u64(pick(vals, chase_path(succ, nodes.head, k as nat))), vals[p as int]);
            assert(chase_path(succ, nodes.head, (k + 1) as nat).drop_last() =~= chase_path(succ, nodes.head, k as nat));
            assert(pick(vals, chase_path(succ, nodes.head, (k + 1) as nat)).drop_last()
                =~= pick(vals, chase_path(succ, nodes.head, k as nat)));
        }
        total = total.wrapping_add(nodes.nodes[p].value);
        p = nodes.nodes[p].next;
        k += 1;
    }
    black_box(total)
}

/// Along a well-formed ring, the chase from `head` is the walk of `order`.
proof fn lemma_follow_is_order(nodes: &Nodes, k: nat)
    requires
        nodes.wf(),
        k <= nodes.nodes@.len(),
    ensures
        follow(nodes.successors(), nodes.head, k) == nodes.order@[(k as int) % (nodes.nodes@.len() as int)],
    decreases k,
{
    let n = nodes.nodes@.len() as int;
    lemma_permutation_facts(nodes.order@, n as nat);
    if k == 0 {
        vstd::arithmetic::div_mod::lemma_small_mod(0, n as nat);
    } else {
        lemma_follow_is_order(nodes, (k - 1) as nat);
        vstd::arithmetic::div_mod::lemma_small_mod((k - 1) as nat, n as nat);
        let q = k - 1;
        assert(nodes.successors()[nodes.order@[q as int] as int] == nodes.order@[(q + 1) % n]);
    }
}

/// The chase is one full cycle: starting at `head` and following successors,
/// the walk first returns to `head` after exactly as many steps as there are
/// nodes, and reaches every node on the way.
pub proof fn lemma_chase_is_one_full_cycle(nodes: &Nodes)
    requires
        nodes.wf(),
    ensures
        follow(nodes.successors(), nodes.head, nodes.nodes@.len()) == nodes.head,
        forall|k: nat| 0 < k < nodes.nodes@.len() ==> #[trigger] follow(nodes.successors(), nodes.head, k)
            != nodes.head,
        forall|i: usize| (i as int) < nodes.nodes@.len()
            ==> #[trigger] chase_path(nodes.successors(), nodes.head, nodes.nodes@.len()).contains(i),
{
    let n = nodes.nodes@.len();
    lemma_permutation_facts(nodes.order@, n);
    lemma_follow_is_order(nodes, n);
    vstd::arithmetic::div_mod::lemma_mod_self_0(n as int);
    assert forall|k: nat| 0 < k < n implies #[trigger] follow(nodes.successors(), nodes.head, k) != nodes.head by {
        lemma_follow_is_order(nodes, k);
        vstd::arithmetic::div_mod::lemma_small_mod(k, n);
    }
    assert forall|i: usize| (i as int) < n implies #[trigger] chase_path(nodes.successors(), nodes.head, n).contains(i) by {
        assert(nodes.order@.contains(i));
        let k = choose|k: int| 0 <= k < n && nodes.order@[k] == i;
        lemma_follow_is_order(nodes, k as nat);
        vstd::arithmetic::div_mod::lemma_small_mod(k as nat, n);
        assert(chase_path(nodes.successors(), nodes.head, n)[k] == i);
    }
}

/// Every heap variant agrees: on a well-formed ring the chase visits the same
/// nodes in the same order as the walk of `order`, both stay in bounds, and
/// both sum exactly the values in allocation order.
pub proof fn lemma_heap_variants_agree(nodes: &Nodes)
    requires
        nodes.wf(),
    ensures
        forall|k: int| 0 <= k < nodes.order@.len() ==> (#[trigger] nodes.order@[k] as int) < nodes.nodes@.len(),
        forall|k: nat| k < nodes.nodes@.len() ==> (#[trigger] follow(nodes.successors(), nodes.head, k) as int)
            < nodes.nodes@.len(),
        chase_path(nodes.successors(), nodes.head, nodes.nodes@.len()) == nodes.order@,
        sum_u64(pick(nodes.values(), nodes.order@)) == sum_u64(nodes.values()),
        sum_u64(pick(nodes.values(), chase_path(nodes.successors(), nodes.head, nodes.nodes@.len())))
            == sum_u64(nodes.values()),
{
    let n = nodes.nodes@.len();
    lemma_permutation_facts(nodes.order@, n);
    assert forall|k: nat| k < n implies (#[trigger] follow(nodes.successors(), nodes.head, k) as int) < n by {
        lemma_follow_is_order(nodes, k);
        vstd::arithmetic::div_mod::lemma_small_mod(k, n);
    }
    assert(chase_path(nodes.successors(), nodes.head, n) =~= nodes.order@) by {
        assert forall|k: int| 0 <= k < n implies #[trigger] chase_path(nodes.successors(), nodes.head, n)[k]
            == nodes.order@[k] by {
            lemma_follow_is_order(nodes, k as nat);
            vstd::arithmetic::div_mod::lemma_small_mod(k as nat, n);
        }
    }
    lemma_pick_permutation_sum(nodes.values(), nodes.order@);
}


/// The contiguous version of the same experiment: `data[i]` holds the index
/// to visit after `i`, and `order` lists the same indices in visiting order.
pub struct Gather {
    pub data: Vec<u64>,
    pub order: Vec<u64>,
    pub start: usize,
}

/// Indices stored as `u64`, read back as `usize`.
pub open spec fn as_indices(s: Seq<u64>) -> Seq<usize> {
    s.map_values(|x: u64| x as usize)
}

/// The slot reached from `start` after `k` dependent reads of `data`.
pub open spec fn gather_follow(data: Seq<u64>, start: usize, k: nat) -> usize
    decreases k,
{
    if k == 0 {
        start
    } else {
        data[gather_follow(data, start, (k - 1) as nat) as int] as usize
    }
}

/// The first `m` slots of the dependent walk from `start`.
pub open spec fn gather_path(data: Seq<u64>, start: usize, m: nat) -> Seq<usize> {
    Seq::new(m, |k: int| gather_follow(data, start, k as nat))
}

impl Gather {
    /// `order` lists every slot once, each slot of `data` names the next slot
    /// in `order` (the last wrapping to the first), and `start` is the first.
    pub open spec fn wf(&self) -> bool {
        let n = self.data@.len();
        &&& n <= usize::MAX
        &&& self.order@.len() == n
        &&& forall|k: int| 0 <= k < n ==> (#[trigger] self.order@[k] as int) < n
        &&& is_permutation(as_indices(self.order@), n)
        &&& n > 0
        &&& self.start as int == self.order@[0] as int
        &&& forall|k: int| 0 <= k < n ==> #[trigger] self.data@[self.order@[k] as int]
            == self.order@[(k + 1) % (n as int)]
    }

    pub fn new(n: usize, seed: u64) -> (r: Self)
        requires
            n > 0,
        ensures
            as_indices(r.order@) == spec_visit_order(n as nat, seed),
            r.wf(),
    {
        let perm = visit_order(n, seed);
        proof {
            lemma_permutation_facts(perm@, n as nat);
        }
        let mut data: Vec<u64> = vec![0u64; n];
        let mut k: usize = 0;
        while k < n
            invariant
                k <= n,
                perm@.len() == n,
                perm@.no_duplicates(),
                forall|q: int| 0 <= q < n ==> (#[trigger] perm@[q] as int) < n,
                data@.len() == n,
                forall|q: int| 0 <= q < k ==> #[trigger] data@[perm@[q] as int] == perm@[(q + 1) % (n as int)] as u64,
            decreases n - k,
        {
            let succ = perm[(k + 1) % n] as u64;
            let p = perm[k];
            data.set(p, succ);
            assert forall|q: int| 0 <= q < k + 1 implies #[trigger] data@[perm@[q] as int]
                == perm@[(q + 1) % (n as int)] as u64 by {
                if q < k {
                    assert(perm@[q] != perm@[k as int]);
                }
            }
            k += 1;
        }
        let mut order: Vec<u64> = Vec::with_capacity(n);
        let mut i: usize = 0;
        while i < n
            invariant
                i <= n,
                perm@.len() == n,
                order@.len() == i,
                forall|q: int| 0 <= q < i ==> #[trigger] order@[q] == perm@[q] as u64,
            decreases n - i,
        {
            order.push(perm[i] as u64);
            i += 1;
        }
        assert(as_indices(order@) =~= perm@);
        Gather { data, order, start: perm[0] }
    }

    /// Each index is visited exactly once, so both variants sum every element
    /// of `data`: the plain sum modulo 2^64.
    pub fn expected(&self) -> (r: u64)
        ensures
            r == wrap64(sum_u64(self.data@)),
    {
        let mut total: u64 = 0;
        let mut i: usize = 0;
        while i < self.data.len()
            invariant
                i <= self.data@.len(),
                total == wrap64(sum_u64(self.data@.take(i as int))),
            decreases self.data@.len() - i,
        {
            proof {
                lemma_wrapping_add(total, sum_u64(self.data@.take(i as int)), self.data@[i as int]);
                assert(self.data@.take(i + 1).drop_last() =~= self.data@.take(i as int));
            }
            total = total.wrapping_add(self.data[i]);
            i += 1;
        }
        assert(self.data@.take(i as int) =~= self.data@);
        total
    }
}

/// The addresses are known well in advance: read each slot named by `order`.
pub fn sum_gather_independent(g: &Gather) -> (r: u64)
    requires
        forall|k: int| 0 <= k < g.order@.len() ==> (#[trigger] as_indices(g.order@)[k] as int) < g.data@.len(),
    ensures
        r == wrap64(sum_u64(pick(g.data@, as_indices(g.order@)))),
{
    let ghost idx = as_indices(g.order@);
    let mut total: u64 = 0;
    let mut i: usize = 0;
    while i < g.order.len()
        invariant
            idx == as_indices(g.order@),
            i <= g.order@.len(),
            forall|k: int| 0 <= k < g.order@.len() ==> (#[trigger] idx[k] as int) < g.data@.len(),
            total == wrap64(sum_u64(pick(g.data@, idx.take(i as int)))),
        decreases g.order@.len() - i,
    {
        let p = g.order[i] as usize;
        proof {
            assert(idx[i as int] == p);
            lemma_wrapping_add(total, sum_u64(pick(g.data@, idx.take(i as int))), g.data@[p as int]);
            assert(idx.take(i + 1).drop_last() =~= idx.take(i as int));
            assert(pick(g.data@, idx.take(i + 1)).drop_last() =~= pick(g.data@, idx.take(i as int)));
        }
        total = total.wrapping_add(g.data[p]);
        i += 1;
    }
    assert(idx.take(i as int) =~= idx);
    black_box(total)
}

/// The same slots in the same order, but each index is the value just read.
pub fn sum_gather_dependent(g: &Gather) -> (r: u64)
    requires
        forall|k: nat| k < g.data@.len() ==> (#[trigger] gather_follow(g.data@, g.start, k) as int) < g.data@.len(),
    ensures
        r == wrap64(sum_u64(pick(g.data@, gather_path(g.data@, g.start, g.data@.len())))),
{
    let ghost d = g.data@;
    let mut total: u64 = 0;
    let mut i = g.start;
    let n = g.data.len();
    let mut k: usize = 0;
    while k < n
        invariant
            d == g.data@,
            n == d.len(),
            k <= n,
            forall|q: nat| q < n ==> (#[trigger] gather_follow(d, g.start, q) as int) < n,
            i == gather_follow(d, g.start, k as nat),
            total == wrap64(sum_u64(pick(d, gather_path(d, g.start, k as nat)))),
        decreases n - k,
    {
        proof {
            assert((gather_follow(d, g.start, k as nat) as int) < n);
            lemma_wrapping_add(total, sum_u64(pick(d, gather_path(d, g.start, k as nat))), d[i as int]);
            assert(gather_path(d, g.start, (k + 1) as nat).drop_last() =~= gather_path(d, g.start, k as nat));
            assert(pick(d, gather_path(d, g.start, (k + 1) as nat)).drop_last()
                =~= pick(d, gather_path(d, g.start, k as nat)));
        }
        let next = g.data[i];
        total = total.wrapping_add(next);
        i = next as usize;
        k += 1;
    }
    black_box(total)
}

proof fn lemma_gather_follow_is_order(g: &Gather, k: nat)
    requires
        g.wf(),
        k <= g.data@.len(),
    ensures
        gather_follow(g.data@, g.start, k) as int == g.order@[(k as int) % (g.data@.len() as int)] as int,
    decreases k,
{
    let n = g.data@.len() as int;
    if k == 0 {
        vstd::arithmetic::div_mod::lemma_small_mod(0, n as nat);
    } else {
        lemma_gather_follow_is_order(g, (k - 1) as nat);
        vstd::arithmetic::div_mod::lemma_small_mod((k - 1) as nat, n as nat);
        let q = k - 1;
        assert(g.data@[g.order@[q as int] as int] == g.order@[(q + 1) % n]);
    }
}

/// Both gathers agree: on a well-formed gather the dependent walk touches the
/// same slots in the same order as `order`, both stay in bounds, and both sum
/// exactly the entries of `data`.
pub proof fn lemma_gathers_agree(g: &Gather)
    requires
        g.wf(),
    ensures
        forall|k: int| 0 <= k < g.order@.len() ==> (#[trigger] as_indices(g.order@)[k] as int) < g.data@.len(),
        forall|k: nat| k < g.data@.len() ==> (#[trigger] gather_follow(g.data@, g.start, k) as int) < g.data@.len(),
        gather_path(g.data@, g.start, g.data@.len()) == as_indices(g.order@),
        sum_u64(pick(g.data@, as_indices(g.order@))) == sum_u64(g.data@),
        sum_u64(pick(g.data@, gather_path(g.data@, g.start, g.data@.len()))) == sum_u64(g.data@),
{
    let n = g.data@.len();
    let idx = as_indices(g.order@);
    assert forall|k: nat| k < n implies (#[trigger] gather_follow(g.data@, g.start, k) as int) < n by {
        lemma_gather_follow_is_order(g, k);
        vstd::arithmetic::div_mod::lemma_small_mod(k, n);
    }
    assert(gather_path(g.data@, g.start, n) =~= idx) by {
        assert forall|k: int| 0 <= k < n implies #[trigger] gather_path(g.data@, g.start, n)[k] == idx[k] by {
            lemma_gather_follow_is_order(g, k as nat);
            vstd::arithmetic::div_mod::lemma_small_mod(k as nat, n);
        }
    }
    lemma_pick_permutation_sum(g.data@, idx);
}

} // verus!
