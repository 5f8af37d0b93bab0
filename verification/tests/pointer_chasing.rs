use mechanical_sympathy::pointer_chasing::{
    sum_boxed_ordered, sum_boxed_shuffled, sum_contiguous, sum_gather_dependent, sum_gather_independent,
    sum_list_chase, visit_order, Gather, Node, Nodes, XorShift64,
};

const N: usize = 4096;

#[test]
fn visit_order_is_a_permutation() {
    let mut seen = vec![false; N];
    for i in visit_order(N, 42) {
        assert!(!seen[i], "index {i} appeared twice");
        seen[i] = true;
    }
    assert!(seen.into_iter().all(|s| s));
}

#[test]
fn the_chase_is_one_full_cycle() {
    // A chase built from a permutation read as a mapping would break into short cycles and silently
    // traverse only part of the data.
    let nodes = Nodes::new(N, 7);
    let mut p = nodes.head;
    let mut steps = 0usize;
    loop {
        p = nodes.nodes[p].next;
        steps += 1;
        if p == nodes.head {
            break;
        }
        assert!(steps <= N, "cycle longer than the data");
    }
    assert_eq!(steps, N, "chase visits {steps} of {N} nodes");
}

#[test]
fn every_heap_variant_agrees() {
    let nodes = Nodes::new(N, 7);
    let expected = nodes.expected();
    assert_eq!(sum_contiguous(&nodes.contiguous()), expected);
    assert_eq!(sum_boxed_ordered(&nodes), expected);
    assert_eq!(sum_boxed_shuffled(&nodes), expected);
    assert_eq!(sum_list_chase(&nodes), expected);
}

#[test]
fn both_gathers_agree() {
    let g = Gather::new(N, 11);
    let expected = g.expected();
    assert_eq!(sum_gather_independent(&g), expected);
    assert_eq!(sum_gather_dependent(&g), expected);
}

#[test]
fn a_node_is_sixteen_bytes() {
    assert_eq!(std::mem::size_of::<Node>(), 16);
}

#[test]
fn the_generator_is_deterministic() {
    assert_eq!(Nodes::new(N, 3).expected(), Nodes::new(N, 3).expected());
}

#[test]
fn visit_order_of_nothing_and_of_one() {
    assert!(visit_order(0, 5).is_empty());
    assert_eq!(visit_order(1, 5), vec![0]);
}

#[test]
fn visit_order_follows_fisher_yates() {
    // n = 2: one step, exchanging index 1 with (next % 2).
    let mut rng = XorShift64::new(3);
    let j = (rng.next() % 2) as usize;
    let expected = if j == 0 { vec![1, 0] } else { vec![0, 1] };
    assert_eq!(visit_order(2, 3), expected);
}

#[test]
fn nodes_link_the_visit_order_into_a_ring() {
    let n = 100;
    let nodes = Nodes::new(n, 21);
    assert_eq!(nodes.len(), n);
    assert!(!nodes.is_empty());
    assert_eq!(nodes.order, visit_order(n, 21));
    assert_eq!(nodes.head, nodes.order[0]);
    for k in 0..n {
        assert_eq!(nodes.nodes[nodes.order[k]].next, nodes.order[(k + 1) % n]);
    }
    // payloads come from the generator seeded with seed ^ 0x9e3779b9, shifted down 16 bits
    let mut rng = XorShift64::new(21 ^ 0x9e37_79b9);
    for i in 0..n {
        assert_eq!(nodes.nodes[i].value, rng.next() >> 16);
    }
    assert_eq!(nodes.contiguous(), nodes.nodes.iter().map(|b| b.value).collect::<Vec<_>>());
}

#[test]
fn single_node_points_at_itself() {
    let nodes = Nodes::new(1, 8);
    assert_eq!(nodes.head, 0);
    assert_eq!(nodes.nodes[0].next, 0);
    assert_eq!(sum_list_chase(&nodes), nodes.expected());
}

#[test]
fn sums_wrap_modulo_two_to_the_64() {
    assert_eq!(sum_contiguous(&[u64::MAX, 2]), 1);
    assert_eq!(sum_contiguous(&[]), 0);
    assert_eq!(sum_contiguous(&[5, 7, 11]), 23);
}

#[test]
fn gather_links_the_visit_order() {
    let n = 50;
    let g = Gather::new(n, 4);
    let perm = visit_order(n, 4);
    assert_eq!(g.order, perm.iter().map(|&i| i as u64).collect::<Vec<_>>());
    assert_eq!(g.start, perm[0]);
    for k in 0..n {
        assert_eq!(g.data[perm[k]], perm[(k + 1) % n] as u64);
    }
    // each slot is visited once, so the total is 0 + 1 + ... + (n - 1)
    assert_eq!(g.expected(), (n * (n - 1) / 2) as u64);
    assert_eq!(sum_gather_dependent(&g), g.expected());
}
