use flow::{find_augmenting_path, residuals, Arc, Network};

fn weights(r: &Network<()>) -> Vec<u64> {
    (0..r.edge_count()).map(|e| r.edge(e).unwrap().weight).collect()
}

fn chain() -> Network<()> {
    let mut g = Network::new();
    let a = g.add_node(());
    let b = g.add_node(());
    let c = g.add_node(());
    g.add_edge(a, b, 3);
    g.add_edge(b, c, 2);
    g
}

#[test]
fn augmenting_pushes_the_bottleneck() {
    let mut r = residuals(&chain()).unwrap();
    assert!(find_augmenting_path(&mut r, 0, 2));
    assert_eq!(weights(&r), vec![1, 2, 0, 2]);
    assert_eq!(r.edge(0), Some(Arc { tail: 0, head: 1, weight: 1 }));
    assert_eq!(r.edge(1), Some(Arc { tail: 1, head: 0, weight: 2 }));
    assert_eq!(r.node_count(), 3);
}

#[test]
fn augmenting_stops_when_the_sink_is_cut_off() {
    let mut r = residuals(&chain()).unwrap();
    assert!(find_augmenting_path(&mut r, 0, 2));
    assert!(!find_augmenting_path(&mut r, 0, 2));
    assert_eq!(weights(&r), vec![1, 2, 0, 2]);
    assert!(!find_augmenting_path(&mut r, 0, 2));
    assert_eq!(weights(&r), vec![1, 2, 0, 2]);
}

#[test]
fn augmenting_can_take_flow_back() {
    let mut r = residuals(&chain()).unwrap();
    assert!(find_augmenting_path(&mut r, 0, 2));
    assert!(find_augmenting_path(&mut r, 2, 0));
    assert_eq!(weights(&r), vec![3, 0, 2, 0]);
}

#[test]
fn augmenting_ignores_arcs_of_weight_zero() {
    let mut g = Network::new();
    let a = g.add_node(());
    let b = g.add_node(());
    g.add_edge(a, b, 0);
    let mut r = residuals(&g).unwrap();
    assert!(!find_augmenting_path(&mut r, a, b));
    assert_eq!(weights(&r), vec![0, 0]);
}

#[test]
fn augmenting_finds_nothing_against_the_arcs() {
    let mut r = residuals(&chain()).unwrap();
    assert!(!find_augmenting_path(&mut r, 2, 0));
    assert_eq!(weights(&r), vec![3, 0, 2, 0]);
}

#[test]
fn augmenting_from_or_to_no_node_finds_nothing() {
    let mut r = residuals(&chain()).unwrap();
    assert!(!find_augmenting_path(&mut r, 0, 3));
    assert!(!find_augmenting_path(&mut r, 3, 0));
    assert!(!find_augmenting_path(&mut r, 9, 12));
    assert_eq!(weights(&r), vec![3, 0, 2, 0]);
}

#[test]
fn augmenting_takes_a_shortest_path() {
    let mut g = Network::new();
    let a = g.add_node(());
    let b = g.add_node(());
    let c = g.add_node(());
    let d = g.add_node(());
    g.add_edge(a, b, 9);
    g.add_edge(b, c, 9);
    g.add_edge(c, d, 9);
    g.add_edge(a, d, 1);
    let mut r = residuals(&g).unwrap();
    assert!(find_augmenting_path(&mut r, a, d));
    assert_eq!(weights(&r), vec![9, 0, 9, 0, 9, 0, 0, 1]);
    assert!(find_augmenting_path(&mut r, a, d));
    assert_eq!(weights(&r), vec![0, 9, 0, 9, 0, 9, 0, 1]);
    assert!(!find_augmenting_path(&mut r, a, d));
}

#[test]
fn augmenting_keeps_the_sum_of_each_pair() {
    let mut g = Network::new();
    for _ in 0..6 {
        g.add_node(());
    }
    let arcs = [
        (0, 1, 16),
        (0, 2, 13),
        (1, 3, 12),
        (2, 1, 4),
        (2, 4, 14),
        (3, 2, 9),
        (3, 5, 20),
        (4, 3, 7),
        (4, 5, 4),
    ];
    for (a, b, w) in arcs {
        g.add_edge(a, b, w);
    }
    let mut r = residuals(&g).unwrap();
    let mut left = 16 + 13;
    let mut rounds = 0;
    while find_augmenting_path(&mut r, 0, 5) {
        rounds += 1;
        assert!(rounds <= 29);
        for (i, (_, _, w)) in arcs.iter().enumerate() {
            assert_eq!(r.edge(2 * i).unwrap().weight + r.edge(2 * i + 1).unwrap().weight, *w);
        }
        let leaves = r.edge(0).unwrap().weight + r.edge(2).unwrap().weight;
        assert!(leaves < left);
        left = leaves;
    }
    assert_eq!(16 + 13 - left, 23);
}
