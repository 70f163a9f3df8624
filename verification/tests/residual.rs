use flow::{
    find_augmenting_path, flow_from_residuals, is_residual_network, residuals, Arc, FlowError,
    Network,
};

fn square() -> Network<&'static str> {
    let mut g = Network::new();
    let a = g.add_node("A");
    let b = g.add_node("B");
    let c = g.add_node("C");
    let d = g.add_node("D");
    g.add_edge(a, b, 7);
    g.add_edge(a, c, 2);
    g.add_edge(b, c, 2);
    g.add_edge(b, d, 1);
    g.add_edge(c, d, 5);
    g
}

#[test]
fn residuals_rejects_opposite_edges() {
    let mut g: Network<()> = Network::new();
    let a = g.add_node(());
    let b = g.add_node(());
    g.add_edge(a, b, 0);
    g.add_edge(b, a, 0);
    assert_eq!(residuals(&g).err(), Some(FlowError::MalformedInput));
}

#[test]
fn residuals_rejects_an_arc_to_itself() {
    let mut g: Network<()> = Network::new();
    let a = g.add_node(());
    let b = g.add_node(());
    g.add_edge(a, b, 3);
    g.add_edge(b, b, 1);
    assert_eq!(residuals(&g).err(), Some(FlowError::MalformedInput));
}

#[test]
fn residuals_rejects_opposite_edges_far_apart() {
    let mut g: Network<()> = Network::new();
    let a = g.add_node(());
    let b = g.add_node(());
    let c = g.add_node(());
    g.add_edge(a, b, 3);
    g.add_edge(b, c, 3);
    g.add_edge(a, c, 3);
    g.add_edge(c, a, 3);
    assert_eq!(residuals(&g).err(), Some(FlowError::MalformedInput));
}

#[test]
fn residuals_pairs_each_arc_with_its_reverse() {
    let g = square();
    let r = residuals(&g).unwrap();
    assert_eq!(r.node_count(), 4);
    assert_eq!(r.edge_count(), 10);
    for i in 0..g.edge_count() {
        let arc = g.edge(i).unwrap();
        assert_eq!(r.edge(2 * i), Some(arc));
        assert_eq!(r.edge(2 * i + 1), Some(Arc { tail: arc.head, head: arc.tail, weight: 0 }));
    }
    for v in 0..4 {
        assert_eq!(r.node_weight(v), g.node_weight(v));
    }
}

#[test]
fn residuals_leaves_the_capacities_alone() {
    let g = square();
    let _ = residuals(&g).unwrap();
    assert_eq!(g.node_count(), 4);
    assert_eq!(g.edge_count(), 5);
    assert_eq!(g.edge(0), Some(Arc { tail: 0, head: 1, weight: 7 }));
    assert_eq!(g.edge(4), Some(Arc { tail: 2, head: 3, weight: 5 }));
}

#[test]
fn residuals_of_nothing_is_nothing() {
    let g: Network<u8> = Network::new();
    let r = residuals(&g).unwrap();
    assert_eq!(r.node_count(), 0);
    assert_eq!(r.edge_count(), 0);
}

#[test]
fn residuals_keeps_nodes_without_arcs() {
    let mut g = Network::new();
    g.add_node(10u8);
    g.add_node(20u8);
    let r = residuals(&g).unwrap();
    assert_eq!(r.node_count(), 2);
    assert_eq!(r.edge_count(), 0);
    assert_eq!(r.node_weight(0), Some(&10));
    assert_eq!(r.node_weight(1), Some(&20));
}

#[test]
fn flow_before_any_path_is_zero() {
    let g = square();
    let r = residuals(&g).unwrap();
    let f = flow_from_residuals(&g, &r).unwrap();
    assert_eq!(f.node_count(), 4);
    assert_eq!(f.edge_count(), 5);
    for i in 0..5 {
        let arc = g.edge(i).unwrap();
        assert_eq!(f.edge(i), Some(Arc { tail: arc.tail, head: arc.head, weight: 0 }));
    }
    for v in 0..4 {
        assert_eq!(f.node_weight(v), g.node_weight(v));
    }
}

#[test]
fn flow_is_read_off_the_reverses() {
    let mut g = Network::new();
    let a = g.add_node(());
    let b = g.add_node(());
    let c = g.add_node(());
    g.add_edge(a, b, 10);
    g.add_edge(b, c, 10);
    let mut r = Network::new();
    for _ in 0..3 {
        r.add_node(());
    }
    r.add_edge(b, a, 4);
    r.add_edge(c, b, 9);
    r.add_edge(a, b, 6);
    let f = flow_from_residuals(&g, &r).unwrap();
    assert_eq!(f.edge(0), Some(Arc { tail: a, head: b, weight: 4 }));
    assert_eq!(f.edge(1), Some(Arc { tail: b, head: c, weight: 9 }));
}

#[test]
fn flow_rejects_a_residual_without_reverses() {
    let g = square();
    assert_eq!(flow_from_residuals(&g, &g).err(), Some(FlowError::ContractViolation));
}

#[test]
fn flow_rejects_a_residual_that_lacks_one_reverse() {
    let mut g = Network::new();
    let a = g.add_node(());
    let b = g.add_node(());
    let c = g.add_node(());
    g.add_edge(a, b, 1);
    g.add_edge(b, c, 1);
    let mut r = Network::new();
    for _ in 0..3 {
        r.add_node(());
    }
    r.add_edge(a, b, 1);
    r.add_edge(b, a, 0);
    r.add_edge(b, c, 1);
    assert_eq!(flow_from_residuals(&g, &r).err(), Some(FlowError::ContractViolation));
}

#[test]
fn flow_stays_within_the_capacities() {
    let g = square();
    let mut r = residuals(&g).unwrap();
    while find_augmenting_path(&mut r, 0, 3) {}
    let f = flow_from_residuals(&g, &r).unwrap();
    for i in 0..g.edge_count() {
        let capacity = g.edge(i).unwrap();
        let flow = f.edge(i).unwrap();
        assert_eq!((flow.tail, flow.head), (capacity.tail, capacity.head));
        assert!(flow.weight <= capacity.weight);
        assert_eq!(r.edge(2 * i).unwrap().weight + flow.weight, capacity.weight);
    }
}

#[test]
fn residuals_gives_a_residual_network() {
    let mut r = residuals(&square()).unwrap();
    assert!(is_residual_network(&r));
    while find_augmenting_path(&mut r, 0, 3) {
        assert!(is_residual_network(&r));
    }
    assert!(is_residual_network(&r));
}

#[test]
fn capacities_alone_are_no_residual_network() {
    assert!(!is_residual_network(&square()));
}

#[test]
fn an_arc_to_itself_is_in_no_residual_network() {
    let mut r = Network::new();
    let a = r.add_node(());
    let b = r.add_node(());
    r.add_edge(a, b, 1);
    r.add_edge(b, a, 1);
    assert!(is_residual_network(&r));
    r.add_edge(a, a, 1);
    assert!(!is_residual_network(&r));
}

#[test]
fn a_pair_in_a_residual_network_weighs_what_a_weight_can_hold() {
    let mut r = Network::new();
    let a = r.add_node(());
    let b = r.add_node(());
    r.add_edge(a, b, u64::MAX);
    r.add_edge(b, a, 0);
    assert!(is_residual_network(&r));
    r.set_edge_weight(1, 1);
    assert!(!is_residual_network(&r));
    r.set_edge_weight(0, u64::MAX - 1);
    assert!(is_residual_network(&r));
}

#[test]
fn the_largest_capacity_can_be_pushed() {
    let mut g = Network::new();
    let a = g.add_node(());
    let b = g.add_node(());
    g.add_edge(a, b, u64::MAX);
    let mut r = residuals(&g).unwrap();
    assert!(find_augmenting_path(&mut r, a, b));
    assert_eq!(r.edge(0), Some(Arc { tail: a, head: b, weight: 0 }));
    assert_eq!(r.edge(1), Some(Arc { tail: b, head: a, weight: u64::MAX }));
    assert!(!find_augmenting_path(&mut r, a, b));
    let f = flow_from_residuals(&g, &r).unwrap();
    assert_eq!(f.edge(0), Some(Arc { tail: a, head: b, weight: u64::MAX }));
}
