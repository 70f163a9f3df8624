use flow::{Arc, Network};

#[test]
fn new_network_is_empty() {
    let g: Network<u8> = Network::new();
    assert_eq!(g.node_count(), 0);
    assert_eq!(g.edge_count(), 0);
    assert_eq!(g.node_weight(0), None);
    assert_eq!(g.edge(0), None);
}

#[test]
fn with_capacity_holds_nothing_yet() {
    let g: Network<u8> = Network::with_capacity(16, 32);
    assert_eq!(g.node_count(), 0);
    assert_eq!(g.edge_count(), 0);
}

#[test]
fn nodes_are_numbered_in_order() {
    let mut g = Network::new();
    assert_eq!(g.add_node("x"), 0);
    assert_eq!(g.add_node("y"), 1);
    assert_eq!(g.add_node("z"), 2);
    assert_eq!(g.node_count(), 3);
    assert_eq!(g.node_weight(0), Some(&"x"));
    assert_eq!(g.node_weight(1), Some(&"y"));
    assert_eq!(g.node_weight(2), Some(&"z"));
    assert_eq!(g.node_weight(3), None);
    assert_eq!(g.edge_count(), 0);
}

#[test]
fn arcs_are_numbered_in_order() {
    let mut g = Network::new();
    let a = g.add_node(());
    let b = g.add_node(());
    let c = g.add_node(());
    assert_eq!(g.add_edge(a, b, 4), 0);
    assert_eq!(g.add_edge(b, c, 9), 1);
    assert_eq!(g.add_edge(c, a, 0), 2);
    assert_eq!(g.edge_count(), 3);
    assert_eq!(g.node_count(), 3);
    assert_eq!(g.edge(0), Some(Arc { tail: a, head: b, weight: 4 }));
    assert_eq!(g.edge(1), Some(Arc { tail: b, head: c, weight: 9 }));
    assert_eq!(g.edge(2), Some(Arc { tail: c, head: a, weight: 0 }));
    assert_eq!(g.edge(3), None);
    assert_eq!(g.edge(usize::MAX), None);
}

#[test]
fn find_edge_tells_direction() {
    let mut g = Network::new();
    let a = g.add_node(());
    let b = g.add_node(());
    let c = g.add_node(());
    g.add_edge(a, b, 1);
    g.add_edge(b, c, 2);
    assert_eq!(g.find_edge(a, b), Some(0));
    assert_eq!(g.find_edge(b, c), Some(1));
    assert_eq!(g.find_edge(b, a), None);
    assert_eq!(g.find_edge(a, c), None);
    assert_eq!(g.find_edge(a, a), None);
    assert_eq!(g.find_edge(7, a), None);
    assert_eq!(g.find_edge(a, usize::MAX), None);
}

#[test]
fn edges_from_lists_the_arcs_that_leave() {
    let mut g = Network::new();
    let a = g.add_node(());
    let b = g.add_node(());
    let c = g.add_node(());
    g.add_edge(a, b, 1);
    g.add_edge(b, c, 2);
    g.add_edge(a, c, 3);
    g.add_edge(c, a, 4);
    let mut from_a = g.edges_from(a);
    from_a.sort();
    assert_eq!(from_a, vec![0, 2]);
    assert_eq!(g.edges_from(b), vec![1]);
    assert_eq!(g.edges_from(c), vec![3]);
    assert_eq!(g.edges_from(3), Vec::<usize>::new());
    assert_eq!(g.edges_from(usize::MAX), Vec::<usize>::new());
}

#[test]
fn set_edge_weight_changes_one_arc() {
    let mut g = Network::new();
    let a = g.add_node(());
    let b = g.add_node(());
    g.add_edge(a, b, 1);
    g.add_edge(b, a, 2);
    g.set_edge_weight(1, 40);
    assert_eq!(g.edge(0), Some(Arc { tail: a, head: b, weight: 1 }));
    assert_eq!(g.edge(1), Some(Arc { tail: b, head: a, weight: 40 }));
    assert_eq!(g.edge_count(), 2);
    assert_eq!(g.node_count(), 2);
}

#[test]
fn clone_is_independent() {
    let mut g = Network::new();
    let a = g.add_node(String::from("left"));
    let b = g.add_node(String::from("right"));
    g.add_edge(a, b, 5);
    let mut copy = g.clone();
    copy.set_edge_weight(0, 6);
    copy.add_node(String::from("more"));
    assert_eq!(g.node_count(), 2);
    assert_eq!(g.edge(0), Some(Arc { tail: a, head: b, weight: 5 }));
    assert_eq!(copy.node_count(), 3);
    assert_eq!(copy.edge(0), Some(Arc { tail: a, head: b, weight: 6 }));
    assert_eq!(copy.node_weight(a), Some(&String::from("left")));
    assert_eq!(copy.node_weight(b), Some(&String::from("right")));
}
