use flow::{
    cut_from_residual, find_augmenting_path, flow_from_residuals, min_cut, residuals, FlowError,
    Network,
};

fn diamond() -> (Network<&'static str>, [usize; 4]) {
    let mut g = Network::new();
    let a = g.add_node("A");
    let b = g.add_node("B");
    let c = g.add_node("C");
    let d = g.add_node("D");
    g.add_edge(a, b, 7);
    g.add_edge(a, c, 2);
    g.add_edge(b, c, 2);
    g.add_edge(b, d, 1);
    g.add_edge(c, d, 5);
    (g, [a, b, c, d])
}

fn trunk_network() -> (Network<u32>, Vec<(usize, usize, u64)>) {
    let mut g = Network::new();
    for v in 0..6 {
        g.add_node(100 + v);
    }
    let arcs = vec![
        (0, 1, 16),
        (0, 2, 13),
        (1, 3, 12),
        (2, 1, 4),
        (2, 4, 14),
        (3, 2, 9),
        (3, 5, 20),
        (4, 3, 7),
        (4, 5, 4),
    ];
    for &(a, b, w) in arcs.iter() {
        g.add_edge(a, b, w);
    }
    (g, arcs)
}

#[test]
fn cut_small() {
    let (g, [a, _, _, d]) = diamond();
    let mut cut = min_cut(&g, a, d).unwrap();
    cut.sort();
    assert_eq!(cut, vec!["A", "B"]);
}

#[test]
fn cut_lists_the_source_side_by_node_number() {
    let (g, [a, _, _, d]) = diamond();
    assert_eq!(min_cut(&g, a, d), Ok(vec!["A", "B"]));
}

#[test]
fn max_flow_of_the_diamond_saturates_the_cut() {
    let (g, [a, b, c, d]) = diamond();
    let mut r = residuals(&g).unwrap();
    let mut rounds = 0;
    while find_augmenting_path(&mut r, a, d) {
        rounds += 1;
        assert!(rounds <= 5);
    }
    assert_eq!(rounds, 3);
    let f = flow_from_residuals(&g, &r).unwrap();
    let weight = |from: usize, to: usize| f.edge(f.find_edge(from, to).unwrap()).unwrap().weight;
    // The arcs from {A, B} to {C, D} carry all that they can.
    assert_eq!(weight(a, c), 2);
    assert_eq!(weight(b, c), 2);
    assert_eq!(weight(b, d), 1);
    // What leaves the source arrives at the sink.
    assert_eq!(weight(a, b) + weight(a, c), 5);
    assert_eq!(weight(b, d) + weight(c, d), 5);
    assert_eq!(weight(a, b), weight(b, c) + weight(b, d));
    assert_eq!(weight(a, c) + weight(b, c), weight(c, d));
    assert_eq!(cut_from_residual(&r, a), vec!["A", "B"]);
}

#[test]
fn max_flow_equals_min_cut_on_a_larger_network() {
    let (g, arcs) = trunk_network();
    let mut r = residuals(&g).unwrap();
    while find_augmenting_path(&mut r, 0, 5) {}
    let f = flow_from_residuals(&g, &r).unwrap();
    let side = cut_from_residual(&r, 0);
    assert_eq!(side, vec![100, 101, 102, 104]);
    let inside = |v: usize| side.contains(&(100 + v as u32));
    let mut across = 0;
    let mut leaving_source = 0;
    let mut entering_source = 0;
    let mut net = vec![0i64; 6];
    for (i, &(a, b, w)) in arcs.iter().enumerate() {
        let flow = f.edge(i).unwrap().weight;
        assert!(flow <= w);
        if inside(a) && !inside(b) {
            assert_eq!(flow, w);
            across += w;
        }
        if !inside(a) && inside(b) {
            assert_eq!(flow, 0);
        }
        if a == 0 {
            leaving_source += flow;
        }
        if b == 0 {
            entering_source += flow;
        }
        net[a] -= flow as i64;
        net[b] += flow as i64;
    }
    assert_eq!(across, 23);
    assert_eq!(leaving_source - entering_source, 23);
    assert_eq!(net, vec![-23, 0, 0, 0, 0, 23]);
}

#[test]
fn min_cut_of_the_larger_network() {
    let (g, _) = trunk_network();
    assert_eq!(min_cut(&g, 0, 5), Ok(vec![100, 101, 102, 104]));
}

#[test]
fn min_cut_rejects_opposite_edges() {
    let mut g = Network::new();
    let a = g.add_node('a');
    let b = g.add_node('b');
    g.add_edge(a, b, 1);
    g.add_edge(b, a, 1);
    assert_eq!(min_cut(&g, a, b), Err(FlowError::MalformedInput));
}

#[test]
fn min_cut_with_the_sink_out_of_reach() {
    let mut g = Network::new();
    let a = g.add_node('a');
    let b = g.add_node('b');
    let c = g.add_node('c');
    g.add_edge(a, b, 3);
    g.add_edge(c, b, 3);
    assert_eq!(min_cut(&g, a, c), Ok(vec!['a', 'b']));
}

#[test]
fn min_cut_through_an_arc_of_no_capacity() {
    let mut g = Network::new();
    let a = g.add_node('a');
    let b = g.add_node('b');
    let c = g.add_node('c');
    g.add_edge(a, b, 0);
    g.add_edge(b, c, 8);
    assert_eq!(min_cut(&g, a, c), Ok(vec!['a']));
}

#[test]
fn min_cut_where_the_last_arc_is_the_narrow_one() {
    let mut g = Network::new();
    let a = g.add_node('a');
    let b = g.add_node('b');
    let c = g.add_node('c');
    g.add_edge(a, b, 8);
    g.add_edge(b, c, 1);
    assert_eq!(min_cut(&g, a, c), Ok(vec!['a', 'b']));
}

#[test]
fn min_cut_from_no_node_is_empty() {
    let (g, _) = diamond();
    assert_eq!(min_cut(&g, 17, 3), Ok(vec![]));
}

#[test]
fn cut_holds_the_source_alone_when_nothing_leaves_it() {
    let mut g = Network::new();
    let a = g.add_node("alone");
    let b = g.add_node("other");
    g.add_edge(b, a, 5);
    let r = residuals(&g).unwrap();
    assert_eq!(cut_from_residual(&r, a), vec!["alone"]);
    assert_eq!(cut_from_residual(&r, b), vec!["alone", "other"]);
}

#[test]
fn cut_from_no_node_is_empty() {
    let (g, _) = diamond();
    let r = residuals(&g).unwrap();
    assert_eq!(cut_from_residual(&r, 4), Vec::<&str>::new());
    assert_eq!(cut_from_residual(&r, usize::MAX), Vec::<&str>::new());
}

#[test]
fn cut_before_any_flow_is_all_that_the_arcs_reach() {
    let (g, [a, b, c, d]) = diamond();
    let r = residuals(&g).unwrap();
    assert_eq!(cut_from_residual(&r, a), vec!["A", "B", "C", "D"]);
    assert_eq!(cut_from_residual(&r, b), vec!["B", "C", "D"]);
    assert_eq!(cut_from_residual(&r, c), vec!["C", "D"]);
    assert_eq!(cut_from_residual(&r, d), vec!["D"]);
}

#[test]
fn cut_is_the_same_when_asked_twice() {
    let (g, [a, _, _, d]) = diamond();
    let mut r = residuals(&g).unwrap();
    while find_augmenting_path(&mut r, a, d) {}
    let first = cut_from_residual(&r, a);
    let second = cut_from_residual(&r, a);
    assert_eq!(first, second);
    assert_eq!(first, vec!["A", "B"]);
}

#[test]
fn max_flow_does_not_depend_on_the_order_of_the_arcs() {
    let (_, arcs) = trunk_network();
    let mut orders = vec![arcs.clone()];
    let mut backwards = arcs.clone();
    backwards.reverse();
    orders.push(backwards);
    let mut rotated = arcs.clone();
    rotated.rotate_left(4);
    orders.push(rotated);
    for order in orders {
        let mut g = Network::new();
        for v in 0..6 {
            g.add_node(v);
        }
        for &(a, b, w) in order.iter() {
            g.add_edge(a, b, w);
        }
        let mut r = residuals(&g).unwrap();
        while find_augmenting_path(&mut r, 0, 5) {}
        let f = flow_from_residuals(&g, &r).unwrap();
        let mut value = 0;
        for (i, &(a, _, _)) in order.iter().enumerate() {
            if a == 0 {
                value += f.edge(i).unwrap().weight;
            }
        }
        assert_eq!(value, 23);
        assert_eq!(cut_from_residual(&r, 0), vec![0, 1, 2, 4]);
    }
}

/// A small generator of numbers that look random.
fn next(state: &mut u64) -> u64 {
    *state = state.wrapping_mul(6364136223846793005).wrapping_add(1442695040888963407);
    *state >> 33
}

#[test]
fn min_cut_agrees_with_trying_every_cut() {
    let mut state = 2024;
    for round in 0..200 {
        let n = 2 + (round % 5) as usize;
        let mut g = Network::new();
        for v in 0..n {
            g.add_node(v);
        }
        let mut arcs = Vec::new();
        for a in 0..n {
            for b in (a + 1)..n {
                let weight = next(&mut state) % 10;
                match next(&mut state) % 3 {
                    0 => arcs.push((a, b, weight)),
                    1 => arcs.push((b, a, weight)),
                    _ => {}
                }
            }
        }
        for &(a, b, w) in arcs.iter() {
            g.add_edge(a, b, w);
        }
        let (src, dst) = (0, n - 1);
        // Every set of nodes with the source and without the sink is a cut.
        let capacity = |side: u32| -> u64 {
            arcs.iter()
                .filter(|(a, b, _)| side & (1 << a) != 0 && side & (1 << b) == 0)
                .map(|(_, _, w)| *w)
                .sum()
        };
        let cuts: Vec<u32> = (0..(1u32 << n))
            .filter(|side| side & (1 << src) != 0 && side & (1 << dst) == 0)
            .collect();
        let least = cuts.iter().map(|side| capacity(*side)).min().unwrap();
        let closest = cuts
            .iter()
            .filter(|side| capacity(**side) == least)
            .fold(u32::MAX, |all, side| all & side);

        let mut r = residuals(&g).unwrap();
        while find_augmenting_path(&mut r, src, dst) {}
        let f = flow_from_residuals(&g, &r).unwrap();
        let mut value = 0i64;
        for (i, &(a, b, w)) in arcs.iter().enumerate() {
            let flow = f.edge(i).unwrap().weight;
            assert!(flow <= w);
            if a == src {
                value += flow as i64;
            }
            if b == src {
                value -= flow as i64;
            }
        }
        assert_eq!(value, least as i64);

        let cut = min_cut(&g, src, dst).unwrap();
        assert_eq!(cut, cut_from_residual(&r, src));
        let side = cut.iter().fold(0u32, |side, v| side | (1 << v));
        assert_eq!(capacity(side), least);
        assert_eq!(side, closest);
    }
}
