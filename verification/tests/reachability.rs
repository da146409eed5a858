use nll::graph::Graph;
use nll::reachable::reachable;

#[test]
fn test1() {
    // 0 -> 1 -> 2 -> 3
    //      ^    v
    //      6 <- 4 -> 5
    let graph = Graph::new(
        7,
        vec![(0, 1), (1, 2), (2, 3), (2, 4), (4, 5), (4, 6), (6, 1)],
    );
    let reachable = reachable(&graph);
    assert!((0..6).all(|i| reachable.can_reach(0, i)));
    assert!((1..6).all(|i| reachable.can_reach(1, i)));
    assert!((1..6).all(|i| reachable.can_reach(2, i)));
    assert!((1..6).all(|i| reachable.can_reach(4, i)));
    assert!((1..6).all(|i| reachable.can_reach(6, i)));
    assert!(reachable.can_reach(3, 3));
    assert!(!reachable.can_reach(3, 5));
    assert!(!reachable.can_reach(5, 3));
}

#[test]
fn reach_scenario_all_pairs() {
    // The same graph, with every expected answer spelled out,
    // including the last column.
    let graph = Graph::new(
        7,
        vec![(0, 1), (1, 2), (2, 3), (2, 4), (4, 5), (4, 6), (6, 1)],
    );
    let r = reachable(&graph);
    for i in 0..7 {
        assert!(r.can_reach(0, i));
        assert!(r.can_reach(i, i));
    }
    for i in 1..7 {
        assert!(r.can_reach(1, i));
        assert!(r.can_reach(2, i));
        assert!(r.can_reach(4, i));
        assert!(r.can_reach(6, i));
    }
    assert!(!r.can_reach(3, 5));
    assert!(!r.can_reach(5, 3));
    assert!(!r.can_reach(3, 0));
    assert!(!r.can_reach(5, 6));
}

#[test]
fn reflexive_without_edges() {
    let graph = Graph::new(3, vec![]);
    let r = reachable(&graph);
    assert!(r.can_reach(0, 0));
    assert!(r.can_reach(1, 1));
    assert!(r.can_reach(2, 2));
    assert!(!r.can_reach(0, 1));
    assert!(!r.can_reach(2, 0));
}

#[test]
fn reflexive_with_self_loop() {
    let graph = Graph::new(2, vec![(0, 0)]);
    let r = reachable(&graph);
    assert!(r.can_reach(0, 0));
    assert!(r.can_reach(1, 1));
    assert!(!r.can_reach(1, 0));
}

#[test]
fn cycle_closure_three_nodes() {
    // 0 -> 1 -> 2 -> 0: one strongly connected component.
    let graph = Graph::new(3, vec![(0, 1), (1, 2), (2, 0)]);
    let r = reachable(&graph);
    for a in 0..3 {
        for b in 0..3 {
            assert!(r.can_reach(a, b));
        }
    }
}

#[test]
fn empty_graph() {
    let graph = Graph::new(0, vec![]);
    let _ = reachable(&graph);
}

#[test]
fn disconnected_components() {
    // Two separate two-node cycles.
    let graph = Graph::new(4, vec![(0, 1), (1, 0), (2, 3), (3, 2)]);
    let r = reachable(&graph);
    assert!(r.can_reach(0, 1));
    assert!(r.can_reach(1, 0));
    assert!(r.can_reach(2, 3));
    assert!(r.can_reach(3, 2));
    assert!(!r.can_reach(0, 2));
    assert!(!r.can_reach(3, 1));
}
