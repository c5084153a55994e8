use shortest_path::graph::Graph;
use shortest_path::solver::find_shortest_path;

fn build(edges: &[(&str, &str, usize)]) -> Graph {
    let mut g = Graph::new();
    for (src, dest, cost) in edges {
        let s = g.get_or_insert_node(src);
        let d = g.get_or_insert_node(dest);
        g.add_bidirectional_edge(s, d, *cost);
    }
    g
}

fn index_of(g: &mut Graph, name: &str) -> usize {
    g.get_node(name).expect("vertex should be present")
}

#[test]
fn straight_line() {
    // a - b - z with costs 1 and 2
    let mut g = build(&[("a", "b", 1), ("b", "z", 2)]);
    let s = index_of(&mut g, "a");
    let t = index_of(&mut g, "z");
    let p = find_shortest_path(&g, s, t).expect("path should exist");
    assert_eq!(p.cost, 3);
    assert_eq!(p.path, vec![0, 1, 2]);
    assert_eq!(p.distance, vec![0, 1, 3]);
}

#[test]
fn cheaper_route_wins() {
    let mut g = build(&[("a", "b", 10), ("a", "c", 1), ("c", "z", 1), ("b", "z", 1)]);
    let s = index_of(&mut g, "a");
    let t = index_of(&mut g, "z");
    let p = find_shortest_path(&g, s, t).expect("path should exist");
    assert_eq!(p.cost, 2);
    // a = 0, b = 1, c = 2, z = 3: the cheap route goes through c
    assert_eq!(p.path, vec![0, 2, 3]);
    assert_eq!(p.distance, vec![0, 1, 2]);
}

#[test]
fn diamond_tie_breaks_deterministically() {
    let mut g = build(&[("a", "b", 1), ("a", "c", 1), ("b", "z", 1), ("c", "z", 1)]);
    let s = index_of(&mut g, "a");
    let t = index_of(&mut g, "z");
    let p = find_shortest_path(&g, s, t).expect("path should exist");
    assert_eq!(p.cost, 2);
    // ties pop the smaller position first, and b has the smaller index
    assert_eq!(p.path, vec![0, 1, 3]);
    assert_eq!(p.distance, vec![0, 1, 2]);
}

#[test]
fn unreachable_target_yields_no_path() {
    let mut g = build(&[("a", "b", 1), ("c", "z", 1)]);
    let s = index_of(&mut g, "a");
    let t = index_of(&mut g, "z");
    assert!(find_shortest_path(&g, s, t).is_none());
}

#[test]
fn parallel_edges_use_the_cheapest() {
    let mut g = build(&[("a", "z", 5), ("a", "z", 2), ("a", "z", 7)]);
    let s = index_of(&mut g, "a");
    let t = index_of(&mut g, "z");
    let p = find_shortest_path(&g, s, t).expect("path should exist");
    assert_eq!(p.cost, 2);
    assert_eq!(p.path, vec![0, 1]);
    assert_eq!(p.distance, vec![0, 2]);
}

#[test]
fn five_node_mesh() {
    let mut g = build(&[
        ("a", "b", 4),
        ("a", "c", 2),
        ("c", "b", 1),
        ("b", "d", 5),
        ("c", "d", 8),
        ("d", "z", 3),
        ("c", "z", 10),
    ]);
    let s = index_of(&mut g, "a");
    let t = index_of(&mut g, "z");
    let p = find_shortest_path(&g, s, t).expect("path should exist");
    assert_eq!(p.cost, 11);
    // a = 0, b = 1, c = 2, d = 3, z = 4: a -> c -> b -> d -> z
    assert_eq!(p.path, vec![0, 2, 1, 3, 4]);
    assert_eq!(p.distance, vec![0, 2, 3, 8, 11]);
}

#[test]
fn source_equals_target() {
    let mut g = build(&[("a", "b", 1)]);
    let s = index_of(&mut g, "a");
    let p = find_shortest_path(&g, s, s).expect("path should exist");
    assert_eq!(p.cost, 0);
    assert_eq!(p.path, vec![s]);
    assert_eq!(p.distance, vec![0]);
}

#[test]
fn self_loop_on_source_is_ignored() {
    let mut g = build(&[("a", "a", 1), ("a", "z", 2)]);
    let s = index_of(&mut g, "a");
    let t = index_of(&mut g, "z");
    let p = find_shortest_path(&g, s, t).expect("path should exist");
    assert_eq!(p.cost, 2);
    // the self loop never shows up on the path
    assert_eq!(p.path, vec![0, 1]);
    assert_eq!(p.distance, vec![0, 2]);
    for w in p.path.windows(2) {
        assert!(w[0] != w[1]);
    }
}

#[test]
fn empty_graph_has_no_path() {
    let mut g = Graph::new();
    let s = g.get_or_insert_node("a");
    let t = g.get_or_insert_node("z");
    assert!(find_shortest_path(&g, s, t).is_none());
}

#[test]
fn repeated_solves_are_identical() {
    let mut g = build(&[("a", "b", 1), ("a", "c", 1), ("b", "z", 1), ("c", "z", 1)]);
    let s = index_of(&mut g, "a");
    let t = index_of(&mut g, "z");
    let p1 = find_shortest_path(&g, s, t).expect("path should exist");
    let p2 = find_shortest_path(&g, s, t).expect("path should exist");
    assert_eq!(p1.path, p2.path);
    assert_eq!(p1.distance, p2.distance);
    assert_eq!(p1.cost, p2.cost);
}

#[test]
fn distances_never_decrease_along_the_path() {
    let mut g = build(&[
        ("a", "b", 4),
        ("a", "c", 2),
        ("c", "b", 1),
        ("b", "d", 5),
        ("c", "d", 8),
        ("d", "z", 3),
        ("c", "z", 10),
    ]);
    let s = index_of(&mut g, "a");
    let t = index_of(&mut g, "z");
    let p = find_shortest_path(&g, s, t).expect("path should exist");
    for w in p.distance.windows(2) {
        assert!(w[0] <= w[1]);
    }
    assert_eq!(p.distance[0], 0);
    assert_eq!(*p.distance.last().unwrap(), p.cost);
    assert_eq!(p.path[0], s);
    assert_eq!(*p.path.last().unwrap(), t);
}

#[test]
fn every_step_follows_an_edge_of_matching_cost() {
    let mut g = build(&[
        ("a", "b", 4),
        ("a", "c", 2),
        ("c", "b", 1),
        ("b", "d", 5),
        ("c", "d", 8),
        ("d", "z", 3),
        ("c", "z", 10),
    ]);
    let s = index_of(&mut g, "a");
    let t = index_of(&mut g, "z");
    let p = find_shortest_path(&g, s, t).expect("path should exist");
    for i in 0..p.path.len() - 1 {
        let u = p.path[i];
        let v = p.path[i + 1];
        let delta = p.distance[i + 1] - p.distance[i];
        assert!(g.list[u].iter().any(|e| e.node == v && e.cost == delta));
    }
}

#[test]
fn zero_cost_edges_are_walkable() {
    let mut g = build(&[("a", "b", 0), ("b", "z", 0)]);
    let s = index_of(&mut g, "a");
    let t = index_of(&mut g, "z");
    let p = find_shortest_path(&g, s, t).expect("path should exist");
    assert_eq!(p.cost, 0);
    assert_eq!(p.path, vec![0, 1, 2]);
    assert_eq!(p.distance, vec![0, 0, 0]);
}

#[test]
fn unrepresentable_detours_are_not_taken() {
    let mut g = build(&[("a", "b", usize::MAX), ("b", "z", usize::MAX), ("a", "z", 5)]);
    let s = index_of(&mut g, "a");
    let t = index_of(&mut g, "z");
    let p = find_shortest_path(&g, s, t).expect("path should exist");
    assert_eq!(p.cost, 5);
    assert_eq!(p.path, vec![0, 2]);
}

#[test]
fn path_whose_cost_cannot_be_represented_counts_as_no_path() {
    let mut g = build(&[("a", "b", usize::MAX), ("b", "z", usize::MAX)]);
    let s = index_of(&mut g, "a");
    let t = index_of(&mut g, "z");
    assert!(find_shortest_path(&g, s, t).is_none());
}

#[test]
fn disconnected_source_with_no_edges_at_all() {
    let mut g = Graph::new();
    let s = g.get_or_insert_node("a");
    let mid = g.get_or_insert_node("m");
    let t = g.get_or_insert_node("z");
    g.add_bidirectional_edge(mid, t, 1);
    assert!(find_shortest_path(&g, s, t).is_none());
}
