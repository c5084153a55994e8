use shortest_path::graph::Graph;

fn build(edges: &[(&str, &str, usize)]) -> Graph {
    let mut g = Graph::new();
    for (src, dest, cost) in edges {
        let s = g.get_or_insert_node(src);
        let d = g.get_or_insert_node(dest);
        g.add_bidirectional_edge(s, d, *cost);
    }
    g
}

#[test]
fn new_graph_is_empty() {
    let g = Graph::new();
    assert_eq!(g.nodes.len(), 0);
    assert_eq!(g.list.len(), 0);
    assert!(g.get_node_name(0).is_none());
}

#[test]
fn first_seen_order_assigns_indices() {
    let mut g = Graph::new();
    assert_eq!(g.get_or_insert_node("a"), 0);
    assert_eq!(g.get_or_insert_node("b"), 1);
    assert_eq!(g.get_or_insert_node("a"), 0);
    assert_eq!(g.get_or_insert_node("c"), 2);
    assert_eq!(g.get_or_insert_node("b"), 1);
    assert_eq!(g.nodes.len(), 3);
}

#[test]
fn get_node_finds_present_names_only() {
    let mut g = Graph::new();
    g.get_or_insert_node("alpha");
    g.get_or_insert_node("beta");
    assert_eq!(g.get_node("alpha"), Some(0));
    assert_eq!(g.get_node("beta"), Some(1));
    assert_eq!(g.get_node("gamma"), None);
    assert_eq!(g.get_node(""), None);
}

#[test]
fn get_node_name_round_trips() {
    let mut g = Graph::new();
    g.get_or_insert_node("x");
    g.get_or_insert_node("y");
    assert_eq!(g.get_node_name(0), Some("x"));
    assert_eq!(g.get_node_name(1), Some("y"));
    assert_eq!(g.get_node_name(2), None);
}

#[test]
fn undirected_edge_is_two_entries() {
    let mut g = Graph::new();
    let a = g.get_or_insert_node("a");
    let b = g.get_or_insert_node("b");
    g.add_bidirectional_edge(a, b, 7);
    assert_eq!(g.list[a].len(), 1);
    assert_eq!(g.list[b].len(), 1);
    assert_eq!(g.list[a][0].node, b);
    assert_eq!(g.list[a][0].cost, 7);
    assert_eq!(g.list[b][0].node, a);
    assert_eq!(g.list[b][0].cost, 7);
}

#[test]
fn self_loop_appends_both_entries_to_one_list() {
    let mut g = Graph::new();
    let a = g.get_or_insert_node("a");
    g.add_bidirectional_edge(a, a, 3);
    assert_eq!(g.list[a].len(), 2);
    assert_eq!(g.list[a][0].node, a);
    assert_eq!(g.list[a][1].node, a);
}

#[test]
fn parallel_edges_are_kept_distinct() {
    let mut g = Graph::new();
    let a = g.get_or_insert_node("a");
    let z = g.get_or_insert_node("z");
    g.add_bidirectional_edge(a, z, 5);
    g.add_bidirectional_edge(a, z, 2);
    assert_eq!(g.list[a].len(), 2);
    assert_eq!(g.list[a][0].cost, 5);
    assert_eq!(g.list[a][1].cost, 2);
}

#[test]
fn build_twice_yields_identical_graphs() {
    let edges = [("a", "b", 4), ("a", "c", 2), ("c", "b", 1), ("b", "d", 5)];
    let g1 = build(&edges);
    let g2 = build(&edges);
    assert_eq!(g1.nodes, g2.nodes);
    assert_eq!(g1.list, g2.list);
}
