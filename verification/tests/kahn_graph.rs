use the_dagwood::kahn_graph::Graph;

fn demo_graph() -> Graph {
    let mut g = Graph::new();
    for (a, b) in [("a", "b"), ("b", "c"), ("a", "c"), ("b", "d"), ("a", "e"), ("e", "f")] {
        g.add_edge(a.to_string(), b.to_string());
    }
    g
}

fn position(order: &[String], id: &str) -> usize {
    order.iter().position(|x| x == id).unwrap()
}

#[test]
fn kahn_sort_takes_every_node_in_edge_order() {
    let g = demo_graph();
    for order in [g.topological_sort().unwrap(), g.topological_sort_perf().unwrap()] {
        assert_eq!(order.len(), 6);
        for (a, b) in [("a", "b"), ("b", "c"), ("a", "c"), ("b", "d"), ("a", "e"), ("e", "f")] {
            assert!(position(&order, a) < position(&order, b));
        }
    }
}

#[test]
fn kahn_sort_reports_cycles() {
    let mut g = demo_graph();
    g.add_edge("f".to_string(), "a".to_string());
    assert_eq!(g.topological_sort(), Err("Cycle detected in graph".to_string()));
    assert_eq!(g.topological_sort_perf(), Err("Cycle detected in graph".to_string()));
    let mut loop_graph = Graph::new();
    loop_graph.add_edge("x".to_string(), "x".to_string());
    assert!(loop_graph.topological_sort().is_err());
}

#[test]
fn kahn_empty_graph() {
    let g = Graph::new();
    assert_eq!(g.topological_sort(), Ok(vec![]));
    assert_eq!(g.topological_sort_perf(), Ok(vec![]));
}

#[test]
fn in_degrees_count_edges() {
    let g = demo_graph();
    assert_eq!(g.in_degree.get("a"), Some(&0));
    assert_eq!(g.in_degree.get("c"), Some(&2));
    assert_eq!(g.in_degree.get("f"), Some(&1));
    assert_eq!(g.adjacency_list.get_dependents("a"), Some(&vec!["b".to_string(), "c".to_string(), "e".to_string()]));
    assert_eq!(g.adjacency_list.get_dependents("c"), None);
}

#[test]
fn diamonds_are_found() {
    // a -> b -> d and a -> c -> d
    let mut g = Graph::new();
    for (a, b) in [("a", "b"), ("a", "c"), ("b", "d"), ("c", "d"), ("c", "e")] {
        g.add_edge(a.to_string(), b.to_string());
    }
    let lines = g.diamonds();
    let expected = vec![
        ("a".to_string(), "b".to_string(), "d".to_string()),
        ("a".to_string(), "c".to_string(), "d".to_string()),
    ];
    assert_eq!(lines, expected);
    assert!(demo_graph().diamonds().is_empty());
}

#[test]
fn describe_lists_edges_and_degrees() {
    let mut g = Graph::new();
    g.add_edge("a".to_string(), "b".to_string());
    g.add_edge("a".to_string(), "c".to_string());
    let lines = g.describe();
    assert_eq!(
        lines,
        vec![
            "Graph:", "  Nodes: 3", "  Edges:", "    a → b", "    a → c", "  In-degrees:", "    b: 1", "    a: 0", "    c: 1",
        ]
    );
}

#[test]
fn visual_display_shows_trees() {
    let mut g = Graph::new();
    for (a, b) in [("a", "b"), ("b", "c"), ("a", "c")] {
        g.add_edge(a.to_string(), b.to_string());
    }
    let lines = g.visual_display();
    assert_eq!(
        lines,
        vec!["Graph Structure:", "├─ a", "  ├─ b", "    ├─ c", "  ├─ c (already visited)"]
    );
}
