use the_dagwood::graph::DependencyGraph;
use the_dagwood::string_map::StringMap;

fn graph_of(entries: &[(&str, &[&str])]) -> DependencyGraph {
    let mut graph = StringMap::new();
    for (id, deps) in entries {
        graph.insert(id.to_string(), deps.iter().map(|d| d.to_string()).collect::<Vec<String>>());
    }
    DependencyGraph::from(graph)
}

#[test]
fn dependency_graph_test_build_dependency_counts() {
    // A diamond: a -> [b, c] -> d
    let dependency_graph = graph_of(&[("a", &["b", "c"]), ("b", &["d"]), ("c", &["d"]), ("d", &[])]);
    let counts = dependency_graph.build_dependency_counts();

    assert_eq!(counts.get("a"), Some(&0));
    assert_eq!(counts.get("b"), Some(&1));
    assert_eq!(counts.get("c"), Some(&1));
    assert_eq!(counts.get("d"), Some(&2));
}

#[test]
fn test_build_reverse_dependencies() {
    // A chain: a -> b -> c
    let dependency_graph = graph_of(&[("a", &["b"]), ("b", &["c"]), ("c", &[])]);
    let reverse_deps = dependency_graph.build_reverse_dependencies();

    assert_eq!(reverse_deps.get("a"), Some(&vec![]));
    assert_eq!(reverse_deps.get("b"), Some(&vec!["a".to_string()]));
    assert_eq!(reverse_deps.get("c"), Some(&vec!["b".to_string()]));
}

#[test]
fn test_topological_sort_valid_graph() {
    let dependency_graph = graph_of(&[("a", &["b", "c"]), ("b", &["d"]), ("c", &["d"]), ("d", &[])]);
    let topo_order = dependency_graph.topological_sort().unwrap();

    let a_pos = topo_order.iter().position(|x| x == "a").unwrap();
    let b_pos = topo_order.iter().position(|x| x == "b").unwrap();
    let c_pos = topo_order.iter().position(|x| x == "c").unwrap();
    let d_pos = topo_order.iter().position(|x| x == "d").unwrap();

    assert!(a_pos < b_pos);
    assert!(a_pos < c_pos);
    assert!(b_pos < d_pos);
    assert!(c_pos < d_pos);
    assert_eq!(topo_order.len(), 4);
}

#[test]
fn test_topological_sort_cyclic_graph() {
    // A cycle: a -> b -> c -> a
    let dependency_graph = graph_of(&[("a", &["b"]), ("b", &["c"]), ("c", &["a"])]);
    let topo_order = dependency_graph.topological_sort();

    assert!(topo_order.is_none());
}

#[test]
fn test_topological_ranks() {
    let dependency_graph = graph_of(&[("a", &["b"]), ("b", &["c"]), ("c", &[])]);
    let ranks = dependency_graph.topological_ranks().unwrap();

    assert_eq!(ranks.get("a"), Some(&0));
    assert_eq!(ranks.get("b"), Some(&1));
    assert_eq!(ranks.get("c"), Some(&2));
}

#[test]
fn test_topological_ranks_cyclic_graph() {
    let dependency_graph = graph_of(&[("a", &["b"]), ("b", &["a"])]);
    let ranks = dependency_graph.topological_ranks();

    assert!(ranks.is_none());
}

#[test]
fn test_empty_graph() {
    let dependency_graph = DependencyGraph::new();

    let counts = dependency_graph.build_dependency_counts();
    let reverse_deps = dependency_graph.build_reverse_dependencies();
    let topo_order = dependency_graph.topological_sort().unwrap();
    let ranks = dependency_graph.topological_ranks().unwrap();

    assert!(counts.is_empty());
    assert!(reverse_deps.is_empty());
    assert!(topo_order.is_empty());
    assert!(ranks.is_empty());
}

#[test]
fn dependency_graph_test_single_processor() {
    let dependency_graph = graph_of(&[("a", &[])]);
    let counts = dependency_graph.build_dependency_counts();
    let reverse_deps = dependency_graph.build_reverse_dependencies();
    let topo_order = dependency_graph.topological_sort().unwrap();
    let ranks = dependency_graph.topological_ranks().unwrap();

    assert_eq!(counts.get("a"), Some(&0));
    assert_eq!(reverse_deps.get("a"), Some(&vec![]));
    assert_eq!(topo_order, vec!["a"]);
    assert_eq!(ranks.get("a"), Some(&0));
}

#[test]
fn dependency_graph_test_multiple_entrypoints() {
    // Two entry points: [a, b] -> c
    let dependency_graph = graph_of(&[("a", &["c"]), ("b", &["c"]), ("c", &[])]);
    let counts = dependency_graph.build_dependency_counts();
    let reverse_deps = dependency_graph.build_reverse_dependencies();
    let topo_order = dependency_graph.topological_sort().unwrap();

    assert_eq!(counts.get("a"), Some(&0));
    assert_eq!(counts.get("b"), Some(&0));
    assert_eq!(counts.get("c"), Some(&2));

    assert_eq!(reverse_deps.get("a"), Some(&vec![]));
    assert_eq!(reverse_deps.get("b"), Some(&vec![]));
    let c_deps = reverse_deps.get("c").unwrap();
    assert_eq!(c_deps.len(), 2);
    assert!(c_deps.contains(&"a".to_string()));
    assert!(c_deps.contains(&"b".to_string()));

    assert_eq!(topo_order.len(), 3);
    let c_pos = topo_order.iter().position(|x| x == "c").unwrap();
    let a_pos = topo_order.iter().position(|x| x == "a").unwrap();
    let b_pos = topo_order.iter().position(|x| x == "b").unwrap();
    assert!(a_pos < c_pos);
    assert!(b_pos < c_pos);
}

#[test]
fn test_dependency_counts_and_ranks_efficiency() {
    let dependency_graph = graph_of(&[("a", &["b", "c"]), ("b", &["d"]), ("c", &["d"]), ("d", &[])]);

    let result = dependency_graph.dependency_counts_and_ranks();
    assert!(result.is_some());

    let (counts, ranks) = result.unwrap();

    assert_eq!(counts.get("a"), Some(&0));
    assert_eq!(counts.get("b"), Some(&1));
    assert_eq!(counts.get("c"), Some(&1));
    assert_eq!(counts.get("d"), Some(&2));

    assert_eq!(ranks.get("a"), Some(&0));
    assert_eq!(ranks.get("d"), Some(&3));

    let separate_counts = dependency_graph.build_dependency_counts();
    let separate_ranks = dependency_graph.topological_ranks().unwrap();

    assert_eq!(counts, separate_counts);
    assert_eq!(ranks, separate_ranks);
}

#[test]
fn test_dependency_counts_and_ranks_cyclic_graph() {
    let dependency_graph = graph_of(&[("a", &["b"]), ("b", &["a"])]);
    let result = dependency_graph.dependency_counts_and_ranks();

    assert!(result.is_none());
}

#[test]
fn sort_takes_dependents_without_entries() {
    let graph = graph_of(&[("a", &["b"])]);
    assert_eq!(graph.topological_sort(), Some(vec!["a".to_string(), "b".to_string()]));
    let ranks = graph.topological_ranks().unwrap();
    assert_eq!(ranks.get("b"), Some(&1));
    let cyclic = graph_of(&[("a", &["b"]), ("b", &["a"]), ("c", &["d"])]);
    assert_eq!(cyclic.topological_sort(), None);
}
