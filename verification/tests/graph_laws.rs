use the_dagwood::graph::DependencyGraph;
use the_dagwood::string_map::StringMap;
use the_dagwood::validation::{find_diamond_paths, has_path_between};

fn graph_of(entries: &[(&str, &[&str])]) -> DependencyGraph {
    let mut graph = StringMap::new();
    for (id, deps) in entries {
        graph.insert(id.to_string(), deps.iter().map(|d| d.to_string()).collect::<Vec<String>>());
    }
    DependencyGraph::from(graph)
}

fn respects_edges(g: &DependencyGraph, order: &[String]) -> bool {
    g.keys().iter().all(|u| {
        g.get_dependents(u).unwrap().iter().all(|v| {
            let pu = order.iter().position(|x| x == u).unwrap();
            let pv = order.iter().position(|x| x == v).unwrap();
            pu < pv
        })
    })
}

#[test]
fn kahn_and_dfs_orders_respect_edges() {
    let g = graph_of(&[("e", &["c"]), ("a", &["b", "c"]), ("b", &["d"]), ("c", &["d"]), ("d", &[])]);
    let kahn = g.topological_sort().unwrap();
    let dfs = g.topological_sort_dfs().unwrap();
    assert_eq!(kahn.len(), 5);
    assert_eq!(dfs.len(), 5);
    assert!(respects_edges(&g, &kahn));
    assert!(respects_edges(&g, &dfs));
}

#[test]
fn dfs_sort_detects_cycles() {
    let g = graph_of(&[("a", &["b"]), ("b", &["c"]), ("c", &["a"])]);
    assert!(g.topological_sort_dfs().is_none());
    let g = graph_of(&[("a", &["a"])]);
    assert!(g.topological_sort_dfs().is_none());
    assert!(g.topological_sort().is_none());
}

#[test]
fn ranks_follow_the_order() {
    let g = graph_of(&[("a", &["b"]), ("b", &["c"]), ("c", &[])]);
    let order = g.topological_sort().unwrap();
    let ranks = g.topological_ranks().unwrap();
    for (i, id) in order.iter().enumerate() {
        assert_eq!(ranks.get(id), Some(&i));
    }
}

#[test]
fn reverse_dependencies_list_each_edge() {
    let g = graph_of(&[("a", &["c", "c"]), ("b", &["c"]), ("c", &[])]);
    let rev = g.build_reverse_dependencies();
    assert_eq!(rev.get("c"), Some(&vec!["a".to_string(), "a".to_string(), "b".to_string()]));
    assert_eq!(g.build_dependency_counts().get("c"), Some(&3));
}

#[test]
fn paths_and_diamonds() {
    // Edges point from a processor to those it depends on.
    let g = graph_of(&[("merge", &["left", "right"]), ("left", &["entry"]), ("right", &["entry"]), ("entry", &[])]);
    assert!(has_path_between("merge", "entry", &g));
    assert!(has_path_between("left", "left", &g));
    assert!(!has_path_between("entry", "merge", &g));
    let paths = find_diamond_paths("merge", &["left".to_string(), "right".to_string()], &g);
    assert_eq!(paths.len(), 2);
}
