use the_dagwood::config::EntryPoints;
use the_dagwood::errors::ExecutionError;
use the_dagwood::graph::DependencyGraph;
use the_dagwood::level_by_level::{LevelByLevelExecutor, NO_ENTRY_POINTS_MESSAGE};
use the_dagwood::string_map::StringMap;

fn graph_of(entries: &[(&str, &[&str])]) -> DependencyGraph {
    let mut graph = StringMap::new();
    for (id, deps) in entries {
        graph.insert(id.to_string(), deps.iter().map(|d| d.to_string()).collect::<Vec<String>>());
    }
    DependencyGraph::from(graph)
}

fn entry_points(ids: &[&str]) -> EntryPoints {
    EntryPoints(ids.iter().map(|s| s.to_string()).collect())
}

#[test]
fn test_topological_levels_computation() {
    let executor = LevelByLevelExecutor::new(2);
    let graph = graph_of(&[("A", &["B", "C"]), ("B", &["D"]), ("C", &["D"]), ("D", &[])]);
    let levels = executor.compute_topological_levels(&graph, &entry_points(&["A"])).unwrap();

    assert_eq!(levels.len(), 3);
    assert_eq!(levels[0], vec!["A"]);
    assert!(levels[1].contains(&"B".to_string()));
    assert!(levels[1].contains(&"C".to_string()));
    assert_eq!(levels[1].len(), 2);
    assert_eq!(levels[2], vec!["D"]);
}

#[test]
fn test_cycle_detection() {
    let executor = LevelByLevelExecutor::new(2);
    let graph = graph_of(&[("Entry", &["A"]), ("A", &["B"]), ("B", &["C"]), ("C", &["A"])]);
    let result = executor.compute_topological_levels(&graph, &entry_points(&["Entry"]));
    assert!(result.is_err());
    let error = result.unwrap_err();
    assert!(matches!(error, ExecutionError::InternalError { .. }));
    if let ExecutionError::InternalError { message } = error {
        assert!(message.contains("cycles"));
    }
}

#[test]
fn test_no_valid_entrypoints() {
    let executor = LevelByLevelExecutor::new(2);
    let graph = graph_of(&[("A", &["B"]), ("B", &["A"])]);
    let result = executor.compute_topological_levels(&graph, &entry_points(&["A"]));
    assert!(result.is_err());
    let error = result.unwrap_err();
    assert!(matches!(error, ExecutionError::InternalError { .. }));
    if let ExecutionError::InternalError { message } = error {
        assert!(message.contains("No valid entry points"));
        assert_eq!(message, NO_ENTRY_POINTS_MESSAGE);
    }
}

#[test]
fn levels_put_dependencies_first() {
    let executor = LevelByLevelExecutor::new(0);
    assert_eq!(executor.max_concurrency, 1);
    let graph = graph_of(&[("a", &["c"]), ("b", &["c", "d"]), ("c", &["d"]), ("d", &[])]);
    let levels = executor.compute_topological_levels(&graph, &entry_points(&["a", "b"])).unwrap();
    assert_eq!(levels, vec![vec!["a".to_string(), "b".to_string()], vec!["c".to_string()], vec!["d".to_string()]]);
    let level_of = |id: &str| levels.iter().position(|l| l.iter().any(|x| x == id)).unwrap();
    assert!(level_of("a") < level_of("c"));
    assert!(level_of("b") < level_of("d"));
    assert!(level_of("c") < level_of("d"));
}

#[test]
fn levels_skip_entry_points_with_dependencies() {
    let executor = LevelByLevelExecutor::new(1);
    let graph = graph_of(&[("a", &["b"]), ("b", &[])]);
    let levels = executor.compute_topological_levels(&graph, &entry_points(&["b", "a"])).unwrap();
    assert_eq!(levels, vec![vec!["a".to_string()], vec!["b".to_string()]]);
}

#[test]
fn levels_count_unreached_dependents_as_cycle() {
    // `b` is listed as a dependent but has no entry of its own: the levels
    // place it, so they cover more ids than there are entries.
    let executor = LevelByLevelExecutor::new(1);
    let graph = graph_of(&[("a", &["b"])]);
    let result = executor.compute_topological_levels(&graph, &entry_points(&["a"]));
    assert!(matches!(result, Err(ExecutionError::InternalError { .. })));
}

#[test]
fn levels_walk_a_repeated_entry_point_twice() {
    // `a` is listed twice, so its edges are walked twice: `v` loses both of its
    // dependencies while the first level is taken off the queue and joins `x`.
    let executor = LevelByLevelExecutor::new(2);
    let graph = graph_of(&[("a", &["x", "v"]), ("x", &["v"]), ("v", &[])]);
    let levels = executor.compute_topological_levels(&graph, &entry_points(&["a", "a"])).unwrap();
    assert_eq!(
        levels,
        vec![vec!["a".to_string(), "a".to_string()], vec!["x".to_string(), "v".to_string()]]
    );
    let once = executor.compute_topological_levels(&graph, &entry_points(&["a"])).unwrap();
    assert_eq!(once, vec![vec!["a".to_string()], vec!["x".to_string()], vec!["v".to_string()]]);
}
