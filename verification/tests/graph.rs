use std::collections::{BTreeSet, HashSet};

use toru::error::Error;
use toru::graph::{format_cycle, Graph};

fn graph_of(edges: &[(u64, &[u64])]) -> Graph {
    let mut graph = Graph::new();
    for (node, targets) in edges {
        graph.edges.insert(*node, targets.iter().copied().collect::<BTreeSet<u64>>());
    }
    graph
}

fn is_real_cycle(graph: &Graph, path: &[u64]) -> bool {
    path.len() >= 2
        && path.first() == path.last()
        && path.windows(2).all(|pair| graph.edges.get(&pair[0]).map_or(false, |out| out.contains(&pair[1])))
}

#[test]
fn insert_node_tells_whether_the_node_is_new() {
    let mut graph = Graph::new();
    assert!(!graph.contains_node(3));
    assert!(graph.insert_node(3));
    assert!(graph.contains_node(3));
    assert!(!graph.insert_node(3));
}

#[test]
fn insert_node_keeps_the_edges_of_a_node_that_is_there() {
    let mut graph = Graph::new();
    graph.insert_node(0);
    graph.insert_node(1);
    assert_eq!(graph.insert_edge(1, 0).unwrap(), true);
    assert!(!graph.insert_node(1));
    assert_eq!(graph.edges.get(&1).unwrap(), &BTreeSet::from([0]));
}

#[test]
fn insert_edge_is_idempotent() {
    let mut graph = Graph::new();
    graph.insert_node(0);
    graph.insert_node(1);
    assert_eq!(graph.insert_edge(1, 0).unwrap(), true);
    assert_eq!(graph.insert_edge(1, 0).unwrap(), false);
    assert_eq!(graph.edges.get(&1).unwrap(), &BTreeSet::from([0]));
    assert!(graph.edges.get(&0).unwrap().is_empty());
}

#[test]
fn insert_edge_to_missing_node_is_internal_error() {
    let mut graph = Graph::new();
    graph.insert_node(1);
    match graph.insert_edge(1, 99) {
        Err(Error::Internal(message)) => assert_eq!(
            message,
            "Attempt to insert an edge in the dependency graph with a node which wasn't present"
        ),
        other => panic!("expected an internal error, got {:?}", other),
    }
    assert!(graph.edges.get(&1).unwrap().is_empty());
    assert!(!graph.contains_node(99));
}

#[test]
fn insert_edge_from_missing_node_is_internal_error() {
    let mut graph = Graph::new();
    graph.insert_node(1);
    assert!(matches!(graph.insert_edge(99, 1), Err(Error::Internal(_))));
    assert!(matches!(graph.insert_edge(98, 99), Err(Error::Internal(_))));
}

#[test]
fn insert_edge_to_itself_is_user_error() {
    colored::control::set_override(false);
    let mut graph = Graph::new();
    graph.insert_node(4);
    match graph.insert_edge(4, 4) {
        Err(Error::Generic(message)) => {
            assert_eq!(message, "Note with ID 4 cannot depend on itself")
        },
        other => panic!("expected a user error, got {:?}", other),
    }
    assert!(graph.edges.get(&4).unwrap().is_empty());
}

#[test]
fn remove_edge_tells_whether_there_was_one() {
    let mut graph = graph_of(&[(0, &[]), (1, &[0])]);
    assert!(!graph.remove_edge(0, 1));
    assert!(!graph.remove_edge(7, 0));
    assert!(!graph.remove_edge(1, 7));
    assert!(graph.remove_edge(1, 0));
    assert!(!graph.remove_edge(1, 0));
    assert!(graph.edges.get(&1).unwrap().is_empty());
    assert!(graph.contains_node(0) && graph.contains_node(1));
}

#[test]
fn remove_node_returns_dependents() {
    let mut graph = Graph::new();
    assert!(graph.insert_node(0));
    assert!(graph.insert_node(1));
    assert_eq!(graph.insert_edge(1, 0).unwrap(), true);
    assert_eq!(graph.edges.get(&0).unwrap(), &BTreeSet::new());
    assert_eq!(graph.edges.get(&1).unwrap(), &BTreeSet::from([0]));
    let (removed, dependents) = graph.remove_node(0);
    assert!(removed);
    assert_eq!(dependents, HashSet::from([1]));
    assert!(graph.edges.get(&1).unwrap().is_empty());
    assert!(!graph.contains_node(0));
}

#[test]
fn remove_node_that_is_absent_changes_nothing() {
    let mut graph = graph_of(&[(1, &[2]), (2, &[]), (3, &[9])]);
    let (removed, dependents) = graph.remove_node(9);
    assert!(!removed);
    assert!(dependents.is_empty());
    assert_eq!(graph.edges.len(), 3);
    assert_eq!(graph.edges.get(&1).unwrap(), &BTreeSet::from([2]));
    assert_eq!(graph.edges.get(&3).unwrap(), &BTreeSet::from([9]));
}

#[test]
fn remove_node_strips_every_edge_to_it() {
    let mut graph = graph_of(&[(1, &[4]), (2, &[4, 1]), (3, &[1]), (4, &[])]);
    let (removed, dependents) = graph.remove_node(4);
    assert!(removed);
    assert_eq!(dependents, HashSet::from([1, 2]));
    assert!(graph.edges.get(&1).unwrap().is_empty());
    assert_eq!(graph.edges.get(&2).unwrap(), &BTreeSet::from([1]));
    assert_eq!(graph.edges.get(&3).unwrap(), &BTreeSet::from([1]));
}

#[test]
fn graph_without_cycle_has_none() {
    let graph = graph_of(&[(0, &[]), (1, &[0]), (2, &[0, 1]), (3, &[2, 1]), (4, &[])]);
    assert_eq!(graph.find_cycle(), None);
    assert_eq!(Graph::new().find_cycle(), None);
}

#[test]
fn graph_built_by_guarded_inserts_without_cycle_has_none() {
    let mut graph = Graph::new();
    for node in 0..6 {
        graph.insert_node(node);
    }
    for node in 1..6u64 {
        for target in 0..node {
            graph.insert_edge(node, target).unwrap();
        }
    }
    assert_eq!(graph.find_cycle(), None);
}

#[test]
fn guarded_inserts_can_close_a_cycle() {
    let mut graph = Graph::new();
    graph.insert_node(0);
    graph.insert_node(1);
    graph.insert_edge(0, 1).unwrap();
    graph.insert_edge(1, 0).unwrap();
    assert_eq!(graph.find_cycle(), Some(vec![0, 1, 0]));
}

#[test]
fn two_tasks_depending_on_each_other_are_a_cycle() {
    let graph = graph_of(&[(5, &[6]), (6, &[5])]);
    assert_eq!(graph.find_cycle(), Some(vec![5, 6, 5]));
}

#[test]
fn search_starts_at_the_least_node() {
    assert_eq!(graph_of(&[(1, &[2]), (2, &[1])]).find_cycle(), Some(vec![1, 2, 1]));
    assert_eq!(graph_of(&[(0, &[1]), (1, &[2]), (2, &[1])]).find_cycle(), Some(vec![1, 2, 1]));
    let two = graph_of(&[(1, &[2]), (2, &[1]), (3, &[4]), (4, &[3])]);
    assert_eq!(two.find_cycle(), Some(vec![1, 2, 1]));
    assert_eq!(two.find_cycle(), Some(vec![1, 2, 1]));
    let later = graph_of(&[(1, &[]), (2, &[1]), (3, &[4]), (4, &[3])]);
    assert_eq!(later.find_cycle(), Some(vec![3, 4, 3]));
}

#[test]
fn search_follows_the_edges_in_ascending_order() {
    let graph = graph_of(&[(1, &[2, 3]), (2, &[4]), (3, &[1]), (4, &[2])]);
    assert_eq!(graph.find_cycle(), Some(vec![2, 4, 2]));
    let other = graph_of(&[(1, &[2, 3]), (2, &[]), (3, &[1])]);
    assert_eq!(other.find_cycle(), Some(vec![1, 3, 1]));
}

#[test]
fn cycle_is_made_of_real_edges() {
    let graph = graph_of(&[(1, &[2]), (2, &[3]), (3, &[1]), (4, &[1])]);
    let cycle = graph.find_cycle().unwrap();
    assert!(is_real_cycle(&graph, &cycle));
    assert_eq!(cycle, vec![1, 2, 3, 1]);
}

#[test]
fn cycle_away_from_the_first_node_is_found_without_the_way_to_it() {
    let graph = graph_of(&[(1, &[2]), (2, &[3]), (3, &[2])]);
    let cycle = graph.find_cycle().unwrap();
    assert!(is_real_cycle(&graph, &cycle));
    assert_eq!(cycle, vec![2, 3, 2]);
}

#[test]
fn self_loop_forced_into_the_graph_is_a_cycle() {
    let graph = graph_of(&[(7, &[7])]);
    assert_eq!(graph.find_cycle(), Some(vec![7, 7]));
}

#[test]
fn cycle_in_a_later_component_is_found() {
    let graph = graph_of(&[(0, &[1]), (1, &[]), (8, &[9]), (9, &[8])]);
    let cycle = graph.find_cycle().unwrap();
    assert!(is_real_cycle(&graph, &cycle));
    assert_eq!(cycle, vec![8, 9, 8]);
}

#[test]
fn edge_to_what_is_no_node_is_no_cycle() {
    let graph = graph_of(&[(1, &[2])]);
    assert_eq!(graph.find_cycle(), None);
}

#[test]
fn nested_deps_are_the_transitive_closure() {
    let graph = graph_of(&[(0, &[]), (1, &[0]), (2, &[1]), (3, &[2, 0]), (4, &[])]);
    assert_eq!(graph.get_nested_deps(3), HashSet::from([0, 1, 2]));
    assert_eq!(graph.get_nested_deps(1), HashSet::from([0]));
    assert_eq!(graph.get_nested_deps(0), HashSet::new());
    assert_eq!(graph.get_nested_deps(42), HashSet::new());
}

#[test]
fn tasks_with_dependents_are_the_edge_targets() {
    let graph = graph_of(&[(0, &[]), (1, &[0]), (2, &[1]), (3, &[2, 0]), (4, &[])]);
    assert_eq!(graph.get_tasks_with_dependents(), HashSet::from([0, 1, 2]));
    assert_eq!(Graph::new().get_tasks_with_dependents(), HashSet::new());
}

#[test]
fn nodes_come_in_ascending_order() {
    let graph = graph_of(&[(9, &[]), (1, &[]), (5, &[])]);
    assert_eq!(graph.nodes(), vec![1, 5, 9]);
}

#[test]
fn copy_has_the_same_edges() {
    let graph = graph_of(&[(0, &[]), (1, &[0])]);
    let copy = graph.copy();
    assert_eq!(copy.edges, graph.edges);
}

#[test]
fn format_cycle_puts_arrows_between_the_tasks() {
    colored::control::set_override(false);
    assert_eq!(format_cycle(&vec![5, 6, 5]), "5 -> 6 -> 5");
    assert_eq!(format_cycle(&vec![12]), "12");
    assert_eq!(format_cycle(&vec![]), "");
}
