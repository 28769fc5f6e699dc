use std::collections::{BTreeSet, HashSet};

use toru::error::Error;
use toru::graph::Graph;
use toru::index::Index;
use toru::state::InternalState;
use toru::tasks::{Date, DateTime, InternalTask, Priority};

fn task(id: u64, name: &str, dependencies: &[u64]) -> InternalTask {
    InternalTask {
        id,
        name: String::from(name),
        tags: Vec::new(),
        dependencies: dependencies.iter().copied().collect(),
        priority: Priority::Low,
        due: None,
        created: DateTime { date: Date { days: 738000 }, secs: 0, nanos: 0 },
        completed: None,
        info: None,
        time_entries: Vec::new(),
    }
}

fn names(list: &[&str]) -> Vec<String> {
    list.iter().map(|name| String::from(*name)).collect()
}

fn bucket(index: &Index, name: &str) -> Option<Vec<u64>> {
    index.buckets().into_iter().find(|(n, _)| n == name).map(|(_, ids)| ids)
}

fn state_of(tasks: &[InternalTask]) -> InternalState {
    let files: Vec<String> = tasks.iter().map(|t| format!("{}.toml", t.id)).collect();
    InternalState::bootstrap(&files, &tasks.iter().map(|t| task_copy(t)).collect()).unwrap()
}

fn task_copy(t: &InternalTask) -> InternalTask {
    task(t.id, &t.name, &t.dependencies.iter().copied().collect::<Vec<u64>>())
}

#[test]
fn new_state_is_empty() {
    let state = InternalState::new();
    assert_eq!(state.next_id, 0);
    assert!(state.index.buckets().is_empty());
    assert!(state.deps.edges.is_empty());
}

#[test]
fn bootstrap_of_an_empty_vault_starts_at_zero() {
    let state = InternalState::bootstrap(&Vec::new(), &Vec::new()).unwrap();
    assert_eq!(state.next_id, 0);
    assert!(state.index.buckets().is_empty());
    assert!(state.deps.edges.is_empty());
}

#[test]
fn bootstrap_continues_after_the_greatest_file() {
    let files = names(&["3.toml", "state.toml", "10.toml", "notes.txt", "7.toml", "011.toml"]);
    let state = InternalState::bootstrap(&files, &Vec::new()).unwrap();
    assert_eq!(state.next_id, 11);
    let zero = InternalState::bootstrap(&names(&["0.toml"]), &Vec::new()).unwrap();
    assert_eq!(zero.next_id, 1);
    let none = InternalState::bootstrap(&names(&["a.toml", "temp.md"]), &Vec::new()).unwrap();
    assert_eq!(none.next_id, 0);
}

#[test]
fn bootstrap_rebuilds_the_index_and_the_graph() {
    let tasks = vec![task(0, "a", &[]), task(2, "b", &[0]), task(5, "a", &[0, 2])];
    let state = InternalState::bootstrap(&names(&["0.toml", "2.toml", "5.toml"]), &tasks).unwrap();
    assert_eq!(state.next_id, 6);
    assert_eq!(bucket(&state.index, "a"), Some(vec![0, 5]));
    assert_eq!(bucket(&state.index, "b"), Some(vec![2]));
    assert_eq!(state.deps.edges.get(&0).unwrap(), &BTreeSet::new());
    assert_eq!(state.deps.edges.get(&2).unwrap(), &BTreeSet::from([0]));
    assert_eq!(state.deps.edges.get(&5).unwrap(), &BTreeSet::from([0, 2]));
    assert_eq!(state.deps.edges.len(), 3);
}

#[test]
fn bootstrap_refuses_a_vault_that_has_used_the_last_identifier() {
    match InternalState::bootstrap(&names(&["1.toml", "18446744073709551615.toml"]), &Vec::new()) {
        Err(Error::Internal(message)) => {
            assert_eq!(message, "No further task ID is left in this vault")
        },
        other => panic!("expected a refusal, got {:?}", other),
    }
}

#[test]
fn graph_create_takes_the_later_of_two_tasks_with_one_identifier() {
    let graph = Graph::create(&vec![task(1, "a", &[2]), task(2, "b", &[]), task(1, "c", &[])]);
    assert_eq!(graph.edges.get(&1).unwrap(), &BTreeSet::new());
    assert_eq!(graph.edges.len(), 2);
}

#[test]
fn index_create_groups_by_name() {
    let index = Index::create(&vec![task(1, "a", &[]), task(2, "b", &[]), task(3, "a", &[])]);
    assert_eq!(bucket(&index, "a"), Some(vec![1, 3]));
    assert_eq!(bucket(&index, "b"), Some(vec![2]));
    assert_eq!(index.buckets().len(), 2);
}

#[test]
fn remove_task_takes_it_out_of_index_and_graph() {
    let mut state = state_of(&[task(0, "a", &[]), task(1, "b", &[0]), task(2, "c", &[0, 1])]);
    let dependents = state.remove_task(&String::from("a"), 0);
    assert_eq!(dependents, HashSet::from([1, 2]));
    assert_eq!(state.next_id, 3);
    assert_eq!(bucket(&state.index, "a"), None);
    assert!(!state.deps.contains_node(0));
    assert_eq!(state.deps.edges.get(&1).unwrap(), &BTreeSet::new());
    assert_eq!(state.deps.edges.get(&2).unwrap(), &BTreeSet::from([1]));
    let none = state.remove_task(&String::from("a"), 0);
    assert!(none.is_empty());
    assert_eq!(state.deps.edges.len(), 2);
}

#[test]
fn edit_of_dependencies_updates_the_graph() {
    let mut state = state_of(&[task(0, "a", &[]), task(1, "b", &[0]), task(2, "c", &[])]);
    let before = task(1, "b", &[0]);
    let edited = task(1, "b", &[2]);
    state.apply_edit(&before, &edited).unwrap();
    assert_eq!(state.deps.edges.get(&1).unwrap(), &BTreeSet::from([2]));
    assert_eq!(state.next_id, 3);
    assert_eq!(bucket(&state.index, "b"), Some(vec![1]));
}

#[test]
fn edit_that_closes_a_cycle_is_refused_and_changes_nothing() {
    colored::control::set_override(false);
    let mut state = state_of(&[task(5, "five", &[]), task(6, "six", &[5])]);
    let before = task(5, "five", &[]);
    let edited = task(5, "renamed", &[6]);
    match state.apply_edit(&before, &edited) {
        Err(Error::Generic(message)) => assert_eq!(
            message,
            "Note edit aborted due to circular dependency: 5 -> 6 -> 5"
        ),
        other => panic!("expected a refusal, got {:?}", other),
    }
    assert_eq!(state.deps.edges.get(&5).unwrap(), &BTreeSet::new());
    assert_eq!(state.deps.edges.get(&6).unwrap(), &BTreeSet::from([5]));
    assert_eq!(bucket(&state.index, "five"), Some(vec![5]));
    assert_eq!(bucket(&state.index, "renamed"), None);
    assert_eq!(state.deps.find_cycle(), None);
}

#[test]
fn edit_of_the_name_updates_the_index() {
    let mut state = state_of(&[task(0, "old", &[]), task(1, "old", &[])]);
    state.apply_edit(&task(0, "old", &[]), &task(0, "new", &[])).unwrap();
    assert_eq!(bucket(&state.index, "old"), Some(vec![1]));
    assert_eq!(bucket(&state.index, "new"), Some(vec![0]));
    assert_eq!(state.index.lookup(&String::from("new")).unwrap(), 0);
}

#[test]
fn edit_that_changes_nothing_is_taken() {
    let mut state = state_of(&[task(0, "a", &[]), task(1, "b", &[0])]);
    state.apply_edit(&task(1, "b", &[0]), &task(1, "b", &[0])).unwrap();
    assert_eq!(state.deps.edges.get(&1).unwrap(), &BTreeSet::from([0]));
    assert_eq!(bucket(&state.index, "b"), Some(vec![1]));
}

#[test]
fn edit_of_the_identifier_is_refused() {
    let mut state = state_of(&[task(0, "a", &[])]);
    match state.apply_edit(&task(0, "a", &[]), &task(1, "a", &[])) {
        Err(Error::Generic(message)) => {
            assert_eq!(message, "You cannot change the ID of a task in a direct edit")
        },
        other => panic!("expected a refusal, got {:?}", other),
    }
}

#[test]
fn edit_to_a_numeric_name_is_refused() {
    let mut state = state_of(&[task(0, "a", &[])]);
    match state.apply_edit(&task(0, "a", &[]), &task(0, "2024", &[])) {
        Err(Error::Generic(message)) => assert_eq!(message, "Name must not be purely numeric"),
        other => panic!("expected a refusal, got {:?}", other),
    }
    assert_eq!(bucket(&state.index, "a"), Some(vec![0]));
}

#[test]
fn edit_goes_by_what_it_is_told_of_the_name() {
    let mut state = state_of(&[task(0, "a", &[])]);
    state.apply_edit_named(&task(0, "a", &[]), &task(0, "b", &[]), false).unwrap();
    assert_eq!(bucket(&state.index, "b"), Some(vec![0]));
    match state.apply_edit_named(&task(0, "b", &[]), &task(0, "c", &[]), true) {
        Err(Error::Generic(message)) => assert_eq!(message, "Name must not be purely numeric"),
        other => panic!("expected a refusal, got {:?}", other),
    }
    assert_eq!(bucket(&state.index, "b"), Some(vec![0]));
}

#[test]
fn edit_to_a_missing_dependency_is_refused() {
    colored::control::set_override(false);
    let mut state = state_of(&[task(0, "a", &[]), task(1, "b", &[0])]);
    match state.apply_edit(&task(1, "b", &[0]), &task(1, "b", &[0, 9])) {
        Err(Error::Generic(message)) => assert_eq!(message, "No task with an ID of 9 exists"),
        other => panic!("expected a refusal, got {:?}", other),
    }
    assert_eq!(state.deps.edges.get(&1).unwrap(), &BTreeSet::from([0]));
}

#[test]
fn edit_names_the_least_of_the_dependencies_that_cannot_be() {
    colored::control::set_override(false);
    let mut state = state_of(&[task(0, "a", &[]), task(3, "b", &[0])]);
    match state.apply_edit(&task(3, "b", &[0]), &task(3, "b", &[9, 0, 7])) {
        Err(Error::Generic(message)) => assert_eq!(message, "No task with an ID of 7 exists"),
        other => panic!("expected a refusal, got {:?}", other),
    }
    match state.apply_edit(&task(3, "b", &[0]), &task(3, "b", &[9, 3])) {
        Err(Error::Generic(message)) => {
            assert_eq!(message, "Note with ID 3 cannot depend on itself")
        },
        other => panic!("expected a refusal, got {:?}", other),
    }
    assert_eq!(state.deps.edges.get(&3).unwrap(), &BTreeSet::from([0]));
}

#[test]
fn edit_to_depend_on_itself_is_refused() {
    colored::control::set_override(false);
    let mut state = state_of(&[task(0, "a", &[]), task(1, "b", &[0])]);
    match state.apply_edit(&task(1, "b", &[0]), &task(1, "b", &[1])) {
        Err(Error::Generic(message)) => {
            assert_eq!(message, "Note with ID 1 cannot depend on itself")
        },
        other => panic!("expected a refusal, got {:?}", other),
    }
    assert_eq!(state.deps.edges.get(&1).unwrap(), &BTreeSet::from([0]));
}

#[test]
fn edit_of_the_dependencies_of_what_is_no_node_is_internal_error() {
    let mut state = state_of(&[task(0, "a", &[])]);
    match state.apply_edit(&task(4, "b", &[]), &task(4, "b", &[0])) {
        Err(Error::Internal(message)) => assert_eq!(
            message,
            "Attempt to insert an edge in the dependency graph with a node which wasn't present"
        ),
        other => panic!("expected an internal error, got {:?}", other),
    }
    assert_eq!(state.deps.edges.len(), 1);
}
