use std::collections::BTreeSet;

use toru::args::{Column, Command, ListOptions, Order, OrderBy, StatsCommand, VaultCommand};
use toru::error::Error;
use toru::list::{list, text_precedes, unique_columns};
use toru::state::InternalState;
use toru::tasks::{Date, DateTime, Duration, InternalTask, Priority, TimeEntry};

fn moment(days: i32, secs: u32) -> DateTime {
    DateTime { date: Date { days }, secs, nanos: 0 }
}

fn task(id: u64, name: &str, dependencies: &[u64]) -> InternalTask {
    InternalTask {
        id,
        name: String::from(name),
        tags: Vec::new(),
        dependencies: dependencies.iter().copied().collect::<BTreeSet<u64>>(),
        priority: Priority::Low,
        due: None,
        created: moment(100 + id as i32, 0),
        completed: None,
        info: None,
        time_entries: Vec::new(),
    }
}

fn options() -> ListOptions {
    ListOptions {
        column: Vec::new(),
        order_by: None,
        order: None,
        tag: Vec::new(),
        exclude_tag: Vec::new(),
        priority: Vec::new(),
        due_before: None,
        due_after: None,
        created_before: None,
        created_after: None,
        include_completed: false,
        no_dependencies: false,
        no_dependents: false,
    }
}

fn tags(list: &[&str]) -> Vec<String> {
    list.iter().map(|tag| String::from(*tag)).collect()
}

fn state_of(tasks: &Vec<InternalTask>) -> InternalState {
    InternalState::bootstrap(&Vec::new(), tasks).unwrap()
}

fn sample() -> Vec<InternalTask> {
    let mut a = task(0, "pear", &[]);
    a.tags = tags(&["fruit", "green"]);
    a.priority = Priority::High;
    a.due = Some(moment(200, 10));
    a.time_entries = vec![TimeEntry::new(Duration::from_str("1:00").unwrap(), Some(Date { days: 1 }), None)];
    let mut b = task(1, "apple", &[0]);
    b.tags = tags(&["fruit"]);
    b.priority = Priority::Backlog;
    b.completed = Some(moment(150, 0));
    b.time_entries = vec![TimeEntry::new(Duration::from_str("0:30").unwrap(), Some(Date { days: 1 }), None)];
    let mut c = task(2, "zucchini", &[1]);
    c.tags = tags(&["green"]);
    c.priority = Priority::Medium;
    c.due = Some(moment(180, 0));
    let mut d = task(3, "Banana", &[]);
    d.due = Some(moment(200, 5));
    d.time_entries = vec![TimeEntry::new(Duration::from_str("1:00").unwrap(), Some(Date { days: 2 }), None)];
    vec![a, b, c, d]
}

fn order_with(change: impl FnOnce(&mut ListOptions)) -> Vec<usize> {
    let tasks = sample();
    let state = state_of(&tasks);
    let mut chosen = options();
    change(&mut chosen);
    list(&chosen, &tasks, &state).unwrap().order
}

#[test]
fn list_leaves_completed_tasks_out() {
    assert_eq!(order_with(|_| {}), vec![0, 2, 3]);
    assert_eq!(order_with(|o| o.include_completed = true), vec![0, 1, 2, 3]);
}

#[test]
fn list_sorts_both_ways() {
    assert_eq!(order_with(|o| { o.include_completed = true; o.order = Some(Order::Desc) }), vec![3, 2, 1, 0]);
    assert_eq!(order_with(|o| { o.include_completed = true; o.order_by = Some(OrderBy::Id); o.order = Some(Order::Asc) }), vec![0, 1, 2, 3]);
}

#[test]
fn list_sorts_by_name() {
    assert_eq!(order_with(|o| { o.include_completed = true; o.order_by = Some(OrderBy::Name) }), vec![3, 1, 0, 2]);
    assert_eq!(order_with(|o| { o.include_completed = true; o.order_by = Some(OrderBy::Name); o.order = Some(Order::Desc) }), vec![2, 0, 1, 3]);
}

#[test]
fn list_sorts_by_due_date_with_none_last() {
    assert_eq!(order_with(|o| { o.include_completed = true; o.order_by = Some(OrderBy::Due) }), vec![2, 3, 0, 1]);
    assert_eq!(order_with(|o| { o.include_completed = true; o.order_by = Some(OrderBy::Due); o.order = Some(Order::Desc) }), vec![1, 0, 3, 2]);
}

#[test]
fn list_sorts_by_priority_and_keeps_equals_in_place() {
    assert_eq!(order_with(|o| { o.include_completed = true; o.order_by = Some(OrderBy::Priority) }), vec![1, 3, 2, 0]);
    assert_eq!(order_with(|o| { o.include_completed = true; o.order_by = Some(OrderBy::Time) }), vec![2, 1, 0, 3]);
    assert_eq!(order_with(|o| { o.include_completed = true; o.order_by = Some(OrderBy::Time); o.order = Some(Order::Desc) }), vec![0, 3, 1, 2]);
    assert_eq!(order_with(|o| { o.include_completed = true; o.order_by = Some(OrderBy::Created); o.order = Some(Order::Desc) }), vec![3, 2, 1, 0]);
}

#[test]
fn list_filters_by_tags_and_priority() {
    assert_eq!(order_with(|o| { o.include_completed = true; o.tag = tags(&["fruit"]) }), vec![0, 1]);
    assert_eq!(order_with(|o| { o.include_completed = true; o.tag = tags(&["fruit", "green"]) }), vec![0, 1, 2]);
    assert_eq!(order_with(|o| { o.include_completed = true; o.exclude_tag = tags(&["green"]) }), vec![1, 3]);
    assert_eq!(order_with(|o| { o.include_completed = true; o.tag = tags(&["fruit"]); o.exclude_tag = tags(&["green"]) }), vec![1]);
    assert_eq!(order_with(|o| { o.include_completed = true; o.priority = vec![Priority::High, Priority::Backlog] }), vec![0, 1]);
}

#[test]
fn list_filters_by_dates() {
    assert_eq!(order_with(|o| { o.include_completed = true; o.created_before = Some(Date { days: 101 }) }), vec![0, 1]);
    assert_eq!(order_with(|o| { o.include_completed = true; o.created_after = Some(Date { days: 102 }) }), vec![2, 3]);
    assert_eq!(order_with(|o| { o.include_completed = true; o.due_before = Some(Date { days: 180 }) }), vec![2]);
    assert_eq!(order_with(|o| { o.include_completed = true; o.due_before = Some(Date { days: 200 }) }), vec![0, 2, 3]);
    assert_eq!(order_with(|o| { o.include_completed = true; o.due_after = Some(Date { days: 181 }) }), vec![0, 1, 3]);
}

#[test]
fn list_filters_by_dependencies() {
    assert_eq!(order_with(|o| { o.include_completed = true; o.no_dependents = true }), vec![2, 3]);
    assert_eq!(order_with(|o| { o.include_completed = true; o.no_dependencies = true }), vec![0, 3]);
    let mut tasks = sample();
    tasks[0].completed = Some(moment(160, 0));
    let state = state_of(&tasks);
    let mut chosen = options();
    chosen.include_completed = true;
    chosen.no_dependencies = true;
    assert_eq!(list(&chosen, &tasks, &state).unwrap().order, vec![0, 1, 2, 3]);
}

#[test]
fn list_refuses_open_dependencies_in_a_graph_with_a_cycle() {
    colored::control::set_override(false);
    let tasks = vec![task(5, "a", &[6]), task(6, "b", &[5])];
    let state = state_of(&tasks);
    let mut chosen = options();
    chosen.no_dependencies = true;
    match list(&chosen, &tasks, &state) {
        Err(Error::Internal(message)) => assert_eq!(
            message,
            "The dependency graph holds a circular dependency: 5 -> 6 -> 5"
        ),
        other => panic!("expected a refusal, got {:?}", other),
    }
    assert_eq!(list(&options(), &tasks, &state).unwrap().order, vec![0, 1]);
}

#[test]
fn list_shows_each_column_once() {
    let tasks = sample();
    let state = state_of(&tasks);
    let mut chosen = options();
    chosen.column = vec![Column::Tags, Column::Due, Column::Tags, Column::Time, Column::Due];
    assert_eq!(list(&chosen, &tasks, &state).unwrap().columns, vec![Column::Tags, Column::Due, Column::Time]);
    assert_eq!(unique_columns(&Vec::new()), Vec::<Column>::new());
    assert_eq!(Column::Time.header(), "Tracked");
    assert_eq!(Column::Due.header(), "Due");
    assert_eq!(Column::Tags.header(), "Tags");
    assert_eq!(Column::Priority.header(), "Priority");
    assert_eq!(Column::Status.header(), "Status");
    assert_eq!(Column::Created.header(), "Created");
}

#[test]
fn texts_are_ordered_like_strings() {
    for (a, b) in [("", ""), ("", "a"), ("a", ""), ("a", "b"), ("b", "a"), ("ab", "abc"),
        ("abc", "ab"), ("Banana", "apple"), ("é", "z"), ("z", "é"), ("same", "same")] {
        assert_eq!(text_precedes(a, b), a < b, "{:?} {:?}", a, b);
    }
}

#[test]
fn options_of_a_profile_are_combined_with_those_beside_it() {
    let mut profile = options();
    profile.column = vec![Column::Due];
    profile.order_by = Some(OrderBy::Name);
    profile.order = Some(Order::Desc);
    profile.tag = tags(&["a"]);
    profile.due_before = Some(Date { days: 5 });
    profile.created_after = Some(Date { days: 1 });
    profile.no_dependents = true;
    let mut additional = options();
    additional.column = vec![Column::Tags];
    additional.order_by = Some(OrderBy::Due);
    additional.order = Some(Order::Asc);
    additional.tag = tags(&["b"]);
    additional.exclude_tag = tags(&["c"]);
    additional.priority = vec![Priority::High];
    additional.due_before = Some(Date { days: 9 });
    additional.due_after = Some(Date { days: 2 });
    additional.include_completed = true;
    let combined = ListOptions::combine(&profile, &additional);
    assert_eq!(combined.column, vec![Column::Due, Column::Tags]);
    assert_eq!(combined.order_by, Some(OrderBy::Due));
    assert_eq!(combined.order, Some(Order::Desc));
    assert_eq!(combined.tag, tags(&["a", "b"]));
    assert_eq!(combined.exclude_tag, tags(&["c"]));
    assert_eq!(combined.priority, vec![Priority::High]);
    assert_eq!(combined.due_before, Some(Date { days: 9 }));
    assert_eq!(combined.due_after, Some(Date { days: 2 }));
    assert_eq!(combined.created_before, None);
    assert_eq!(combined.created_after, Some(Date { days: 1 }));
    assert!(combined.include_completed);
    assert!(!combined.no_dependencies);
    assert!(combined.no_dependents);
    assert_eq!(Order::default(), Order::Asc);
    assert_eq!(OrderBy::default(), OrderBy::Id);
}

#[test]
fn commands_on_tasks_need_the_state() {
    assert!(Command::View { id_or_name: String::from("1") }.needs_state());
    assert!(Command::Delete { id_or_name: String::from("1") }.needs_state());
    assert!(Command::List { profile: None, options: options() }.needs_state());
    assert!(Command::Stats(StatsCommand::Time { days: 7 }).needs_state());
    assert!(Command::Complete { id_or_name: String::from("a") }.needs_state());
    assert!(!Command::Switch { name: String::from("work") }.needs_state());
    assert!(!Command::Vault(VaultCommand::List).needs_state());
    assert!(!Command::Git { args: Vec::new() }.needs_state());
    assert!(!Command::GitIgnore.needs_state());
    assert!(!Command::SvnIgnore.needs_state());
}
