use std::cmp::Ordering;
use std::collections::BTreeSet;

use toru::error::Error;
use toru::state::InternalState;
use toru::tasks::{
    compare_due_dates, distinct, id_set, task_file_id, task_file_name, Date, DateTime, Duration,
    DurationRead, InternalTask, Priority, TimeEntry,
};

fn moment(days: i32, secs: u32) -> DateTime {
    DateTime { date: Date { days }, secs, nanos: 0 }
}

fn duration(text: &str) -> Duration {
    Duration::from_str(text).unwrap()
}

fn entry(text: &str, days: i32) -> TimeEntry {
    TimeEntry::new(duration(text), Some(Date { days }), None)
}

fn create(state: &mut InternalState, name: &str, dependencies: Vec<u64>) -> Result<InternalTask, Error> {
    InternalTask::new_at(
        String::from(name),
        None,
        Vec::new(),
        dependencies,
        None,
        None,
        moment(738000, 0),
        state,
    )
}

#[test]
fn priorities_are_ordered() {
    assert!(Priority::Backlog < Priority::Low);
    assert!(Priority::Low < Priority::Medium);
    assert!(Priority::Medium < Priority::High);
    assert_eq!(Priority::default(), Priority::Low);
    assert_eq!(Priority::Backlog.rank(), 0);
    assert_eq!(Priority::High.rank(), 3);
}

#[test]
fn duration_zero_is_no_time() {
    assert_eq!(Duration::zero().hours(), 0);
    assert_eq!(Duration::zero().minutes(), 0);
    assert_eq!(Duration::zero().to_string(), "0:00");
    assert!(Duration::zero().satisfies_invariant());
}

#[test]
fn duration_is_read_from_text() {
    let read = duration("12:05");
    assert_eq!((read.hours(), read.minutes()), (12, 5));
    let wide = duration("65535:59");
    assert_eq!((wide.hours(), wide.minutes()), (65535, 59));
    let loose = duration("+1:7");
    assert_eq!((loose.hours(), loose.minutes()), (1, 7));
}

#[test]
fn duration_with_sixty_minutes_is_refused() {
    assert_eq!(Duration::from_str("1:60"), Err(DurationRead::Minutes));
    assert_eq!(Duration::from_str("0:65535"), Err(DurationRead::Minutes));
}

#[test]
fn duration_out_of_range_is_refused() {
    assert_eq!(Duration::from_str("65536:00"), Err(DurationRead::Range));
    assert_eq!(Duration::from_str("1:65536"), Err(DurationRead::Range));
    assert_eq!(Duration::from_str("a:10"), Err(DurationRead::Range));
    assert_eq!(Duration::from_str(":10"), Err(DurationRead::Range));
    assert_eq!(Duration::from_str("10:"), Err(DurationRead::Range));
    assert_eq!(Duration::from_str("-1:10"), Err(DurationRead::Range));
    assert_eq!(Duration::from_str(":"), Err(DurationRead::Range));
}

#[test]
fn duration_without_one_colon_is_refused() {
    assert_eq!(Duration::from_str("130"), Err(DurationRead::General));
    assert_eq!(Duration::from_str(""), Err(DurationRead::General));
    assert_eq!(Duration::from_str("1:30:00"), Err(DurationRead::General));
    assert_eq!(Duration::from_str("::"), Err(DurationRead::General));
}

#[test]
fn duration_read_says_what_is_wrong() {
    assert_eq!(
        DurationRead::Minutes.to_string(),
        "the number of minutes must be between 0 and 59 inclusive"
    );
    assert_eq!(
        DurationRead::Range.to_string(),
        "the number of hours and minutes must be representable as a u16"
    );
    assert_eq!(
        DurationRead::General.to_string(),
        "duration must be in the format HH:MM where HH is any integer (representable as a u16) and MM is an integer between 0 and 59 inclusive"
    );
    assert_eq!(
        DurationRead::Minutes.serde_expected(),
        "the number of minutes to be an integer between 0 and 59 inclusive"
    );
    assert_eq!(
        DurationRead::Range.serde_expected(),
        "the number of hours and minutes to be representable as a u16"
    );
    assert_eq!(
        DurationRead::General.serde_expected(),
        "a duration in the format HH:MM where HH is any integer (representable as a u16) and MM is an integer between 0 and 59 inclusive"
    );
}

#[test]
fn duration_text_pads_the_minutes() {
    assert_eq!(duration("3:07").to_string(), "3:07");
    assert_eq!(duration("0:0").to_string(), "0:00");
    assert_eq!(duration("120:59").to_string(), "120:59");
}

#[test]
fn duration_text_reads_back() {
    for text in ["0:00", "0:59", "1:00", "23:45", "65535:59"] {
        assert_eq!(duration(text).to_string(), text);
        assert_eq!(Duration::from_str(&duration(text).to_string()), Ok(duration(text)));
    }
}

#[test]
fn duration_sum_carries_the_minutes() {
    assert_eq!(duration("1:45").add(duration("2:30")), duration("4:15"));
    assert_eq!(duration("0:59").add(duration("0:59")), duration("1:58"));
    assert_eq!(duration("0:30").add(duration("0:30")), duration("1:00"));
    assert_eq!(duration("65534:59").add(duration("0:01")), duration("65535:00"));
    assert!(duration("1:45").add(duration("2:30")).minutes() < 60);
}

#[test]
fn duration_checked_sum_refuses_what_does_not_fit() {
    assert_eq!(duration("1:45").checked_add(duration("2:30")), Some(duration("4:15")));
    assert_eq!(duration("65535:59").checked_add(duration("0:01")), None);
    assert_eq!(duration("65535:00").checked_add(duration("0:59")), Some(duration("65535:59")));
    assert_eq!(duration("40000:00").checked_add(duration("40000:00")), None);
}

#[test]
fn duration_share_rounds_to_the_nearest_minute() {
    assert_eq!(duration("1:00").div(3), duration("0:20"));
    assert_eq!(duration("1:00").div(1), duration("1:00"));
    assert_eq!(duration("0:01").div(2), duration("0:01"));
    assert_eq!(duration("0:01").div(3), duration("0:00"));
    assert_eq!(duration("0:05").div(2), duration("0:03"));
    assert_eq!(duration("2:30").div(4), duration("0:38"));
    assert_eq!(duration("65535:59").div(1), duration("65535:59"));
    assert_eq!(duration("65535:59").div(2), duration("32768:00"));
    assert_eq!(duration("10:00").div(usize::MAX), duration("0:00"));
    assert!(duration("2:30").div(7).minutes() < 60);
}

#[test]
fn duration_from_minutes_splits_hours_off() {
    assert_eq!(Duration::from_minutes(0), Some(Duration::zero()));
    assert_eq!(Duration::from_minutes(135), Some(duration("2:15")));
    assert_eq!(Duration::from_minutes(65536 * 60 - 1), Some(duration("65535:59")));
    assert_eq!(Duration::from_minutes(65536 * 60), None);
}

#[test]
fn durations_are_ordered_by_length() {
    assert!(duration("0:59") < duration("1:00"));
    assert!(duration("2:00") > duration("1:59"));
}

#[test]
fn time_entries_add_up() {
    let entries = vec![entry("1:45", 1), entry("0:30", 2), entry("2:50", 3)];
    assert_eq!(TimeEntry::total(&entries), duration("5:05"));
    assert_eq!(TimeEntry::checked_total(&entries), Some(duration("5:05")));
    assert_eq!(TimeEntry::total(&[]), Duration::zero());
    let long = vec![entry("65535:00", 1), entry("1:00", 2)];
    assert_eq!(TimeEntry::checked_total(&long), None);
}

#[test]
fn time_entry_keeps_what_it_is_given() {
    let made = TimeEntry::new(duration("0:25"), Some(Date { days: 738000 }), Some(String::from("call")));
    assert_eq!(made.logged_date, Date { days: 738000 });
    assert_eq!(made.message, Some(String::from("call")));
    assert_eq!(made.duration, duration("0:25"));
}

#[test]
fn time_entry_without_a_date_is_logged_today() {
    let made = TimeEntry::new(duration("0:25"), None, None);
    assert!(made.logged_date.days > 730000);
    assert_eq!(made.message, None);
}

#[test]
fn due_dates_compare_with_none_last() {
    assert_eq!(compare_due_dates::<u32>(&None, &None), Ordering::Equal);
    assert_eq!(compare_due_dates(&Some(5), &None), Ordering::Less);
    assert_eq!(compare_due_dates(&None, &Some(5)), Ordering::Greater);
    assert_eq!(compare_due_dates(&Some(1), &Some(5)), Ordering::Less);
    assert_eq!(compare_due_dates(&Some(5), &Some(5)), Ordering::Equal);
    assert_eq!(compare_due_dates(&Some(9), &Some(5)), Ordering::Greater);
    assert_eq!(
        compare_due_dates(&Some(moment(10, 5)), &Some(moment(10, 6))),
        Ordering::Less
    );
}

#[test]
fn moments_are_ordered() {
    assert!(moment(10, 5).is_before(&moment(10, 6)));
    assert!(moment(9, 80000).is_before(&moment(10, 0)));
    assert!(!moment(10, 5).is_before(&moment(10, 5)));
    assert!(!moment(11, 0).is_before(&moment(10, 5)));
    assert!(moment(10, 5) < moment(10, 6));
    assert_eq!(moment(1, 1).nanos(), 86401 * 1_000_000_000);
    assert_eq!(
        DateTime { date: Date { days: -1 }, secs: 0, nanos: 5 }.nanos(),
        -86400 * 1_000_000_000 + 5
    );
}

#[test]
fn task_file_names_are_the_identifier_and_the_extension() {
    assert_eq!(task_file_name(0), "0.toml");
    assert_eq!(task_file_name(42), "42.toml");
    assert_eq!(task_file_name(u64::MAX), "18446744073709551615.toml");
}

#[test]
fn task_file_names_read_back() {
    for id in [0, 1, 10, 42, 1000, u64::MAX] {
        assert_eq!(task_file_id(&task_file_name(id)), Some(id));
    }
}

#[test]
fn other_file_names_are_no_task_files() {
    for name in ["", ".toml", "a.toml", "1.txt", "1", "01.toml", "+1.toml", "1.toml.bak",
        "state.toml", "1.2.toml", "18446744073709551616.toml", " 1.toml", "1 .toml", "-1.toml",
        "1.TOML", "00.toml"] {
        assert_eq!(task_file_id(name), None, "{:?}", name);
    }
}

#[test]
fn distinct_keeps_the_first_of_each() {
    let tags = vec![String::from("b"), String::from("a"), String::from("b"), String::from("c"), String::from("a")];
    assert_eq!(distinct(tags), vec![String::from("b"), String::from("a"), String::from("c")]);
    assert_eq!(distinct(Vec::new()), Vec::<String>::new());
}

#[test]
fn id_set_holds_each_once() {
    assert_eq!(id_set(&vec![3, 1, 3, 2]), BTreeSet::from([1, 2, 3]));
}

#[test]
fn created_tasks_take_ascending_identifiers() {
    let mut state = InternalState::new();
    let a = create(&mut state, "A", vec![]).unwrap();
    let b = create(&mut state, "B", vec![a.id]).unwrap();
    assert_eq!(a.id, 0);
    assert_eq!(b.id, 1);
    assert_eq!(state.next_id, 2);
    assert_eq!(state.deps.edges.get(&0).unwrap(), &BTreeSet::new());
    assert_eq!(state.deps.edges.get(&1).unwrap(), &BTreeSet::from([0]));
    assert_eq!(state.deps.edges.len(), 2);
    assert_eq!(state.index.lookup(&String::from("A")).unwrap(), 0);
    assert_eq!(state.index.lookup(&String::from("B")).unwrap(), 1);
    assert_eq!(state.deps.find_cycle(), None);
}

#[test]
fn deleting_a_task_strips_it_from_its_dependents() {
    let mut state = InternalState::new();
    let a = create(&mut state, "A", vec![]).unwrap();
    let mut b = create(&mut state, "B", vec![a.id]).unwrap();
    assert_eq!(b.dependencies, BTreeSet::from([0]));
    let (removed, dependents) = state.deps.remove_node(a.id);
    assert!(removed);
    assert_eq!(dependents, std::collections::HashSet::from([1]));
    assert!(b.strip_dependency(a.id));
    assert!(b.dependencies.is_empty());
    assert!(!b.strip_dependency(a.id));
}

#[test]
fn identifiers_of_deleted_tasks_are_not_given_out_again() {
    let mut state = InternalState::new();
    let a = create(&mut state, "A", vec![]).unwrap();
    let b = create(&mut state, "B", vec![]).unwrap();
    let dependents = state.remove_task(&b.name, b.id);
    assert!(dependents.is_empty());
    state.remove_task(&a.name, a.id);
    assert_eq!(state.next_id, 2);
    let c = create(&mut state, "C", vec![]).unwrap();
    assert_eq!(c.id, 2);
    assert!(c.id > a.id && c.id > b.id);
    assert_eq!(state.next_id, 3);
    assert_eq!(state.deps.nodes(), vec![2]);
}

#[test]
fn created_task_holds_what_it_is_given() {
    let mut state = InternalState::new();
    create(&mut state, "first", vec![]).unwrap();
    let made = InternalTask::new_at(
        String::from("second"),
        Some(String::from("notes")),
        vec![String::from("x"), String::from("y"), String::from("x")],
        vec![0, 0],
        Some(Priority::High),
        Some(moment(738010, 60)),
        moment(738000, 30),
        &mut state,
    )
    .unwrap();
    assert_eq!(made.id, 1);
    assert_eq!(made.name, "second");
    assert_eq!(made.info, Some(String::from("notes")));
    assert_eq!(made.tags, vec![String::from("x"), String::from("y")]);
    assert_eq!(made.dependencies, BTreeSet::from([0]));
    assert_eq!(made.priority, Priority::High);
    assert_eq!(made.due, Some(moment(738010, 60)));
    assert_eq!(made.created, moment(738000, 30));
    assert_eq!(made.completed, None);
    assert!(made.time_entries.is_empty());
}

#[test]
fn created_task_without_priority_is_low() {
    let mut state = InternalState::new();
    let made = create(&mut state, "plain", vec![]).unwrap();
    assert_eq!(made.priority, Priority::Low);
}

#[test]
fn task_created_now_is_created_in_our_days() {
    let mut state = InternalState::new();
    let made = InternalTask::new(String::from("now"), None, vec![], vec![], None, None, &mut state).unwrap();
    assert_eq!(made.id, 0);
    assert!(made.created.date.days > 730000);
    assert!(made.created.secs < 86401);
}

#[test]
fn numeric_name_is_refused_and_changes_nothing() {
    let mut state = InternalState::new();
    create(&mut state, "A", vec![]).unwrap();
    for name in ["42", "", "٣"] {
        match create(&mut state, name, vec![0]) {
            Err(Error::Generic(message)) => assert_eq!(message, "Name must not be purely numeric"),
            other => panic!("expected a refusal, got {:?}", other),
        }
    }
    assert_eq!(state.next_id, 1);
    assert_eq!(state.deps.nodes(), vec![0]);
    assert_eq!(state.index.buckets().len(), 1);
}

#[test]
fn missing_dependency_is_refused_and_changes_nothing() {
    colored::control::set_override(false);
    let mut state = InternalState::new();
    create(&mut state, "A", vec![]).unwrap();
    create(&mut state, "B", vec![]).unwrap();
    match create(&mut state, "C", vec![0, 7, 1, 9]) {
        Err(Error::Generic(message)) => assert_eq!(message, "No task with an ID of 7 exists"),
        other => panic!("expected a refusal, got {:?}", other),
    }
    assert_eq!(state.next_id, 2);
    assert_eq!(state.deps.nodes(), vec![0, 1]);
    assert!(state.deps.edges.values().all(|outgoing| outgoing.is_empty()));
    assert!(matches!(state.index.lookup(&String::from("C")), Err(Error::Generic(_))));
}

#[test]
fn missing_dependency_is_named_where_colours_are_on() {
    colored::control::set_override(true);
    let mut state = InternalState::new();
    create(&mut state, "A", vec![]).unwrap();
    create(&mut state, "B", vec![]).unwrap();
    let refused = create(&mut state, "c", vec![0, 9]);
    colored::control::set_override(false);
    match refused {
        Err(Error::Generic(message)) => {
            assert!(message.starts_with("No task with an ID of \u{1b}["), "{:?}", message);
            assert!(message.ends_with("m9\u{1b}[0m exists"), "{:?}", message);
        },
        other => panic!("expected a refusal, got {:?}", other),
    }
    assert_eq!(state.next_id, 2);
    assert_eq!(state.deps.nodes(), vec![0, 1]);
}

#[test]
fn dependency_on_itself_is_refused() {
    colored::control::set_override(false);
    let mut state = InternalState::new();
    create(&mut state, "A", vec![]).unwrap();
    match create(&mut state, "B", vec![0, 1]) {
        Err(Error::Generic(message)) => assert_eq!(message, "Note with ID 1 cannot depend on itself"),
        other => panic!("expected a refusal, got {:?}", other),
    }
    assert_eq!(state.next_id, 1);
    assert_eq!(state.deps.nodes(), vec![0]);
}

#[test]
fn vault_without_identifiers_left_refuses_new_tasks() {
    let mut state = InternalState::new();
    state.next_id = u64::MAX;
    match create(&mut state, "late", vec![]) {
        Err(Error::Internal(message)) => {
            assert_eq!(message, "No further task ID is left in this vault")
        },
        other => panic!("expected a refusal, got {:?}", other),
    }
    assert_eq!(state.next_id, u64::MAX);
}

#[test]
fn creation_goes_by_what_it_is_told_of_the_name() {
    let mut state = InternalState::new();
    let made = InternalTask::new_named(
        String::from("A"),
        None,
        vec![],
        vec![],
        None,
        None,
        moment(738000, 0),
        false,
        &mut state,
    )
    .unwrap();
    assert_eq!((made.id, made.name.as_str(), state.next_id), (0, "A", 1));
    match InternalTask::new_named(
        String::from("B"),
        None,
        vec![],
        vec![],
        None,
        None,
        moment(738000, 0),
        true,
        &mut state,
    ) {
        Err(Error::Generic(message)) => assert_eq!(message, "Name must not be purely numeric"),
        other => panic!("expected a refusal, got {:?}", other),
    }
    assert_eq!(state.next_id, 1);
    assert!(InternalTask::validate_named(false).is_ok());
    assert!(matches!(InternalTask::validate_named(true), Err(Error::Generic(_))));
}

#[test]
fn validate_refuses_numeric_names() {
    let mut state = InternalState::new();
    let mut task = create(&mut state, "fine", vec![]).unwrap();
    assert!(task.validate().is_ok());
    task.name = String::from("123");
    match task.validate() {
        Err(Error::Generic(message)) => assert_eq!(message, "Name must not be purely numeric"),
        other => panic!("expected a refusal, got {:?}", other),
    }
}

#[test]
fn task_is_completed_once() {
    let mut state = InternalState::new();
    let mut task = create(&mut state, "once", vec![]).unwrap();
    assert!(task.complete_at(moment(738001, 10)));
    assert_eq!(task.completed, Some(moment(738001, 10)));
    assert!(!task.complete_at(moment(738002, 20)));
    assert_eq!(task.completed, Some(moment(738001, 10)));
    assert!(!task.complete());
    assert_eq!(task.completed, Some(moment(738001, 10)));
    let mut other = create(&mut state, "other", vec![]).unwrap();
    assert!(other.complete());
    assert!(other.completed.is_some());
}

#[test]
fn tracked_time_is_added_at_the_end() {
    let mut state = InternalState::new();
    let mut task = create(&mut state, "timed", vec![]).unwrap();
    task.track(entry("0:10", 5));
    task.track(entry("0:20", 4));
    assert_eq!(task.time_entries.len(), 2);
    assert_eq!(task.time_entries[1].duration, duration("0:20"));
    assert_eq!(TimeEntry::total(&task.time_entries), duration("0:30"));
}
