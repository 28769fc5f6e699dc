use std::collections::BTreeSet;

use toru::display::info_lines;
use toru::edit::{edited_info, editor_failure};
use toru::error::Error;
use toru::format::{
    due_date_at, frame, fuzzy_period, hash_set, join, period_words, remark, urgency,
    urgency_colour, Unit, Urgency,
};
use toru::graph::Graph;
use toru::stats::{completed_tasks_at, time_per_tag_at};
use toru::tasks::{Date, DateTime, Duration, InternalTask, Priority, TimeEntry};
use toru::tree::{dependencies, shown_name, tree_line};
use toru::vcs::{ignored_files, svn_ignore_arguments, Vcs};

const SECOND: i128 = 1_000_000_000;
const DAY: i128 = 86_400 * SECOND;

fn moment(days: i32, secs: u32) -> DateTime {
    DateTime { date: Date { days }, secs, nanos: 0 }
}

fn task(id: u64, name: &str) -> InternalTask {
    InternalTask {
        id,
        name: String::from(name),
        tags: Vec::new(),
        dependencies: BTreeSet::new(),
        priority: Priority::Low,
        due: None,
        created: moment(100, 0),
        completed: None,
        info: None,
        time_entries: Vec::new(),
    }
}

fn entry(text: &str, days: i32) -> TimeEntry {
    TimeEntry::new(Duration::from_str(text).unwrap(), Some(Date { days }), None)
}

fn graph_of(edges: &[(u64, &[u64])]) -> Graph {
    let mut graph = Graph::new();
    for (node, targets) in edges {
        graph.edges.insert(*node, targets.iter().copied().collect::<BTreeSet<u64>>());
    }
    graph
}

#[test]
fn errors_are_shown_with_their_heading() {
    colored::control::set_override(false);
    assert_eq!(Error::Generic(String::from("no")).to_string(), "Error: no");
    assert_eq!(Error::Internal(String::from("bug")).to_string(), "Internal Error: bug");
}

#[test]
fn texts_are_joined_and_framed() {
    assert_eq!(join(&vec![String::from("a"), String::from("b"), String::from("c")], ", "), "a, b, c");
    assert_eq!(join(&vec![String::from("a")], ", "), "a");
    assert_eq!(join(&Vec::new(), ", "), "");
    assert_eq!(hash_set(&vec![String::from("x"), String::from("y")]).unwrap(), "x, y");
    assert_eq!(frame("<", String::from("mid"), ">"), "<mid>");
}

fn is_painted(text: &str, colour: (u8, u8, u8), bold: bool, shown: &str) -> bool {
    let plain = ["30", "31", "32", "33", "34", "35", "36", "37", "90", "91", "92", "93", "94",
        "95", "96", "97"];
    let mut codes = vec![format!("38;2;{};{};{}", colour.0, colour.1, colour.2)];
    codes.extend(plain.iter().map(|code| code.to_string()));
    shown == text
        || codes.iter().any(|code| {
            shown == format!("\u{1b}[{}{}m{}\u{1b}[0m", if bold { "1;" } else { "" }, code, text)
        })
}

#[test]
fn texts_are_shown_as_they_stand_where_colours_are_off() {
    colored::control::set_override(false);
    assert_eq!(toru::format::vault("work"), "work");
    assert_eq!(toru::format::id(42), "42");
    assert_eq!(toru::format::error("Error:"), "Error:");
    assert_eq!(toru::format::command("toru list"), "toru list");
    assert_eq!(toru::format::task("laundry"), "laundry");
    assert_eq!(toru::format::file("state.toml"), "state.toml");
    assert_eq!(toru::format::greyed_out("done"), "done");
    assert_eq!(toru::format::profile("recent"), "recent");
    assert_eq!(toru::format::priority(&Priority::Backlog), "backlog");
    assert_eq!(toru::format::priority(&Priority::Low), "low");
    assert_eq!(toru::format::priority(&Priority::Medium), "medium");
    assert_eq!(toru::format::priority(&Priority::High), "high");
}

#[test]
fn texts_are_shown_between_escape_sequences_where_colours_are_on() {
    colored::control::set_override(true);
    let shown = [
        (toru::format::vault("work"), "work", (243, 156, 18), true),
        (toru::format::id(42), "42", (52, 152, 219), false),
        (toru::format::error("Error:"), "Error:", (192, 57, 43), true),
        (toru::format::command("toru list"), "toru list", (155, 89, 182), true),
        (toru::format::task("laundry"), "laundry", (39, 174, 96), true),
        (toru::format::file("state.toml"), "state.toml", (255, 184, 184), true),
        (toru::format::greyed_out("done"), "done", (99, 110, 114), false),
        (toru::format::profile("recent"), "recent", (253, 121, 168), false),
        (toru::format::priority(&Priority::Backlog), "backlog", (99, 110, 114), false),
        (toru::format::priority(&Priority::Low), "low", (46, 204, 113), false),
        (toru::format::priority(&Priority::Medium), "medium", (241, 196, 15), false),
        (toru::format::priority(&Priority::High), "high", (231, 76, 60), false),
    ];
    colored::control::set_override(false);
    for (shown, text, colour, bold) in shown {
        assert!(shown != text, "{:?}", shown);
        assert!(is_painted(text, colour, bold, &shown), "{:?}", shown);
    }
}

#[test]
fn names_in_the_tree_are_shown_by_the_state_of_the_task() {
    colored::control::set_override(true);
    let mut done = task(1, "done");
    done.completed = Some(moment(1, 1));
    let grey = shown_name(&done);
    let bold = shown_name(&task(2, "open"));
    colored::control::set_override(false);
    assert!(grey != "done" && is_painted("done", (99, 110, 114), false, &grey), "{:?}", grey);
    assert!(bold != "open" && is_painted("open", (39, 174, 96), true, &bold), "{:?}", bold);
}

#[test]
fn colours_are_put_on_when_asked_for() {
    colored::control::set_override(true);
    let shown = toru::format::id(7);
    colored::control::set_override(false);
    assert!(shown.starts_with("\u{1b}["));
    assert!(shown.ends_with("m7\u{1b}[0m"));
}

#[test]
fn due_dates_are_urgent_by_the_time_left() {
    assert_eq!(urgency(-1), Urgency::Overdue);
    assert_eq!(urgency(0), Urgency::VeryClose);
    assert_eq!(urgency(DAY - 1), Urgency::VeryClose);
    assert_eq!(urgency(DAY), Urgency::Close);
    assert_eq!(urgency(5 * DAY - 1), Urgency::Close);
    assert_eq!(urgency(5 * DAY), Urgency::PlentyOfTime);
    assert_eq!(urgency_colour(Urgency::Overdue), (192, 57, 43));
    assert_eq!(urgency_colour(Urgency::VeryClose), (231, 76, 60));
    assert_eq!(urgency_colour(Urgency::Close), (241, 196, 15));
    assert_eq!(urgency_colour(Urgency::PlentyOfTime), (46, 204, 113));
}

#[test]
fn time_left_is_told_in_the_greatest_unit() {
    assert_eq!(fuzzy_period(3 * DAY + 5 * SECOND), (3, Unit::Day));
    assert_eq!(fuzzy_period(DAY), (1, Unit::Day));
    assert_eq!(fuzzy_period(DAY - 1), (23, Unit::Hour));
    assert_eq!(fuzzy_period(-(2 * DAY) - 1), (2, Unit::Day));
    assert_eq!(fuzzy_period(3600 * SECOND), (1, Unit::Hour));
    assert_eq!(fuzzy_period(3600 * SECOND - 1), (59, Unit::Minute));
    assert_eq!(fuzzy_period(-61 * SECOND), (1, Unit::Minute));
    assert_eq!(fuzzy_period(59 * SECOND), (59, Unit::Second));
    assert_eq!(fuzzy_period(SECOND - 1), (0, Unit::Second));
    assert_eq!(fuzzy_period(-(SECOND - 1)), (0, Unit::Second));
    assert_eq!(fuzzy_period(0), (0, Unit::Second));
}

#[test]
fn time_left_is_put_in_words() {
    assert_eq!(period_words(3, Unit::Day), "3 days");
    assert_eq!(period_words(1, Unit::Day), "1 day");
    assert_eq!(period_words(0, Unit::Second), "0 seconds");
    assert_eq!(period_words(1, Unit::Hour), "1 hour");
    assert_eq!(period_words(59, Unit::Minute), "59 minutes");
    assert_eq!(remark(3 * DAY), "(3 days remaining)");
    assert_eq!(remark(-3600 * SECOND), "(1 hour overdue)");
    assert_eq!(remark(0), "(0 seconds remaining)");
}

#[test]
fn due_date_is_shown_with_a_remark() {
    colored::control::set_override(false);
    let due = moment(200, 0);
    assert_eq!(due_date_at(&due, "2024-01-01 00:00:00", &moment(198, 0), true), "2024-01-01 00:00:00 (2 days remaining)");
    assert_eq!(due_date_at(&due, "2024-01-01 00:00:00", &moment(200, 90), true), "2024-01-01 00:00:00 (1 minute overdue)");
    assert_eq!(due_date_at(&due, "2024-01-01 00:00:00", &moment(198, 0), false), "2024-01-01 00:00:00");
}

#[test]
fn recently_completed_tasks_are_chosen() {
    let mut tasks = vec![task(0, "a"), task(1, "b"), task(2, "c"), task(3, "d"), task(4, "e")];
    tasks[0].completed = Some(moment(100, 0));
    tasks[1].completed = Some(moment(93, 2));
    tasks[2].completed = Some(moment(93, 1));
    tasks[4].completed = Some(moment(100, 2));
    assert_eq!(completed_tasks_at(7, &tasks, &moment(100, 1)), vec![0, 1]);
    assert_eq!(completed_tasks_at(0, &tasks, &moment(100, 1)), Vec::<usize>::new());
    assert_eq!(completed_tasks_at(8, &tasks, &moment(100, 3)), vec![0, 1, 2, 4]);
}

#[test]
fn time_is_shared_out_among_the_tags() {
    let mut a = task(0, "a");
    a.tags = vec![String::from("work"), String::from("deep")];
    a.time_entries = vec![entry("1:01", 100), entry("2:00", 95), entry("9:00", 90)];
    let mut b = task(1, "b");
    b.tags = vec![String::from("work")];
    b.time_entries = vec![entry("0:20", 99)];
    let mut c = task(2, "c");
    c.time_entries = vec![entry("5:00", 100)];
    let mut d = task(3, "d");
    d.tags = vec![String::from("admin")];
    let times = time_per_tag_at(7, &vec![a, b, c, d], &Date { days: 100 }).unwrap();
    let rows: Vec<(String, String)> = times.rows.iter().map(|(tag, time)| (tag.clone(), time.to_string())).collect();
    assert_eq!(
        rows,
        vec![
            (String::from("admin"), String::from("0:00")),
            (String::from("deep"), String::from("1:31")),
            (String::from("work"), String::from("1:51")),
        ]
    );
    assert_eq!(times.total.to_string(), "3:22");
}

#[test]
fn time_that_no_duration_holds_is_refused() {
    let mut a = task(0, "a");
    a.tags = vec![String::from("x")];
    a.time_entries = vec![entry("65535:00", 100)];
    let mut b = task(1, "b");
    b.tags = vec![String::from("y")];
    b.time_entries = vec![entry("1:00", 100)];
    match time_per_tag_at(7, &vec![a, b], &Date { days: 100 }) {
        Err(Error::Internal(message)) => {
            assert_eq!(message, "The time tracked is more than a duration can hold")
        },
        other => panic!("expected a refusal, got {:?}", other.map(|t| t.total)),
    }
}

#[test]
fn dependencies_are_drawn_as_a_tree() {
    let graph = graph_of(&[(0, &[]), (1, &[0]), (2, &[]), (3, &[1, 2]), (4, &[3, 0])]);
    let lines: Vec<(String, bool, u64)> = dependencies(4, &graph)
        .unwrap()
        .into_iter()
        .map(|line| (line.prefix, line.is_last_item, line.id))
        .collect();
    assert_eq!(
        lines,
        vec![
            (String::from(""), true, 4),
            (String::from("   "), false, 0),
            (String::from("   "), true, 3),
            (String::from("      "), false, 1),
            (String::from("      │  "), true, 0),
            (String::from("      "), true, 2),
        ]
    );
    assert_eq!(dependencies(9, &graph).unwrap().len(), 1);
    assert!(matches!(dependencies(5, &graph_of(&[(5, &[6]), (6, &[5])])), Err(Error::Internal(_))));
}

#[test]
fn tree_lines_are_written_with_branches() {
    colored::control::set_override(false);
    assert_eq!(tree_line("   ", true, "name", "3"), "   └──name (ID: 3)");
    assert_eq!(tree_line("│  ", false, "name", "3"), "│  ├──name (ID: 3)");
    let mut done = task(1, "done");
    done.completed = Some(moment(1, 1));
    assert_eq!(shown_name(&done), "done");
    assert_eq!(shown_name(&task(2, "open")), "open");
}

#[test]
fn task_is_shown_with_heading_and_underline() {
    colored::control::set_override(false);
    let mut shown = task(12, "héllo");
    assert_eq!(shown.heading(), "[ ] 12 héllo");
    assert_eq!(shown.underline(), "------------");
    shown.completed = Some(moment(1, 1));
    assert_eq!(shown.heading(), "[X] 12 héllo");
}

#[test]
fn time_entries_are_shown_by_date() {
    let mut shown = task(1, "a");
    shown.time_entries = vec![entry("0:01", 5), entry("0:02", 3), entry("0:03", 5), entry("0:04", 1), entry("0:05", 3)];
    assert_eq!(shown.entries_by_date(), vec![3, 1, 4, 0, 2]);
    assert_eq!(task(2, "b").entries_by_date(), Vec::<usize>::new());
}

#[test]
fn info_is_shown_line_by_line() {
    assert_eq!(info_lines("one\ntwo\n\nfour\n\n\n"), vec!["one", "two", "", "four"]);
    assert_eq!(info_lines("single"), vec!["single"]);
    assert_eq!(info_lines(""), vec![""]);
    assert_eq!(info_lines("\n\n"), vec![""]);
    assert_eq!(info_lines("\nlead"), vec!["", "lead"]);
}

#[test]
fn editor_failures_are_told() {
    match editor_failure(Some(3)) {
        Error::Generic(message) => assert_eq!(message, "Process responded with a non-zero status code: 3"),
        other => panic!("unexpected {:?}", other),
    }
    match editor_failure(Some(-1)) {
        Error::Generic(message) => assert_eq!(message, "Process responded with a non-zero status code: -1"),
        other => panic!("unexpected {:?}", other),
    }
    match editor_failure(None) {
        Error::Generic(message) => assert_eq!(message, "Process was interrupted by signal"),
        other => panic!("unexpected {:?}", other),
    }
}

#[test]
fn info_of_white_space_alone_is_none() {
    assert_eq!(edited_info(String::from(" \n\t \u{2003}")), None);
    assert_eq!(edited_info(String::new()), None);
    assert_eq!(edited_info(String::from(" text\n")), Some(String::from(" text\n")));
}

#[test]
fn version_control_is_named() {
    assert_eq!(Vcs::Git.program(), "git");
    assert_eq!(Vcs::Svn.program(), "svn");
    assert_eq!(ignored_files(), "temp.toml\ntemp.md");
    assert_eq!(svn_ignore_arguments(), vec!["propset", "svn:ignore", "temp.toml\ntemp.md", "."]);
}
