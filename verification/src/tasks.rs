//! Tasks and what they are made of.

use chrono::{Datelike, Timelike};
use std::cmp::Ordering;
use std::collections::BTreeSet;
use vstd::prelude::*;
use vstd::std_specs::cmp::OrdSpec;

use crate::error::Error;
use crate::format::{frame, frames_id, texts};
use crate::graph::has_edge;
use crate::index::with_entry;
use crate::lists::deduped;
use crate::state::InternalState;
use crate::text::{
    all_digits, all_numeric, chars_of, decimal, decimal_text, digit_char, digit_text,
    digits_value, is_digit, is_purely_numeric, lemma_canonical_digits, lemma_decimal_reads_back,
    lemma_decimal_text_canonical, lemma_decimal_text_digits, parse_decimal, parse_range,
    unsigned_digits,
};

verus! {

/// The identifier of a task: unique within a vault, and never used again.
pub type Id = u64;

/// How much a task matters, from least to most.
#[derive(Clone, Copy, Debug, Hash, PartialEq, Eq, Structural, PartialOrd, Ord)]
pub enum Priority {
    Backlog,
    Low,
    Medium,
    High,
}

impl Priority {
    /// The place of the priority in the order from least to most.
    pub open spec fn rank_of(self) -> nat {
        match self {
            Priority::Backlog => 0,
            Priority::Low => 1,
            Priority::Medium => 2,
            Priority::High => 3,
        }
    }

    /// The place of the priority in the order from least to most.
    pub fn rank(&self) -> (rank: u8)
        ensures
            rank == self.rank_of(),
    {
        match self {
            Priority::Backlog => 0,
            Priority::Low => 1,
            Priority::Medium => 2,
            Priority::High => 3,
        }
    }
}

impl Default for Priority {
    fn default() -> (priority: Priority)
        ensures
            priority == Priority::Low,
    {
        Priority::Low
    }
}

/// A calendar day by its number, the first of January of the year 1 being
/// day 1.
#[derive(Clone, Copy, Debug, Hash, PartialEq, Eq, Structural, PartialOrd, Ord)]
pub struct Date {
    pub days: i32,
}

/// A moment without a time zone: a day, the seconds since its midnight, and
/// the nanoseconds since that second.
#[derive(Clone, Copy, Debug, Hash, PartialEq, Eq, Structural, PartialOrd, Ord)]
pub struct DateTime {
    pub date: Date,
    pub secs: u32,
    pub nanos: u32,
}

impl DateTime {
    /// The nanoseconds from the midnight that began day zero to this moment.
    pub open spec fn nanos_of(self) -> int {
        (self.date.days * 86400 + self.secs) * 1_000_000_000 + self.nanos
    }

    /// Whether this moment comes before `other`.
    pub open spec fn precedes(self, other: DateTime) -> bool {
        self.date.days < other.date.days || (self.date.days == other.date.days && (self.secs
            < other.secs || (self.secs == other.secs && self.nanos < other.nanos)))
    }

    /// The nanoseconds from the midnight that began day zero to this moment.
    pub fn nanos(&self) -> (nanos: i128)
        ensures
            nanos == self.nanos_of(),
    {
        (self.date.days as i128 * 86400 + self.secs as i128) * 1_000_000_000 + self.nanos as i128
    }

    /// Whether this moment comes before `other`.
    pub fn is_before(&self, other: &DateTime) -> (before: bool)
        ensures
            before == self.precedes(*other),
    {
        self.date.days < other.date.days || (self.date.days == other.date.days && (self.secs
            < other.secs || (self.secs == other.secs && self.nanos < other.nanos)))
    }
}

/// `chrono::Local::now`, taken without its time zone and split into the
/// day's number (`Datelike::num_days_from_ce`), the seconds since midnight
/// (`Timelike::num_seconds_from_midnight`) and the nanoseconds
/// (`Timelike::nanosecond`). The result is the clock's, so nothing is claimed
/// of it.
#[verifier::external_body]
pub(crate) fn now() -> (moment: DateTime) {
    let moment = chrono::Local::now().naive_local();
    DateTime {
        date: Date { days: moment.date().num_days_from_ce() },
        secs: moment.time().num_seconds_from_midnight(),
        nanos: moment.time().nanosecond(),
    }
}

/// A length of time in hours and minutes, the minutes fewer than sixty.
#[derive(Clone, Copy, Debug, PartialEq, Eq, Structural, PartialOrd, Ord)]
pub struct Duration {
    hours: u16,
    minutes: u16,
}

/// Why a text could not be read as a duration.
#[derive(Clone, Copy, Debug, PartialEq, Eq, Structural)]
pub enum DurationRead {
    /// The number of minutes is not less than sixty.
    Minutes,
    /// The hours or the minutes are not a number that fits sixteen bits.
    Range,
    /// The text is not two parts with one colon between them.
    General,
}

impl DurationRead {
    /// What was expected of the text, and not found.
    pub fn serde_expected(&self) -> (expected: &'static str)
        ensures
            expected@ == match self {
                DurationRead::Minutes => "the number of minutes to be an integer between 0 and 59 inclusive"@,
                DurationRead::Range => "the number of hours and minutes to be representable as a u16"@,
                DurationRead::General => "a duration in the format HH:MM where HH is any integer (representable as a u16) and MM is an integer between 0 and 59 inclusive"@,
            },
    {
        match self {
            DurationRead::Minutes => {
                "the number of minutes to be an integer between 0 and 59 inclusive"
            },
            DurationRead::Range => {
                "the number of hours and minutes to be representable as a u16"
            },
            DurationRead::General => {
                "a duration in the format HH:MM where HH is any integer (representable as a u16) and MM is an integer between 0 and 59 inclusive"
            },
        }
    }

    /// What is wrong with the text.
    pub fn to_string(&self) -> (message: String)
        ensures
            message@ == match self {
                DurationRead::Minutes => "the number of minutes must be between 0 and 59 inclusive"@,
                DurationRead::Range => "the number of hours and minutes must be representable as a u16"@,
                DurationRead::General => "duration must be in the format HH:MM where HH is any integer (representable as a u16) and MM is an integer between 0 and 59 inclusive"@,
            },
    {
        match self {
            DurationRead::Minutes => String::from_str(
                "the number of minutes must be between 0 and 59 inclusive",
            ),
            DurationRead::Range => String::from_str(
                "the number of hours and minutes must be representable as a u16",
            ),
            DurationRead::General => String::from_str(
                "duration must be in the format HH:MM where HH is any integer (representable as a u16) and MM is an integer between 0 and 59 inclusive",
            ),
        }
    }
}

/// Whether the colon at `at` is the only one in `s`.
pub open spec fn is_only_colon(s: Seq<char>, at: int) -> bool {
    &&& 0 <= at < s.len()
    &&& s[at] == ':'
    &&& forall|i: int| 0 <= i < s.len() && i != at ==> s[i] != ':'
}

/// What `s` reads as when it is taken for a duration: the hours and the
/// minutes, each an unsigned decimal number that fits sixteen bits, with one
/// colon between them, and the minutes fewer than sixty.
pub open spec fn read_duration(s: Seq<char>) -> Result<(nat, nat), DurationRead> {
    if exists|at: int| is_only_colon(s, at) {
        let at = choose|at: int| is_only_colon(s, at);
        let hours = parse_decimal(s.subrange(0, at), u16::MAX as nat);
        let minutes = parse_decimal(s.subrange(at + 1, s.len() as int), u16::MAX as nat);
        if hours is None || minutes is None {
            Err(DurationRead::Range)
        } else if minutes->0 >= 60 {
            Err(DurationRead::Minutes)
        } else {
            Ok((hours->0, minutes->0))
        }
    } else {
        Err(DurationRead::General)
    }
}

/// The text of a duration: the hours, a colon, and the minutes in two digits.
pub open spec fn duration_text(hours: nat, minutes: nat) -> Seq<char> {
    decimal_text(hours) + seq![':', digit_char(minutes / 10), digit_char(minutes % 10)]
}

/// `total` minutes shared out among `divisor`, rounded to the nearest minute
/// and upwards from the half.
pub open spec fn shared_minutes(total: nat, divisor: nat) -> nat
    recommends
        divisor > 0,
{
    ((2 * total + divisor) as int / (2 * divisor) as int) as nat
}

impl Duration {
    /// The whole hours of the duration.
    pub closed spec fn hours_of(self) -> nat {
        self.hours as nat
    }

    /// The minutes of the duration beyond its whole hours.
    pub closed spec fn minutes_of(self) -> nat {
        self.minutes as nat
    }

    /// The duration in minutes.
    pub open spec fn total_minutes(self) -> nat {
        self.hours_of() * 60 + self.minutes_of()
    }

    #[verifier::type_invariant]
    spec fn minutes_in_range(self) -> bool {
        self.minutes < 60
    }

    /// No time at all.
    pub fn zero() -> (duration: Duration)
        ensures
            duration.hours_of() == 0,
            duration.minutes_of() == 0,
    {
        Self { hours: 0, minutes: 0 }
    }

    /// The whole hours of the duration.
    pub fn hours(&self) -> (hours: u16)
        ensures
            hours == self.hours_of(),
    {
        self.hours
    }

    /// The minutes of the duration beyond its whole hours, fewer than sixty.
    pub fn minutes(&self) -> (minutes: u16)
        ensures
            minutes == self.minutes_of(),
            minutes < 60,
    {
        proof {
            use_type_invariant(self);
        }
        self.minutes
    }

    /// Whether the minutes are fewer than sixty, as they are in every
    /// duration.
    pub fn satisfies_invariant(&self) -> (satisfied: bool)
        ensures
            satisfied,
            self.minutes_of() < 60,
    {
        proof {
            use_type_invariant(self);
        }
        self.minutes < 60
    }

    /// Reads a duration from its text: the hours, a colon, and the minutes.
    pub fn from_str(s: &str) -> (read: Result<Duration, DurationRead>)
        ensures
            match read_duration(s@) {
                Ok((hours, minutes)) => read matches Ok(duration) && duration.hours_of() == hours
                    && duration.minutes_of() == minutes,
                Err(error) => read == Err::<Duration, DurationRead>(error),
            },
    {
        let chars = chars_of(s);
        let mut colon: Option<usize> = None;
        let mut i: usize = 0;
        while i < chars.len()
            invariant
                i <= chars.len(),
                chars@ == s@,
                match colon {
                    Some(at) => at < i && chars[at as int] == ':' && forall|j: int|
                        0 <= j < i && j != at ==> chars[j] != ':',
                    None => forall|j: int| 0 <= j < i ==> chars[j] != ':',
                },
            decreases chars.len() - i,
        {
            if chars[i] == ':' {
                if let Some(at) = colon {
                    assert forall|other: int| !is_only_colon(s@, other) by {
                        if other == at {
                            assert(s@[i as int] == ':');
                        } else {
                            assert(s@[at as int] == ':');
                        }
                    }
                    return Err(DurationRead::General);
                }
                colon = Some(i);
            }
            i = i + 1;
        }
        match colon {
            None => Err(DurationRead::General),
            Some(at) => {
                proof {
                    assert(is_only_colon(s@, at as int));
                    let chosen = choose|chosen: int| is_only_colon(s@, chosen);
                    assert(chosen == at);
                }
                let hours = parse_range(&chars, 0, at, 65535);
                let minutes = parse_range(&chars, at + 1, chars.len(), 65535);
                match (hours, minutes) {
                    (Some(hours), Some(minutes)) => {
                        if minutes < 60 {
                            Ok(Self { hours: hours as u16, minutes: minutes as u16 })
                        } else {
                            Err(DurationRead::Minutes)
                        }
                    },
                    _ => Err(DurationRead::Range),
                }
            },
        }
    }

    /// The text of the duration: the hours, a colon, and the minutes in two
    /// digits.
    pub fn to_string(&self) -> (text: String)
        ensures
            text@ == duration_text(self.hours_of(), self.minutes_of()),
    {
        proof {
            use_type_invariant(self);
            reveal_strlit(":");
        }
        let mut text = decimal(self.hours as u64);
        text.append(":");
        text.append(digit_text((self.minutes / 10) as u64));
        text.append(digit_text((self.minutes % 10) as u64));
        assert(text@ =~= duration_text(self.hours_of(), self.minutes_of()));
        text
    }

    /// The duration of `total` minutes, when its hours fit sixteen bits.
    pub fn from_minutes(total: u128) -> (duration: Option<Duration>)
        ensures
            duration is Some <==> total < 65536 * 60,
            duration matches Some(made) ==> made.total_minutes() == total && made.minutes_of() < 60,
    {
        if total < 65536 * 60 {
            Some(Self { hours: (total / 60) as u16, minutes: (total % 60) as u16 })
        } else {
            None
        }
    }

    /// The sum of two durations, when its hours fit sixteen bits.
    pub fn checked_add(self, other: Duration) -> (sum: Option<Duration>)
        ensures
            sum is Some <==> self.total_minutes() + other.total_minutes() < 65536 * 60,
            sum matches Some(duration) ==> duration.total_minutes() == self.total_minutes()
                + other.total_minutes() && duration.minutes_of() < 60,
    {
        proof {
            use_type_invariant(self);
            use_type_invariant(other);
        }
        let minutes: u32 = self.minutes as u32 + other.minutes as u32;
        let hours: u32 = self.hours as u32 + other.hours as u32 + minutes / 60;
        if hours > 65535 {
            None
        } else {
            Some(Self { hours: hours as u16, minutes: (minutes % 60) as u16 })
        }
    }

    /// The sum of two durations, the minutes beyond fifty-nine carried into
    /// the hours.
    pub fn add(self, other: Duration) -> (sum: Duration)
        requires
            self.total_minutes() + other.total_minutes() < 65536 * 60,
        ensures
            sum.total_minutes() == self.total_minutes() + other.total_minutes(),
            sum.minutes_of() < 60,
    {
        proof {
            use_type_invariant(self);
            use_type_invariant(other);
        }
        Self {
            hours: self.hours + other.hours + (self.minutes + other.minutes) / 60,
            minutes: (self.minutes + other.minutes) % 60,
        }
    }

    /// The duration shared out among `divisor`, rounded to the nearest minute
    /// and upwards from the half.
    pub fn div(self, divisor: usize) -> (share: Duration)
        requires
            divisor > 0,
        ensures
            share.total_minutes() == shared_minutes(self.total_minutes(), divisor as nat),
            share.minutes_of() < 60,
    {
        proof {
            use_type_invariant(self);
        }
        let total: u128 = self.hours as u128 * 60 + self.minutes as u128;
        let divided: u128 = (2 * total + divisor as u128) / (2 * divisor as u128);
        assert(divided <= total) by (nonlinear_arith)
            requires
                divided == (2 * total + divisor as u128) / (2 * divisor as u128),
                divisor > 0,
                total >= 0,
        {
            if divided > total {
                assert(divided * (2 * divisor) >= (total + 1) * (2 * divisor));
                assert(divided * (2 * divisor) <= 2 * total + divisor);
            }
        }
        Self { hours: (divided / 60) as u16, minutes: (divided % 60) as u16 }
    }
}

/// The text of a duration reads back as the same hours and minutes.
pub proof fn lemma_duration_text_reads_back(hours: nat, minutes: nat)
    requires
        hours <= u16::MAX,
        minutes < 60,
    ensures
        read_duration(duration_text(hours, minutes)) == Ok::<(nat, nat), DurationRead>(
            (hours, minutes),
        ),
{
    let front = decimal_text(hours);
    let back = seq![digit_char(minutes / 10), digit_char(minutes % 10)];
    let s = duration_text(hours, minutes);
    let at = front.len() as int;
    lemma_decimal_text_digits(hours);
    lemma_decimal_reads_back(hours, u16::MAX as nat);
    assert forall|i: int| 0 <= i < s.len() && i != at implies s[i] != ':' by {
        if i < at {
            assert(is_digit(front[i]));
        }
    }
    assert(is_only_colon(s, at));
    let chosen = choose|chosen: int| is_only_colon(s, chosen);
    assert(chosen == at);
    assert(s.subrange(0, at) =~= front);
    assert(s.subrange(at + 1, s.len() as int) =~= back);
    assert(unsigned_digits(back) == back);
    assert(all_digits(back));
    assert(back.drop_last() =~= seq![digit_char(minutes / 10)]);
    assert(back.drop_last().drop_last() =~= Seq::<char>::empty());
    assert(digits_value(back.drop_last()) == minutes / 10) by {
        assert(digits_value(back.drop_last().drop_last()) == 0);
    }
    assert(digits_value(back) == minutes);
}

/// The name of the file that holds the task `id`: the identifier in decimal
/// and the extension.
pub open spec fn file_name_text(id: Id) -> Seq<char> {
    decimal_text(id as nat) + seq!['.', 't', 'o', 'm', 'l']
}

/// Two tasks have two file names.
pub proof fn lemma_file_name_text_injective(a: Id, b: Id)
    requires
        file_name_text(a) == file_name_text(b),
    ensures
        a == b,
{
    let end = seq!['.', 't', 'o', 'm', 'l'];
    let front_a = decimal_text(a as nat);
    let front_b = decimal_text(b as nat);
    assert(file_name_text(a).len() == front_a.len() + 5);
    assert(file_name_text(b).len() == front_b.len() + 5);
    assert(file_name_text(a).subrange(0, front_a.len() as int) =~= front_a);
    assert(file_name_text(b).subrange(0, front_b.len() as int) =~= front_b);
    lemma_decimal_text_digits(a as nat);
    lemma_decimal_text_digits(b as nat);
}

/// The name of the file that holds the task `id`.
pub fn task_file_name(id: Id) -> (name: String)
    ensures
        name@ == file_name_text(id),
{
    proof {
        reveal_strlit(".toml");
    }
    let mut name = decimal(id);
    name.append(".toml");
    assert(name@ =~= file_name_text(id));
    name
}

/// The task that the file called `name` holds, if `name` is the name of a
/// task's file: an identifier in decimal, without a sign and without needless
/// zeros, and the extension.
pub fn task_file_id(name: &str) -> (found: Option<Id>)
    ensures
        found matches Some(id) ==> name@ == file_name_text(id),
        found is None ==> forall|id: Id| name@ != file_name_text(id),
{
    let chars = chars_of(name);
    let len = chars.len();
    let ghost end = seq!['.', 't', 'o', 'm', 'l'];
    if len < 6 || chars[len - 5] != '.' || chars[len - 4] != 't' || chars[len - 3] != 'o'
        || chars[len - 2] != 'm' || chars[len - 1] != 'l' {
        proof {
            assert forall|id: Id| name@ != file_name_text(id) by {
                lemma_decimal_text_digits(id as nat);
                let text = file_name_text(id);
                let front = decimal_text(id as nat);
                if name@ == text {
                    assert(text.len() == front.len() + 5);
                    assert(text[len - 5] == end[0]);
                    assert(text[len - 4] == end[1]);
                    assert(text[len - 3] == end[2]);
                    assert(text[len - 2] == end[3]);
                    assert(text[len - 1] == end[4]);
                }
            }
        }
        return None;
    }
    let ghost front = chars@.subrange(0, len - 5);
    assert(name@ =~= front + end);
    let canonical = chars[0] != '+' && (chars[0] != '0' || len == 6);
    let value = if canonical {
        parse_range(&chars, 0, len - 5, u64::MAX)
    } else {
        None
    };
    proof {
        if value is Some {
            assert(unsigned_digits(front) == front);
            lemma_canonical_digits(front);
        } else {
            assert forall|id: Id| name@ != file_name_text(id) by {
                let digits = decimal_text(id as nat);
                if name@ == file_name_text(id) {
                    lemma_decimal_text_digits(id as nat);
                    lemma_decimal_text_canonical(id as nat);
                    lemma_decimal_reads_back(id as nat, u64::MAX as nat);
                    assert(file_name_text(id).len() == digits.len() + 5);
                    assert(file_name_text(id).subrange(0, digits.len() as int) =~= digits);
                    assert(front == digits);
                    assert(is_digit(digits[0]));
                    if id == 0 {
                        assert(digits.len() == 1);
                    }
                }
            }
        }
    }
    value
}

/// Time spent on a task on one day.
#[derive(Debug)]
pub struct TimeEntry {
    pub logged_date: Date,
    pub message: Option<String>,
    pub duration: Duration,
}

/// The minutes of all of `entries` together.
pub open spec fn minutes_logged(entries: Seq<TimeEntry>) -> nat
    decreases entries.len(),
{
    if entries.len() == 0 {
        0
    } else {
        minutes_logged(entries.drop_last()) + entries.last().duration.total_minutes()
    }
}

/// The first entries never hold more minutes than all of them.
pub proof fn lemma_minutes_logged_prefix(entries: Seq<TimeEntry>, k: int)
    requires
        0 <= k <= entries.len(),
    ensures
        minutes_logged(entries.subrange(0, k)) <= minutes_logged(entries),
    decreases entries.len(),
{
    if k < entries.len() {
        lemma_minutes_logged_prefix(entries.drop_last(), k);
        assert(entries.drop_last().subrange(0, k) =~= entries.subrange(0, k));
    } else {
        assert(entries.subrange(0, k) =~= entries);
    }
}

impl TimeEntry {
    /// The time of all of `entries` together, when its hours fit sixteen
    /// bits.
    pub fn checked_total(entries: &[TimeEntry]) -> (total: Option<Duration>)
        ensures
            total is Some <==> minutes_logged(entries@) < 65536 * 60,
            total matches Some(duration) ==> duration.total_minutes() == minutes_logged(entries@)
                && duration.minutes_of() < 60,
    {
        let mut total = Duration::zero();
        let mut i: usize = 0;
        assert(entries@.subrange(0, 0) =~= Seq::<TimeEntry>::empty());
        while i < entries.len()
            invariant
                i <= entries.len(),
                total.total_minutes() == minutes_logged(entries@.subrange(0, i as int)),
                total.minutes_of() < 60,
            decreases entries.len() - i,
        {
            assert(entries@.subrange(0, i + 1).drop_last() =~= entries@.subrange(0, i as int));
            match total.checked_add(entries[i].duration) {
                Some(sum) => {
                    total = sum;
                },
                None => {
                    proof {
                        lemma_minutes_logged_prefix(entries@, i + 1);
                    }
                    return None;
                },
            }
            i = i + 1;
        }
        assert(entries@.subrange(0, i as int) =~= entries@);
        Some(total)
    }

    /// Adds up the times of a collection of time entries.
    pub fn total(entries: &[TimeEntry]) -> (total: Duration)
        requires
            minutes_logged(entries@) < 65536 * 60,
        ensures
            total.total_minutes() == minutes_logged(entries@),
            total.minutes_of() < 60,
    {
        match Self::checked_total(entries) {
            Some(total) => total,
            None => Duration::zero(),
        }
    }

    /// A new time entry, logged on `date`, or today where no date is given.
    pub fn new(duration: Duration, date: Option<Date>, message: Option<String>) -> (entry: TimeEntry)
        ensures
            date matches Some(day) ==> entry.logged_date == day,
            entry.message == message,
            entry.duration == duration,
    {
        let logged_date = match date {
            Some(day) => day,
            None => now().date,
        };
        Self { logged_date, message, duration }
    }
}

/// What is kept of a task.
#[derive(Debug)]
pub struct InternalTask {
    pub id: Id,
    pub name: String,
    pub tags: Vec<String>,
    pub dependencies: BTreeSet<Id>,
    pub priority: Priority,
    pub due: Option<DateTime>,
    pub created: DateTime,
    pub completed: Option<DateTime>,
    pub info: Option<String>,
    pub time_entries: Vec<TimeEntry>,
}

/// Compares due dates, a task without one coming after every task with one.
pub fn compare_due_dates<T: Ord>(first: &Option<T>, second: &Option<T>) -> (order: Ordering)
    ensures
        match (*first, *second) {
            (None, None) => order == Ordering::Equal,
            (Some(_), None) => order == Ordering::Less,
            (None, Some(_)) => order == Ordering::Greater,
            (Some(first), Some(second)) => T::obeys_cmp_spec() ==> order == first.cmp_spec(
                &second,
            ),
        },
{
    match (first, second) {
        (None, None) => Ordering::Equal,
        (Some(_), None) => Ordering::Less,
        (None, Some(_)) => Ordering::Greater,
        (Some(first), Some(second)) => first.cmp(second),
    }
}

/// `g` with `id` as a node, if it was none.
pub open spec fn with_node(g: Map<u64, Set<u64>>, id: Id) -> Map<u64, Set<u64>> {
    if g.contains_key(id) {
        g
    } else {
        g.insert(id, Set::empty())
    }
}

/// `g` with `id` as a node that depends on `targets` too.
pub open spec fn with_edges(g: Map<u64, Set<u64>>, id: Id, targets: Set<u64>) -> Map<
    u64,
    Set<u64>,
> {
    with_node(g, id).insert(id, with_node(g, id)[id].union(targets))
}

/// Whether the task `id` cannot depend on `target` in `g`: a task cannot
/// depend on itself, nor on what is no node.
pub open spec fn is_bad_dependency(g: Map<u64, Set<u64>>, id: Id, target: Id) -> bool {
    target == id || !g.contains_key(target)
}

/// Whether the task `id` can depend on each of `targets` in `g`.
pub open spec fn are_good_dependencies(g: Map<u64, Set<u64>>, id: Id, targets: Seq<Id>) -> bool {
    forall|i: int| 0 <= i < targets.len() ==> !is_bad_dependency(g, id, #[trigger] targets[i])
}

/// The message of the error for a name that is made of numbers only.
pub open spec fn numeric_name_message() -> Seq<char> {
    "Name must not be purely numeric"@
}

/// Whether `error` is the one owed for the first of `targets` that the task
/// `id` cannot depend on in `g`.
pub open spec fn is_dependency_error(
    g: Map<u64, Set<u64>>,
    id: Id,
    targets: Seq<Id>,
    error: Error,
) -> bool {
    exists|at: int|
        {
            &&& 0 <= at < targets.len()
            &&& are_good_dependencies(g, id, targets.take(at))
            &&& is_bad_dependency(g, id, #[trigger] targets[at])
            &&& error matches Error::Generic(message)
            &&& if targets[at] == id {
                frames_id("Note with ID "@, " cannot depend on itself"@, id, message@)
            } else {
                frames_id("No task with an ID of "@, " exists"@, targets[at], message@)
            }
        }
}

/// Identifiers are given out in ascending order: a task created in a state
/// whose next identifier is no less than the one that an earlier creation
/// left behind takes a greater identifier than the earlier task, whatever
/// became of that task since.
pub proof fn lemma_later_id_is_greater(
    earlier: (String, Option<String>, Vec<String>, Vec<Id>, Option<Priority>, Option<DateTime>),
    first_before: InternalState,
    first: InternalTask,
    first_after: InternalState,
    later: (String, Option<String>, Vec<String>, Vec<Id>, Option<Priority>, Option<DateTime>),
    second_before: InternalState,
    second: InternalTask,
    second_after: InternalState,
)
    requires
        InternalTask::is_creation(
            earlier.0,
            earlier.1,
            earlier.2,
            earlier.3,
            earlier.4,
            earlier.5,
            first_before,
            Ok(first),
            first_after,
        ),
        first_after.next_id <= second_before.next_id,
        InternalTask::is_creation(
            later.0,
            later.1,
            later.2,
            later.3,
            later.4,
            later.5,
            second_before,
            Ok(second),
            second_after,
        ),
    ensures
        first.id < second.id,
        second.id < second_after.next_id,
{
}

/// The identifier that a creation gave out, if it made a task.
pub open spec fn issued_by(made: Result<InternalTask, Error>) -> Option<Id> {
    match made {
        Ok(task) => Some(task.id),
        Err(_) => None,
    }
}

/// A task created by the rules keeps a consistent state consistent.
pub proof fn lemma_created_consistent(
    before: InternalState,
    after: InternalState,
    name: Seq<char>,
    targets: Seq<Id>,
)
    requires
        before.is_consistent(),
        before.next_id < u64::MAX,
        are_good_dependencies(before.deps@, before.next_id, targets),
        after.next_id == before.next_id + 1,
        after.deps@ == with_edges(before.deps@, before.next_id, targets.to_set()),
        after.index@ == with_entry(before.index@, name, before.next_id),
    ensures
        after.is_consistent(),
{
    let id = before.next_id;
    let g = before.deps@;
    let wanted = targets.to_set();
    assert(!g.contains_key(id));
    assert(Set::<Id>::empty().union(wanted) =~= wanted);
    assert(after.deps@ =~= g.insert(id, wanted));
    assert forall|target: Id| wanted.contains(target) implies !is_bad_dependency(g, id, target) by {
        let k = choose|k: int| 0 <= k < targets.len() && targets[k] == target;
        assert(!is_bad_dependency(g, id, targets[k]));
    }
    assert forall|from: u64| !has_edge(g, from, id) by {
        if has_edge(g, from, id) {
            assert(g.contains_key(id));
        }
    }
    crate::graph::lemma_source_keeps_acyclic(g, id, wanted);
    assert(crate::graph::closed(after.deps@)) by {
        assert forall|from: u64, to: u64| #[trigger]
            has_edge(after.deps@, from, to) implies after.deps@.contains_key(to) by {
            if from == id {
                assert(!is_bad_dependency(g, id, to));
            } else {
                assert(has_edge(g, from, to));
            }
        }
    }
    crate::state::lemma_with_entry_below(before.index@, name, id, after.next_id as int);
}

/// The tags in `tags`, each of them once, in the order in which they first
/// occur.
pub fn distinct(tags: Vec<String>) -> (kept: Vec<String>)
    ensures
        texts(kept@) == deduped(texts(tags@)),
{
    let mut kept: Vec<String> = Vec::new();
    let mut i: usize = 0;
    assert(texts(tags@).take(0) =~= Seq::<Seq<char>>::empty());
    assert(texts(kept@) =~= Seq::<Seq<char>>::empty());
    while i < tags.len()
        invariant
            i <= tags.len(),
            texts(kept@) == deduped(texts(tags@).take(i as int)),
        decreases tags.len() - i,
    {
        assert(texts(tags@).take(i + 1).drop_last() =~= texts(tags@).take(i as int));
        assert(texts(tags@).take(i + 1).last() == tags[i as int]@);
        let mut seen = false;
        let mut j: usize = 0;
        while j < kept.len()
            invariant
                j <= kept.len(),
                i < tags.len(),
                seen <==> exists|k: int| 0 <= k < j && texts(kept@)[k] == tags[i as int]@,
            decreases kept.len() - j,
        {
            if kept[j] == tags[i] {
                seen = true;
                assert(texts(kept@)[j as int] == tags[i as int]@);
            }
            j = j + 1;
        }
        assert(seen == texts(kept@).contains(tags[i as int]@));
        if !seen {
            let ghost before = texts(kept@);
            kept.push(tags[i].clone());
            assert(texts(kept@) =~= before.push(tags[i as int]@));
        }
        i = i + 1;
    }
    assert(texts(tags@).take(i as int) =~= texts(tags@));
    kept
}

/// The identifiers in `list` as a set.
pub fn id_set(list: &Vec<Id>) -> (set: BTreeSet<Id>)
    ensures
        set@ == list@.to_set(),
{
    let mut set: BTreeSet<Id> = BTreeSet::new();
    let mut i: usize = 0;
    assert(list@.take(0).to_set() =~= Set::<Id>::empty());
    while i < list.len()
        invariant
            i <= list.len(),
            set@ == list@.take(i as int).to_set(),
        decreases list.len() - i,
    {
        proof {
            list@.take(i as int).lemma_push_to_set_commute(list[i as int]);
            assert(list@.take(i as int).push(list[i as int]) =~= list@.take(i + 1));
        }
        set.insert(list[i]);
        i = i + 1;
    }
    assert(list@.take(i as int) =~= list@);
    set
}

impl InternalTask {
    /// Whether `made` and the state after it are what creating a task owes,
    /// given the state before. See `is_creation_of`, with what the name is
    /// made of in the place of `numeric`.
    pub open spec fn is_creation(
        name: String,
        info: Option<String>,
        tags: Vec<String>,
        dependencies: Vec<Id>,
        priority: Option<Priority>,
        due: Option<DateTime>,
        before: InternalState,
        made: Result<InternalTask, Error>,
        after: InternalState,
    ) -> bool {
        Self::is_creation_of(
            all_numeric(name@),
            name,
            info,
            tags,
            dependencies,
            priority,
            due,
            before,
            made,
            after,
        )
    }

    /// Whether `made` and the state after it are what creating a task owes,
    /// given the state before, where `numeric` tells whether the name is made
    /// of numbers only. Such a name is refused, then a vault without an
    /// identifier left, then the first dependency that cannot be; what is
    /// refused leaves the state as it was. Else the task takes the next
    /// identifier and becomes a node that depends on `dependencies`, and its
    /// name is recorded in the index.
    pub open spec fn is_creation_of(
        numeric: bool,
        name: String,
        info: Option<String>,
        tags: Vec<String>,
        dependencies: Vec<Id>,
        priority: Option<Priority>,
        due: Option<DateTime>,
        before: InternalState,
        made: Result<InternalTask, Error>,
        after: InternalState,
    ) -> bool {
        let id = before.next_id;
        &&& made is Ok <==> !numeric && id < u64::MAX && are_good_dependencies(
            before.deps@,
            id,
            dependencies@,
        )
        &&& made matches Ok(task) ==> {
            &&& task.id == id
            &&& task.name == name
            &&& task.info == info
            &&& texts(task.tags@) == deduped(texts(tags@))
            &&& task.dependencies@ == dependencies@.to_set()
            &&& task.priority == match priority {
                Some(given) => given,
                None => Priority::Low,
            }
            &&& task.due == due
            &&& task.completed is None
            &&& task.time_entries@.len() == 0
            &&& after.next_id == id + 1
            &&& after.deps@ == with_edges(before.deps@, id, dependencies@.to_set())
            &&& after.index@ == with_entry(before.index@, name@, id)
        }
        &&& made matches Err(error) ==> {
            &&& after.next_id == before.next_id
            &&& after.deps@ == before.deps@
            &&& after.index@ == before.index@
            &&& if numeric {
                error matches Error::Generic(message) && message@ == numeric_name_message()
            } else if id == u64::MAX {
                error matches Error::Internal(message) && message@
                    == crate::state::exhausted_message()
            } else {
                is_dependency_error(before.deps@, id, dependencies@, error)
            }
        }
        &&& crate::state::is_step(before, issued_by(made), after)
    }

    /// Creates a task now. See `is_creation` for what is owed.
    pub fn new(
        name: String,
        info: Option<String>,
        tags: Vec<String>,
        dependencies: Vec<Id>,
        priority: Option<Priority>,
        due: Option<DateTime>,
        state: &mut InternalState,
    ) -> (made: Result<InternalTask, Error>)
        ensures
            Self::is_creation(
                name,
                info,
                tags,
                dependencies,
                priority,
                due,
                *old(state),
                made,
                *final(state),
            ),
            old(state).is_consistent() ==> final(state).is_consistent(),
    {
        Self::new_at(name, info, tags, dependencies, priority, due, now(), state)
    }

    /// Creates a task at the moment `created`. See `is_creation` for what is
    /// owed.
    pub fn new_at(
        name: String,
        info: Option<String>,
        tags: Vec<String>,
        dependencies: Vec<Id>,
        priority: Option<Priority>,
        due: Option<DateTime>,
        created: DateTime,
        state: &mut InternalState,
    ) -> (made: Result<InternalTask, Error>)
        ensures
            Self::is_creation(
                name,
                info,
                tags,
                dependencies,
                priority,
                due,
                *old(state),
                made,
                *final(state),
            ),
            made matches Ok(task) ==> task.created == created,
            old(state).is_consistent() ==> final(state).is_consistent(),
    {
        let numeric = is_purely_numeric(name.as_str());
        Self::new_named(name, info, tags, dependencies, priority, due, created, numeric, state)
    }

    /// Creates a task at the moment `created`, where `numeric` tells whether
    /// its name is made of numbers only. See `is_creation_of` for what is
    /// owed.
    pub fn new_named(
        name: String,
        info: Option<String>,
        tags: Vec<String>,
        dependencies: Vec<Id>,
        priority: Option<Priority>,
        due: Option<DateTime>,
        created: DateTime,
        numeric: bool,
        state: &mut InternalState,
    ) -> (made: Result<InternalTask, Error>)
        ensures
            Self::is_creation_of(
                numeric,
                name,
                info,
                tags,
                dependencies,
                priority,
                due,
                *old(state),
                made,
                *final(state),
            ),
            made matches Ok(task) ==> task.created == created,
            old(state).is_consistent() ==> final(state).is_consistent(),
    {
        // Names of numbers only are left out, so that a task can be named by
        // its identifier or by its name.
        if numeric {
            return Err(Error::Generic(String::from_str("Name must not be purely numeric")));
        }
        let id = state.next_id;
        if id == u64::MAX {
            return Err(Error::Internal(String::from_str("No further task ID is left in this vault")));
        }
        // Every dependency is looked at before anything is changed.
        let mut i: usize = 0;
        while i < dependencies.len()
            invariant
                i <= dependencies.len(),
                id == state.next_id,
                id < u64::MAX,
                !numeric,
                *state == *old(state),
                are_good_dependencies(state.deps@, id, dependencies@.take(i as int)),
            decreases dependencies.len() - i,
        {
            let dependency = dependencies[i];
            if dependency == id {
                let error = Error::Generic(
                    frame("Note with ID ", crate::format::id(id), " cannot depend on itself"),
                );
                assert(is_dependency_error(state.deps@, id, dependencies@, error)) by {
                    assert(is_bad_dependency(state.deps@, id, dependencies@[i as int]));
                }
                return Err(error);
            }
            if !state.deps.contains_node(dependency) {
                let error = Error::Generic(
                    frame("No task with an ID of ", crate::format::id(dependency), " exists"),
                );
                assert(is_dependency_error(state.deps@, id, dependencies@, error)) by {
                    assert(is_bad_dependency(state.deps@, id, dependencies@[i as int]));
                }
                return Err(error);
            }
            assert(dependencies@.take(i + 1).drop_last() =~= dependencies@.take(i as int));
            i = i + 1;
        }
        assert(dependencies@.take(i as int) =~= dependencies@);
        state.next_id = id + 1;
        state.deps.insert_node(id);
        let ghost base = state.deps@;
        assert(base == with_node(old(state).deps@, id));
        let mut i: usize = 0;
        assert(dependencies@.take(0).to_set() =~= Set::<Id>::empty());
        assert(base[id].union(Set::<Id>::empty()) =~= base[id]);
        assert(base.insert(id, base[id].union(Set::<Id>::empty())) =~= base);
        while i < dependencies.len()
            invariant
                i <= dependencies.len(),
                base.contains_key(id),
                are_good_dependencies(old(state).deps@, id, dependencies@),
                forall|node: u64| old(state).deps@.contains_key(node) ==> base.contains_key(node),
                state.deps@ == base.insert(
                    id,
                    base[id].union(dependencies@.take(i as int).to_set()),
                ),
                state.next_id == id + 1,
                state.index == old(state).index,
            decreases dependencies.len() - i,
        {
            let dependency = dependencies[i];
            assert(!is_bad_dependency(old(state).deps@, id, dependencies@[i as int]));
            let ghost during = state.deps@;
            let added = state.deps.insert_edge(id, dependency);
            proof {
                dependencies@.take(i as int).lemma_push_to_set_commute(dependency);
                assert(dependencies@.take(i as int).push(dependency) =~= dependencies@.take(i + 1));
                assert(added is Ok);
                assert(during[id].insert(dependency) =~= base[id].union(
                    dependencies@.take(i + 1).to_set(),
                ));
                assert(state.deps@ =~= base.insert(
                    id,
                    base[id].union(dependencies@.take(i + 1).to_set()),
                ));
            }
            i = i + 1;
        }
        assert(dependencies@.take(i as int) =~= dependencies@);
        let data = InternalTask {
            id,
            name,
            info,
            tags: distinct(tags),
            dependencies: id_set(&dependencies),
            priority: match priority {
                Some(given) => given,
                None => Priority::default(),
            },
            due,
            time_entries: Vec::new(),
            created,
            completed: None,
        };
        state.index.insert(data.name.clone(), id);
        proof {
            if old(state).is_consistent() {
                lemma_created_consistent(*old(state), *state, name@, dependencies@);
            }
        }
        Ok(data)
    }

    /// Whether the task may be written to its file: its name must not be
    /// made of numbers only.
    pub fn validate(&self) -> (valid: Result<(), Error>)
        ensures
            valid is Ok <==> !all_numeric(self.name@),
            valid matches Err(error) ==> error matches Error::Generic(message) && message@
                == numeric_name_message(),
    {
        Self::validate_named(is_purely_numeric(self.name.as_str()))
    }

    /// Whether a task may be written to its file, where `numeric` tells
    /// whether its name is made of numbers only: such a name is refused.
    pub fn validate_named(numeric: bool) -> (valid: Result<(), Error>)
        ensures
            valid is Ok <==> !numeric,
            valid matches Err(error) ==> error matches Error::Generic(message) && message@
                == numeric_name_message(),
    {
        if numeric {
            Err(Error::Generic(String::from_str("Name must not be purely numeric")))
        } else {
            Ok(())
        }
    }

    /// Takes `id` out of the dependencies of the task, as is owed once the
    /// task `id` is deleted. Returns whether the task depended on it.
    pub fn strip_dependency(&mut self, id: Id) -> (stripped: bool)
        ensures
            stripped == old(self).dependencies@.contains(id),
            crate::state::is_stripped(*old(self), *final(self), id),
    {
        self.dependencies.remove(&id)
    }

    /// Marks the task as completed at the moment `at`, unless it is
    /// completed already: a task is completed once. Returns whether it was
    /// still to complete.
    pub fn complete_at(&mut self, at: DateTime) -> (newly: bool)
        ensures
            newly == old(self).completed is None,
            final(self).completed == match old(self).completed {
                Some(before) => Some(before),
                None => Some(at),
            },
            final(self).id == old(self).id,
            final(self).name == old(self).name,
            final(self).tags == old(self).tags,
            final(self).dependencies == old(self).dependencies,
            final(self).priority == old(self).priority,
            final(self).due == old(self).due,
            final(self).created == old(self).created,
            final(self).info == old(self).info,
            final(self).time_entries == old(self).time_entries,
    {
        if self.completed.is_none() {
            self.completed = Some(at);
            true
        } else {
            false
        }
    }

    /// Marks the task as completed now, unless it is completed already.
    /// Returns whether it was still to complete.
    pub fn complete(&mut self) -> (newly: bool)
        ensures
            newly == old(self).completed is None,
            final(self).completed is Some,
            old(self).completed is Some ==> final(self).completed == old(self).completed,
            final(self).id == old(self).id,
            final(self).name == old(self).name,
            final(self).tags == old(self).tags,
            final(self).dependencies == old(self).dependencies,
            final(self).priority == old(self).priority,
            final(self).due == old(self).due,
            final(self).created == old(self).created,
            final(self).info == old(self).info,
            final(self).time_entries == old(self).time_entries,
    {
        self.complete_at(now())
    }

    /// Adds time spent on the task.
    pub fn track(&mut self, entry: TimeEntry)
        ensures
            final(self).time_entries@ == old(self).time_entries@.push(entry),
            final(self).id == old(self).id,
            final(self).name == old(self).name,
            final(self).tags == old(self).tags,
            final(self).dependencies == old(self).dependencies,
            final(self).priority == old(self).priority,
            final(self).due == old(self).due,
            final(self).created == old(self).created,
            final(self).completed == old(self).completed,
            final(self).info == old(self).info,
    {
        self.time_entries.push(entry);
    }
}

} // verus!
