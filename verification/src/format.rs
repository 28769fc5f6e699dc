//! How identifiers, names and the other pieces of a message are shown.

use colored::Colorize;
use vstd::prelude::*;

use crate::tasks::{now, DateTime, Priority};
use crate::text::{decimal, decimal_text};

verus! {

/// The colour of a vault's name.
pub const VAULT: (u8, u8, u8) = (243, 156, 18);

/// The colour of a task's identifier.
pub const ID: (u8, u8, u8) = (52, 152, 219);

/// The colour of the word that opens an error.
pub const ERROR: (u8, u8, u8) = (192, 57, 43);

/// The colour of a command to run.
pub const COMMAND: (u8, u8, u8) = (155, 89, 182);

/// The colour of a task's name.
pub const TASK: (u8, u8, u8) = (39, 174, 96);

/// The colour of a file's name.
pub const FILE: (u8, u8, u8) = (255, 184, 184);

/// The colour of what is of less interest.
pub const GREY: (u8, u8, u8) = (99, 110, 114);

/// The colour of a profile's name.
pub const PROFILE: (u8, u8, u8) = (253, 121, 168);

/// The colour of a low priority.
pub const LOW: (u8, u8, u8) = (46, 204, 113);

/// The colour of a medium priority.
pub const MEDIUM: (u8, u8, u8) = (241, 196, 15);

/// The colour of a high priority.
pub const HIGH: (u8, u8, u8) = (231, 76, 60);

/// What the `Debug` of a string slice writes: the text between double
/// quotes, with what Rust would need an escape for written as that escape.
pub uninterp spec fn debug_text(text: Seq<char>) -> Seq<char>;

/// The `Debug` of `str`, through `format!`: the text between double quotes,
/// with escapes.
#[verifier::external_body]
pub(crate) fn quoted(text: &str) -> (shown: String)
    ensures
        shown@ == debug_text(text@),
{
    format!("{:?}", text)
}

/// The sequence that ends what an escape sequence has begun.
pub open spec fn reset_text() -> Seq<char> {
    "\x1B[0m"@
}

/// Whether the sequence that ends colouring stands at `at` in `text`.
pub open spec fn is_reset_at(text: Seq<char>, at: int) -> bool {
    0 <= at && at + 4 <= text.len() && text.subrange(at, at + 4) == reset_text()
}

/// Whether `text` itself holds the sequence that ends colouring.
pub open spec fn holds_reset(text: Seq<char>) -> bool {
    exists|at: int| is_reset_at(text, at)
}

/// The codes of the sixteen colours that every terminal has, as foreground.
pub open spec fn plain_codes() -> Seq<Seq<char>> {
    seq![
        "30"@,
        "31"@,
        "32"@,
        "33"@,
        "34"@,
        "35"@,
        "36"@,
        "37"@,
        "90"@,
        "91"@,
        "92"@,
        "93"@,
        "94"@,
        "95"@,
        "96"@,
        "97"@,
    ]
}

/// The code of `colour` as a foreground of twenty-four bits.
pub open spec fn true_colour_code(colour: (u8, u8, u8)) -> Seq<char> {
    "38;2;"@ + decimal_text(colour.0 as nat) + ";"@ + decimal_text(colour.1 as nat) + ";"@
        + decimal_text(colour.2 as nat)
}

/// Whether `code` is a code by which `colour` is asked of a terminal: its
/// own code, or that of the plain colour that the terminal has in its place.
pub open spec fn is_colour_code(code: Seq<char>, colour: (u8, u8, u8)) -> bool {
    code == true_colour_code(colour) || plain_codes().contains(code)
}

/// `inner` between the escape sequence that asks for the colour of `code`,
/// in bold where `bold` says so, and the sequence that ends it.
pub open spec fn painted(bold: bool, code: Seq<char>, inner: Seq<char>) -> Seq<char> {
    "\x1B["@ + (if bold {
        "1;"@
    } else {
        ""@
    }) + code + "m"@ + inner + reset_text()
}

/// Whether `shown` shows `text` in `colour`, and in bold where `bold` says
/// so: it is `text` as it stands where colours are off, else `text` between
/// the escape sequence that asks for them and the one that ends them. A
/// `text` that holds the ending sequence itself has the asking one put in
/// again behind each, which is not told here.
pub open spec fn is_painted(text: Seq<char>, colour: (u8, u8, u8), bold: bool, shown: Seq<char>) -> bool {
    shown == text || exists|code: Seq<char>, inner: Seq<char>|
        shown == #[trigger] painted(bold, code, inner) && is_colour_code(code, colour) && (
        holds_reset(text) || inner == text)
}

/// `colored::Colorize::truecolor` on a string slice, then the `Display` of
/// the `ColoredString` it gives. Where colours are off, `Display` writes the
/// text as it stands. Else it writes `ESC [`, the code of the colour (`38;2;`
/// and the three parts, or the code of the nearest of the sixteen plain
/// colours where the terminal has no more), `m`, the text, and `ESC [ 0 m`.
/// Whether colours are on, and which of the codes it is, depends on the
/// terminal and the environment.
#[verifier::external_body]
fn text(string: &str, colour: (u8, u8, u8)) -> (shown: String)
    ensures
        is_painted(string@, colour, false, shown@),
{
    string.truecolor(colour.0, colour.1, colour.2).to_string()
}

/// `colored::Colorize::truecolor` and then `colored::Colorize::bold` on a
/// string slice, then the `Display` of the `ColoredString` they give. Where
/// colours are off, `Display` writes the text as it stands. Else it writes
/// `ESC [ 1 ;` for bold, the code of the colour (`38;2;` and the three parts,
/// or the code of the nearest of the sixteen plain colours where the
/// terminal has no more), `m`, the text, and `ESC [ 0 m`. Whether colours are
/// on, and which of the codes it is, depends on the terminal and the
/// environment.
#[verifier::external_body]
fn bold_text(string: &str, colour: (u8, u8, u8)) -> (shown: String)
    ensures
        is_painted(string@, colour, true, shown@),
{
    string.truecolor(colour.0, colour.1, colour.2).bold().to_string()
}

/// A vault's name as it is shown: in bold, in the colour of vaults.
pub fn vault(string: &str) -> (shown: String)
    ensures
        is_painted(string@, VAULT, true, shown@),
{
    bold_text(string, VAULT)
}

/// A task's identifier as it is shown: in decimal, in the colour of
/// identifiers.
pub fn id(number: u64) -> (shown: String)
    ensures
        is_painted(decimal_text(number as nat), ID, false, shown@),
{
    let digits = decimal(number);
    text(digits.as_str(), ID)
}

/// The opening word of an error as it is shown: in bold, in the colour of
/// errors.
pub fn error(string: &str) -> (shown: String)
    ensures
        is_painted(string@, ERROR, true, shown@),
{
    bold_text(string, ERROR)
}

/// A command as it is shown: in bold, in the colour of commands.
pub fn command(string: &str) -> (shown: String)
    ensures
        is_painted(string@, COMMAND, true, shown@),
{
    bold_text(string, COMMAND)
}

/// A task's name as it is shown: in bold, in the colour of tasks.
pub fn task(string: &str) -> (shown: String)
    ensures
        is_painted(string@, TASK, true, shown@),
{
    bold_text(string, TASK)
}

/// A file's name as it is shown: in bold, in the colour of files.
pub fn file(string: &str) -> (shown: String)
    ensures
        is_painted(string@, FILE, true, shown@),
{
    bold_text(string, FILE)
}

/// Text of less interest as it is shown: in grey.
pub fn greyed_out(string: &str) -> (shown: String)
    ensures
        is_painted(string@, GREY, false, shown@),
{
    text(string, GREY)
}

/// A profile's name as it is shown: in the colour of profiles.
pub fn profile(string: &str) -> (shown: String)
    ensures
        is_painted(string@, PROFILE, false, shown@),
{
    text(string, PROFILE)
}

/// The word for a priority.
pub open spec fn priority_word_of(priority: Priority) -> Seq<char> {
    match priority {
        Priority::Backlog => "backlog"@,
        Priority::Low => "low"@,
        Priority::Medium => "medium"@,
        Priority::High => "high"@,
    }
}

/// The colour in which a priority is shown.
pub open spec fn priority_colour_of(priority: Priority) -> (u8, u8, u8) {
    match priority {
        Priority::Backlog => GREY,
        Priority::Low => LOW,
        Priority::Medium => MEDIUM,
        Priority::High => HIGH,
    }
}

/// The word for a priority.
pub fn priority_word(priority: &Priority) -> (word: &'static str)
    ensures
        word@ == priority_word_of(*priority),
{
    match priority {
        Priority::Backlog => "backlog",
        Priority::Low => "low",
        Priority::Medium => "medium",
        Priority::High => "high",
    }
}

/// The colour in which a priority is shown.
pub fn priority_colour(priority: &Priority) -> (colour: (u8, u8, u8))
    ensures
        colour == priority_colour_of(*priority),
{
    match priority {
        Priority::Backlog => GREY,
        Priority::Low => LOW,
        Priority::Medium => MEDIUM,
        Priority::High => HIGH,
    }
}

/// A priority as it is shown: its word in its colour.
pub fn priority(level: &Priority) -> (shown: String)
    ensures
        is_painted(priority_word_of(*level), priority_colour_of(*level), false, shown@),
{
    text(priority_word(level), priority_colour(level))
}

/// Whether `message` is `prefix`, then `text` as it is shown in `colour`,
/// in bold where `bold` says so, then `suffix`.
pub open spec fn frames(
    prefix: Seq<char>,
    suffix: Seq<char>,
    text: Seq<char>,
    colour: (u8, u8, u8),
    bold: bool,
    message: Seq<char>,
) -> bool {
    exists|shown: Seq<char>| #[trigger]
        is_painted(text, colour, bold, shown) && message == prefix + shown + suffix
}

/// Whether `message` is `prefix`, then the task identifier `id` as it is
/// shown, then `suffix`.
pub open spec fn frames_id(prefix: Seq<char>, suffix: Seq<char>, id: u64, message: Seq<char>) -> bool {
    frames(prefix, suffix, decimal_text(id as nat), ID, false, message)
}

/// Whether `message` is `prefix`, then the name of a vault as it is shown,
/// then `suffix`.
pub open spec fn frames_vault(
    prefix: Seq<char>,
    suffix: Seq<char>,
    name: Seq<char>,
    message: Seq<char>,
) -> bool {
    frames(prefix, suffix, name, VAULT, true, message)
}

/// Whether `message` is `prefix`, then the name of a profile as it is shown,
/// then `suffix`.
pub open spec fn frames_profile(
    prefix: Seq<char>,
    suffix: Seq<char>,
    name: Seq<char>,
    message: Seq<char>,
) -> bool {
    frames(prefix, suffix, name, PROFILE, false, message)
}

/// Whether `message` is `prefix`, then the name of a task as it is shown,
/// then `suffix`.
pub open spec fn frames_task(
    prefix: Seq<char>,
    suffix: Seq<char>,
    name: Seq<char>,
    message: Seq<char>,
) -> bool {
    frames(prefix, suffix, name, TASK, true, message)
}

/// Whether `message` is `prefix`, then the name of a file as it is shown,
/// then `suffix`.
pub open spec fn frames_file(
    prefix: Seq<char>,
    suffix: Seq<char>,
    name: Seq<char>,
    message: Seq<char>,
) -> bool {
    frames(prefix, suffix, name, FILE, true, message)
}

/// Whether `message` is `prefix`, then a command as it is shown, then
/// `suffix`.
pub open spec fn frames_command(
    prefix: Seq<char>,
    suffix: Seq<char>,
    command: Seq<char>,
    message: Seq<char>,
) -> bool {
    frames(prefix, suffix, command, COMMAND, true, message)
}

/// Whether `shown` shows the task identifiers `ids`, each as it is shown, in
/// their order.
pub open spec fn shows_ids(ids: Seq<u64>, shown: Seq<Seq<char>>) -> bool {
    &&& shown.len() == ids.len()
    &&& forall|i: int|
        0 <= i < ids.len() ==> is_painted(
            decimal_text(ids[i] as nat),
            ID,
            false,
            #[trigger] shown[i],
        )
}

/// Puts a shown piece between the two fixed parts of a message.
pub fn frame(prefix: &str, shown: String, suffix: &str) -> (message: String)
    ensures
        message@ == prefix@ + shown@ + suffix@,
{
    let mut message = String::from_str(prefix);
    message.append(shown.as_str());
    message.append(suffix);
    message
}

/// The task identifiers `ids`, each as it is shown, in their order.
pub fn shown_ids(ids: &Vec<u64>) -> (shown: Vec<String>)
    ensures
        shows_ids(ids@, texts(shown@)),
{
    let mut shown: Vec<String> = Vec::new();
    let mut i: usize = 0;
    while i < ids.len()
        invariant
            i <= ids.len(),
            shown.len() == i,
            forall|k: int|
                0 <= k < i ==> is_painted(
                    decimal_text(ids[k] as nat),
                    ID,
                    false,
                    #[trigger] texts(shown@)[k],
                ),
        decreases ids.len() - i,
    {
        let ghost before = texts(shown@);
        let piece = id(ids[i]);
        let ghost pushed = piece@;
        shown.push(piece);
        assert(texts(shown@) =~= before.push(pushed));
        i = i + 1;
    }
    shown
}

/// The texts of `pieces`, in order.
pub open spec fn texts(pieces: Seq<String>) -> Seq<Seq<char>> {
    pieces.map_values(|piece: String| piece@)
}

/// `pieces` one after another with `separator` between each two.
pub open spec fn joined(pieces: Seq<Seq<char>>, separator: Seq<char>) -> Seq<char>
    decreases pieces.len(),
{
    if pieces.len() == 0 {
        Seq::empty()
    } else if pieces.len() == 1 {
        pieces[0]
    } else {
        joined(pieces.drop_last(), separator) + separator + pieces.last()
    }
}

/// Writes `pieces` one after another with `separator` between each two.
pub fn join(pieces: &Vec<String>, separator: &str) -> (text: String)
    ensures
        text@ == joined(texts(pieces@), separator@),
{
    let mut text = String::new();
    let mut i: usize = 0;
    assert(texts(pieces@).take(0) =~= Seq::<Seq<char>>::empty());
    while i < pieces.len()
        invariant
            i <= pieces.len(),
            text@ == joined(texts(pieces@).take(i as int), separator@),
        decreases pieces.len() - i,
    {
        let ghost before = texts(pieces@).take(i as int);
        let ghost after = texts(pieces@).take(i + 1);
        assert(after.drop_last() =~= before);
        assert(after.last() == pieces[i as int]@);
        if i > 0 {
            text.append(separator);
        }
        text.append(pieces[i].as_str());
        assert(text@ =~= joined(after, separator@));
        i = i + 1;
    }
    assert(texts(pieces@).take(i as int) =~= texts(pieces@));
    text
}

/// The colour of a due date that has passed.
pub const OVERDUE: (u8, u8, u8) = (192, 57, 43);

/// The colour of a due date less than a day away.
pub const VERY_CLOSE: (u8, u8, u8) = (231, 76, 60);

/// The colour of a due date less than five days away.
pub const CLOSE: (u8, u8, u8) = (241, 196, 15);

/// The colour of a due date at least five days away.
pub const PLENTY_OF_TIME: (u8, u8, u8) = (46, 204, 113);

/// How near a due date is.
#[derive(Clone, Copy, Debug, PartialEq, Eq, Structural)]
pub enum Urgency {
    /// The due date has passed.
    Overdue,
    /// Less than a day is left.
    VeryClose,
    /// Less than five days are left.
    Close,
    /// Five days or more are left.
    PlentyOfTime,
}

/// A unit in which the time to a due date is told.
#[derive(Clone, Copy, Debug, PartialEq, Eq, Structural)]
pub enum Unit {
    Day,
    Hour,
    Minute,
    Second,
}

impl Unit {
    /// The name of the unit.
    pub open spec fn name_of(self) -> Seq<char> {
        match self {
            Unit::Day => "day"@,
            Unit::Hour => "hour"@,
            Unit::Minute => "minute"@,
            Unit::Second => "second"@,
        }
    }

    /// The name of the unit.
    pub fn name(&self) -> (name: &'static str)
        ensures
            name@ == self.name_of(),
    {
        match self {
            Unit::Day => "day",
            Unit::Hour => "hour",
            Unit::Minute => "minute",
            Unit::Second => "second",
        }
    }
}

/// `n` divided by the positive `d`, rounded towards zero.
pub open spec fn towards_zero(n: int, d: int) -> int {
    if n >= 0 {
        n / d
    } else {
        -((-n) / d)
    }
}

/// The size of `n`.
pub open spec fn size_of(n: int) -> nat {
    if n >= 0 {
        n as nat
    } else {
        (-n) as nat
    }
}

/// How near a due date is that lies `remaining` nanoseconds ahead.
pub open spec fn urgency_of(remaining: int) -> Urgency {
    if remaining < 0 {
        Urgency::Overdue
    } else if remaining < 86_400_000_000_000 {
        Urgency::VeryClose
    } else if remaining < 5 * 86_400_000_000_000 {
        Urgency::Close
    } else {
        Urgency::PlentyOfTime
    }
}

/// The time to a due date that lies `remaining` nanoseconds ahead or behind,
/// in the greatest unit of which it holds one at least: the number of whole
/// units, and the unit. The least unit is the second.
pub open spec fn period_of(remaining: int) -> (nat, Unit) {
    let seconds = towards_zero(remaining, 1_000_000_000);
    if towards_zero(seconds, 86400) != 0 {
        (size_of(towards_zero(seconds, 86400)), Unit::Day)
    } else if towards_zero(seconds, 3600) != 0 {
        (size_of(towards_zero(seconds, 3600)), Unit::Hour)
    } else if towards_zero(seconds, 60) != 0 {
        (size_of(towards_zero(seconds, 60)), Unit::Minute)
    } else {
        (size_of(seconds), Unit::Second)
    }
}

/// The words for a number of units: the number, the unit, and an `s` unless
/// the number is one.
pub open spec fn period_text(count: nat, unit: Unit) -> Seq<char> {
    decimal_text(count) + " "@ + unit.name_of() + if count == 1 {
        ""@
    } else {
        "s"@
    }
}

/// What is said of a due date that lies `remaining` nanoseconds ahead or
/// behind, before it is coloured.
pub open spec fn remark_text(remaining: int) -> Seq<char> {
    "("@ + period_text(period_of(remaining).0, period_of(remaining).1) + if remaining < 0 {
        " overdue)"@
    } else {
        " remaining)"@
    }
}

/// How near a due date is that lies `remaining` nanoseconds ahead.
pub fn urgency(remaining: i128) -> (urgency: Urgency)
    ensures
        urgency == urgency_of(remaining as int),
{
    if remaining < 0 {
        Urgency::Overdue
    } else if remaining < 86_400_000_000_000 {
        Urgency::VeryClose
    } else if remaining < 5 * 86_400_000_000_000 {
        Urgency::Close
    } else {
        Urgency::PlentyOfTime
    }
}

/// The colour in which a due date of this urgency is remarked on.
pub open spec fn urgency_colour_of(urgency: Urgency) -> (u8, u8, u8) {
    match urgency {
        Urgency::Overdue => OVERDUE,
        Urgency::VeryClose => VERY_CLOSE,
        Urgency::Close => CLOSE,
        Urgency::PlentyOfTime => PLENTY_OF_TIME,
    }
}

/// The colour in which a due date of this urgency is remarked on.
pub fn urgency_colour(urgency: Urgency) -> (colour: (u8, u8, u8))
    ensures
        colour == urgency_colour_of(urgency),
{
    match urgency {
        Urgency::Overdue => OVERDUE,
        Urgency::VeryClose => VERY_CLOSE,
        Urgency::Close => CLOSE,
        Urgency::PlentyOfTime => PLENTY_OF_TIME,
    }
}

/// The time to a due date that lies `remaining` nanoseconds ahead or behind:
/// the number of whole units, and the unit.
pub fn fuzzy_period(remaining: i128) -> (period: (u128, Unit))
    requires
        remaining > i128::MIN,
    ensures
        period.0 == period_of(remaining as int).0,
        period.1 == period_of(remaining as int).1,
{
    let size: u128 = if remaining < 0 {
        (-remaining) as u128
    } else {
        remaining as u128
    };
    let seconds: u128 = size / 1_000_000_000;
    assert(seconds == size_of(towards_zero(remaining as int, 1_000_000_000)));
    let ghost signed = towards_zero(remaining as int, 1_000_000_000);
    assert(signed == seconds || signed == -seconds);
    if seconds / 86400 != 0 {
        (seconds / 86400, Unit::Day)
    } else if seconds / 3600 != 0 {
        (seconds / 3600, Unit::Hour)
    } else if seconds / 60 != 0 {
        (seconds / 60, Unit::Minute)
    } else {
        (seconds, Unit::Second)
    }
}

/// The words for a number of units: the number, the unit, and an `s` unless
/// the number is one.
pub fn period_words(count: u64, unit: Unit) -> (words: String)
    ensures
        words@ == period_text(count as nat, unit),
{
    let mut words = decimal(count);
    words.append(" ");
    words.append(unit.name());
    if count == 1 {
        words.append("");
    } else {
        words.append("s");
    }
    words
}

/// Whether `text` is what is shown of a due date that lies `remaining`
/// nanoseconds ahead or behind: the moment as `shown_due` writes it and,
/// where a remark is asked for, a space and the remark on the time that is
/// left or has passed, in the colour of its urgency.
pub open spec fn is_due_text(
    text: Seq<char>,
    shown_due: Seq<char>,
    remaining: int,
    include_fuzzy_period: bool,
) -> bool {
    if include_fuzzy_period {
        exists|remark: Seq<char>| #[trigger]
            is_painted(
                remark_text(remaining),
                urgency_colour_of(urgency_of(remaining)),
                false,
                remark,
            ) && text == shown_due + " "@ + remark
    } else {
        text == shown_due
    }
}

/// What is shown of the due date `due`, which `shown_due` writes out, at
/// the moment `moment`: with a remark on the time that is left, or that has
/// passed, where `include_fuzzy_period` asks for one.
pub fn due_date_at(
    due: &DateTime,
    shown_due: &str,
    moment: &DateTime,
    include_fuzzy_period: bool,
) -> (text: String)
    ensures
        is_due_text(text@, shown_due@, due.nanos_of() - moment.nanos_of(), include_fuzzy_period),
{
    if !include_fuzzy_period {
        return String::from_str(shown_due);
    }
    let remaining: i128 = due.nanos() - moment.nanos();
    let remark = remark(remaining);
    let coloured = text(remark.as_str(), urgency_colour(urgency(remaining)));
    let mut text = String::from_str(shown_due);
    text.append(" ");
    text.append(coloured.as_str());
    text
}

/// What is said of a due date that lies `remaining` nanoseconds ahead or
/// behind, before it is coloured.
pub fn remark(remaining: i128) -> (remark: String)
    requires
        -1_000_000_000_000_000_000_000_000 < remaining < 1_000_000_000_000_000_000_000_000,
    ensures
        remark@ == remark_text(remaining as int),
{
    let (count, unit) = fuzzy_period(remaining);
    let words = period_words(count as u64, unit);
    let mut remark = String::from_str("(");
    remark.append(words.as_str());
    if remaining < 0 {
        remark.append(" overdue)");
    } else {
        remark.append(" remaining)");
    }
    remark
}

/// What is shown of the due date `due`, which `shown_due` writes out, now:
/// at the moment that the clock gives.
pub fn due_date(due: &DateTime, shown_due: &str, include_fuzzy_period: bool) -> (text: String)
    ensures
        exists|moment: DateTime| #[trigger]
            is_due_text(
                text@,
                shown_due@,
                due.nanos_of() - moment.nanos_of(),
                include_fuzzy_period,
            ),
{
    let moment = now();
    due_date_at(due, shown_due, &moment, include_fuzzy_period)
}

/// The members of a set of texts with a comma between each two.
pub fn hash_set(set: &Vec<String>) -> (output: Result<String, crate::error::Error>)
    ensures
        output matches Ok(text) && text@ == joined(texts(set@), ", "@),
{
    Ok(join(set, ", "))
}

} // verus!
