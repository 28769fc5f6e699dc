//! Statistics about the tasks of a vault.

use vstd::prelude::*;

use crate::error::Error;
use crate::list::{lemma_text_connected, lemma_text_order, text_less, text_precedes};
use crate::tasks::{
    now, shared_minutes, Date, DateTime, Duration, InternalTask, TimeEntry,
};

verus! {

/// The nanoseconds in a day.
pub open spec fn day_nanos() -> int {
    86_400_000_000_000
}

/// Whether a task completed at `completed` was completed in the `days` days
/// before `moment`: before it, and less than that many days before.
pub open spec fn is_recent(completed: DateTime, days: u16, moment: DateTime) -> bool {
    0 < moment.nanos_of() - completed.nanos_of() < days * day_nanos()
}

/// Whether `chosen` lists the places of the tasks in `tasks` that were
/// completed in the `days` days before `moment`, in order.
pub open spec fn is_recently_completed(
    chosen: Seq<usize>,
    tasks: Seq<InternalTask>,
    days: u16,
    moment: DateTime,
) -> bool {
    chosen == Seq::new(tasks.len(), |i: int| i as usize).filter(
        |i: usize|
            tasks[i as int].completed matches Some(completed) && is_recent(completed, days, moment),
    )
}

/// The places of the tasks in `tasks` that were completed in the `days` days
/// before `moment`, in order.
pub fn completed_tasks_at(days: u16, tasks: &Vec<InternalTask>, moment: &DateTime) -> (chosen: Vec<
    usize,
>)
    ensures
        is_recently_completed(chosen@, tasks@, days, *moment),
{
    let ghost places = Seq::new(tasks@.len(), |i: int| i as usize);
    let ghost recent = |i: usize|
        tasks@[i as int].completed matches Some(completed) && is_recent(completed, days, *moment);
    let mut chosen: Vec<usize> = Vec::new();
    let mut i: usize = 0;
    assert(places.take(0) =~= Seq::<usize>::empty());
    let limit: i128 = days as i128 * 86_400_000_000_000;
    while i < tasks.len()
        invariant
            i <= tasks.len(),
            places == Seq::new(tasks@.len(), |i: int| i as usize),
            recent == |i: usize|
                tasks@[i as int].completed matches Some(completed) && is_recent(
                    completed,
                    days,
                    *moment,
                ),
            chosen@ == places.take(i as int).filter(recent),
            limit == days * day_nanos(),
        decreases tasks.len() - i,
    {
        proof {
            assert(places.take(i + 1) =~= places.take(i as int).push(i));
            places.take(i as int).lemma_filter_push(i, recent);
        }
        if let Some(completed) = tasks[i].completed {
            let time_diff: i128 = moment.nanos() - completed.nanos();
            if time_diff < limit && time_diff > 0 {
                chosen.push(i);
            }
        }
        i = i + 1;
    }
    assert(places.take(i as int) =~= places);
    chosen
}

/// The places of the tasks in `tasks` that were completed in the `days` days
/// before now, in order.
pub fn completed_tasks(days: u16, tasks: &Vec<InternalTask>) -> (chosen: Vec<usize>)
    ensures
        exists|moment: DateTime| is_recently_completed(chosen@, tasks@, days, moment),
{
    let moment = now();
    completed_tasks_at(days, tasks, &moment)
}

/// The minutes of those of `entries` that were logged less than `days` days
/// before `today`.
pub open spec fn recent_minutes(entries: Seq<TimeEntry>, days: u16, today: Date) -> nat
    decreases entries.len(),
{
    if entries.len() == 0 {
        0
    } else {
        recent_minutes(entries.drop_last(), days, today) + if today.days
            - entries.last().logged_date.days < days {
            entries.last().duration.total_minutes()
        } else {
            0
        }
    }
}

/// The minutes that each tag of `task` is given: the recent minutes of the
/// task shared out among its tags.
pub open spec fn share_of(task: InternalTask, days: u16, today: Date) -> nat {
    if task.tags@.len() == 0 {
        0
    } else {
        shared_minutes(recent_minutes(task.time_entries@, days, today), task.tags@.len())
    }
}

/// How often `tag` is among `tags`.
pub open spec fn occurrences(tags: Seq<String>, tag: Seq<char>) -> nat
    decreases tags.len(),
{
    if tags.len() == 0 {
        0
    } else {
        occurrences(tags.drop_last(), tag) + if tags.last()@ == tag {
            1nat
        } else {
            0nat
        }
    }
}

/// The minutes that `tag` is given by all of `tasks`.
pub open spec fn tag_minutes(tasks: Seq<InternalTask>, tag: Seq<char>, days: u16, today: Date) -> nat
    decreases tasks.len(),
{
    if tasks.len() == 0 {
        0
    } else {
        tag_minutes(tasks.drop_last(), tag, days, today) + occurrences(tasks.last().tags@, tag)
            * share_of(tasks.last(), days, today)
    }
}

/// The minutes that all tags together are given by all of `tasks`.
pub open spec fn all_tag_minutes(tasks: Seq<InternalTask>, days: u16, today: Date) -> nat
    decreases tasks.len(),
{
    if tasks.len() == 0 {
        0
    } else {
        all_tag_minutes(tasks.drop_last(), days, today) + tasks.last().tags@.len() * share_of(
            tasks.last(),
            days,
            today,
        )
    }
}

/// Whether one of `tasks` bears `tag`.
pub open spec fn is_tag_of(tasks: Seq<InternalTask>, tag: Seq<char>) -> bool {
    exists|i: int, j: int|
        0 <= i < tasks.len() && 0 <= j < tasks[i].tags@.len() && tasks[i].tags@[j]@ == tag
}

/// Whether `tag` is among the first `count` of `tags`.
pub open spec fn is_among_first(tags: Seq<String>, count: int, tag: Seq<char>) -> bool {
    exists|k: int| 0 <= k < count && k < tags.len() && tags[k]@ == tag
}

/// Whether the tags of `rows` ascend in the order of the dictionary.
pub open spec fn tags_ascend(rows: Seq<(String, Duration)>) -> bool {
    forall|a: int, b: int| 0 <= a < b < rows.len() ==> text_less(rows[a].0@, rows[b].0@)
}

/// The time tracked per tag.
#[derive(Debug)]
pub struct TagTimes {
    /// Each tag with its time, the tags in the order of the dictionary.
    pub rows: Vec<(String, Duration)>,
    /// The time of all tags together.
    pub total: Duration,
}

/// Whether `times` is the time that `tasks` tracked per tag in the `days`
/// days before `today`.
pub open spec fn is_time_per_tag(
    times: TagTimes,
    tasks: Seq<InternalTask>,
    days: u16,
    today: Date,
) -> bool {
    &&& tags_ascend(times.rows@)
    &&& forall|k: int|
        0 <= k < times.rows@.len() ==> is_tag_of(tasks, (#[trigger] times.rows@[k]).0@)
            && times.rows@[k].1.total_minutes() == tag_minutes(
            tasks,
            times.rows@[k].0@,
            days,
            today,
        )
    &&& forall|tag: Seq<char>| #[trigger]
        is_tag_of(tasks, tag) ==> exists|k: int|
            0 <= k < times.rows@.len() && times.rows@[k].0@ == tag
    &&& times.total.total_minutes() == all_tag_minutes(tasks, days, today)
}

/// The message of the error for tracked time that no duration can hold.
pub open spec fn too_long_message() -> Seq<char> {
    "The time tracked is more than a duration can hold"@
}

/// The first tasks never give a tag more minutes than all of them.
pub proof fn lemma_all_tag_minutes_prefix(tasks: Seq<InternalTask>, k: int, days: u16, today: Date)
    requires
        0 <= k <= tasks.len(),
    ensures
        all_tag_minutes(tasks.take(k), days, today) <= all_tag_minutes(tasks, days, today),
    decreases tasks.len(),
{
    if k < tasks.len() {
        lemma_all_tag_minutes_prefix(tasks.drop_last(), k, days, today);
        assert(tasks.drop_last().take(k) =~= tasks.take(k));
        assert(tasks.last().tags@.len() * share_of(tasks.last(), days, today) >= 0) by (nonlinear_arith);
    } else {
        assert(tasks.take(k) =~= tasks);
    }
}

/// The minutes of the entries of `entries` logged less than `days` days
/// before `today`.
pub fn recent(entries: &Vec<TimeEntry>, days: u16, today: &Date) -> (minutes: u128)
    ensures
        minutes == recent_minutes(entries@, days, *today),
        minutes <= 0xFFFF_FFFF_FFFF_FFFF * 4_000_000,
{
    let mut minutes: u128 = 0;
    let mut i: usize = 0;
    assert(entries@.take(0) =~= Seq::<TimeEntry>::empty());
    while i < entries.len()
        invariant
            i <= entries.len(),
            minutes == recent_minutes(entries@.take(i as int), days, *today),
            minutes <= i * 4_000_000,
        decreases entries.len() - i,
    {
        assert(entries@.take(i + 1).drop_last() =~= entries@.take(i as int));
        if (today.days as i64) - (entries[i].logged_date.days as i64) < days as i64 {
            let duration = entries[i].duration;
            minutes = minutes + duration.hours() as u128 * 60 + duration.minutes() as u128;
        }
        i = i + 1;
    }
    assert(entries@.take(i as int) =~= entries@);
    minutes
}

/// The minutes of each tag in `rows`.
pub open spec fn minutes_by_tag(rows: Seq<(String, u128)>) -> Map<Seq<char>, nat> {
    Map::new(
        |tag: Seq<char>| exists|k: int| 0 <= k < rows.len() && rows[k].0@ == tag,
        |tag: Seq<char>| rows[choose|k: int| 0 <= k < rows.len() && rows[k].0@ == tag].1 as nat,
    )
}

/// Whether the tags of `rows` ascend in the order of the dictionary.
pub open spec fn ascend(rows: Seq<(String, u128)>) -> bool {
    forall|a: int, b: int| 0 <= a < b < rows.len() ==> text_less(rows[a].0@, rows[b].0@)
}

/// Rows whose tags ascend hold each tag once.
pub proof fn lemma_row_found(rows: Seq<(String, u128)>, at: int)
    requires
        ascend(rows),
        0 <= at < rows.len(),
    ensures
        minutes_by_tag(rows).contains_key(rows[at].0@),
        minutes_by_tag(rows)[rows[at].0@] == rows[at].1,
{
    let tag = rows[at].0@;
    let k = choose|k: int| 0 <= k < rows.len() && rows[k].0@ == tag;
    lemma_text_order(tag, tag, tag);
    if k < at {
        assert(text_less(rows[k].0@, rows[at].0@));
    } else if k > at {
        assert(text_less(rows[at].0@, rows[k].0@));
    }
}

/// Adds `minutes` to the row of `tag`, which is made where there is none.
fn add_minutes(rows: &mut Vec<(String, u128)>, tag: &String, minutes: u128)
    requires
        ascend(old(rows)@),
        forall|k: int| 0 <= k < old(rows)@.len() ==> old(rows)@[k].1 + minutes <= u128::MAX,
    ensures
        ascend(final(rows)@),
        minutes_by_tag(final(rows)@) == minutes_by_tag(old(rows)@).insert(
            tag@,
            if minutes_by_tag(old(rows)@).contains_key(tag@) {
                (minutes_by_tag(old(rows)@)[tag@] + minutes) as nat
            } else {
                minutes as nat
            },
        ),
{
    let ghost before = rows@;
    let mut place: usize = 0;
    while place < rows.len() && text_precedes(rows[place].0.as_str(), tag.as_str())
        invariant
            place <= rows.len(),
            rows@ == before,
            forall|k: int| 0 <= k < place ==> text_less(before[k].0@, tag@),
        decreases rows.len() - place,
    {
        place = place + 1;
    }
    let found = place < rows.len() && rows[place].0 == *tag;
    if found {
        let sum: u128 = rows[place].1 + minutes;
        rows.set(place, (tag.clone(), sum));
    } else {
        rows.insert(place, (tag.clone(), minutes));
    }
    proof {
        let after = rows@;
        let view = minutes_by_tag(before);
        if found {
            assert forall|a: int, b: int| 0 <= a < b < after.len() implies text_less(
                after[a].0@,
                after[b].0@,
            ) by {
                assert(text_less(before[a].0@, before[b].0@));
            }
            lemma_row_found(before, place as int);
            assert forall|key: Seq<char>| minutes_by_tag(after).contains_key(key)
                <==> view.contains_key(key) by {
                if minutes_by_tag(after).contains_key(key) {
                    let k = choose|k: int| 0 <= k < after.len() && after[k].0@ == key;
                    assert(before[k].0@ == key);
                }
                if view.contains_key(key) {
                    let k = choose|k: int| 0 <= k < before.len() && before[k].0@ == key;
                    assert(after[k].0@ == key);
                }
            }
            assert forall|key: Seq<char>| minutes_by_tag(after).contains_key(key) implies #[trigger] minutes_by_tag(
                after,
            )[key] == view.insert(tag@, (view[tag@] + minutes) as nat)[key] by {
                let k = choose|k: int| 0 <= k < after.len() && after[k].0@ == key;
                lemma_row_found(after, k);
                if k != place {
                    assert(before[k].0@ == key);
                    lemma_row_found(before, k);
                    lemma_text_order(key, key, key);
                    if k < place {
                        assert(text_less(before[k].0@, before[place as int].0@));
                    } else {
                        assert(text_less(before[place as int].0@, before[k].0@));
                    }
                }
            }
            assert(minutes_by_tag(after) =~= view.insert(tag@, (view[tag@] + minutes) as nat));
        } else {
            assert forall|k: int| place <= k < before.len() implies text_less(
                tag@,
                before[k].0@,
            ) by {
                if !text_less(tag@, before[place as int].0@) {
                    lemma_text_connected(tag@, before[place as int].0@);
                }
                if k > place {
                    assert(text_less(before[place as int].0@, before[k].0@));
                    lemma_text_order(tag@, before[place as int].0@, before[k].0@);
                }
            }
            assert forall|k: int| 0 <= k < after.len() implies #[trigger] after[k] == if k < place {
                before[k]
            } else if k == place {
                (after[place as int].0, minutes)
            } else {
                before[k - 1]
            } by {}
            assert forall|a: int, b: int| 0 <= a < b < after.len() implies text_less(
                after[a].0@,
                after[b].0@,
            ) by {
                if a == place {
                    assert(text_less(tag@, before[b - 1].0@));
                } else if b == place {
                    assert(text_less(before[a].0@, tag@));
                } else {
                    let from_a = if a < place {
                        a
                    } else {
                        a - 1
                    };
                    let from_b = if b < place {
                        b
                    } else {
                        b - 1
                    };
                    assert(text_less(before[from_a].0@, before[from_b].0@));
                }
            }
            assert(!view.contains_key(tag@)) by {
                if view.contains_key(tag@) {
                    let k = choose|k: int| 0 <= k < before.len() && before[k].0@ == tag@;
                    lemma_text_order(tag@, tag@, tag@);
                    if k < place {
                        assert(text_less(before[k].0@, tag@));
                    } else {
                        assert(text_less(tag@, before[k].0@));
                    }
                }
            }
            assert forall|key: Seq<char>| minutes_by_tag(after).contains_key(key) <==> (
            view.contains_key(key) || key == tag@) by {
                if minutes_by_tag(after).contains_key(key) {
                    let k = choose|k: int| 0 <= k < after.len() && after[k].0@ == key;
                    if k < place {
                        assert(before[k].0@ == key);
                    } else if k > place {
                        assert(before[k - 1].0@ == key);
                    }
                }
                if view.contains_key(key) {
                    let k = choose|k: int| 0 <= k < before.len() && before[k].0@ == key;
                    if k < place {
                        assert(after[k].0@ == key);
                    } else {
                        assert(after[k + 1].0@ == key);
                    }
                }
                if key == tag@ {
                    assert(after[place as int].0@ == key);
                }
            }
            assert forall|key: Seq<char>| minutes_by_tag(after).contains_key(key) implies #[trigger] minutes_by_tag(
                after,
            )[key] == view.insert(tag@, minutes as nat)[key] by {
                let k = choose|k: int| 0 <= k < after.len() && after[k].0@ == key;
                lemma_row_found(after, k);
                if k < place {
                    lemma_row_found(before, k);
                } else if k > place {
                    lemma_row_found(before, k - 1);
                }
            }
            assert(minutes_by_tag(after) =~= view.insert(tag@, minutes as nat));
        }
    }
}

/// A tag that no task bears is given no minutes.
pub proof fn lemma_untagged_minutes(tasks: Seq<InternalTask>, tag: Seq<char>, days: u16, today: Date)
    requires
        !is_tag_of(tasks, tag),
    ensures
        tag_minutes(tasks, tag, days, today) == 0,
    decreases tasks.len(),
{
    if tasks.len() > 0 {
        let front = tasks.drop_last();
        assert(!is_tag_of(front, tag)) by {
            if is_tag_of(front, tag) {
                let (i, j) = choose|i: int, j: int|
                    0 <= i < front.len() && 0 <= j < front[i].tags@.len() && front[i].tags@[j]@
                        == tag;
                assert(tasks[i].tags@[j]@ == tag);
            }
        }
        lemma_untagged_minutes(front, tag, days, today);
        assert forall|j: int| 0 <= j < tasks.last().tags@.len() implies tasks.last().tags@[j]@
            != tag by {
            if tasks.last().tags@[j]@ == tag {
                assert(tasks[tasks.len() - 1].tags@[j]@ == tag);
            }
        }
        lemma_no_occurrence(tasks.last().tags@, tag);
        assert(0 * share_of(tasks.last(), days, today) == 0);
    }
}

/// A tag that is not among `tags` occurs in them no times.
pub proof fn lemma_no_occurrence(tags: Seq<String>, tag: Seq<char>)
    requires
        forall|j: int| 0 <= j < tags.len() ==> tags[j]@ != tag,
    ensures
        occurrences(tags, tag) == 0,
    decreases tags.len(),
{
    if tags.len() > 0 {
        assert forall|j: int| 0 <= j < tags.drop_last().len() implies tags.drop_last()[j]@
            != tag by {
            assert(tags[j]@ != tag);
        }
        lemma_no_occurrence(tags.drop_last(), tag);
        assert(tags[tags.len() - 1]@ != tag);
    }
}

/// Whether `times` is what is owed for the time that `tasks` tracked per
/// tag in the `days` days before `today`: the times, if a duration can hold
/// the time of all tags together, else the refusal.
pub open spec fn is_time_per_tag_outcome(
    times: Result<TagTimes, Error>,
    tasks: Seq<InternalTask>,
    days: u16,
    today: Date,
) -> bool {
    &&& times is Ok <==> all_tag_minutes(tasks, days, today) < 65536 * 60
    &&& times matches Ok(made) ==> is_time_per_tag(made, tasks, days, today)
    &&& times matches Err(error) ==> error matches Error::Internal(message) && message@
        == too_long_message()
}

/// The time that `tasks` tracked per tag in the `days` days before `today`:
/// of each task the time of its entries in those days, shared out among its
/// tags. Time that no duration can hold is refused.
pub fn time_per_tag_at(days: u16, tasks: &Vec<InternalTask>, today: &Date) -> (times: Result<
    TagTimes,
    Error,
>)
    ensures
        is_time_per_tag_outcome(times, tasks@, days, *today),
{
    let mut rows: Vec<(String, u128)> = Vec::new();
    let mut total: u128 = 0;
    let mut i: usize = 0;
    assert(tasks@.take(0) =~= Seq::<InternalTask>::empty());
    while i < tasks.len()
        invariant
            i <= tasks.len(),
            ascend(rows@),
            total == all_tag_minutes(tasks@.take(i as int), days, *today),
            total < 65536 * 60,
            forall|k: int| 0 <= k < rows@.len() ==> rows@[k].1 <= total,
            forall|tag: Seq<char>|
                minutes_by_tag(rows@).contains_key(tag) <==> is_tag_of(tasks@.take(i as int), tag),
            forall|tag: Seq<char>|
                minutes_by_tag(rows@).contains_key(tag) ==> #[trigger] minutes_by_tag(rows@)[tag]
                    == tag_minutes(tasks@.take(i as int), tag, days, *today),
        decreases tasks.len() - i,
    {
        let task = &tasks[i];
        let ghost earlier = tasks@.take(i as int);
        let ghost until = tasks@.take(i + 1);
        assert(until.drop_last() =~= earlier);
        assert(until.last() == *task);
        let tag_count = task.tags.len();
        let time = recent(&task.time_entries, days, today);
        let share: u128 = if tag_count == 0 {
            0
        } else {
            (2 * time + tag_count as u128) / (2 * tag_count as u128)
        };
        assert(share == share_of(*task, days, *today));
        let mut j: usize = 0;
        assert(task.tags@.take(0) =~= Seq::<String>::empty());
        assert(0 * share == 0);
        while j < tag_count
            invariant
                j <= tag_count,
                tag_count == task.tags@.len(),
                i < tasks.len(),
                *task == tasks@[i as int],
                earlier == tasks@.take(i as int),
                until == tasks@.take(i + 1),
                until.drop_last() == earlier,
                until.last() == *task,
                share == share_of(*task, days, *today),
                ascend(rows@),
                total == all_tag_minutes(earlier, days, *today) + j * share,
                total < 65536 * 60,
                forall|k: int| 0 <= k < rows@.len() ==> rows@[k].1 <= total,
                forall|tag: Seq<char>| #[trigger]
                    minutes_by_tag(rows@).contains_key(tag) <==> is_tag_of(earlier, tag)
                        || is_among_first(task.tags@, j as int, tag),
                forall|tag: Seq<char>|
                    minutes_by_tag(rows@).contains_key(tag) ==> #[trigger] minutes_by_tag(
                        rows@,
                    )[tag] == tag_minutes(earlier, tag, days, *today) + occurrences(
                        task.tags@.take(j as int),
                        tag,
                    ) * share,
            decreases tag_count - j,
        {
            assert((j + 1) * share == j * share + share) by (nonlinear_arith);
            if share >= 65536 * 60 - total {
                proof {
                    assert((j + 1) * share <= tag_count * share) by (nonlinear_arith)
                        requires
                            j + 1 <= tag_count,
                            share >= 0,
                    ;
                    lemma_all_tag_minutes_prefix(tasks@, i + 1, days, *today);
                }
                return Err(
                    Error::Internal(
                        String::from_str("The time tracked is more than a duration can hold"),
                    ),
                );
            }
            let ghost before = rows@;
            let ghost view = minutes_by_tag(before);
            let ghost tag = task.tags@[j as int]@;
            add_minutes(&mut rows, &task.tags[j], share);
            total = total + share;
            proof {
                let seen = task.tags@.take(j as int);
                let more = task.tags@.take(j + 1);
                assert(more.drop_last() =~= seen);
                assert(more.last() == task.tags@[j as int]);
                let value = if view.contains_key(tag) {
                    (view[tag] + share) as nat
                } else {
                    share as nat
                };
                assert(minutes_by_tag(rows@) == view.insert(tag, value));
                assert forall|key: Seq<char>| #[trigger]
                    view.contains_key(key) <==> is_tag_of(earlier, key) || is_among_first(
                        task.tags@,
                        j as int,
                        key,
                    ) by {
                    assert(minutes_by_tag(before).contains_key(key) <==> is_tag_of(earlier, key)
                        || is_among_first(task.tags@, j as int, key));
                }
                assert forall|key: Seq<char>| view.contains_key(key) implies view[key]
                    == tag_minutes(earlier, key, days, *today) + occurrences(seen, key) * share by {
                    assert(minutes_by_tag(before)[key] == tag_minutes(earlier, key, days, *today)
                        + occurrences(seen, key) * share);
                }
                assert forall|k: int| 0 <= k < rows@.len() implies rows@[k].1 <= total by {
                    lemma_row_found(rows@, k);
                    let key = rows@[k].0@;
                    if key == tag {
                        if view.contains_key(tag) {
                            let at = choose|at: int| 0 <= at < before.len() && before[at].0@ == tag;
                            lemma_row_found(before, at);
                        }
                    } else {
                        assert(view.contains_key(key));
                        let at = choose|at: int| 0 <= at < before.len() && before[at].0@ == key;
                        lemma_row_found(before, at);
                    }
                }
                assert forall|key: Seq<char>| #[trigger]
                    minutes_by_tag(rows@).contains_key(key) <==> is_tag_of(earlier, key)
                        || is_among_first(task.tags@, j + 1, key) by {
                    assert(view.contains_key(key) <==> is_tag_of(earlier, key) || is_among_first(
                        task.tags@,
                        j as int,
                        key,
                    ));
                    if key == tag {
                        assert(task.tags@[j as int]@ == key);
                    }
                    if is_among_first(task.tags@, j as int, key) {
                        let k = choose|k: int|
                            0 <= k < j && k < task.tags@.len() && task.tags@[k]@ == key;
                        assert(0 <= k < j + 1 && task.tags@[k]@ == key);
                    }
                    if is_among_first(task.tags@, j + 1, key) {
                        let k = choose|k: int|
                            0 <= k < j + 1 && k < task.tags@.len() && task.tags@[k]@ == key;
                        if k < j {
                            assert(is_among_first(task.tags@, j as int, key));
                        }
                    }
                }
                assert forall|key: Seq<char>|
                    minutes_by_tag(rows@).contains_key(key) implies #[trigger] minutes_by_tag(
                    rows@,
                )[key] == tag_minutes(earlier, key, days, *today) + occurrences(more, key)
                    * share by {
                    if key == tag {
                        assert(occurrences(more, key) == occurrences(seen, key) + 1);
                        assert((occurrences(seen, key) + 1) * share == occurrences(seen, key)
                            * share + share) by (nonlinear_arith);
                        if !view.contains_key(tag) {
                            lemma_untagged_minutes(earlier, tag, days, *today);
                            assert(!is_among_first(task.tags@, j as int, tag));
                            assert forall|k: int| 0 <= k < seen.len() implies seen[k]@ != tag by {
                                assert(task.tags@[k]@ == seen[k]@);
                            }
                            lemma_no_occurrence(seen, tag);
                            assert(0 * share == 0);
                        }
                    } else {
                        assert(occurrences(more, key) == occurrences(seen, key));
                        assert(view.contains_key(key));
                    }
                }
            }
            j = j + 1;
        }
        proof {
            assert(task.tags@.take(j as int) =~= task.tags@);
            assert forall|tag: Seq<char>|
                minutes_by_tag(rows@).contains_key(tag) <==> is_tag_of(until, tag) by {
                if is_tag_of(earlier, tag) {
                    let (a, b) = choose|a: int, b: int|
                        0 <= a < earlier.len() && 0 <= b < earlier[a].tags@.len()
                            && earlier[a].tags@[b]@ == tag;
                    assert(until[a].tags@[b]@ == tag);
                }
                if is_among_first(task.tags@, j as int, tag) {
                    let k = choose|k: int|
                        0 <= k < j && k < task.tags@.len() && task.tags@[k]@ == tag;
                    assert(until[i as int].tags@[k]@ == tag);
                }
                if is_tag_of(until, tag) {
                    let (a, b) = choose|a: int, b: int|
                        0 <= a < until.len() && 0 <= b < until[a].tags@.len() && until[a].tags@[b]@
                            == tag;
                    if a < i {
                        assert(earlier[a].tags@[b]@ == tag);
                    } else {
                        assert(task.tags@[b]@ == tag);
                        assert(is_among_first(task.tags@, j as int, tag));
                    }
                }
            }
        }
        i = i + 1;
    }
    assert(tasks@.take(i as int) =~= tasks@);
    let mut made: Vec<(String, Duration)> = Vec::new();
    let mut k: usize = 0;
    while k < rows.len()
        invariant
            k <= rows.len(),
            made@.len() == k,
            total < 65536 * 60,
            forall|at: int| 0 <= at < rows@.len() ==> rows@[at].1 <= total,
            forall|at: int|
                0 <= at < k ==> made@[at].0@ == rows@[at].0@ && made@[at].1.total_minutes()
                    == rows@[at].1,
        decreases rows.len() - k,
    {
        match Duration::from_minutes(rows[k].1) {
            Some(duration) => {
                made.push((rows[k].0.clone(), duration));
            },
            None => {},
        }
        k = k + 1;
    }
    let total = match Duration::from_minutes(total) {
        Some(total) => total,
        None => Duration::zero(),
    };
    let times = TagTimes { rows: made, total };
    proof {
        assert forall|a: int, b: int| 0 <= a < b < times.rows@.len() implies text_less(
            times.rows@[a].0@,
            times.rows@[b].0@,
        ) by {
            assert(text_less(rows@[a].0@, rows@[b].0@));
        }
        assert forall|at: int| 0 <= at < times.rows@.len() implies is_tag_of(
            tasks@,
            (#[trigger] times.rows@[at]).0@,
        ) && times.rows@[at].1.total_minutes() == tag_minutes(
            tasks@,
            times.rows@[at].0@,
            days,
            *today,
        ) by {
            lemma_row_found(rows@, at);
        }
        assert forall|tag: Seq<char>| #[trigger] is_tag_of(tasks@, tag) implies exists|at: int|
            0 <= at < times.rows@.len() && times.rows@[at].0@ == tag by {
            assert(minutes_by_tag(rows@).contains_key(tag));
            let at = choose|at: int| 0 <= at < rows@.len() && rows@[at].0@ == tag;
            assert(times.rows@[at].0@ == tag);
        }
    }
    Ok(times)
}

/// The time that `tasks` tracked per tag in the `days` days before today:
/// the day that the clock gives.
pub fn time_per_tag(days: u16, tasks: &Vec<InternalTask>) -> (times: Result<TagTimes, Error>)
    ensures
        exists|today: Date| #[trigger] is_time_per_tag_outcome(times, tasks@, days, today),
{
    let today = now().date;
    time_per_tag_at(days, tasks, &today)
}

} // verus!
