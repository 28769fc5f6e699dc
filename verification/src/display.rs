//! What is shown of one task.

use vstd::prelude::*;

use crate::tasks::{InternalTask, TimeEntry};
use crate::text::{chars_of, decimal, decimal_text};

verus! {

/// The heading of a task: a box that is crossed once the task is completed,
/// then the identifier and the name as `id` and `name` show them.
pub open spec fn heading_text(completed: bool, id: Seq<char>, name: Seq<char>) -> Seq<char> {
    (if completed {
        "[X] "@
    } else {
        "[ ] "@
    }) + id + " "@ + name
}

/// `count` hyphens.
pub open spec fn hyphens(count: nat) -> Seq<char> {
    Seq::new(count, |i: int| '-')
}

/// The lines of `s`: what stands between its line feeds, before the first
/// and after the last of them.
pub open spec fn split_lines(s: Seq<char>) -> Seq<Seq<char>>
    decreases s.len(),
{
    if s.len() == 0 {
        seq![Seq::empty()]
    } else {
        let front = split_lines(s.drop_last());
        if s.last() == '\n' {
            front.push(Seq::empty())
        } else {
            front.drop_last().push(front.last().push(s.last()))
        }
    }
}

/// `s` without the line feeds at its end.
pub open spec fn without_final_newlines(s: Seq<char>) -> Seq<char>
    decreases s.len(),
{
    if s.len() > 0 && s.last() == '\n' {
        without_final_newlines(s.drop_last())
    } else {
        s
    }
}

/// Whether `order` lists the places of `entries`, each once, by the day on
/// which they were logged, entries of one day in the order of `entries`.
pub open spec fn is_date_order(order: Seq<usize>, entries: Seq<TimeEntry>) -> bool {
    &&& order.len() == entries.len()
    &&& forall|k: int| 0 <= k < order.len() ==> (#[trigger] order[k]) < entries.len()
    &&& order.no_duplicates()
    &&& forall|a: int, b: int|
        0 <= a < b < order.len() ==> is_logged_first(
            entries,
            #[trigger] order[a] as int,
            #[trigger] order[b] as int,
        )
}

/// Whether the entry at `i` is shown before the entry at `j`: it was logged
/// on an earlier day, or on the same day and stands before it.
pub open spec fn is_logged_first(entries: Seq<TimeEntry>, i: int, j: int) -> bool {
    entries[i].logged_date.days < entries[j].logged_date.days || (entries[i].logged_date.days
        == entries[j].logged_date.days && i < j)
}

impl InternalTask {
    /// The word for the state of the task.
    pub fn status(&self) -> (status: &'static str)
        ensures
            status@ == if self.completed is Some {
                "complete"@
            } else {
                "incomplete"@
            },
    {
        if self.completed.is_some() {
            "complete"
        } else {
            "incomplete"
        }
    }

    /// The heading of the task: a box that is crossed once the task is
    /// completed, then the identifier and the name.
    pub fn heading(&self) -> (heading: String)
        ensures
            exists|id: Seq<char>, name: Seq<char>|
                {
                    &&& crate::format::is_painted(
                        decimal_text(self.id as nat),
                        crate::format::ID,
                        false,
                        id,
                    )
                    &&& crate::format::is_painted(self.name@, crate::format::TASK, true, name)
                    &&& heading@ == #[trigger] heading_text(self.completed is Some, id, name)
                },
    {
        let mut heading = if self.completed.is_some() {
            String::from_str("[X] ")
        } else {
            String::from_str("[ ] ")
        };
        let id = crate::format::id(self.id);
        let name = crate::format::task(self.name.as_str());
        heading.append(id.as_str());
        heading.append(" ");
        heading.append(name.as_str());
        assert(heading@ == heading_text(self.completed is Some, id@, name@));
        heading
    }

    /// The line under the heading: as many hyphens as the heading has
    /// characters when it is not coloured.
    pub fn underline(&self) -> (line: String)
        ensures
            line@ == hyphens(5 + self.name@.len() + decimal_text(self.id as nat).len()),
    {
        let mut line = String::new();
        line.append("-----");
        proof {
            reveal_strlit("-----");
        }
        assert(line@ =~= hyphens(5));
        let name = chars_of(self.name.as_str());
        let mut i: usize = 0;
        while i < name.len()
            invariant
                i <= name.len(),
                line@ == hyphens((5 + i) as nat),
            decreases name.len() - i,
        {
            line.push('-');
            i = i + 1;
            assert(line@ =~= hyphens((5 + i) as nat));
        }
        let digits = chars_of(decimal(self.id).as_str());
        let mut j: usize = 0;
        while j < digits.len()
            invariant
                j <= digits.len(),
                i == name.len(),
                line@ == hyphens((5 + i + j) as nat),
            decreases digits.len() - j,
        {
            line.push('-');
            j = j + 1;
            assert(line@ =~= hyphens((5 + i + j) as nat));
        }
        line
    }

    /// The places of the time entries of the task in the order in which
    /// they are shown: by the day on which they were logged.
    pub fn entries_by_date(&self) -> (order: Vec<usize>)
        ensures
            is_date_order(order@, self.time_entries@),
    {
        let entries = &self.time_entries;
        let mut order: Vec<usize> = Vec::new();
        let mut i: usize = 0;
        while i < entries.len()
            invariant
                i <= entries.len(),
                order@.len() == i,
                forall|x: usize| order@.contains(x) <==> x < i,
                order@.no_duplicates(),
                forall|a: int, b: int|
                    0 <= a < b < order.len() ==> is_logged_first(
                        entries@,
                        #[trigger] order[a] as int,
                        #[trigger] order[b] as int,
                    ),
            decreases entries.len() - i,
        {
            let day = entries[i].logged_date.days;
            let mut place: usize = order.len();
            assert forall|k: int| 0 <= k < order.len() implies (#[trigger] order[k]) < i by {
                assert(order@.contains(order[k]));
            }
            while place > 0 && entries[order[place - 1]].logged_date.days > day
                invariant
                    place <= order.len(),
                    i < entries.len(),
                    day == entries[i as int].logged_date.days,
                    forall|k: int| 0 <= k < order.len() ==> (#[trigger] order[k]) < i,
                    forall|k: int|
                        place <= k < order.len() ==> day < entries[#[trigger] order[k] as int].logged_date.days,
                decreases place,
            {
                place = place - 1;
            }
            let ghost before = order@;
            order.insert(place, i);
            proof {
                let after = order@;
                assert forall|k: int| 0 <= k < after.len() implies #[trigger] after[k] == if k
                    < place {
                    before[k]
                } else if k == place {
                    i
                } else {
                    before[k - 1]
                } by {}
                assert forall|x: usize| after.contains(x) <==> x < i + 1 by {
                    if after.contains(x) {
                        let k = choose|k: int| 0 <= k < after.len() && after[k] == x;
                        if k < place {
                            assert(before.contains(before[k]));
                        } else if k > place {
                            assert(before.contains(before[k - 1]));
                        }
                    }
                    if x < i {
                        assert(before.contains(x));
                        let k = choose|k: int| 0 <= k < before.len() && before[k] == x;
                        if k < place {
                            assert(after[k] == x);
                        } else {
                            assert(after[k + 1] == x);
                        }
                    }
                    if x == i {
                        assert(after[place as int] == x);
                    }
                }
                assert forall|a: int, b: int|
                    0 <= a < after.len() && 0 <= b < after.len() && a != b implies after[a]
                    != after[b] by {
                    if a != place && b != place {
                        let from_a = if a < place {
                            a
                        } else {
                            a - 1
                        };
                        let from_b = if b < place {
                            b
                        } else {
                            b - 1
                        };
                        assert(before[from_a] != before[from_b]);
                    }
                }
                assert forall|a: int, b: int| 0 <= a < b < after.len() implies is_logged_first(
                    entries@,
                    #[trigger] after[a] as int,
                    #[trigger] after[b] as int,
                ) by {
                    if a == place {
                        assert(after[b] == before[b - 1]);
                    } else if b == place {
                        if a < place - 1 {
                            assert(is_logged_first(
                                entries@,
                                before[a] as int,
                                before[place - 1] as int,
                            ));
                        }
                    } else {
                        let from_a = if a < place {
                            a
                        } else {
                            a - 1
                        };
                        let from_b = if b < place {
                            b
                        } else {
                            b - 1
                        };
                        assert(is_logged_first(
                            entries@,
                            before[from_a] as int,
                            before[from_b] as int,
                        ));
                    }
                }
            }
            i = i + 1;
        }
        assert forall|k: int| 0 <= k < order.len() implies (#[trigger] order[k])
            < entries.len() by {
            assert(order@.contains(order[k]));
        }
        order
    }
}

/// The lines of the info of a task as they are shown: the lines of the
/// info without the line feeds at its end.
pub fn info_lines(info: &str) -> (lines: Vec<String>)
    ensures
        crate::format::texts(lines@) == split_lines(without_final_newlines(info@)),
{
    let chars = chars_of(info);
    let mut end: usize = chars.len();
    assert(chars@.subrange(0, end as int) =~= chars@);
    while end > 0 && chars[end - 1] == '\n'
        invariant
            end <= chars.len(),
            without_final_newlines(chars@) == without_final_newlines(
                chars@.subrange(0, end as int),
            ),
        decreases end,
    {
        assert(chars@.subrange(0, end as int).drop_last() =~= chars@.subrange(0, end - 1));
        end = end - 1;
    }
    let ghost kept = chars@.subrange(0, end as int);
    assert(kept == without_final_newlines(info@));
    let mut lines: Vec<String> = Vec::new();
    let mut line = String::new();
    let mut i: usize = 0;
    assert(kept.subrange(0, 0) =~= Seq::<char>::empty());
    assert(crate::format::texts(lines@).push(line@) =~= split_lines(kept.subrange(0, 0)));
    while i < end
        invariant
            i <= end <= chars.len(),
            kept == chars@.subrange(0, end as int),
            crate::format::texts(lines@).push(line@) == split_lines(kept.subrange(0, i as int)),
        decreases end - i,
    {
        let ghost before = kept.subrange(0, i as int);
        let ghost after = kept.subrange(0, i + 1);
        assert(after.drop_last() =~= before);
        assert(after.last() == chars[i as int]);
        let ghost shown = crate::format::texts(lines@);
        if chars[i] == '\n' {
            lines.push(line);
            line = String::new();
            assert(crate::format::texts(lines@).push(line@) =~= split_lines(before).push(
                Seq::empty(),
            ));
        } else {
            let ghost current = line@;
            line.push(chars[i]);
            assert(split_lines(before).drop_last() =~= shown);
            assert(split_lines(before).last() == current);
        }
        i = i + 1;
    }
    assert(kept.subrange(0, i as int) =~= kept);
    lines.push(line);
    lines
}

} // verus!
