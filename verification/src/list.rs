//! Which tasks a list shows, and in what order.

use std::collections::HashSet;
use vstd::prelude::*;

use crate::args::{Column, ListOptions, Order, OrderBy};
use crate::error::Error;
use crate::graph::{
    acyclic, cycle_error, depended_upon, elements, first_cycle, is_cycle_message,
    reachable_from,
};
use crate::lists::deduped;
use crate::state::InternalState;
use crate::tasks::{minutes_logged, Id, InternalTask, Priority, TimeEntry};
use crate::text::chars_of;

verus! {

/// Whether `a` comes before `b` in the order of the dictionary, character by
/// character.
pub open spec fn text_less(a: Seq<char>, b: Seq<char>) -> bool
    decreases a.len(),
{
    if b.len() == 0 {
        false
    } else if a.len() == 0 {
        true
    } else if a[0] != b[0] {
        a[0] < b[0]
    } else {
        text_less(a.drop_first(), b.drop_first())
    }
}

/// The order of the dictionary is a strict order in which any two texts that
/// differ are comparable.
pub proof fn lemma_text_order(a: Seq<char>, b: Seq<char>, c: Seq<char>)
    ensures
        !(text_less(a, b) && text_less(b, a)),
        text_less(a, b) && text_less(b, c) ==> text_less(a, c),
        !text_less(a, b) && !text_less(b, c) ==> !text_less(a, c),
    decreases a.len() + b.len() + c.len(),
{
    if a.len() > 0 && b.len() > 0 && c.len() > 0 {
        lemma_text_order(a.drop_first(), b.drop_first(), c.drop_first());
    } else if a.len() > 0 && b.len() > 0 {
        lemma_text_order(a.drop_first(), b.drop_first(), c);
    }
}

/// Of two texts that differ, one comes before the other.
pub proof fn lemma_text_connected(a: Seq<char>, b: Seq<char>)
    requires
        !text_less(a, b),
        !text_less(b, a),
    ensures
        a == b,
    decreases a.len(),
{
    if a.len() > 0 && b.len() > 0 {
        lemma_text_connected(a.drop_first(), b.drop_first());
        assert(a =~= seq![a[0]] + a.drop_first());
        assert(b =~= seq![b[0]] + b.drop_first());
    } else {
        assert(a =~= b);
    }
}

/// Whether `a` comes before `b` in the order of the dictionary.
pub fn text_precedes(a: &str, b: &str) -> (less: bool)
    ensures
        less == text_less(a@, b@),
{
    let first = chars_of(a);
    let second = chars_of(b);
    let mut i: usize = 0;
    assert(first@.subrange(0, first.len() as int) =~= first@);
    assert(second@.subrange(0, second.len() as int) =~= second@);
    while i < first.len() && i < second.len()
        invariant
            i <= first.len(),
            i <= second.len(),
            first@ == a@,
            second@ == b@,
            text_less(a@, b@) == text_less(
                first@.subrange(i as int, first.len() as int),
                second@.subrange(i as int, second.len() as int),
            ),
        decreases first.len() - i,
    {
        let ghost rest_a = first@.subrange(i as int, first.len() as int);
        let ghost rest_b = second@.subrange(i as int, second.len() as int);
        assert(rest_a[0] == first[i as int]);
        assert(rest_b[0] == second[i as int]);
        if first[i] != second[i] {
            return first[i] < second[i];
        }
        assert(rest_a.drop_first() =~= first@.subrange(i + 1, first.len() as int));
        assert(rest_b.drop_first() =~= second@.subrange(i + 1, second.len() as int));
        i = i + 1;
    }
    i < second.len()
}

/// Whether some text is both in `a` and in `b`.
pub open spec fn share_text(a: Seq<String>, b: Seq<String>) -> bool {
    exists|i: int, j: int| 0 <= i < a.len() && 0 <= j < b.len() && a[i]@ == b[j]@
}

/// Whether some text is both in `a` and in `b`.
pub fn have_common(a: &Vec<String>, b: &Vec<String>) -> (common: bool)
    ensures
        common == share_text(a@, b@),
{
    let mut i: usize = 0;
    while i < a.len()
        invariant
            i <= a.len(),
            forall|k: int, j: int| 0 <= k < i && 0 <= j < b.len() ==> a[k]@ != b[j]@,
        decreases a.len() - i,
    {
        let mut j: usize = 0;
        while j < b.len()
            invariant
                i < a.len(),
                j <= b.len(),
                forall|k: int| 0 <= k < j ==> a[i as int]@ != b[k]@,
            decreases b.len() - j,
        {
            if a[i] == b[j] {
                return true;
            }
            j = j + 1;
        }
        i = i + 1;
    }
    false
}

/// The tasks among `tasks` that are completed.
pub open spec fn completed_ids(tasks: Seq<InternalTask>) -> Set<Id> {
    Set::new(
        |id: Id| exists|i: int| 0 <= i < tasks.len() && tasks[i].id == id && tasks[i].completed is Some,
    )
}

/// The field to order by where none is given, and the direction.
pub open spec fn order_by_of(options: ListOptions) -> OrderBy {
    match options.order_by {
        Some(by) => by,
        None => OrderBy::Id,
    }
}

/// The direction of the sort, upwards where none is given.
pub open spec fn direction_of(options: ListOptions) -> Order {
    match options.order {
        Some(order) => order,
        None => Order::Asc,
    }
}

/// Whether a list with `options` shows `task`, where `done` are the tasks
/// that are completed and `g` is the dependency graph.
pub open spec fn is_listed(
    task: InternalTask,
    options: ListOptions,
    done: Set<Id>,
    g: Map<u64, Set<u64>>,
) -> bool {
    &&& options.created_before matches Some(date) ==> task.created.date.days <= date.days
    &&& options.created_after matches Some(date) ==> task.created.date.days >= date.days
    &&& options.due_before matches Some(date) ==> (task.due matches Some(due) && due.date.days
        <= date.days)
    &&& options.due_after matches Some(date) ==> (task.due matches Some(due) ==> due.date.days
        >= date.days)
    &&& !options.include_completed ==> task.completed is None
    &&& options.tag@.len() > 0 ==> share_text(options.tag@, task.tags@)
    &&& options.exclude_tag@.len() > 0 ==> !share_text(options.exclude_tag@, task.tags@)
    &&& options.priority@.len() > 0 ==> options.priority@.contains(task.priority)
    &&& options.no_dependencies ==> reachable_from(g, task.id).subset_of(done)
    &&& options.no_dependents ==> !depended_upon(g).contains(task.id)
}

/// Whether the key of `a` is less than that of `b`, for the field `by`. A
/// task without a due date is due after every task with one.
pub open spec fn key_less(by: OrderBy, a: InternalTask, b: InternalTask) -> bool {
    match by {
        OrderBy::Id => a.id < b.id,
        OrderBy::Name => text_less(a.name@, b.name@),
        OrderBy::Due => match (a.due, b.due) {
            (Some(first), Some(second)) => first.precedes(second),
            (Some(_), None) => true,
            _ => false,
        },
        OrderBy::Priority => a.priority.rank_of() < b.priority.rank_of(),
        OrderBy::Created => a.created.precedes(b.created),
        OrderBy::Time => minutes_logged(a.time_entries@) < minutes_logged(b.time_entries@),
    }
}

/// Whether the key of `a` puts it before `b` in a sort by `by` in the
/// direction `order`.
pub open spec fn comes_before(by: OrderBy, order: Order, a: InternalTask, b: InternalTask) -> bool {
    match order {
        Order::Asc => key_less(by, a, b),
        Order::Desc => key_less(by, b, a),
    }
}

/// Whether the task at `i` goes before the task at `j` in the list: by its
/// key, or, with keys that do not tell, by its place in `tasks`.
pub open spec fn goes_first(
    tasks: Seq<InternalTask>,
    by: OrderBy,
    order: Order,
    i: int,
    j: int,
) -> bool {
    comes_before(by, order, tasks[i], tasks[j]) || (!comes_before(by, order, tasks[j], tasks[i])
        && i < j)
}

/// The keys order the tasks strictly, and what one key does not tell of two
/// tasks, it tells of no third between them.
pub proof fn lemma_key_order(by: OrderBy, order: Order, a: InternalTask, b: InternalTask, c: InternalTask)
    ensures
        !(comes_before(by, order, a, b) && comes_before(by, order, b, a)),
        comes_before(by, order, a, b) && comes_before(by, order, b, c) ==> comes_before(
            by,
            order,
            a,
            c,
        ),
        !comes_before(by, order, a, b) && !comes_before(by, order, b, c) ==> !comes_before(
            by,
            order,
            a,
            c,
        ),
{
    lemma_text_order(a.name@, b.name@, c.name@);
    lemma_text_order(c.name@, b.name@, a.name@);
}

/// Going first is transitive.
pub proof fn lemma_goes_first_transitive(
    tasks: Seq<InternalTask>,
    by: OrderBy,
    order: Order,
    i: int,
    j: int,
    k: int,
)
    requires
        goes_first(tasks, by, order, i, j),
        goes_first(tasks, by, order, j, k),
    ensures
        goes_first(tasks, by, order, i, k),
{
    lemma_key_order(by, order, tasks[i], tasks[j], tasks[k]);
    lemma_key_order(by, order, tasks[i], tasks[k], tasks[j]);
    lemma_key_order(by, order, tasks[j], tasks[i], tasks[k]);
    lemma_key_order(by, order, tasks[k], tasks[j], tasks[i]);
    lemma_key_order(by, order, tasks[j], tasks[k], tasks[i]);
    lemma_key_order(by, order, tasks[k], tasks[i], tasks[j]);
}

/// Whether `order` lists the places in `tasks` of the tasks that a list with
/// `options` shows, each once, and in the order of the list.
pub open spec fn is_listing_order(
    order: Seq<usize>,
    tasks: Seq<InternalTask>,
    options: ListOptions,
    g: Map<u64, Set<u64>>,
) -> bool {
    &&& forall|k: int|
        0 <= k < order.len() ==> (#[trigger] order[k]) < tasks.len() && is_listed(
            tasks[order[k] as int],
            options,
            completed_ids(tasks),
            g,
        )
    &&& forall|i: int|
        0 <= i < tasks.len() && is_listed(#[trigger] tasks[i], options, completed_ids(tasks), g)
            ==> order.contains(i as usize)
    &&& order.no_duplicates()
    &&& forall|a: int, b: int|
        0 <= a < b < order.len() ==> goes_first(
            tasks,
            order_by_of(options),
            direction_of(options),
            #[trigger] order[a] as int,
            #[trigger] order[b] as int,
        )
}

/// What a list shows.
#[derive(Debug)]
pub struct Listing {
    /// The columns beyond the identifier and the name, each once.
    pub columns: Vec<Column>,
    /// The places of the tasks to show, in the order of the list.
    pub order: Vec<usize>,
}

impl Column {
    /// The heading of the column.
    pub fn header(&self) -> (header: &'static str)
        ensures
            header@ == match self {
                Column::Due => "Due"@,
                Column::Priority => "Priority"@,
                Column::Created => "Created"@,
                Column::Time => "Tracked"@,
                Column::Tags => "Tags"@,
                Column::Status => "Status"@,
            },
    {
        match self {
            Column::Due => "Due",
            Column::Priority => "Priority",
            Column::Created => "Created",
            Column::Time => "Tracked",
            Column::Tags => "Tags",
            Column::Status => "Status",
        }
    }
}

/// The columns of `columns`, each once, in the order in which they first
/// occur.
pub fn unique_columns(columns: &Vec<Column>) -> (kept: Vec<Column>)
    ensures
        kept@ == deduped(columns@),
{
    let mut kept: Vec<Column> = Vec::new();
    let mut i: usize = 0;
    assert(columns@.take(0) =~= Seq::<Column>::empty());
    while i < columns.len()
        invariant
            i <= columns.len(),
            kept@ == deduped(columns@.take(i as int)),
        decreases columns.len() - i,
    {
        assert(columns@.take(i + 1).drop_last() =~= columns@.take(i as int));
        let mut seen = false;
        let mut j: usize = 0;
        while j < kept.len()
            invariant
                j <= kept.len(),
                i < columns.len(),
                seen <==> exists|k: int| 0 <= k < j && kept[k] == columns[i as int],
            decreases kept.len() - j,
        {
            if kept[j] == columns[i] {
                seen = true;
            }
            j = j + 1;
        }
        assert(seen == kept@.contains(columns[i as int]));
        if !seen {
            kept.push(columns[i]);
        }
        i = i + 1;
    }
    assert(columns@.take(i as int) =~= columns@);
    kept
}

/// The minutes logged in `entries`.
pub fn logged(entries: &Vec<TimeEntry>) -> (minutes: u128)
    ensures
        minutes == minutes_logged(entries@),
{
    let mut minutes: u128 = 0;
    let mut i: usize = 0;
    assert(entries@.take(0) =~= Seq::<TimeEntry>::empty());
    while i < entries.len()
        invariant
            i <= entries.len(),
            minutes == minutes_logged(entries@.take(i as int)),
            minutes <= i * 4_000_000,
        decreases entries.len() - i,
    {
        assert(entries@.take(i + 1).drop_last() =~= entries@.take(i as int));
        let duration = entries[i].duration;
        minutes = minutes + duration.hours() as u128 * 60 + duration.minutes() as u128;
        i = i + 1;
    }
    assert(entries@.take(i as int) =~= entries@);
    minutes
}

/// Whether the key of `a` is less than that of `b`, for the field `by`.
pub fn has_lesser_key(by: OrderBy, a: &InternalTask, b: &InternalTask) -> (less: bool)
    ensures
        less == key_less(by, *a, *b),
{
    match by {
        OrderBy::Id => a.id < b.id,
        OrderBy::Name => text_precedes(a.name.as_str(), b.name.as_str()),
        OrderBy::Due => match (&a.due, &b.due) {
            (Some(first), Some(second)) => first.is_before(second),
            (Some(_), None) => true,
            _ => false,
        },
        OrderBy::Priority => a.priority.rank() < b.priority.rank(),
        OrderBy::Created => a.created.is_before(&b.created),
        OrderBy::Time => logged(&a.time_entries) < logged(&b.time_entries),
    }
}

/// Whether the key of `a` puts it before `b` in a sort by `by` in the
/// direction `order`.
pub fn is_sorted_before(by: OrderBy, order: Order, a: &InternalTask, b: &InternalTask) -> (before:
    bool)
    ensures
        before == comes_before(by, order, *a, *b),
{
    match order {
        Order::Asc => has_lesser_key(by, a, b),
        Order::Desc => has_lesser_key(by, b, a),
    }
}

/// The tasks among `tasks` that are completed.
pub fn completed(tasks: &Vec<InternalTask>) -> (done: HashSet<Id>)
    ensures
        done@ == completed_ids(tasks@),
{
    let mut done: HashSet<Id> = HashSet::new();
    let mut i: usize = 0;
    while i < tasks.len()
        invariant
            i <= tasks.len(),
            forall|id: Id|
                done@.contains(id) <==> exists|k: int|
                    0 <= k < i && tasks[k].id == id && tasks[k].completed is Some,
        decreases tasks.len() - i,
    {
        if tasks[i].completed.is_some() {
            done.insert(tasks[i].id);
        }
        i = i + 1;
    }
    assert(done@ =~= completed_ids(tasks@));
    done
}

/// Whether `done` holds every task that `id` depends on, directly or
/// through other tasks. The graph must have no cycle.
pub fn has_no_open_dependency(state: &InternalState, id: Id, done: &HashSet<Id>) -> (none: bool)
    requires
        acyclic(state.deps@),
    ensures
        none == reachable_from(state.deps@, id).subset_of(done@),
{
    let nested = state.deps.get_nested_deps(id);
    let all = elements(&nested);
    let mut i: usize = 0;
    while i < all.len()
        invariant
            i <= all.len(),
            all@.to_set() == reachable_from(state.deps@, id),
            forall|k: int| 0 <= k < i ==> done@.contains(#[trigger] all[k]),
        decreases all.len() - i,
    {
        if !done.contains(&all[i]) {
            assert(all@.to_set().contains(all@[i as int]));
            return false;
        }
        i = i + 1;
    }
    proof {
        assert forall|to: Id| reachable_from(state.deps@, id).contains(to) implies done@.contains(
            to,
        ) by {
            assert(all@.to_set().contains(to));
            let k = choose|k: int| 0 <= k < all.len() && all[k] == to;
            assert(done@.contains(all[k]));
        }
    }
    true
}

/// Whether `priorities` holds `priority`.
pub fn has_priority(priorities: &Vec<Priority>, priority: Priority) -> (found: bool)
    ensures
        found == priorities@.contains(priority),
{
    let mut i: usize = 0;
    while i < priorities.len()
        invariant
            i <= priorities.len(),
            forall|k: int| 0 <= k < i ==> priorities[k] != priority,
        decreases priorities.len() - i,
    {
        if priorities[i] == priority {
            return true;
        }
        i = i + 1;
    }
    false
}

/// Whether a list with `options` shows `task`, where `done` are the tasks
/// that are completed and `with_dependents` those that something depends on.
/// Where only tasks without open dependencies are asked for, the graph must
/// have no cycle.
pub fn shows(
    task: &InternalTask,
    options: &ListOptions,
    done: &HashSet<Id>,
    with_dependents: &HashSet<Id>,
    state: &InternalState,
) -> (shown: bool)
    requires
        options.no_dependencies ==> acyclic(state.deps@),
        with_dependents@ == depended_upon(state.deps@),
    ensures
        shown == is_listed(*task, *options, done@, state.deps@),
{
    if let Some(date) = options.created_before {
        if task.created.date.days > date.days {
            return false;
        }
    }
    if let Some(date) = options.created_after {
        if task.created.date.days < date.days {
            return false;
        }
    }
    if let Some(date) = options.due_before {
        match task.due {
            Some(due) => {
                if due.date.days > date.days {
                    return false;
                }
            },
            None => {
                return false;
            },
        }
    }
    if let Some(date) = options.due_after {
        if let Some(due) = task.due {
            if due.date.days < date.days {
                return false;
            }
        }
    }
    if !options.include_completed && task.completed.is_some() {
        return false;
    }
    if options.tag.len() > 0 && !have_common(&options.tag, &task.tags) {
        return false;
    }
    if options.exclude_tag.len() > 0 && have_common(&options.exclude_tag, &task.tags) {
        return false;
    }
    if options.priority.len() > 0 && !has_priority(&options.priority, task.priority) {
        return false;
    }
    if options.no_dependencies && !has_no_open_dependency(state, task.id, done) {
        return false;
    }
    if options.no_dependents && with_dependents.contains(&task.id) {
        return false;
    }
    true
}

/// Whether every two places of `order` hold tasks of which the earlier goes
/// first.
pub open spec fn in_list_order(
    order: Seq<usize>,
    tasks: Seq<InternalTask>,
    by: OrderBy,
    direction: Order,
) -> bool {
    forall|a: int, b: int|
        0 <= a < b < order.len() ==> goes_first(
            tasks,
            by,
            direction,
            #[trigger] order[a] as int,
            #[trigger] order[b] as int,
        )
}

/// A task that comes after all of an ordered list in `tasks` keeps the list
/// ordered where it is put in behind the tasks that its key does not put it
/// before.
pub proof fn lemma_put_in_order(
    order: Seq<usize>,
    tasks: Seq<InternalTask>,
    by: OrderBy,
    direction: Order,
    place: int,
    next: usize,
)
    requires
        0 <= place <= order.len(),
        order.no_duplicates(),
        in_list_order(order, tasks, by, direction),
        forall|k: int| 0 <= k < order.len() ==> (#[trigger] order[k]) < next,
        forall|k: int|
            place <= k < order.len() ==> comes_before(
                by,
                direction,
                tasks[next as int],
                tasks[#[trigger] order[k] as int],
            ),
        place > 0 ==> !comes_before(
            by,
            direction,
            tasks[next as int],
            tasks[order[place - 1] as int],
        ),
    ensures
        order.insert(place, next).no_duplicates(),
        in_list_order(order.insert(place, next), tasks, by, direction),
        forall|x: usize|
            order.insert(place, next).contains(x) <==> order.contains(x) || x == next,
{
    let after = order.insert(place, next);
    assert forall|k: int| 0 <= k < after.len() implies #[trigger] after[k] == if k < place {
        order[k]
    } else if k == place {
        next
    } else {
        order[k - 1]
    } by {}
    assert forall|a: int, b: int|
        0 <= a < after.len() && 0 <= b < after.len() && a != b implies after[a] != after[b] by {
        if a != place && b != place {
            let from_a = if a < place {
                a
            } else {
                a - 1
            };
            let from_b = if b < place {
                b
            } else {
                b - 1
            };
            assert(order[from_a] != order[from_b]);
        }
    }
    assert forall|x: usize| after.contains(x) <==> order.contains(x) || x == next by {
        if after.contains(x) {
            let k = choose|k: int| 0 <= k < after.len() && after[k] == x;
            if k < place {
                assert(order[k] == x);
            } else if k > place {
                assert(order[k - 1] == x);
            }
        }
        if order.contains(x) {
            let k = choose|k: int| 0 <= k < order.len() && order[k] == x;
            if k < place {
                assert(after[k] == x);
            } else {
                assert(after[k + 1] == x);
            }
        }
        if x == next {
            assert(after[place] == x);
        }
    }
    assert forall|a: int, b: int| 0 <= a < b < after.len() implies goes_first(
        tasks,
        by,
        direction,
        #[trigger] after[a] as int,
        #[trigger] after[b] as int,
    ) by {
        if a == place {
            assert(after[b] == order[b - 1]);
        } else if b == place {
            let last = order[place - 1] as int;
            lemma_key_order(by, direction, tasks[next as int], tasks[last], tasks[last]);
            assert(goes_first(tasks, by, direction, last, next as int));
            if a < place - 1 {
                assert(goes_first(tasks, by, direction, order[a] as int, order[place - 1] as int));
                lemma_goes_first_transitive(tasks, by, direction, order[a] as int, last, next as int);
            }
        } else {
            let from_a = if a < place {
                a
            } else {
                a - 1
            };
            let from_b = if b < place {
                b
            } else {
                b - 1
            };
            assert(goes_first(tasks, by, direction, order[from_a] as int, order[from_b] as int));
        }
    }
}

/// Whether the task at the place `k` of `tasks` is shown.
pub open spec fn is_listed_at(
    tasks: Seq<InternalTask>,
    options: ListOptions,
    g: Map<u64, Set<u64>>,
    k: int,
) -> bool {
    0 <= k < tasks.len() && is_listed(tasks[k], options, completed_ids(tasks), g)
}

/// Which tasks a list with `options` shows, in what order, and with which
/// columns. Where only tasks without open dependencies are asked for, a graph
/// with a cycle is refused.
pub fn list(options: &ListOptions, tasks: &Vec<InternalTask>, state: &InternalState) -> (listing:
    Result<Listing, Error>)
    ensures
        listing is Ok <==> (options.no_dependencies ==> acyclic(state.deps@)),
        listing matches Ok(shown) ==> shown.columns@ == deduped(options.column@)
            && is_listing_order(shown.order@, tasks@, *options, state.deps@),
        listing matches Err(error) ==> error matches Error::Internal(message) && first_cycle(
            state.deps@,
        ) matches Some(cycle) && is_cycle_message(message@, cycle),
{
    if options.no_dependencies {
        if let Some(cycle) = state.deps.find_cycle() {
            return Err(cycle_error(&cycle));
        }
    }
    let done = completed(tasks);
    let with_dependents = state.deps.get_tasks_with_dependents();
    let by = match options.order_by {
        Some(by) => by,
        None => OrderBy::default(),
    };
    let direction = match options.order {
        Some(order) => order,
        None => Order::default(),
    };
    let mut order: Vec<usize> = Vec::new();
    let mut i: usize = 0;
    while i < tasks.len()
        invariant
            i <= tasks.len(),
            options.no_dependencies ==> acyclic(state.deps@),
            with_dependents@ == depended_upon(state.deps@),
            done@ == completed_ids(tasks@),
            forall|x: usize|
                order@.contains(x) <==> x < i && is_listed_at(
                    tasks@,
                    *options,
                    state.deps@,
                    x as int,
                ),
            order@.no_duplicates(),
            in_list_order(order@, tasks@, by, direction),
        decreases tasks.len() - i,
    {
        let shown = shows(&tasks[i], options, &done, &with_dependents, state);
        assert(shown == is_listed_at(tasks@, *options, state.deps@, i as int));
        let ghost before = order@;
        if shown {
            // The task goes behind every task that its key does not put it
            // before.
            let mut place: usize = order.len();
            assert forall|k: int| 0 <= k < order.len() implies (#[trigger] order[k]) < i by {
                assert(order@.contains(order[k]));
            }
            while place > 0 && is_sorted_before(by, direction, &tasks[i], &tasks[order[place - 1]])
                invariant
                    place <= order.len(),
                    i < tasks.len(),
                    forall|k: int| 0 <= k < order.len() ==> (#[trigger] order[k]) < i,
                    forall|k: int|
                        place <= k < order.len() ==> comes_before(
                            by,
                            direction,
                            tasks[i as int],
                            tasks[#[trigger] order[k] as int],
                        ),
                decreases place,
            {
                place = place - 1;
            }
            proof {
                lemma_put_in_order(order@, tasks@, by, direction, place as int, i);
            }
            order.insert(place, i);
        }
        assert forall|x: usize|
            order@.contains(x) <==> x < i + 1 && is_listed_at(
                tasks@,
                *options,
                state.deps@,
                x as int,
            ) by {
            assert(before.contains(x) <==> x < i && is_listed_at(
                tasks@,
                *options,
                state.deps@,
                x as int,
            ));
            if shown {
                assert(order@.contains(x) <==> before.contains(x) || x == i);
            }
        }
        i = i + 1;
    }
    proof {
        let g = state.deps@;
        assert forall|k: int| 0 <= k < order.len() implies (#[trigger] order[k]) < tasks.len()
            && is_listed(tasks[order[k] as int], *options, completed_ids(tasks@), g) by {
            assert(order@.contains(order[k]));
        }
        assert forall|k: int|
            0 <= k < tasks.len() && is_listed(
                #[trigger] tasks[k],
                *options,
                completed_ids(tasks@),
                g,
            ) implies order@.contains(k as usize) by {
            assert(is_listed_at(tasks@, *options, g, (k as usize) as int));
        }
    }
    Ok(Listing { columns: unique_columns(&options.column), order })
}

} // verus!
