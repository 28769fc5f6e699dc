//! The state of a vault: the next identifier to give out, the index of task
//! names, and the dependency graph.

use std::collections::HashSet;
use vstd::prelude::*;

use crate::error::Error;
use crate::format::frame;
use crate::graph::{
    acyclic, closed, dependents_of, edges_of, first_cycle, format_cycle, has_edge,
    is_cycle_text, lemma_without_node_keeps,
    members, missing_node_message, same_set, without_node, Graph,
};
use crate::index::{index_of, swap_removed, with_entry, without_entry, Index};
use crate::lists::{lemma_place_of, place_of};
use crate::tasks::{
    file_name_text, is_bad_dependency, numeric_name_message, task_file_id, Id, InternalTask,
};
use crate::text::{all_numeric, is_purely_numeric};

verus! {

/// Whether `names` holds the name of the task file of `id`.
pub open spec fn names_file(names: Seq<String>, id: Id) -> bool {
    exists|i: int| 0 <= i < names.len() && #[trigger] names[i]@ == file_name_text(id)
}

/// The identifier after every one that has a task file among `names`: zero
/// where there is none.
pub open spec fn next_after(names: Seq<String>, next: int) -> bool {
    &&& next >= 0
    &&& forall|id: Id| names_file(names, id) ==> id < next
    &&& next > 0 ==> names_file(names, (next - 1) as Id)
}

/// Whether `names` holds the name of the file of each of `tasks`.
pub open spec fn are_filed(names: Seq<String>, tasks: Seq<InternalTask>) -> bool {
    forall|i: int| 0 <= i < tasks.len() ==> names_file(names, (#[trigger] tasks[i]).id)
}

/// Whether one of `tasks` has the identifier `id`.
pub open spec fn is_recorded(tasks: Seq<InternalTask>, id: Id) -> bool {
    exists|i: int| 0 <= i < tasks.len() && (#[trigger] tasks[i]).id == id
}

/// Whether each of `tasks` depends on tasks among them only.
pub open spec fn depend_among_themselves(tasks: Seq<InternalTask>) -> bool {
    forall|i: int, target: Id|
        0 <= i < tasks.len() && (#[trigger] tasks[i].dependencies@.contains(target))
            ==> is_recorded(tasks, target)
}

/// The nodes of the graph of `tasks` are the tasks, and the edges of each
/// are the dependencies of one of them.
pub proof fn lemma_edges_of_records(tasks: Seq<InternalTask>)
    ensures
        forall|id: Id| #[trigger] edges_of(tasks).contains_key(id) <==> is_recorded(tasks, id),
        forall|id: Id| #[trigger]
            edges_of(tasks).contains_key(id) ==> exists|i: int|
                0 <= i < tasks.len() && (#[trigger] tasks[i]).id == id && edges_of(tasks)[id]
                    == tasks[i].dependencies@,
    decreases tasks.len(),
{
    if tasks.len() > 0 {
        let front = tasks.drop_last();
        let last = tasks.len() - 1;
        lemma_edges_of_records(front);
        assert forall|id: Id| #[trigger] edges_of(tasks).contains_key(id) <==> is_recorded(
            tasks,
            id,
        ) by {
            assert(edges_of(tasks) == edges_of(front).insert(
                tasks[last].id,
                tasks[last].dependencies@,
            ));
            assert(edges_of(front).contains_key(id) <==> is_recorded(front, id));
            if is_recorded(front, id) {
                let i = choose|i: int| 0 <= i < front.len() && (#[trigger] front[i]).id == id;
                assert(tasks[i].id == id);
                assert(is_recorded(tasks, id));
            }
            if tasks[last].id == id {
                assert(is_recorded(tasks, id));
            }
            if is_recorded(tasks, id) {
                let i = choose|i: int| 0 <= i < tasks.len() && (#[trigger] tasks[i]).id == id;
                if i < last {
                    assert(front[i].id == id);
                    assert(is_recorded(front, id));
                }
            }
        }
        assert forall|id: Id| #[trigger] edges_of(tasks).contains_key(id) implies exists|i: int|
            0 <= i < tasks.len() && (#[trigger] tasks[i]).id == id && edges_of(tasks)[id]
                == tasks[i].dependencies@ by {
            if id == tasks[last].id {
                assert(edges_of(tasks)[id] == tasks[last].dependencies@);
            } else {
                let i = choose|i: int|
                    0 <= i < front.len() && (#[trigger] front[i]).id == id && edges_of(front)[id]
                        == front[i].dependencies@;
                assert(tasks[i].id == id && edges_of(tasks)[id] == tasks[i].dependencies@);
            }
        }
    }
}

/// Every task recorded in the index of `tasks` is one of them.
pub proof fn lemma_index_of_records(tasks: Seq<InternalTask>)
    ensures
        forall|name: Seq<char>, k: int|
            index_of(tasks).contains_key(name) && 0 <= k < index_of(tasks)[name].len()
                ==> is_recorded(tasks, #[trigger] index_of(tasks)[name][k]),
    decreases tasks.len(),
{
    if tasks.len() > 0 {
        let front = tasks.drop_last();
        let last = tasks.len() - 1;
        lemma_index_of_records(front);
        assert forall|name: Seq<char>, k: int|
            index_of(tasks).contains_key(name) && 0 <= k < index_of(tasks)[name].len() implies is_recorded(
            tasks,
            #[trigger] index_of(tasks)[name][k],
        ) by {
            let id = index_of(tasks)[name][k];
            if id == tasks[last].id {
                assert(is_recorded(tasks, id));
            } else {
                assert(index_of(front).contains_key(name) && index_of(front)[name][k] == id);
                assert(is_recorded(front, id));
                let i = choose|i: int| 0 <= i < front.len() && (#[trigger] front[i]).id == id;
                assert(tasks[i].id == id);
            }
        }
    }
}

/// The state rebuilt from task files that are named for their tasks, where
/// the tasks depend on tasks among them only, and on none in a circle, is
/// consistent.
pub proof fn lemma_bootstrap_consistent(
    names: Seq<String>,
    tasks: Seq<InternalTask>,
    made: InternalState,
)
    requires
        next_after(names, made.next_id as int),
        made.index@ == index_of(tasks),
        made.deps@ == edges_of(tasks),
        are_filed(names, tasks),
        depend_among_themselves(tasks),
        acyclic(edges_of(tasks)),
    ensures
        made.is_consistent(),
{
    let g = edges_of(tasks);
    lemma_edges_of_records(tasks);
    lemma_index_of_records(tasks);
    assert forall|id: Id| is_recorded(tasks, id) implies id < made.next_id by {
        let i = choose|i: int| 0 <= i < tasks.len() && (#[trigger] tasks[i]).id == id;
        assert(names_file(names, tasks[i].id));
    }
    assert(closed(g)) by {
        assert forall|from: u64, to: u64| #[trigger] has_edge(g, from, to) implies g.contains_key(
            to,
        ) by {
            let i = choose|i: int|
                0 <= i < tasks.len() && (#[trigger] tasks[i]).id == from && g[from]
                    == tasks[i].dependencies@;
            assert(tasks[i].dependencies@.contains(to));
            assert(is_recorded(tasks, to));
        }
    }
    assert(nodes_below(g, made.next_id as int)) by {
        assert forall|node: u64| g.contains_key(node) implies node < made.next_id by {
            assert(is_recorded(tasks, node));
        }
    }
    assert(index_below(made.index@, made.next_id as int)) by {
        assert forall|name: Seq<char>, i: int|
            made.index@.contains_key(name) && 0 <= i < made.index@[name].len() implies (
        #[trigger] made.index@[name][i]) < made.next_id by {
            assert(is_recorded(tasks, index_of(tasks)[name][i]));
        }
    }
}

/// Whether the step from the state `before` to the state `after` gives out
/// `issued`: an identifier that is given out is the next one of the state
/// before, and the next one after is the one behind it; where none is given
/// out, the next one stays.
pub open spec fn is_step(before: InternalState, issued: Option<Id>, after: InternalState) -> bool {
    match issued {
        Some(id) => id == before.next_id && after.next_id == id + 1,
        None => after.next_id == before.next_id,
    }
}

/// Whether `states` are the states that a vault went through, step by step,
/// and `issued` what each step gave out.
pub open spec fn is_history(states: Seq<InternalState>, issued: Seq<Option<Id>>) -> bool {
    &&& states.len() == issued.len() + 1
    &&& forall|i: int|
        0 <= i < issued.len() ==> is_step(states[i], #[trigger] issued[i], states[i + 1])
}

/// Through the life of a vault the next identifier never falls, and every
/// identifier is given out once: one given out later is greater than every
/// one given out before, whatever became of the tasks since, and the next
/// identifier is greater than all that were given out.
pub proof fn lemma_history_ascends(states: Seq<InternalState>, issued: Seq<Option<Id>>)
    requires
        is_history(states, issued),
    ensures
        forall|i: int, j: int|
            0 <= i <= j < states.len() ==> (#[trigger] states[i]).next_id <= (
            #[trigger] states[j]).next_id,
        forall|i: int, j: int|
            0 <= i < j < issued.len() && (#[trigger] issued[i]) is Some && (
            #[trigger] issued[j]) is Some ==> issued[i]->0 < issued[j]->0,
        forall|i: int|
            0 <= i < issued.len() && (#[trigger] issued[i]) is Some ==> issued[i]->0
                < states.last().next_id,
    decreases issued.len(),
{
    if issued.len() > 0 {
        let last = issued.len() - 1;
        let earlier_states = states.drop_last();
        let earlier = issued.drop_last();
        assert(is_history(earlier_states, earlier)) by {
            assert forall|i: int| 0 <= i < earlier.len() implies is_step(
                earlier_states[i],
                #[trigger] earlier[i],
                earlier_states[i + 1],
            ) by {
                assert(is_step(states[i], issued[i], states[i + 1]));
            }
        }
        lemma_history_ascends(earlier_states, earlier);
        assert(is_step(states[last], issued[last], states[last + 1]));
        assert(earlier_states.last() == states[last]);
        assert forall|i: int, j: int| 0 <= i <= j < states.len() implies (
        #[trigger] states[i]).next_id <= (#[trigger] states[j]).next_id by {
            if j <= last {
                assert(earlier_states[i].next_id <= earlier_states[j].next_id);
            } else if i <= last {
                assert(earlier_states[i].next_id <= earlier_states[last].next_id);
            }
        }
        assert forall|i: int, j: int|
            0 <= i < j < issued.len() && (#[trigger] issued[i]) is Some && (
            #[trigger] issued[j]) is Some implies issued[i]->0 < issued[j]->0 by {
            if j < last {
                assert(earlier[i] is Some && earlier[j] is Some);
            } else {
                assert(earlier[i] is Some);
                assert(earlier[i]->0 < earlier_states.last().next_id);
            }
        }
        assert forall|i: int| 0 <= i < issued.len() && (#[trigger] issued[i]) is Some implies issued[i]->0
            < states.last().next_id by {
            if i < last {
                assert(earlier[i] is Some);
                assert(earlier[i]->0 < earlier_states.last().next_id);
            }
        }
    }
}

/// Whether no two of `tasks` have one identifier.
pub open spec fn have_distinct_ids(tasks: Seq<InternalTask>) -> bool {
    forall|i: int, j: int|
        0 <= i < tasks.len() && 0 <= j < tasks.len() && i != j ==> (#[trigger] tasks[i]).id != (
        #[trigger] tasks[j]).id
}

/// Whether `after` is the task `before` with `id` taken out of its
/// dependencies, and nothing else changed.
pub open spec fn is_stripped(before: InternalTask, after: InternalTask, id: Id) -> bool {
    &&& after.dependencies@ == before.dependencies@.remove(id)
    &&& after.id == before.id
    &&& after.name == before.name
    &&& after.tags == before.tags
    &&& after.priority == before.priority
    &&& after.due == before.due
    &&& after.created == before.created
    &&& after.completed == before.completed
    &&& after.info == before.info
    &&& after.time_entries == before.time_entries
}

/// Whether `after` are the records that the deletion of the task at the
/// place `at` of the records `before` leaves: that record is gone, each
/// record that depended on the task has lost that dependency and nothing
/// else, and every other record is as it was.
pub open spec fn is_cascade(before: Seq<InternalTask>, at: int, after: Seq<InternalTask>) -> bool {
    let id = before[at].id;
    let left = before.remove(at);
    &&& 0 <= at < before.len()
    &&& after.len() == left.len()
    &&& forall|i: int|
        0 <= i < after.len() ==> if dependents_of(edges_of(before), id).contains(left[i].id) {
            is_stripped(left[i], #[trigger] after[i], id)
        } else {
            after[i] == left[i]
        }
}

/// Among records with distinct identifiers, the edges of each in their
/// graph are its dependencies.
pub proof fn lemma_edges_of_distinct(tasks: Seq<InternalTask>, i: int)
    requires
        have_distinct_ids(tasks),
        0 <= i < tasks.len(),
    ensures
        edges_of(tasks).contains_key(tasks[i].id),
        edges_of(tasks)[tasks[i].id] == tasks[i].dependencies@,
{
    lemma_edges_of_records(tasks);
    let id = tasks[i].id;
    assert(is_recorded(tasks, id));
    assert(edges_of(tasks).contains_key(id));
    let k = choose|k: int|
        0 <= k < tasks.len() && (#[trigger] tasks[k]).id == id && edges_of(tasks)[id]
            == tasks[k].dependencies@;
    assert(tasks[k].id == tasks[i].id);
    assert(k == i);
}

/// The deletion of a task cascades: where the graph is that of the records
/// and the records have distinct identifiers, the tasks that `remove_node`
/// hands back are the tasks whose records name the deleted one, and once
/// each of them is stripped of it, no record names it any more and the
/// graph that `remove_node` leaves is that of the records left.
pub proof fn lemma_delete_cascades(before: Seq<InternalTask>, at: int, after: Seq<InternalTask>)
    requires
        have_distinct_ids(before),
        is_cascade(before, at, after),
    ensures
        forall|i: int|
            0 <= i < before.len() && i != at ==> (dependents_of(
                edges_of(before),
                before[at].id,
            ).contains((#[trigger] before[i]).id) <==> before[i].dependencies@.contains(
                before[at].id,
            )),
        forall|i: int|
            0 <= i < after.len() ==> !(#[trigger] after[i]).dependencies@.contains(before[at].id),
        have_distinct_ids(after),
        edges_of(after) == without_node(edges_of(before), before[at].id),
{
    let id = before[at].id;
    let g = edges_of(before);
    let left = before.remove(at);
    assert forall|i: int| 0 <= i < left.len() implies #[trigger] left[i] == before[if i < at {
        i
    } else {
        i + 1
    }] by {}
    assert forall|i: int| 0 <= i < before.len() && i != at implies (dependents_of(g, id).contains(
        (#[trigger] before[i]).id,
    ) <==> before[i].dependencies@.contains(id)) by {
        lemma_edges_of_distinct(before, i);
    }
    assert forall|i: int| 0 <= i < after.len() implies (#[trigger] after[i]).id == left[i].id
        && after[i].dependencies@ == left[i].dependencies@.remove(id) && left[i].id != id by {
        let from = if i < at {
            i
        } else {
            i + 1
        };
        lemma_edges_of_distinct(before, from);
        assert(left[i] == before[from]);
        assert(before[from].id != before[at].id);
        if !dependents_of(g, id).contains(left[i].id) {
            assert(left[i].dependencies@.remove(id) =~= left[i].dependencies@);
        }
    }
    assert(have_distinct_ids(after)) by {
        assert forall|i: int, j: int|
            0 <= i < after.len() && 0 <= j < after.len() && i != j implies (
        #[trigger] after[i]).id != (#[trigger] after[j]).id by {
            let from_i = if i < at {
                i
            } else {
                i + 1
            };
            let from_j = if j < at {
                j
            } else {
                j + 1
            };
            assert(left[i] == before[from_i] && left[j] == before[from_j]);
            assert(before[from_i].id != before[from_j].id);
        }
    }
    lemma_edges_of_records(after);
    lemma_edges_of_records(before);
    let fewer = without_node(g, id);
    assert forall|k: u64| edges_of(after).contains_key(k) <==> fewer.contains_key(k) by {
        if edges_of(after).contains_key(k) {
            assert(is_recorded(after, k));
            let i = choose|i: int| 0 <= i < after.len() && (#[trigger] after[i]).id == k;
            let from = if i < at {
                i
            } else {
                i + 1
            };
            assert(left[i] == before[from]);
            assert(is_recorded(before, k));
        }
        if fewer.contains_key(k) {
            assert(is_recorded(before, k));
            let from = choose|from: int| 0 <= from < before.len() && (#[trigger] before[from]).id == k;
            let i = if from < at {
                from
            } else {
                from - 1
            };
            assert(left[i] == before[from]);
            assert(after[i].id == k);
            assert(is_recorded(after, k));
        }
    }
    assert forall|k: u64| edges_of(after).contains_key(k) implies #[trigger] edges_of(after)[k]
        == fewer[k] by {
        assert(is_recorded(after, k));
        let i = choose|i: int| 0 <= i < after.len() && (#[trigger] after[i]).id == k;
        let from = if i < at {
            i
        } else {
            i + 1
        };
        assert(left[i] == before[from]);
        lemma_edges_of_distinct(after, i);
        lemma_edges_of_distinct(before, from);
    }
    assert(edges_of(after) =~= fewer);
}

/// The message of the error for a vault that has used up its identifiers.
pub open spec fn exhausted_message() -> Seq<char> {
    "No further task ID is left in this vault"@
}

/// Whether every task recorded in `index` has an identifier below `bound`.
pub open spec fn index_below(index: Map<Seq<char>, Seq<Id>>, bound: int) -> bool {
    forall|name: Seq<char>, i: int|
        index.contains_key(name) && 0 <= i < index[name].len() ==> (#[trigger] index[name][i])
            < bound
}

/// Whether every node of `g` has an identifier below `bound`.
pub open spec fn nodes_below(g: Map<u64, Set<u64>>, bound: int) -> bool {
    forall|node: u64| g.contains_key(node) ==> node < bound
}

/// `g` once the edges of `id` to `before` have made way for edges to `after`.
pub open spec fn edited_edges(g: Map<u64, Set<u64>>, id: Id, before: Set<Id>, after: Set<Id>) -> Map<
    u64,
    Set<u64>,
> {
    g.insert(id, g[id].difference(before).union(after))
}

/// `index` once the task `id` is recorded under `after` and no longer under
/// `before`.
pub open spec fn renamed_entry(
    index: Map<Seq<char>, Seq<Id>>,
    before: Seq<char>,
    after: Seq<char>,
    id: Id,
) -> Map<Seq<char>, Seq<Id>> {
    if before == after {
        index
    } else {
        with_entry(without_entry(index, before, id), after, id)
    }
}

/// The message of the error for an edit that changes a task's identifier.
pub open spec fn changed_id_message() -> Seq<char> {
    "You cannot change the ID of a task in a direct edit"@
}

/// Whether `message` says that an edit would close the cycle `cycle`, and
/// shows it.
pub open spec fn is_circular_message(message: Seq<char>, cycle: Seq<Id>) -> bool {
    exists|text: Seq<char>|
        #[trigger] is_cycle_text(text, cycle) && message
            == "Note edit aborted due to circular dependency: "@ + text + ""@
}

/// Whether `message` is the one owed for an edit that would make `g` of the
/// graph, which holds a cycle: it shows the cycle that the search for
/// cycles finds in `g`.
pub open spec fn is_circular_edit_message(g: Map<u64, Set<u64>>, message: Seq<char>) -> bool {
    first_cycle(g) matches Some(cycle) && is_circular_message(message, cycle)
}

/// Whether `target` is the least of `targets` that the task `id` cannot
/// depend on in `g`.
pub open spec fn is_least_bad_dependency(
    g: Map<u64, Set<u64>>,
    id: Id,
    targets: Set<Id>,
    target: Id,
) -> bool {
    &&& targets.contains(target)
    &&& is_bad_dependency(g, id, target)
    &&& forall|other: Id|
        targets.contains(other) && #[trigger] is_bad_dependency(g, id, other) ==> target <= other
}

/// Whether `error` is the one owed for the least of `targets` that the task
/// `id` cannot depend on in `g`.
pub open spec fn is_edit_dependency_error(
    g: Map<u64, Set<u64>>,
    id: Id,
    targets: Set<Id>,
    error: Error,
) -> bool {
    exists|target: Id|
        {
            &&& #[trigger] is_least_bad_dependency(g, id, targets, target)
            &&& error matches Error::Generic(message)
            &&& if target == id {
                crate::format::frames_id(
                    "Note with ID "@,
                    " cannot depend on itself"@,
                    id,
                    message@,
                )
            } else {
                crate::format::frames_id("No task with an ID of "@, " exists"@, target, message@)
            }
        }
}

/// Whether the task `id` can depend on each of `targets` in `g`.
pub open spec fn can_depend_on(g: Map<u64, Set<u64>>, id: Id, targets: Set<Id>) -> bool {
    forall|target: Id| targets.contains(target) ==> !#[trigger] is_bad_dependency(g, id, target)
}

/// Recording a task with an identifier below a bound keeps an index below it.
pub proof fn lemma_with_entry_below(
    index: Map<Seq<char>, Seq<Id>>,
    name: Seq<char>,
    id: Id,
    bound: int,
)
    requires
        index_below(index, bound),
        id < bound,
    ensures
        index_below(with_entry(index, name, id), bound),
{
    let more = with_entry(index, name, id);
    assert forall|key: Seq<char>, i: int|
        more.contains_key(key) && 0 <= i < more[key].len() implies (#[trigger] more[key][i])
        < bound by {
        if key == name {
            if index.contains_key(name) && i < index[name].len() {
                assert(index[name][i] < bound);
            }
        } else {
            assert(index[key][i] < bound);
        }
    }
}

/// Taking a task out of an index below a bound keeps it below the bound.
pub proof fn lemma_without_entry_below(
    index: Map<Seq<char>, Seq<Id>>,
    name: Seq<char>,
    id: Id,
    bound: int,
)
    requires
        index_below(index, bound),
    ensures
        index_below(without_entry(index, name, id), bound),
{
    let fewer = without_entry(index, name, id);
    if index.contains_key(name) && index[name].contains(id) {
        lemma_place_of(index[name], id);
        let at = place_of(index[name], id);
        let rest = swap_removed(index[name], at);
        assert forall|key: Seq<char>, i: int|
            fewer.contains_key(key) && 0 <= i < fewer[key].len() implies (#[trigger] fewer[key][i])
            < bound by {
            if key == name {
                if i == at {
                    assert(index[name][index[name].len() - 1] < bound);
                } else {
                    assert(index[name][i] < bound);
                }
            } else {
                assert(index[key][i] < bound);
            }
        }
    }
}

/// The state of a vault.
#[derive(Debug)]
pub struct InternalState {
    pub next_id: Id,
    pub index: Index,
    pub deps: Graph,
}

impl InternalState {
    /// Whether the state is one that the rules of a vault lead to: every
    /// task that is depended on is a node, no task depends on itself through
    /// whatever chain, and every identifier in the graph and in the index has
    /// been given out, so is below the next one.
    pub open spec fn is_consistent(self) -> bool {
        &&& closed(self.deps@)
        &&& acyclic(self.deps@)
        &&& nodes_below(self.deps@, self.next_id as int)
        &&& index_below(self.index@, self.next_id as int)
    }

    /// The state of a vault without tasks.
    pub fn new() -> (state: InternalState)
        ensures
            state.next_id == 0,
            state.index@ == Map::<Seq<char>, Seq<Id>>::empty(),
            state.deps@ == Map::<u64, Set<u64>>::empty(),
            state.is_consistent(),
    {
        let state = InternalState { next_id: 0, index: Index::new(), deps: Graph::new() };
        assert(acyclic(state.deps@)) by {
            assert forall|w: Seq<u64>| !crate::graph::is_cycle(state.deps@, w) by {
                if crate::graph::is_cycle(state.deps@, w) {
                    assert(has_edge(state.deps@, w[0], w[1]));
                }
            }
        }
        state
    }

    /// Takes the task `id`, which bears `name`, out of the index and out of
    /// the graph. Returns the tasks that depended on it: each of them has
    /// lost that edge in the graph, and is still to lose it in its file. The
    /// next identifier stays, so that the one of the task is not given out
    /// again.
    pub fn remove_task(&mut self, name: &String, id: Id) -> (dependents: HashSet<Id>)
        ensures
            final(self).next_id == old(self).next_id,
            final(self).index@ == without_entry(old(self).index@, name@, id),
            old(self).deps@.contains_key(id) ==> final(self).deps@ == without_node(
                old(self).deps@,
                id,
            ) && dependents@ == dependents_of(old(self).deps@, id),
            !old(self).deps@.contains_key(id) ==> final(self).deps@ == old(self).deps@
                && dependents@ == Set::<Id>::empty(),
            old(self).is_consistent() ==> final(self).is_consistent(),
            is_step(*old(self), None, *final(self)),
    {
        self.index.remove(name.clone(), id);
        let (_, dependents) = self.deps.remove_node(id);
        proof {
            if old(self).is_consistent() {
                lemma_without_entry_below(old(self).index@, name@, id, self.next_id as int);
                lemma_without_node_keeps(old(self).deps@, id);
            }
        }
        dependents
    }

    /// Whether `applied` and the state after it are what the edit of a task
    /// owes, given the state before: `task` is the task as it was, `edited`
    /// as it is to be, and `numeric` tells whether the new name is made of
    /// numbers only. The identifier must be the same and the new name not
    /// made of numbers only. Where the dependencies differ, the task must be
    /// a node; its edges to the old dependencies make way for edges to the
    /// new ones, each of which must be another node, and the graph must then
    /// be without a cycle. Where the name differs, the index records the task
    /// under the new name and no longer under the old. An edit that is
    /// refused leaves the state as it was.
    pub open spec fn is_edit(
        numeric: bool,
        task: InternalTask,
        edited: InternalTask,
        before: InternalState,
        applied: Result<(), Error>,
        after: InternalState,
    ) -> bool {
        let changed = edited_edges(before.deps@, task.id, task.dependencies@, edited.dependencies@);
        &&& after.next_id == before.next_id
        &&& applied is Ok <==> {
            &&& edited.id == task.id
            &&& !numeric
            &&& task.dependencies@ != edited.dependencies@ ==> {
                &&& before.deps@.contains_key(task.id)
                &&& can_depend_on(before.deps@, task.id, edited.dependencies@)
                &&& acyclic(changed)
            }
        }
        &&& applied is Ok ==> {
            &&& after.deps@ == if task.dependencies@ == edited.dependencies@ {
                before.deps@
            } else {
                changed
            }
            &&& after.index@ == renamed_entry(before.index@, task.name@, edited.name@, task.id)
        }
        &&& applied matches Err(error) ==> {
            &&& after.deps@ == before.deps@
            &&& after.index@ == before.index@
            &&& if edited.id != task.id {
                error matches Error::Generic(message) && message@ == changed_id_message()
            } else if numeric {
                error matches Error::Generic(message) && message@ == numeric_name_message()
            } else if !before.deps@.contains_key(task.id) {
                error matches Error::Internal(message) && message@ == missing_node_message()
            } else if !can_depend_on(before.deps@, task.id, edited.dependencies@) {
                is_edit_dependency_error(before.deps@, task.id, edited.dependencies@, error)
            } else {
                error matches Error::Generic(message) && is_circular_edit_message(
                    changed,
                    message@,
                )
            }
        }
        &&& applied is Ok && before.is_consistent() && task.id < before.next_id
            ==> after.is_consistent()
        &&& is_step(before, None, after)
    }

    /// Takes up the edit of a task: `task` is the task as it was, `edited`
    /// as it is to be. See `is_edit` for what is owed.
    pub fn apply_edit(&mut self, task: &InternalTask, edited: &InternalTask) -> (applied: Result<
        (),
        Error,
    >)
        ensures
            Self::is_edit(
                all_numeric(edited.name@),
                *task,
                *edited,
                *old(self),
                applied,
                *final(self),
            ),
    {
        self.apply_edit_named(task, edited, is_purely_numeric(edited.name.as_str()))
    }

    /// Takes up the edit of a task, where `numeric` tells whether the new
    /// name is made of numbers only. See `is_edit` for what is owed.
    pub fn apply_edit_named(
        &mut self,
        task: &InternalTask,
        edited: &InternalTask,
        numeric: bool,
    ) -> (applied: Result<(), Error>)
        ensures
            Self::is_edit(numeric, *task, *edited, *old(self), applied, *final(self)),
    {
        if edited.id != task.id {
            return Err(
                Error::Generic(
                    String::from_str("You cannot change the ID of a task in a direct edit"),
                ),
            );
        }
        if numeric {
            return Err(Error::Generic(String::from_str("Name must not be purely numeric")));
        }
        let id = task.id;
        let ghost before = old(self).deps@;
        // Dependencies were edited, so the graph needs to be updated.
        if !same_set(&task.dependencies, &edited.dependencies) {
            if !self.deps.contains_node(id) {
                return Err(
                    Error::Internal(
                        String::from_str(
                            "Attempt to insert an edge in the dependency graph with a node which wasn't present",
                        ),
                    ),
                );
            }
            let mut graph = self.deps.copy();
            let gone = members(&task.dependencies);
            let mut i: usize = 0;
            assert(gone@.take(0).to_set() =~= Set::<Id>::empty());
            assert(before[id].difference(Set::<Id>::empty()) =~= before[id]);
            assert(before.insert(id, before[id]) =~= before);
            while i < gone.len()
                invariant
                    i <= gone.len(),
                    before.contains_key(id),
                    graph@ == before.insert(
                        id,
                        before[id].difference(gone@.take(i as int).to_set()),
                    ),
                decreases gone.len() - i,
            {
                proof {
                    gone@.take(i as int).lemma_push_to_set_commute(gone[i as int]);
                    assert(gone@.take(i as int).push(gone[i as int]) =~= gone@.take(i + 1));
                }
                let ghost during = graph@;
                graph.remove_edge(id, gone[i]);
                proof {
                    assert(during[id].remove(gone[i as int]) =~= before[id].difference(
                        gone@.take(i + 1).to_set(),
                    ));
                    assert(during[id].contains(gone[i as int]) || during[id] =~= during[id].remove(gone[i as int]));
                    assert(graph@ =~= before.insert(
                        id,
                        before[id].difference(gone@.take(i + 1).to_set()),
                    ));
                }
                i = i + 1;
            }
            assert(gone@.take(i as int) =~= gone@);
            let ghost bare = before[id].difference(task.dependencies@);
            let wanted = members(&edited.dependencies);
            let mut j: usize = 0;
            assert(wanted@.take(0).to_set() =~= Set::<Id>::empty());
            assert(bare.union(Set::<Id>::empty()) =~= bare);
            while j < wanted.len()
                invariant
                    j <= wanted.len(),
                    before.contains_key(id),
                    before == old(self).deps@,
                    *self == *old(self),
                    wanted@.to_set() == edited.dependencies@,
                    crate::graph::ascends(wanted@),
                    bare == before[id].difference(task.dependencies@),
                    graph@ == before.insert(id, bare.union(wanted@.take(j as int).to_set())),
                    forall|k: int|
                        0 <= k < j ==> !is_bad_dependency(before, id, #[trigger] wanted[k]),
                    edited.id == task.id,
                    id == task.id,
                    !numeric,
                    task.dependencies@ != edited.dependencies@,
                decreases wanted.len() - j,
            {
                let dependency = wanted[j];
                assert(wanted@.to_set().contains(wanted@[j as int]));
                if !graph.contains_node(dependency) {
                    let error = Error::Generic(
                        frame("No task with an ID of ", crate::format::id(dependency), " exists"),
                    );
                    assert(is_bad_dependency(before, id, dependency));
                    assert(is_least_bad_dependency(
                        before,
                        id,
                        edited.dependencies@,
                        dependency,
                    )) by {
                        assert forall|other: Id|
                            edited.dependencies@.contains(other) && #[trigger] is_bad_dependency(
                                before,
                                id,
                                other,
                            ) implies dependency <= other by {
                            assert(wanted@.to_set().contains(other));
                            let k = choose|k: int| 0 <= k < wanted.len() && wanted[k] == other;
                            if k < j {
                                assert(!is_bad_dependency(before, id, wanted[k]));
                            } else if k > j {
                                assert(wanted[j as int] < wanted[k]);
                            }
                        }
                    }
                    assert(is_edit_dependency_error(before, id, edited.dependencies@, error));
                    return Err(error);
                }
                let ghost during = graph@;
                match graph.insert_edge(id, dependency) {
                    Ok(_) => {},
                    Err(error) => {
                        assert(is_bad_dependency(before, id, dependency));
                        assert(is_least_bad_dependency(
                            before,
                            id,
                            edited.dependencies@,
                            dependency,
                        )) by {
                            assert forall|other: Id|
                                edited.dependencies@.contains(other)
                                    && #[trigger] is_bad_dependency(
                                    before,
                                    id,
                                    other,
                                ) implies dependency <= other by {
                                assert(wanted@.to_set().contains(other));
                                let k = choose|k: int| 0 <= k < wanted.len() && wanted[k] == other;
                                if k < j {
                                    assert(!is_bad_dependency(before, id, wanted[k]));
                                } else if k > j {
                                    assert(wanted[j as int] < wanted[k]);
                                }
                            }
                        }
                        assert(is_edit_dependency_error(before, id, edited.dependencies@, error));
                        return Err(error);
                    },
                }
                proof {
                    wanted@.take(j as int).lemma_push_to_set_commute(dependency);
                    assert(wanted@.take(j as int).push(dependency) =~= wanted@.take(j + 1));
                    assert(during[id].insert(dependency) =~= bare.union(
                        wanted@.take(j + 1).to_set(),
                    ));
                    assert(graph@ =~= before.insert(
                        id,
                        bare.union(wanted@.take(j + 1).to_set()),
                    ));
                }
                j = j + 1;
            }
            assert(wanted@.take(j as int) =~= wanted@);
            proof {
                assert forall|target: Id| edited.dependencies@.contains(target) implies !#[trigger] is_bad_dependency(
                    before,
                    id,
                    target,
                ) by {
                    assert(wanted@.to_set().contains(target));
                    let k = choose|k: int| 0 <= k < wanted.len() && wanted[k] == target;
                    assert(!is_bad_dependency(before, id, wanted[k]));
                }
            }
            if let Some(cycle) = graph.find_cycle() {
                let shown = format_cycle(&cycle);
                let message = frame("Note edit aborted due to circular dependency: ", shown, "");
                assert(is_circular_message(message@, cycle@));
                let ghost changed = edited_edges(
                    old(self).deps@,
                    task.id,
                    task.dependencies@,
                    edited.dependencies@,
                );
                assert(graph@ == changed);
                assert(is_circular_edit_message(changed, message@));
                return Err(Error::Generic(message));
            }
            proof {
                if old(self).is_consistent() {
                    assert(closed(graph@)) by {
                        assert forall|from: u64, to: u64| #[trigger]
                            has_edge(graph@, from, to) implies graph@.contains_key(to) by {
                            if from == id {
                                if edited.dependencies@.contains(to) {
                                    assert(!is_bad_dependency(before, id, to));
                                } else {
                                    assert(has_edge(before, from, to));
                                }
                            } else {
                                assert(has_edge(before, from, to));
                            }
                        }
                    }
                }
            }
            self.deps = graph;
        }
        // A change of name means that the index needs to be updated.
        if edited.name != task.name {
            self.index.remove(task.name.clone(), id);
            self.index.insert(edited.name.clone(), id);
            proof {
                if old(self).is_consistent() && id < old(self).next_id {
                    lemma_without_entry_below(
                        old(self).index@,
                        task.name@,
                        id,
                        self.next_id as int,
                    );
                    lemma_with_entry_below(
                        without_entry(old(self).index@, task.name@, id),
                        edited.name@,
                        id,
                        self.next_id as int,
                    );
                }
            }
        }
        Ok(())
    }

    /// The state of a vault rebuilt from its task files: `file_names` are the
    /// names of the files in its task directory, and `tasks` what its task
    /// files hold. The next identifier is the one after the greatest that a
    /// file is named for; the index and the graph are those of `tasks`. The
    /// state is consistent where each task has a file named for it and the
    /// tasks depend on tasks among them only, and on none in a circle.
    pub fn bootstrap(file_names: &Vec<String>, tasks: &Vec<InternalTask>) -> (state: Result<
        InternalState,
        Error,
    >)
        ensures
            state is Ok <==> !names_file(file_names@, u64::MAX),
            state matches Ok(made) ==> {
                &&& next_after(file_names@, made.next_id as int)
                &&& made.index@ == index_of(tasks@)
                &&& made.deps@ == edges_of(tasks@)
                &&& are_filed(file_names@, tasks@) && depend_among_themselves(tasks@) && acyclic(
                    edges_of(tasks@),
                ) ==> made.is_consistent()
            },
            state matches Err(error) ==> error matches Error::Internal(message) && message@
                == exhausted_message(),
    {
        let mut next_id: Id = 0;
        let mut i: usize = 0;
        while i < file_names.len()
            invariant
                i <= file_names.len(),
                next_after(file_names@.take(i as int), next_id as int),
            decreases file_names.len() - i,
        {
            let ghost before = file_names@.take(i as int);
            let ghost after = file_names@.take(i + 1);
            assert(forall|k: int| 0 <= k < before.len() ==> before[k] == after[k]);
            let found = task_file_id(file_names[i].as_str());
            if let Some(id) = found {
                if id == u64::MAX {
                    assert(names_file(file_names@, u64::MAX)) by {
                        assert(file_names@[i as int]@ == file_name_text(u64::MAX));
                    }
                    return Err(
                        Error::Internal(String::from_str("No further task ID is left in this vault")),
                    );
                }
                if id >= next_id {
                    next_id = id + 1;
                }
            }
            proof {
                assert forall|id: Id| names_file(after, id) implies id < next_id by {
                    let k = choose|k: int| 0 <= k < after.len() && #[trigger] after[k]@ == file_name_text(id);
                    if k < i {
                        assert(before[k]@ == file_name_text(id));
                        assert(names_file(before, id));
                    } else {
                        crate::tasks::lemma_file_name_text_injective(id, found->0);
                    }
                }
                if next_id > 0 {
                    let last = (next_id - 1) as Id;
                    if found is Some && found->0 == last {
                        assert(after[i as int]@ == file_name_text(last));
                    } else {
                        assert(names_file(before, last));
                        let k = choose|k: int| 0 <= k < before.len() && #[trigger] before[k]@ == file_name_text(last);
                        assert(after[k]@ == file_name_text(last));
                    }
                }
            }
            i = i + 1;
        }
        assert(file_names@.take(i as int) =~= file_names@);
        let made = InternalState {
            next_id,
            index: Index::create(tasks),
            deps: Graph::create(tasks),
        };
        proof {
            if are_filed(file_names@, tasks@) && depend_among_themselves(tasks@) && acyclic(
                edges_of(tasks@),
            ) {
                lemma_bootstrap_consistent(file_names@, tasks@, made);
            }
        }
        Ok(made)
    }
}

} // verus!
