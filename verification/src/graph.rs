//! The dependency graph between tasks.
//!
//! A graph maps each task to the set of tasks it depends on. Its view is a
//! `Map<u64, Set<u64>>`: the keys are the nodes, and the set under a key holds
//! the targets of that node's outgoing edges.

use std::collections::{BTreeMap, BTreeSet, HashSet};
use vstd::prelude::*;

use crate::error::Error;
use crate::format::{frame, frames_id, join, joined, shown_ids, shows_ids};
use crate::tasks::{Id, InternalTask};

verus! {

/// Whether `from` depends on `to` in `g`.
pub open spec fn has_edge(g: Map<u64, Set<u64>>, from: u64, to: u64) -> bool {
    g.contains_key(from) && g[from].contains(to)
}

/// Whether `w` is a walk of `g`: at least one task, each depending on the
/// next.
pub open spec fn is_walk(g: Map<u64, Set<u64>>, w: Seq<u64>) -> bool {
    &&& w.len() > 0
    &&& forall|i: int| 0 <= i < w.len() - 1 ==> has_edge(g, #[trigger] w[i], w[i + 1])
}

/// Whether `w` is a cycle of `g`: a walk along at least one edge that ends
/// where it began.
pub open spec fn is_cycle(g: Map<u64, Set<u64>>, w: Seq<u64>) -> bool {
    &&& is_walk(g, w)
    &&& w.len() >= 2
    &&& w[0] == w.last()
}

/// Whether `g` has no cycle.
pub open spec fn acyclic(g: Map<u64, Set<u64>>) -> bool {
    forall|w: Seq<u64>| !is_cycle(g, w)
}

/// Whether every task that something depends on is itself a node of `g`.
pub open spec fn closed(g: Map<u64, Set<u64>>) -> bool {
    forall|from: u64, to: u64| #[trigger] has_edge(g, from, to) ==> g.contains_key(to)
}

/// Whether `to` can be reached from `from` along at least one edge.
pub open spec fn reaches(g: Map<u64, Set<u64>>, from: u64, to: u64) -> bool {
    exists|w: Seq<u64>| is_walk(g, w) && w.len() >= 2 && w[0] == from && #[trigger] w.last() == to
}

/// The graph of `tasks`: each a node with its dependencies as edges, a later
/// task taking the place of an earlier one with the same identifier.
pub open spec fn edges_of(tasks: Seq<InternalTask>) -> Map<u64, Set<u64>>
    decreases tasks.len(),
{
    if tasks.len() == 0 {
        Map::empty()
    } else {
        edges_of(tasks.drop_last()).insert(tasks.last().id, tasks.last().dependencies@)
    }
}

/// The tasks that `shown` shows, with an arrow between each two.
pub open spec fn cycle_text(shown: Seq<Seq<char>>) -> Seq<char> {
    joined(shown, " -> "@)
}

/// Whether `text` shows the tasks of `cycle`, each as identifiers are shown,
/// in their order and with an arrow between each two.
pub open spec fn is_cycle_text(text: Seq<char>, cycle: Seq<u64>) -> bool {
    exists|shown: Seq<Seq<char>>| shows_ids(cycle, shown) && text == #[trigger] cycle_text(shown)
}

/// The tasks that can be reached from `from` along at least one edge.
pub open spec fn reachable_from(g: Map<u64, Set<u64>>, from: u64) -> Set<u64> {
    Set::new(|to: u64| reaches(g, from, to))
}

/// The tasks other than `node` that depend on `node`.
pub open spec fn dependents_of(g: Map<u64, Set<u64>>, node: u64) -> Set<u64> {
    Set::new(|k: u64| k != node && has_edge(g, k, node))
}

/// `g` once `node` and every edge to it are taken out.
pub open spec fn without_node(g: Map<u64, Set<u64>>, node: u64) -> Map<u64, Set<u64>> {
    Map::new(|k: u64| g.contains_key(k) && k != node, |k: u64| g[k].remove(node))
}

/// The tasks that some task of `g` depends on.
pub open spec fn depended_upon(g: Map<u64, Set<u64>>) -> Set<u64> {
    Set::new(|to: u64| exists|from: u64| has_edge(g, from, to))
}

/// The message of the error for an edge between tasks that are not both nodes.
pub open spec fn missing_node_message() -> Seq<char> {
    "Attempt to insert an edge in the dependency graph with a node which wasn't present"@
}

/// Whether `message` says that the task `id` cannot depend on itself.
pub open spec fn is_self_dependency_message(message: Seq<char>, id: u64) -> bool {
    frames_id("Note with ID "@, " cannot depend on itself"@, id, message)
}

/// Whether no walk of `g` that begins at `start` meets `avoid` or comes to a
/// task twice.
pub open spec fn clean(g: Map<u64, Set<u64>>, start: u64, avoid: Set<u64>) -> bool {
    forall|w: Seq<u64>| #[trigger]
        is_walk(g, w) && w[0] == start ==> w.no_duplicates() && forall|i: int|
            0 <= i < w.len() ==> !avoid.contains(#[trigger] w[i])
}

/// Whether `c` is a walk of `g` read backwards: at least one task, each one
/// depended on by the next.
pub open spec fn is_walk_back(g: Map<u64, Set<u64>>, c: Seq<u64>) -> bool {
    &&& c.len() > 0
    &&& forall|i: int| 0 <= i < c.len() - 1 ==> has_edge(g, c[i + 1], #[trigger] c[i])
}

/// Whether `c` has come back to the task it began with.
pub open spec fn is_closed(c: Seq<u64>) -> bool {
    c.len() >= 2 && c[0] == c.last()
}

/// Whether `w` comes to no task twice, but for its first and last place.
pub open spec fn is_simple(w: Seq<u64>) -> bool {
    forall|i: int, j: int|
        0 <= i < j < w.len() && !(i == 0 && j == w.len() - 1) ==> w[i] != w[j]
}

/// Whether `c` comes to no task twice after its first place, and after that
/// place to none of `avoid`.
pub open spec fn is_fresh_after_first(c: Seq<u64>, avoid: Seq<u64>) -> bool {
    &&& forall|i: int, j: int| 1 <= i < j < c.len() ==> c[i] != c[j]
    &&& forall|i: int| 1 <= i < c.len() ==> !avoid.contains(#[trigger] c[i])
}

/// As many distinct members of a finite set as there may be, there are no
/// more of them than the set holds.
pub proof fn lemma_distinct_within(s: Seq<u64>, set: Set<u64>)
    requires
        s.no_duplicates(),
        set.finite(),
        forall|i: int| 0 <= i < s.len() ==> set.contains(#[trigger] s[i]),
    ensures
        s.len() <= set.len(),
{
    s.unique_seq_to_set();
    vstd::set_lib::lemma_len_subset(s.to_set(), set);
}

/// A walk read backwards that has come back to its first task is, read
/// forwards, a cycle.
pub proof fn lemma_closed_walk_back_is_cycle(g: Map<u64, Set<u64>>, c: Seq<u64>)
    requires
        is_walk_back(g, c),
        is_closed(c),
    ensures
        is_cycle(g, c.reverse()),
        is_simple(c) ==> is_simple(c.reverse()),
{
    let w = c.reverse();
    if is_simple(c) {
        assert forall|i: int, j: int|
            0 <= i < j < w.len() && !(i == 0 && j == w.len() - 1) implies w[i] != w[j] by {
            assert(c[c.len() - 1 - j] != c[c.len() - 1 - i]);
        }
    }
    assert forall|i: int| 0 <= i < w.len() - 1 implies has_edge(g, #[trigger] w[i], w[i + 1]) by {
        let j = c.len() - 2 - i;
        assert(has_edge(g, c[j + 1], c[j]));
    }
}

/// A graph in which no walk from a node comes to a task twice has no cycle.
pub proof fn lemma_clean_nodes_acyclic(g: Map<u64, Set<u64>>)
    requires
        forall|node: u64| g.contains_key(node) ==> #[trigger] clean(g, node, Set::empty()),
    ensures
        acyclic(g),
{
    assert forall|w: Seq<u64>| !is_cycle(g, w) by {
        if is_cycle(g, w) {
            assert(has_edge(g, w[0], w[1]));
            assert(clean(g, w[0], Set::empty()));
            assert(is_walk(g, w));
            assert(w[0] == w[w.len() - 1]);
        }
    }
}

/// In a graph without cycles no walk comes to a task twice.
pub proof fn lemma_acyclic_walk_distinct(g: Map<u64, Set<u64>>, w: Seq<u64>)
    requires
        acyclic(g),
        is_walk(g, w),
    ensures
        w.no_duplicates(),
{
    assert forall|a: int, b: int| 0 <= a < w.len() && 0 <= b < w.len() && a != b implies w[a]
        != w[b] by {
        if w[a] == w[b] {
            let (low, high) = if a < b {
                (a, b)
            } else {
                (b, a)
            };
            let part = w.subrange(low, high + 1);
            assert forall|i: int| 0 <= i < part.len() - 1 implies has_edge(
                g,
                #[trigger] part[i],
                part[i + 1],
            ) by {
                assert(has_edge(g, w[low + i], w[low + i + 1]));
            }
            assert(is_cycle(g, part));
        }
    }
}

/// What can be reached from a task is what it depends on, and what can be
/// reached from there.
pub proof fn lemma_reaches_unfold(g: Map<u64, Set<u64>>, from: u64, to: u64)
    ensures
        reaches(g, from, to) <==> exists|next: u64| #[trigger]
            has_edge(g, from, next) && (next == to || reaches(g, next, to)),
{
    if reaches(g, from, to) {
        let w = choose|w: Seq<u64>|
            is_walk(g, w) && w.len() >= 2 && w[0] == from && #[trigger] w.last() == to;
        assert(has_edge(g, w[0], w[1]));
        if w.len() > 2 {
            let rest = w.subrange(1, w.len() as int);
            assert forall|i: int| 0 <= i < rest.len() - 1 implies has_edge(
                g,
                #[trigger] rest[i],
                rest[i + 1],
            ) by {
                assert(has_edge(g, w[i + 1], w[i + 1 + 1]));
            }
            assert(is_walk(g, rest) && rest.len() >= 2 && rest[0] == w[1] && rest.last() == to);
            assert(reaches(g, w[1], to));
        }
    }
    if exists|next: u64| #[trigger] has_edge(g, from, next) && (next == to || reaches(g, next, to)) {
        let next = choose|next: u64| #[trigger]
            has_edge(g, from, next) && (next == to || reaches(g, next, to));
        if next == to {
            let w = seq![from, to];
            assert(is_walk(g, w) && w.len() >= 2 && w[0] == from && w.last() == to);
        } else {
            let rest = choose|w: Seq<u64>|
                is_walk(g, w) && w.len() >= 2 && w[0] == next && #[trigger] w.last() == to;
            let w = seq![from] + rest;
            assert forall|i: int| 0 <= i < w.len() - 1 implies has_edge(
                g,
                #[trigger] w[i],
                w[i + 1],
            ) by {
                if i > 0 {
                    assert(has_edge(g, rest[i - 1], rest[i - 1 + 1]));
                }
            }
            assert(is_walk(g, w) && w.len() >= 2 && w[0] == from && w.last() == to);
        }
    }
}

/// A graph whose every edge is an edge of a graph without cycles has no
/// cycle either.
pub proof fn lemma_subgraph_acyclic(g: Map<u64, Set<u64>>, part: Map<u64, Set<u64>>)
    requires
        acyclic(g),
        forall|from: u64, to: u64| has_edge(part, from, to) ==> has_edge(g, from, to),
    ensures
        acyclic(part),
{
    assert forall|w: Seq<u64>| !is_cycle(part, w) by {
        if is_cycle(part, w) {
            assert forall|i: int| 0 <= i < w.len() - 1 implies has_edge(
                g,
                #[trigger] w[i],
                w[i + 1],
            ) by {
                assert(has_edge(part, w[i], w[i + 1]));
            }
            assert(is_cycle(g, w));
        }
    }
}

/// Taking a node out of a graph, with every edge to it, leaves every edge
/// between nodes, and makes no cycle.
pub proof fn lemma_without_node_keeps(g: Map<u64, Set<u64>>, node: u64)
    ensures
        closed(g) ==> closed(without_node(g, node)),
        acyclic(g) ==> acyclic(without_node(g, node)),
{
    let part = without_node(g, node);
    assert forall|from: u64, to: u64| has_edge(part, from, to) implies has_edge(g, from, to)
        && to != node by {}
    if acyclic(g) {
        lemma_subgraph_acyclic(g, part);
    }
    if closed(g) {
        assert forall|from: u64, to: u64| #[trigger] has_edge(part, from, to) implies part.contains_key(to) by {
            assert(has_edge(g, from, to));
        }
    }
}

/// A node that nothing depends on can be given any edges to other nodes
/// without making a cycle.
pub proof fn lemma_source_keeps_acyclic(g: Map<u64, Set<u64>>, node: u64, targets: Set<u64>)
    requires
        acyclic(g),
        forall|from: u64| !has_edge(g, from, node),
        !targets.contains(node),
    ensures
        acyclic(g.insert(node, targets)),
{
    let more = g.insert(node, targets);
    assert forall|w: Seq<u64>| !is_cycle(more, w) by {
        if is_cycle(more, w) {
            // No edge of the new graph leads to the node, so the cycle stays
            // clear of it, and is a cycle of the old graph.
            assert forall|i: int| 0 <= i < w.len() implies #[trigger] w[i] != node by {
                if w[i] == node {
                    let before = if i == 0 {
                        w.len() - 2
                    } else {
                        i - 1
                    };
                    assert(has_edge(more, w[before], w[before + 1]));
                    assert(w[before + 1] == node);
                    if w[before] != node {
                        assert(has_edge(g, w[before], node));
                    }
                }
            }
            assert forall|i: int| 0 <= i < w.len() - 1 implies has_edge(
                g,
                #[trigger] w[i],
                w[i + 1],
            ) by {
                assert(has_edge(more, w[i], w[i + 1]));
            }
            assert(is_cycle(g, w));
        }
    }
}

/// A new node without edges makes no cycle.
pub proof fn lemma_new_node_keeps_acyclic(g: Map<u64, Set<u64>>, node: u64)
    requires
        acyclic(g),
        !g.contains_key(node),
    ensures
        acyclic(g.insert(node, Set::empty())),
{
    lemma_subgraph_acyclic(g, g.insert(node, Set::empty()));
}

/// A new edge makes no cycle unless there was a way back from its target to
/// its source: a graph without cycles stays without them when a task comes
/// to depend on another from which it could not be reached.
pub proof fn lemma_new_edge_keeps_acyclic(g: Map<u64, Set<u64>>, from: u64, to: u64)
    requires
        acyclic(g),
        g.contains_key(from),
        from != to,
        !reaches(g, to, from),
    ensures
        acyclic(g.insert(from, g[from].insert(to))),
{
    let more = g.insert(from, g[from].insert(to));
    assert forall|a: u64, b: u64| has_edge(more, a, b) && a != from implies has_edge(g, a, b) by {}
    assert forall|w: Seq<u64>| !is_cycle(more, w) by {
        if is_cycle(more, w) {
            if exists|i: int| 0 <= i < w.len() - 1 && #[trigger] w[i] == from && w[i + 1] == to {
                let i = choose|i: int|
                    0 <= i < w.len() - 1 && #[trigger] w[i] == from && w[i + 1] == to;
                // The cycle, taken from the target of the new edge round to
                // its source.
                let round = w.subrange(i + 1, w.len() as int) + w.subrange(1, i + 1);
                assert(round[0] == to);
                assert(round.last() == from);
                assert forall|k: int| 0 <= k < round.len() - 1 implies has_edge(
                    more,
                    #[trigger] round[k],
                    round[k + 1],
                ) by {
                    let first = w.len() - (i + 1);
                    if k + 1 < first {
                        assert(has_edge(more, w[i + 1 + k], w[i + 1 + k + 1]));
                    } else if k + 1 == first {
                        assert(round[k] == w[w.len() - 1]);
                        assert(round[k + 1] == w[1]);
                        assert(has_edge(more, w[0], w[1]));
                    } else {
                        assert(has_edge(more, w[k - first + 1], w[k - first + 1 + 1]));
                    }
                }
                // Up to where it first comes to the source it runs along old
                // edges.
                crate::lists::lemma_place_of(round, from);
                let at = crate::lists::place_of(round, from);
                assert(round.contains(from)) by {
                    assert(round[round.len() - 1] == from);
                }
                let back = round.subrange(0, at + 1);
                assert forall|k: int| 0 <= k < back.len() - 1 implies has_edge(
                    g,
                    #[trigger] back[k],
                    back[k + 1],
                ) by {
                    assert(has_edge(more, round[k], round[k + 1]));
                    assert(round[k] != from);
                }
                assert(is_walk(g, back) && back.len() >= 2 && back[0] == to && back.last() == from);
                assert(reaches(g, to, from));
            } else {
                assert forall|k: int| 0 <= k < w.len() - 1 implies has_edge(
                    g,
                    #[trigger] w[k],
                    w[k + 1],
                ) by {
                    assert(has_edge(more, w[k], w[k + 1]));
                    if w[k] == from {
                        assert(w[k + 1] != to);
                    }
                }
                assert(is_cycle(g, w));
            }
        }
    }
}

/// Whether two sets hold the same identifiers.
pub fn same_set(a: &BTreeSet<u64>, b: &BTreeSet<u64>) -> (same: bool)
    ensures
        same == (a@ == b@),
{
    let of_a = members(a);
    let mut i: usize = 0;
    while i < of_a.len()
        invariant
            i <= of_a.len(),
            of_a@.to_set() == a@,
            forall|k: int| 0 <= k < i ==> b@.contains(#[trigger] of_a[k]),
        decreases of_a.len() - i,
    {
        if !b.contains(&of_a[i]) {
            assert(of_a@.to_set().contains(of_a@[i as int]));
            return false;
        }
        i = i + 1;
    }
    let of_b = members(b);
    let mut j: usize = 0;
    while j < of_b.len()
        invariant
            j <= of_b.len(),
            of_b@.to_set() == b@,
            forall|k: int| 0 <= k < j ==> a@.contains(#[trigger] of_b[k]),
        decreases of_b.len() - j,
    {
        if !a.contains(&of_b[j]) {
            assert(of_b@.to_set().contains(of_b@[j as int]));
            return false;
        }
        j = j + 1;
    }
    proof {
        assert forall|id: u64| a@.contains(id) <==> b@.contains(id) by {
            if a@.contains(id) {
                assert(of_a@.to_set().contains(id));
                let k = choose|k: int| 0 <= k < of_a.len() && of_a[k] == id;
                assert(b@.contains(of_a[k]));
            }
            if b@.contains(id) {
                assert(of_b@.to_set().contains(id));
                let k = choose|k: int| 0 <= k < of_b.len() && of_b[k] == id;
                assert(a@.contains(of_b[k]));
            }
        }
        assert(a@ =~= b@);
    }
    true
}

/// Whether `list` ascends: each of its members is less than the next.
pub open spec fn ascends(list: Seq<u64>) -> bool {
    forall|i: int, j: int| 0 <= i < j < list.len() ==> list[i] < list[j]
}

/// A list that ascends still does with one more member put where it
/// belongs.
pub proof fn lemma_insert_ascending(list: Seq<u64>, place: int, member: u64)
    requires
        ascends(list),
        0 <= place <= list.len(),
        forall|k: int| 0 <= k < place ==> list[k] < member,
        forall|k: int| place <= k < list.len() ==> member < list[k],
    ensures
        ascends(list.insert(place, member)),
        list.insert(place, member).to_set() == list.to_set().insert(member),
{
    let more = list.insert(place, member);
    assert forall|k: int| 0 <= k < more.len() implies #[trigger] more[k] == if k < place {
        list[k]
    } else if k == place {
        member
    } else {
        list[k - 1]
    } by {}
    assert forall|x: u64| more.to_set().contains(x) <==> list.to_set().insert(member).contains(
        x,
    ) by {
        if more.contains(x) {
            let k = choose|k: int| 0 <= k < more.len() && more[k] == x;
            if k < place {
                assert(list[k] == x);
            } else if k > place {
                assert(list[k - 1] == x);
            }
        }
        if list.contains(x) {
            let k = choose|k: int| 0 <= k < list.len() && list[k] == x;
            if k < place {
                assert(more[k] == x);
            } else {
                assert(more[k + 1] == x);
            }
        }
        if x == member {
            assert(more[place] == x);
        }
    }
    assert(more.to_set() =~= list.to_set().insert(member));
}

/// Two lists that ascend and hold the same members are the same list.
pub proof fn lemma_ascending_unique(a: Seq<u64>, b: Seq<u64>)
    requires
        ascends(a),
        ascends(b),
        a.to_set() == b.to_set(),
    ensures
        a == b,
    decreases a.len(),
{
    lemma_ascending_distinct(a);
    lemma_ascending_distinct(b);
    a.unique_seq_to_set();
    b.unique_seq_to_set();
    if a.len() > 0 {
        let last_a = a.last();
        let last_b = b.last();
        assert(a.to_set().contains(a[a.len() - 1]));
        assert(b.to_set().contains(b[b.len() - 1]));
        let in_b = choose|k: int| 0 <= k < b.len() && b[k] == last_a;
        let in_a = choose|k: int| 0 <= k < a.len() && a[k] == last_b;
        assert(last_a == last_b) by {
            if in_b < b.len() - 1 {
                assert(b[in_b] < b[b.len() - 1]);
            }
            if in_a < a.len() - 1 {
                assert(a[in_a] < a[a.len() - 1]);
            }
        }
        let front_a = a.drop_last();
        let front_b = b.drop_last();
        assert forall|x: u64| front_a.to_set().contains(x) <==> front_b.to_set().contains(x) by {
            if front_a.contains(x) {
                let k = choose|k: int| 0 <= k < front_a.len() && front_a[k] == x;
                assert(a[k] == x);
                assert(a[k] < a[a.len() - 1]);
                assert(b.to_set().contains(x));
                let at = choose|at: int| 0 <= at < b.len() && b[at] == x;
                assert(front_b[at] == x);
            }
            if front_b.contains(x) {
                let k = choose|k: int| 0 <= k < front_b.len() && front_b[k] == x;
                assert(b[k] == x);
                assert(b[k] < b[b.len() - 1]);
                assert(a.to_set().contains(x));
                let at = choose|at: int| 0 <= at < a.len() && a[at] == x;
                assert(front_a[at] == x);
            }
        }
        assert(front_a.to_set() =~= front_b.to_set());
        assert(ascends(front_a)) by {
            assert forall|i: int, j: int| 0 <= i < j < front_a.len() implies front_a[i]
                < front_a[j] by {
                assert(a[i] < a[j]);
            }
        }
        assert(ascends(front_b)) by {
            assert forall|i: int, j: int| 0 <= i < j < front_b.len() implies front_b[i]
                < front_b[j] by {
                assert(b[i] < b[j]);
            }
        }
        lemma_ascending_unique(front_a, front_b);
        assert(a =~= front_a.push(last_a));
        assert(b =~= front_b.push(last_b));
    } else {
        assert(a =~= b);
    }
}

/// The members of `set` in ascending order.
pub open spec fn ascending_list(set: Set<u64>) -> Seq<u64> {
    choose|list: Seq<u64>| ascends(list) && list.to_set() == set
}

/// What a task depends on, in ascending order.
pub open spec fn children_of(g: Map<u64, Set<u64>>, node: u64) -> Seq<u64> {
    if g.contains_key(node) {
        ascending_list(g[node])
    } else {
        Seq::empty()
    }
}

/// What the search that follows the edges from `start` depth first finds,
/// and what it leaves of `unvisited`. `path` is the way by which the search
/// came to `start`, and `depth` how much deeper it may go. A task met again
/// on the way closes a cycle, which is handed back in reverse: from the task
/// met again to that same task, each task on the way adding itself until the
/// cycle is closed. Else the task is taken out of `unvisited`, and what it
/// depends on is searched in ascending order.
pub open spec fn search_from(
    g: Map<u64, Set<u64>>,
    start: u64,
    unvisited: Set<u64>,
    path: Seq<u64>,
    depth: nat,
) -> (Option<Seq<u64>>, Set<u64>)
    decreases depth, 0nat,
{
    if path.contains(start) {
        (Some(seq![start]), unvisited)
    } else if depth == 0 || !g.contains_key(start) {
        (None, unvisited.remove(start))
    } else {
        let below = search_among(
            g,
            children_of(g, start),
            0,
            unvisited.remove(start),
            path.push(start),
            (depth - 1) as nat,
        );
        match below.0 {
            Some(trail) => (
                Some(
                    if is_closed(trail) {
                        trail
                    } else {
                        trail.push(start)
                    },
                ),
                below.1,
            ),
            None => (None, below.1),
        }
    }
}

/// What the search finds below the first of `children` from the place
/// `from` on below which it finds anything, and what it leaves of
/// `unvisited`.
pub open spec fn search_among(
    g: Map<u64, Set<u64>>,
    children: Seq<u64>,
    from: nat,
    unvisited: Set<u64>,
    path: Seq<u64>,
    depth: nat,
) -> (Option<Seq<u64>>, Set<u64>)
    decreases depth, children.len() - from + 1,
{
    if from >= children.len() {
        (None, unvisited)
    } else {
        let first = search_from(g, children[from as int], unvisited, path, depth);
        if first.0 is Some {
            first
        } else {
            search_among(g, children, from + 1, first.1, path, depth)
        }
    }
}

/// The cycle that the search finds from the first of `roots`, from the
/// place `from` on, that is still in `unvisited` and from which it finds
/// one: a walk of which the last task is the first again.
pub open spec fn search_roots(
    g: Map<u64, Set<u64>>,
    roots: Seq<u64>,
    from: nat,
    unvisited: Set<u64>,
) -> Option<Seq<u64>>
    decreases roots.len() - from,
{
    if from >= roots.len() {
        None
    } else if unvisited.contains(roots[from as int]) {
        let found = search_from(g, roots[from as int], unvisited, Seq::empty(), g.dom().len() + 1);
        match found.0 {
            Some(trail) => Some(trail.reverse()),
            None => search_roots(g, roots, from + 1, found.1),
        }
    } else {
        search_roots(g, roots, from + 1, unvisited)
    }
}

/// The cycle that the search for cycles finds in `g`, if it finds one: all
/// nodes are unvisited at first, and the search starts from the least node
/// that still is, until a cycle is found or no node is left.
pub open spec fn first_cycle(g: Map<u64, Set<u64>>) -> Option<Seq<u64>> {
    search_roots(g, ascending_list(g.dom()), 0, g.dom())
}

/// What was found, as plain values.
pub open spec fn found_view(found: Option<Vec<u64>>) -> Option<Seq<u64>> {
    match found {
        Some(trail) => Some(trail@),
        None => None,
    }
}

/// A list that ascends holds nothing twice.
pub proof fn lemma_ascending_distinct(list: Seq<u64>)
    requires
        ascends(list),
    ensures
        list.no_duplicates(),
{
    assert forall|i: int, j: int| 0 <= i < list.len() && 0 <= j < list.len() && i != j implies list[i]
        != list[j] by {
        if i < j {
            assert(list[i] < list[j]);
        } else {
            assert(list[j] < list[i]);
        }
    }
}

/// The members of `set` as a list, each of them once, in ascending order.
pub fn members(set: &BTreeSet<u64>) -> (list: Vec<u64>)
    ensures
        list@.to_set() == set@,
        list@.no_duplicates(),
        ascends(list@),
        list@ == ascending_list(set@),
{
    let mut list: Vec<u64> = Vec::new();
    assert(list@.to_set() =~= Set::<u64>::empty());
    for member in it: set.iter()
        invariant
            it.seq().unref().to_set() == set@,
            it.seq().no_duplicates(),
            ascends(list@),
            list@.to_set() == it.seq().unref().take(it.index()).to_set(),
            it.index() == it.seq().len() ==> list@.to_set() == set@,
    {
        // The set hands its members out in ascending order, so that each
        // goes to the end.
        let ghost seen = it.seq().unref().take(it.index());
        assert(!seen.contains(*member)) by {
            if seen.contains(*member) {
                let k = choose|k: int| 0 <= k < seen.len() && seen[k] == *member;
                assert(it.seq()[k] == it.seq()[it.index()]);
            }
        }
        let mut place: usize = list.len();
        while place > 0 && list[place - 1] > *member
            invariant
                place <= list.len(),
                forall|k: int| place <= k < list.len() ==> *member < list[k],
            decreases place,
        {
            place = place - 1;
        }
        proof {
            assert forall|k: int| 0 <= k < place implies list[k] < *member by {
                assert(list@.to_set().contains(list[k]));
                if k < place - 1 {
                    assert(list[k] < list[place - 1]);
                }
            }
            lemma_insert_ascending(list@, place as int, *member);
            seen.lemma_push_to_set_commute(*member);
            assert(seen.push(*member) =~= it.seq().unref().take(it.index() + 1));
        }
        list.insert(place, *member);
        assert(it.index() + 1 == it.seq().len() ==> it.seq().unref().take(it.index() + 1)
            =~= it.seq().unref());
    }
    proof {
        lemma_ascending_distinct(list@);
        lemma_ascending_unique(list@, ascending_list(set@));
    }
    list
}

/// The members of `set` as a list, each of them once.
pub fn elements(set: &HashSet<u64>) -> (list: Vec<u64>)
    ensures
        list@.to_set() == set@,
        list@.no_duplicates(),
{
    let mut list: Vec<u64> = Vec::new();
    for member in it: set.iter()
        invariant
            it.seq().unref().to_set() == set@,
            it.seq().no_duplicates(),
            list@ == it.seq().unref().take(it.index()),
            it.index() == it.seq().len() ==> list@ == it.seq().unref(),
    {
        list.push(*member);
        assert(it.index() + 1 == it.seq().len() ==> it.seq().unref().take(it.index() + 1)
            =~= it.seq().unref());
    }
    list
}

/// The list `list` read from its end to its beginning.
pub fn reversed(list: Vec<u64>) -> (turned: Vec<u64>)
    ensures
        turned@ == list@.reverse(),
{
    let mut turned: Vec<u64> = Vec::new();
    let mut left: usize = list.len();
    while left > 0
        invariant
            left <= list.len(),
            turned.len() == list.len() - left,
            forall|k: int| 0 <= k < turned.len() ==> turned[k] == list[list.len() - 1 - k],
        decreases left,
    {
        left = left - 1;
        turned.push(list[left]);
    }
    assert(turned@ =~= list@.reverse());
    turned
}

/// The dependency graph: each task with the set of tasks it depends on.
#[derive(Clone, Debug)]
pub struct Graph {
    pub edges: BTreeMap<u64, BTreeSet<u64>>,
}

impl View for Graph {
    type V = Map<u64, Set<u64>>;

    open spec fn view(&self) -> Map<u64, Set<u64>> {
        Map::new(|k: u64| self.edges@.contains_key(k), |k: u64| self.edges@[k]@)
    }
}

impl Graph {
    /// A graph without nodes.
    pub fn new() -> (graph: Graph)
        ensures
            graph@ == Map::<u64, Set<u64>>::empty(),
    {
        let graph = Graph { edges: BTreeMap::new() };
        assert(graph@ =~= Map::<u64, Set<u64>>::empty());
        graph
    }

    /// The graph of `tasks`: each a node with its dependencies as edges.
    pub fn create(tasks: &Vec<InternalTask>) -> (graph: Graph)
        ensures
            graph@ == edges_of(tasks@),
    {
        let mut edges: BTreeMap<Id, BTreeSet<Id>> = BTreeMap::new();
        let ghost mut view: Map<u64, Set<u64>> = Map::empty();
        let mut i: usize = 0;
        assert(tasks@.take(0) =~= Seq::<InternalTask>::empty());
        while i < tasks.len()
            invariant
                i <= tasks.len(),
                view == edges_of(tasks@.take(i as int)),
                view =~= Map::new(|k: u64| edges@.contains_key(k), |k: u64| edges@[k]@),
            decreases tasks.len() - i,
        {
            assert(tasks@.take(i + 1).drop_last() =~= tasks@.take(i as int));
            edges.insert(tasks[i].id, tasks[i].dependencies.clone());
            proof {
                view = view.insert(tasks[i as int].id, tasks[i as int].dependencies@);
            }
            i = i + 1;
        }
        assert(tasks@.take(i as int) =~= tasks@);
        Self { edges }
    }

    /// A graph with the same nodes and edges.
    pub fn copy(&self) -> (graph: Graph)
        ensures
            graph@ == self@,
    {
        let graph = Self { edges: self.edges.clone() };
        assert(graph@ =~= self@);
        graph
    }

    /// The nodes of the graph as a list, each of them once, in ascending
    /// order.
    pub fn nodes(&self) -> (list: Vec<u64>)
        ensures
            list@.to_set() == self@.dom(),
            list@.no_duplicates(),
            ascends(list@),
    {
        let mut list: Vec<u64> = Vec::new();
        assert(list@.to_set() =~= Set::<u64>::empty());
        for node in it: self.edges.keys()
            invariant
                it.seq().unref().to_set() == self.edges@.dom(),
                it.seq().no_duplicates(),
                ascends(list@),
                list@.to_set() == it.seq().unref().take(it.index()).to_set(),
                it.index() == it.seq().len() ==> list@.to_set() == self.edges@.dom(),
        {
            // The map hands its keys out in ascending order, so that each
            // goes to the end.
            let ghost seen = it.seq().unref().take(it.index());
            assert(!seen.contains(*node)) by {
                if seen.contains(*node) {
                    let k = choose|k: int| 0 <= k < seen.len() && seen[k] == *node;
                    assert(it.seq()[k] == it.seq()[it.index()]);
                }
            }
            let mut place: usize = list.len();
            while place > 0 && list[place - 1] > *node
                invariant
                    place <= list.len(),
                    forall|k: int| place <= k < list.len() ==> *node < list[k],
                decreases place,
            {
                place = place - 1;
            }
            proof {
                assert forall|k: int| 0 <= k < place implies list[k] < *node by {
                    assert(list@.to_set().contains(list[k]));
                    if k < place - 1 {
                        assert(list[k] < list[place - 1]);
                    }
                }
                lemma_insert_ascending(list@, place as int, *node);
                seen.lemma_push_to_set_commute(*node);
                assert(seen.push(*node) =~= it.seq().unref().take(it.index() + 1));
            }
            list.insert(place, *node);
            assert(it.index() + 1 == it.seq().len() ==> it.seq().unref().take(it.index() + 1)
                =~= it.seq().unref());
        }
        proof {
            lemma_ascending_distinct(list@);
            assert(self@.dom() =~= self.edges@.dom());
        }
        list
    }

    /// Whether `node` is a node of the graph.
    pub fn contains_node(&self, node: u64) -> (present: bool)
        ensures
            present == self@.contains_key(node),
    {
        self.edges.contains_key(&node)
    }

    /// Makes `node` a node of the graph. A node that is already there keeps
    /// its edges; a new one has none. Returns whether the node is new.
    pub fn insert_node(&mut self, node: u64) -> (inserted: bool)
        ensures
            inserted == !old(self)@.contains_key(node),
            inserted ==> final(self)@ == old(self)@.insert(node, Set::empty()),
            !inserted ==> final(self)@ == old(self)@,
            acyclic(old(self)@) ==> acyclic(final(self)@),
    {
        if self.edges.contains_key(&node) {
            false
        } else {
            self.edges.insert(node, BTreeSet::new());
            assert(self@ =~= old(self)@.insert(node, Set::empty()));
            proof {
                if acyclic(old(self)@) {
                    lemma_new_node_keeps_acyclic(old(self)@, node);
                }
            }
            true
        }
    }

    /// Records that `first` depends on `second`. Both must be nodes already,
    /// and they must differ. Returns whether the edge is new.
    pub fn insert_edge(&mut self, first: u64, second: u64) -> (added: Result<bool, Error>)
        ensures
            added is Ok <==> old(self)@.contains_key(first) && old(self)@.contains_key(second)
                && first != second,
            added matches Ok(new) ==> {
                &&& new == !has_edge(old(self)@, first, second)
                &&& final(self)@ == old(self)@.insert(first, old(self)@[first].insert(second))
            },
            added matches Err(error) ==> {
                &&& final(self)@ == old(self)@
                &&& if !old(self)@.contains_key(first) || !old(self)@.contains_key(second) {
                    error matches Error::Internal(message) && message@ == missing_node_message()
                } else {
                    error matches Error::Generic(message) && is_self_dependency_message(message@, first)
                }
            },
            acyclic(old(self)@) && !reaches(old(self)@, second, first) ==> acyclic(final(self)@),
    {
        if !self.contains_node(first) || !self.contains_node(second) {
            Err(
                Error::Internal(
                    String::from_str(
                        "Attempt to insert an edge in the dependency graph with a node which wasn't present",
                    ),
                ),
            )
        } else if first == second {
            Err(
                Error::Generic(
                    frame("Note with ID ", crate::format::id(first), " cannot depend on itself"),
                ),
            )
        } else {
            match self.edges.remove(&first) {
                Some(mut outgoing) => {
                    let new = outgoing.insert(second);
                    self.edges.insert(first, outgoing);
                    assert(self@ =~= old(self)@.insert(first, old(self)@[first].insert(second)));
                    proof {
                        if acyclic(old(self)@) && !reaches(old(self)@, second, first) {
                            lemma_new_edge_keeps_acyclic(old(self)@, first, second);
                        }
                    }
                    Ok(new)
                },
                None => Ok(false),
            }
        }
    }

    /// Searches the graph for a cycle, taking the nodes in ascending order as
    /// the places to start from and following the edges depth first, those
    /// of each node in ascending order too. A cycle is given as a walk: each
    /// task depends on the next, and the last task is the first again. It is
    /// the cycle that `first_cycle` tells, and there is none only in a graph
    /// without cycles.
    pub fn find_cycle(&self) -> (cycle: Option<Vec<u64>>)
        ensures
            found_view(cycle) == first_cycle(self@),
            match cycle {
                Some(path) => is_cycle(self@, path@) && is_simple(path@),
                None => acyclic(self@),
            },
    {
        let nodes = self.nodes();
        proof {
            assert(self@.dom() =~= self.edges@.dom());
            lemma_ascending_unique(nodes@, ascending_list(self@.dom()));
        }
        // All unvisited nodes, so that no component of the graph is missed.
        let mut unvisited: BTreeSet<u64> = BTreeSet::new();
        let mut filled: usize = 0;
        while filled < nodes.len()
            invariant
                filled <= nodes.len(),
                forall|node: u64| unvisited@.contains(node) ==> nodes@.contains(node),
                forall|i: int| 0 <= i < filled ==> unvisited@.contains(#[trigger] nodes[i]),
            decreases nodes.len() - filled,
        {
            unvisited.insert(nodes[filled]);
            filled = filled + 1;
        }
        assert(unvisited@ =~= self@.dom()) by {
            assert forall|node: u64| self@.dom().contains(node) implies unvisited@.contains(
                node,
            ) by {
                assert(nodes@.to_set().contains(node));
                let i = choose|i: int| 0 <= i < nodes.len() && nodes[i] == node;
                assert(unvisited@.contains(nodes[i]));
            }
            assert forall|node: u64| unvisited@.contains(node) implies self@.dom().contains(
                node,
            ) by {
                assert(nodes@.to_set().contains(node));
            }
        }
        let mut current_path_visited: HashSet<u64> = HashSet::new();
        let mut next: usize = 0;
        while next < nodes.len()
            invariant
                next <= nodes.len(),
                nodes@.to_set() == self@.dom(),
                self@.dom().finite(),
                first_cycle(self@) == search_roots(self@, nodes@, next as nat, unvisited@),
                current_path_visited@ == Seq::<u64>::empty().to_set(),
                forall|i: int|
                    next <= i < nodes.len() ==> unvisited@.contains(#[trigger] nodes[i]) || clean(
                        self@,
                        nodes[i],
                        Set::empty(),
                    ),
                forall|i: int| 0 <= i < next ==> clean(self@, #[trigger] nodes[i], Set::empty()),
            decreases nodes.len() - next,
        {
            let start = nodes[next];
            if unvisited.contains(&start) {
                let ghost before = unvisited@;
                let found = self.find_cycle_local(
                    start,
                    &mut unvisited,
                    &mut current_path_visited,
                    Ghost(Seq::empty()),
                );
                assert((self@.dom().len() + 1 - Seq::<u64>::empty().len()) as nat
                    == self@.dom().len() + 1);
                if let Some(trail) = found {
                    proof {
                        lemma_closed_walk_back_is_cycle(self@, trail@);
                    }
                    return Some(reversed(trail));
                }
            }
            next = next + 1;
        }
        proof {
            assert forall|node: u64| self@.contains_key(node) implies #[trigger] clean(
                self@,
                node,
                Set::empty(),
            ) by {
                assert(nodes@.to_set().contains(node));
                let i = choose|i: int| 0 <= i < nodes.len() && nodes[i] == node;
                assert(clean(self@, nodes[i], Set::empty()));
            }
            lemma_clean_nodes_acyclic(self@);
        }
        None
    }

    /// Follows the edges from `start` depth first. `current_path_visited`
    /// holds the tasks on the way from the place the search began to `start`,
    /// which `path` lists in order. Coming to one of them again closes a
    /// cycle: it is handed back in reverse, from the task that was met again
    /// to that same task, and each caller on the way adds itself until the
    /// cycle is closed.
    fn find_cycle_local(
        &self,
        start: u64,
        unvisited: &mut BTreeSet<u64>,
        current_path_visited: &mut HashSet<u64>,
        Ghost(path): Ghost<Seq<u64>>,
    ) -> (found: Option<Vec<u64>>)
        requires
            path.no_duplicates(),
            old(current_path_visited)@ == path.to_set(),
            forall|i: int| 0 <= i < path.len() ==> self@.contains_key(#[trigger] path[i]),
        ensures
            search_from(
                self@,
                start,
                old(unvisited)@,
                path,
                (self@.dom().len() + 1 - path.len()) as nat,
            ) == (found_view(found), final(unvisited)@),
            match found {
                Some(trail) => {
                    &&& is_walk_back(self@, trail@)
                    &&& (is_closed(trail@) && is_simple(trail@)) || (trail@.last() == start
                        && path.contains(trail@[0]) && is_fresh_after_first(trail@, path))
                },
                None => {
                    &&& final(current_path_visited)@ == old(current_path_visited)@
                    &&& clean(self@, start, path.to_set())
                    &&& !final(unvisited)@.contains(start)
                    &&& forall|node: u64|
                        final(unvisited)@.contains(node) ==> old(unvisited)@.contains(node)
                    &&& forall|node: u64|
                        old(unvisited)@.contains(node) && !final(unvisited)@.contains(node)
                            ==> clean(self@, node, Set::empty())
                },
            },
        decreases self@.dom().len() - path.len(),
    {
        let ghost depth = (self@.dom().len() + 1 - path.len()) as nat;
        proof {
            assert(self@.dom() =~= self.edges@.dom());
            lemma_distinct_within(path, self@.dom());
            assert(depth >= 1);
        }
        // If already visited in the current path, then there is a cycle.
        if current_path_visited.contains(&start) {
            let trail = vec![start];
            assert(path.contains(trail@[0]));
            assert(is_fresh_after_first(trail@, path));
            return Some(trail);
        }
        unvisited.remove(&start);
        let children = match self.edges.get(&start) {
            Some(outgoing) => members(outgoing),
            None => {
                // Nothing depends on: every walk from here ends here.
                assert forall|w: Seq<u64>| #[trigger] is_walk(self@, w) && w[0] == start implies
                    w.no_duplicates() && forall|i: int|
                    0 <= i < w.len() ==> !path.to_set().contains(#[trigger] w[i]) by {
                    if w.len() > 1 {
                        assert(has_edge(self@, w[0], w[1]));
                    }
                }
                assert(clean(self@, start, Set::empty()));
                return None;
            },
        };
        current_path_visited.insert(start);
        let ghost longer = path.push(start);
        proof {
            path.lemma_push_to_set_commute(start);
            assert(self@.dom() =~= self.edges@.dom());
            lemma_distinct_within(longer, self@.dom());
            assert(children@.to_set() == self@[start]);
        }
        let ghost whole = search_among(
            self@,
            children@,
            0,
            old(unvisited)@.remove(start),
            longer,
            (depth - 1) as nat,
        );
        let mut i: usize = 0;
        while i < children.len()
            invariant
                i <= children.len(),
                depth == (self@.dom().len() + 1 - path.len()) as nat,
                depth >= 1,
                !path.contains(start),
                children@ == children_of(self@, start),
                whole == search_among(
                    self@,
                    children@,
                    0,
                    old(unvisited)@.remove(start),
                    longer,
                    (depth - 1) as nat,
                ),
                whole == search_among(
                    self@,
                    children@,
                    i as nat,
                    unvisited@,
                    longer,
                    (depth - 1) as nat,
                ),
                longer == path.push(start),
                longer.no_duplicates(),
                longer.len() <= self@.dom().len(),
                forall|k: int| 0 <= k < longer.len() ==> self@.contains_key(#[trigger] longer[k]),
                current_path_visited@ == longer.to_set(),
                self@.contains_key(start),
                children@.to_set() == self@[start],
                forall|k: int|
                    0 <= k < i ==> clean(self@, #[trigger] children[k], longer.to_set()),
                !unvisited@.contains(start),
                forall|node: u64| unvisited@.contains(node) ==> old(unvisited)@.contains(node),
                forall|node: u64|
                    old(unvisited)@.contains(node) && !unvisited@.contains(node) && node != start
                        ==> clean(self@, node, Set::empty()),
            decreases children.len() - i,
        {
            let node = children[i];
            let found = self.find_cycle_local(
                node,
                unvisited,
                current_path_visited,
                Ghost(longer),
            );
            if let Some(mut trail) = found {
                assert(has_edge(self@, start, node)) by {
                    assert(children@.to_set().contains(children@[i as int]));
                }
                let closed = trail.len() >= 2 && trail[0] == trail[trail.len() - 1];
                proof {
                    if closed && !(is_closed(trail@) && is_simple(trail@)) {
                        // A trail that is still open ends at the child, which
                        // is not on the way to it.
                        assert(longer.contains(trail@[0]));
                        assert(!longer.contains(trail@[trail@.len() - 1]));
                    }
                }
                if !closed {
                    let ghost shorter = trail@;
                    trail.push(start);
                    assert(trail@ == shorter.push(start));
                    proof {
                        assert(longer[longer.len() - 1] == start);
                        assert(longer.contains(start));
                        assert forall|k: int| 1 <= k < shorter.len() implies shorter[k]
                            != start by {
                            assert(!longer.contains(shorter[k]));
                        }
                        assert forall|k: int| 1 <= k < shorter.len() implies !path.contains(
                            shorter[k],
                        ) by {
                            assert(!longer.contains(shorter[k]));
                            if path.contains(shorter[k]) {
                                let at = choose|at: int| 0 <= at < path.len() && path[at] == shorter[k];
                                assert(longer[at] == shorter[k]);
                            }
                        }
                        assert(!path.contains(start)) by {
                            if path.contains(start) {
                                let at = choose|at: int| 0 <= at < path.len() && path[at] == start;
                                assert(longer[at] == longer[longer.len() - 1]);
                            }
                        }
                        if shorter[0] == start {
                            assert(is_simple(trail@));
                        } else {
                            assert(is_fresh_after_first(trail@, path));
                        }
                    }
                    assert(is_walk_back(self@, trail@)) by {
                        assert forall|k: int| 0 <= k < trail@.len() - 1 implies has_edge(
                            self@,
                            trail@[k + 1],
                            #[trigger] trail@[k],
                        ) by {
                            if k < shorter.len() - 1 {
                                assert(has_edge(self@, shorter[k + 1], shorter[k]));
                            }
                        }
                    }
                    proof {
                        assert(longer.contains(shorter[0]));
                        if shorter[0] != start {
                            let k = choose|k: int| 0 <= k < longer.len() && longer[k] == shorter[0];
                            assert(path[k] == shorter[0]);
                            assert(path.contains(trail@[0]));
                        }
                    }
                }
                return Some(trail);
            }
            proof {
                // What the search below this child has taken out of `unvisited`
                // starts no walk that comes to a task twice.
                assert(clean(self@, node, Set::empty()));
            }
            i = i + 1;
        }
        // The search has reached its full depth below this node.
        current_path_visited.remove(&start);
        proof {
            assert(current_path_visited@ =~= path.to_set());
            assert forall|w: Seq<u64>| #[trigger] is_walk(self@, w) && w[0] == start implies
                w.no_duplicates() && forall|k: int|
                0 <= k < w.len() ==> !path.to_set().contains(#[trigger] w[k]) by {
                if w.len() > 1 {
                    let rest = w.subrange(1, w.len() as int);
                    assert(has_edge(self@, w[0], w[1]));
                    assert(children@.to_set().contains(w[1]));
                    let j = choose|j: int| 0 <= j < children.len() && children[j] == w[1];
                    assert(is_walk(self@, rest)) by {
                        assert forall|k: int| 0 <= k < rest.len() - 1 implies has_edge(
                            self@,
                            #[trigger] rest[k],
                            rest[k + 1],
                        ) by {
                            assert(has_edge(self@, w[k + 1], w[k + 1 + 1]));
                        }
                    }
                    assert(clean(self@, children[j], longer.to_set()));
                    assert(rest[0] == children[j]);
                    assert forall|k: int| 0 <= k < w.len() implies !path.to_set().contains(
                        #[trigger] w[k],
                    ) by {
                        if k > 0 {
                            assert(!longer.to_set().contains(rest[k - 1]));
                        }
                    }
                    assert forall|a: int, b: int| 0 <= a < w.len() && 0 <= b < w.len() && a != b implies w[a] != w[b] by {
                        if a > 0 {
                            assert(!longer.to_set().contains(rest[a - 1]));
                        }
                        if b > 0 {
                            assert(!longer.to_set().contains(rest[b - 1]));
                        }
                        if a > 0 && b > 0 {
                            assert(rest[a - 1] != rest[b - 1]);
                        }
                        assert(longer.to_set().contains(start));
                    }
                }
            }
            assert(clean(self@, start, Set::empty()));
        }
        None
    }

    /// Takes `node` out of the graph, with every edge to it. Returns whether
    /// it was a node, and the other nodes that depended on it: each of them
    /// has lost that edge.
    pub fn remove_node(&mut self, node: u64) -> (removed: (bool, HashSet<u64>))
        ensures
            removed.0 == old(self)@.contains_key(node),
            removed.0 ==> final(self)@ == without_node(old(self)@, node),
            removed.0 ==> removed.1@ == dependents_of(old(self)@, node),
            !removed.0 ==> final(self)@ == old(self)@,
            !removed.0 ==> removed.1@ == Set::<u64>::empty(),
    {
        let mut dependents: HashSet<u64> = HashSet::new();
        if self.edges.remove(&node).is_none() {
            assert(self@ =~= old(self)@);
            return (false, dependents);
        }
        let others = self.nodes();
        let ghost before = old(self)@;
        assert(self@.dom() =~= before.dom().remove(node));
        let mut i: usize = 0;
        while i < others.len()
            invariant
                i <= others.len(),
                before.contains_key(node),
                others@.to_set() == before.dom().remove(node),
                self@.dom() == before.dom().remove(node),
                forall|k: int| 0 <= k < i ==> self@[#[trigger] others[k]] == before[others[k]].remove(node),
                forall|k: int| i <= k < others.len() ==> self@[#[trigger] others[k]] == before[others[k]],
                forall|dependent: u64|
                    dependents@.contains(dependent) <==> exists|k: int|
                        0 <= k < i && #[trigger] others[k] == dependent && before[dependent].contains(node),
                others@.no_duplicates(),
            decreases others.len() - i,
        {
            let dependent = others[i];
            assert(others@.to_set().contains(dependent));
            let ghost during = self@;
            match self.edges.remove(&dependent) {
                Some(mut outgoing) => {
                    if outgoing.remove(&node) {
                        dependents.insert(dependent);
                    }
                    self.edges.insert(dependent, outgoing);
                },
                None => {},
            }
            proof {
                assert(self@.dom() =~= before.dom().remove(node));
                assert(self@[dependent] == during[dependent].remove(node));
                assert forall|k: int| 0 <= k < others.len() && k != i implies self@[#[trigger] others[k]]
                    == during[others[k]] by {}
                assert(before[dependent].remove(node) == before[dependent] <== !before[dependent].contains(node)) by {
                    if !before[dependent].contains(node) {
                        assert(before[dependent].remove(node) =~= before[dependent]);
                    }
                }
            }
            i = i + 1;
        }
        proof {
            assert forall|k: u64| #[trigger] self@.contains_key(k) implies self@[k] == before[k].remove(node) by {
                assert(others@.to_set().contains(k));
                let at = choose|at: int| 0 <= at < others.len() && others[at] == k;
                assert(self@[others[at]] == before[others[at]].remove(node));
            }
            assert(self@ =~= without_node(before, node));
            assert forall|k: u64| dependents_of(before, node).contains(k) implies dependents@.contains(k) by {
                assert(others@.to_set().contains(k));
                let at = choose|at: int| 0 <= at < others.len() && others[at] == k;
            }
            assert forall|k: u64| dependents@.contains(k) implies dependents_of(before, node).contains(k) by {
                let at = choose|at: int| 0 <= at < others.len() && #[trigger] others[at] == k && before[k].contains(node);
                assert(others@.to_set().contains(others[at]));
            }
            assert(dependents@ =~= dependents_of(before, node));
        }
        (true, dependents)
    }

    /// The tasks that some task depends on.
    pub fn get_tasks_with_dependents(&self) -> (tasks_with_dependents: HashSet<u64>)
        ensures
            tasks_with_dependents@ == depended_upon(self@),
    {
        let mut tasks_with_dependents: HashSet<u64> = HashSet::new();
        let nodes = self.nodes();
        let mut i: usize = 0;
        while i < nodes.len()
            invariant
                i <= nodes.len(),
                nodes@.to_set() == self@.dom(),
                forall|to: u64|
                    tasks_with_dependents@.contains(to) <==> exists|k: int|
                        0 <= k < i && has_edge(self@, #[trigger] nodes[k], to),
            decreases nodes.len() - i,
        {
            let from = nodes[i];
            assert(nodes@.to_set().contains(from));
            let targets = match self.edges.get(&from) {
                Some(outgoing) => members(outgoing),
                None => Vec::new(),
            };
            assert(targets@.to_set() == self@[from]);
            let mut j: usize = 0;
            while j < targets.len()
                invariant
                    j <= targets.len(),
                    i < nodes.len(),
                    from == nodes[i as int],
                    self@.contains_key(from),
                    targets@.to_set() == self@[from],
                    forall|to: u64|
                        tasks_with_dependents@.contains(to) <==> (exists|k: int|
                            0 <= k < i && has_edge(self@, #[trigger] nodes[k], to)) || (exists|k: int|
                            0 <= k < j && #[trigger] targets[k] == to),
                decreases targets.len() - j,
            {
                tasks_with_dependents.insert(targets[j]);
                j = j + 1;
            }
            proof {
                assert forall|to: u64| tasks_with_dependents@.contains(to) <==> exists|k: int|
                    0 <= k < i + 1 && has_edge(self@, #[trigger] nodes[k], to) by {
                    if exists|k: int| 0 <= k < j && #[trigger] targets[k] == to {
                        let k = choose|k: int| 0 <= k < j && #[trigger] targets[k] == to;
                        assert(targets@.to_set().contains(targets@[k]));
                        assert(has_edge(self@, nodes[i as int], to));
                    }
                    if exists|k: int| 0 <= k < i + 1 && has_edge(self@, #[trigger] nodes[k], to) {
                        let k = choose|k: int| 0 <= k < i + 1 && has_edge(self@, #[trigger] nodes[k], to);
                        if k == i {
                            assert(targets@.to_set().contains(to));
                            let at = choose|at: int| 0 <= at < targets.len() && targets[at] == to;
                            assert(targets[at] == to);
                        }
                    }
                }
            }
            i = i + 1;
        }
        proof {
            assert forall|to: u64| depended_upon(self@).contains(to) implies tasks_with_dependents@.contains(to) by {
                let from = choose|from: u64| has_edge(self@, from, to);
                assert(nodes@.to_set().contains(from));
                let at = choose|at: int| 0 <= at < nodes.len() && nodes[at] == from;
                assert(has_edge(self@, nodes[at], to));
            }
            assert(tasks_with_dependents@ =~= depended_upon(self@));
        }
        tasks_with_dependents
    }

    /// Every task that `id` depends on, directly or through other tasks. The
    /// graph must have no cycle, which `find_cycle` tells.
    pub fn get_nested_deps(&self, id: u64) -> (output: HashSet<u64>)
        requires
            acyclic(self@),
        ensures
            output@ == reachable_from(self@, id),
    {
        let mut output: HashSet<u64> = HashSet::new();
        self.collect_nested_deps(id, &mut output, Ghost(Seq::empty()));
        assert(output@ =~= reachable_from(self@, id));
        output
    }

    /// Adds to `output` every task that `curr` depends on, directly or through
    /// other tasks. `path` is the way by which the traversal came to `curr`.
    fn collect_nested_deps(&self, curr: u64, output: &mut HashSet<u64>, Ghost(path): Ghost<Seq<u64>>)
        requires
            acyclic(self@),
            is_walk(self@, path.push(curr)),
        ensures
            final(output)@ == old(output)@.union(reachable_from(self@, curr)),
        decreases self@.dom().len() - path.len(),
    {
        let ghost longer = path.push(curr);
        let children = match self.edges.get(&curr) {
            Some(outgoing) => members(outgoing),
            None => Vec::new(),
        };
        proof {
            if !self@.contains_key(curr) {
                assert forall|to: u64| !reaches(self@, curr, to) by {
                    lemma_reaches_unfold(self@, curr, to);
                }
                assert(reachable_from(self@, curr) =~= Set::empty());
                assert(output@.union(reachable_from(self@, curr)) =~= output@);
            } else {
                assert(children@.to_set() == self@[curr]);
                lemma_acyclic_walk_distinct(self@, longer);
                assert(self@.dom() =~= self.edges@.dom());
                assert forall|k: int| 0 <= k < longer.len() implies self@.contains_key(#[trigger] longer[k]) by {
                    if k < longer.len() - 1 {
                        assert(has_edge(self@, longer[k], longer[k + 1]));
                    }
                }
                lemma_distinct_within(longer, self@.dom());
            }
        }
        let mut i: usize = 0;
        while i < children.len()
            invariant
                i <= children.len(),
                acyclic(self@),
                longer == path.push(curr),
                is_walk(self@, longer),
                children.len() > 0 ==> self@.contains_key(curr) && children@.to_set() == self@[curr]
                    && longer.len() <= self@.dom().len(),
                forall|to: u64|
                    output@.contains(to) <==> old(output)@.contains(to) || exists|k: int|
                        0 <= k < i && (#[trigger] children[k] == to || reaches(self@, children[k], to)),
            decreases children.len() - i,
        {
            let dep = children[i];
            output.insert(dep);
            proof {
                assert(children@.to_set().contains(children@[i as int]));
                assert(has_edge(self@, curr, dep));
                assert forall|k: int| 0 <= k < longer.push(dep).len() - 1 implies has_edge(
                    self@,
                    #[trigger] longer.push(dep)[k],
                    longer.push(dep)[k + 1],
                ) by {
                    if k < longer.len() - 1 {
                        assert(has_edge(self@, longer[k], longer[k + 1]));
                    }
                }
            }
            let ghost during = output@;
            self.collect_nested_deps(dep, output, Ghost(longer));
            proof {
                assert forall|to: u64| output@.contains(to) <==> old(output)@.contains(to) || exists|k: int|
                        0 <= k < i + 1 && (#[trigger] children[k] == to || reaches(self@, children[k], to)) by {
                    if output@.contains(to) && !old(output)@.contains(to) {
                        if during.contains(to) {
                            if to != dep {
                                let k = choose|k: int| 0 <= k < i && (#[trigger] children[k] == to || reaches(self@, children[k], to));
                                assert(0 <= k < i + 1);
                            } else {
                                assert(children[i as int] == to);
                            }
                        } else {
                            assert(reaches(self@, children[i as int], to));
                        }
                    }
                    if exists|k: int| 0 <= k < i + 1 && (#[trigger] children[k] == to || reaches(self@, children[k], to)) {
                        let k = choose|k: int| 0 <= k < i + 1 && (#[trigger] children[k] == to || reaches(self@, children[k], to));
                        if k < i {
                            assert(during.contains(to));
                        }
                    }
                }
            }
            i = i + 1;
        }
        proof {
            if self@.contains_key(curr) {
                assert forall|to: u64| reaches(self@, curr, to) <==> exists|k: int|
                        0 <= k < children.len() && (#[trigger] children[k] == to || reaches(self@, children[k], to)) by {
                    lemma_reaches_unfold(self@, curr, to);
                    if reaches(self@, curr, to) {
                        let next = choose|next: u64| #[trigger] has_edge(self@, curr, next) && (next == to || reaches(self@, next, to));
                        assert(children@.to_set().contains(next));
                        let k = choose|k: int| 0 <= k < children.len() && children[k] == next;
                        assert(children[k] == to || reaches(self@, children[k], to));
                    }
                    if exists|k: int| 0 <= k < children.len() && (#[trigger] children[k] == to || reaches(self@, children[k], to)) {
                        let k = choose|k: int| 0 <= k < children.len() && (#[trigger] children[k] == to || reaches(self@, children[k], to));
                        assert(children@.to_set().contains(children@[k]));
                        assert(has_edge(self@, curr, children[k]));
                    }
                }
                assert(output@ =~= old(output)@.union(reachable_from(self@, curr)));
            }
        }
    }

    /// Forgets that `first` depends on `second`. Returns whether there was
    /// such an edge.
    pub fn remove_edge(&mut self, first: u64, second: u64) -> (removed: bool)
        ensures
            removed == has_edge(old(self)@, first, second),
            removed ==> final(self)@ == old(self)@.insert(first, old(self)@[first].remove(second)),
            !removed ==> final(self)@ == old(self)@,
    {
        match self.edges.remove(&first) {
            Some(mut outgoing) => {
                let removed = outgoing.remove(&second);
                self.edges.insert(first, outgoing);
                if removed {
                    assert(self@ =~= old(self)@.insert(first, old(self)@[first].remove(second)));
                } else {
                    assert(old(self)@[first].remove(second) =~= old(self)@[first]);
                    assert(self@ =~= old(self)@);
                }
                removed
            },
            None => {
                assert(self@ =~= old(self)@);
                false
            },
        }
    }
}

/// Whether `message` says that the dependency graph holds the cycle
/// `cycle`, and shows it.
pub open spec fn is_cycle_message(message: Seq<char>, cycle: Seq<u64>) -> bool {
    exists|shown: Seq<Seq<char>>|
        shows_ids(cycle, shown) && message
            == "The dependency graph holds a circular dependency: "@ + #[trigger] cycle_text(shown)
            + ""@
}

/// The error for work that needs a graph without cycles where `cycle` is
/// one.
pub fn cycle_error(cycle: &Vec<Id>) -> (error: Error)
    ensures
        error matches Error::Internal(message) && is_cycle_message(message@, cycle@),
{
    let shown = shown_ids(cycle);
    let text = join(&shown, " -> ");
    let message = frame("The dependency graph holds a circular dependency: ", text, "");
    assert(message@ == "The dependency graph holds a circular dependency: "@ + cycle_text(
        crate::format::texts(shown@),
    ) + ""@);
    Error::Internal(message)
}

/// Shows a cycle: its tasks, each as identifiers are shown, in their order
/// and with an arrow between each two.
pub fn format_cycle(cycle: &Vec<Id>) -> (formatted: String)
    ensures
        is_cycle_text(formatted@, cycle@),
{
    let shown = shown_ids(cycle);
    let formatted = join(&shown, " -> ");
    assert(formatted@ == cycle_text(crate::format::texts(shown@)));
    formatted
}

} // verus!
