//! The tree of what a task depends on, as it is drawn line by line.

use vstd::prelude::*;

use crate::error::Error;
use crate::graph::{
    acyclic, children_of, cycle_error, first_cycle, has_edge, is_cycle_message, is_walk,
    lemma_acyclic_walk_distinct, lemma_distinct_within, members, Graph,
};
use crate::tasks::{Id, InternalTask};

verus! {

/// One line of the tree: what stands before the branch that leads to the
/// task, whether the task is the last that its parent depends on, and the
/// task.
#[derive(Debug)]
pub struct TreeLine {
    pub prefix: String,
    pub is_last_item: bool,
    pub id: Id,
}

impl View for TreeLine {
    type V = (Seq<char>, bool, Id);

    open spec fn view(&self) -> (Seq<char>, bool, Id) {
        (self.prefix@, self.is_last_item, self.id)
    }
}

/// The lines `lines` as plain values.
pub open spec fn lines_view(lines: Seq<TreeLine>) -> Seq<(Seq<char>, bool, Id)> {
    lines.map_values(|line: TreeLine| line@)
}

/// What stands before the branches to the children of a task: what stands
/// before its own branch, and room for the branch, with a stroke through it
/// unless the task is the last of its parent.
pub open spec fn child_prefix(prefix: Seq<char>, is_last: bool) -> Seq<char> {
    prefix + if is_last {
        "   "@
    } else {
        "│  "@
    }
}

/// The lines of the tree below and with the task `curr`, no deeper than
/// `depth`: the line of the task, then the trees of what it depends on, in
/// ascending order.
pub open spec fn tree_rows(
    g: Map<u64, Set<u64>>,
    curr: Id,
    prefix: Seq<char>,
    is_last: bool,
    depth: nat,
) -> Seq<(Seq<char>, bool, Id)>
    decreases depth, 0nat,
{
    if depth == 0 {
        Seq::empty()
    } else {
        seq![(prefix, is_last, curr)] + children_rows(
            g,
            children_of(g, curr),
            children_of(g, curr).len(),
            child_prefix(prefix, is_last),
            (depth - 1) as nat,
        )
    }
}

/// The lines of the trees of the first `count` of `children`, no deeper
/// than `depth`.
pub open spec fn children_rows(
    g: Map<u64, Set<u64>>,
    children: Seq<Id>,
    count: nat,
    prefix: Seq<char>,
    depth: nat,
) -> Seq<(Seq<char>, bool, Id)>
    decreases depth, count + 1,
{
    if count == 0 || count > children.len() {
        Seq::empty()
    } else {
        children_rows(g, children, (count - 1) as nat, prefix, depth) + tree_rows(
            g,
            children[count - 1],
            prefix,
            count == children.len(),
            depth,
        )
    }
}

/// The line of a tree: what stands before the branch, the branch, the name
/// of the task, and its identifier in brackets.
pub open spec fn tree_line_text(
    prefix: Seq<char>,
    is_last: bool,
    name: Seq<char>,
    id: Seq<char>,
) -> Seq<char> {
    prefix + (if is_last {
        "└──"@
    } else {
        "├──"@
    }) + name + " (ID: "@ + id + ")"@
}

/// Writes the line of a tree, where `name` and `id` are the task's name and
/// identifier as they are shown.
pub fn tree_line(prefix: &str, is_last: bool, name: &str, id: &str) -> (line: String)
    ensures
        line@ == tree_line_text(prefix@, is_last, name@, id@),
{
    let mut line = String::from_str(prefix);
    if is_last {
        line.append("└──");
    } else {
        line.append("├──");
    }
    line.append(name);
    line.append(" (ID: ");
    line.append(id);
    line.append(")");
    line
}

/// The name of a task as the tree shows it: in bold and in the colour of
/// tasks, or in grey once the task is completed.
pub fn shown_name(task: &InternalTask) -> (shown: String)
    ensures
        task.completed is Some ==> crate::format::is_painted(
            task.name@,
            crate::format::GREY,
            false,
            shown@,
        ),
        task.completed is None ==> crate::format::is_painted(
            task.name@,
            crate::format::TASK,
            true,
            shown@,
        ),
{
    if task.completed.is_some() {
        crate::format::greyed_out(task.name.as_str())
    } else {
        crate::format::task(task.name.as_str())
    }
}

/// Adds the lines of the tree below and with `curr` to `rows`. `path` is
/// the way by which the traversal came to `curr`.
fn add_rows(
    graph: &Graph,
    curr: Id,
    prefix: &String,
    is_last_item: bool,
    rows: &mut Vec<TreeLine>,
    Ghost(path): Ghost<Seq<u64>>,
)
    requires
        acyclic(graph@),
        is_walk(graph@, path.push(curr)),
    ensures
        lines_view(final(rows)@) == lines_view(old(rows)@) + tree_rows(
            graph@,
            curr,
            prefix@,
            is_last_item,
            (graph@.dom().len() + 1 - path.len()) as nat,
        ),
    decreases graph@.dom().len() - path.len(),
{
    let ghost g = graph@;
    let ghost longer = path.push(curr);
    let ghost depth = (g.dom().len() + 1 - path.len()) as nat;
    proof {
        lemma_acyclic_walk_distinct(g, longer);
        assert(g.dom() =~= graph.edges@.dom());
        assert forall|k: int| 0 <= k < path.len() implies g.contains_key(#[trigger] path[k]) by {
            assert(has_edge(g, longer[k], longer[k + 1]));
        }
        assert(path.no_duplicates()) by {
            assert forall|a: int, b: int|
                0 <= a < path.len() && 0 <= b < path.len() && a != b implies path[a] != path[b] by {
                assert(longer[a] != longer[b]);
            }
        }
        lemma_distinct_within(path, g.dom());
        if g.contains_key(curr) {
            assert forall|k: int| 0 <= k < longer.len() implies g.contains_key(
                #[trigger] longer[k],
            ) by {}
            lemma_distinct_within(longer, g.dom());
        }
    }
    let ghost before = lines_view(rows@);
    let ghost pushed = rows@;
    rows.push(TreeLine { prefix: prefix.clone(), is_last_item, id: curr });
    assert(lines_view(rows@) =~= before + seq![(prefix@, is_last_item, curr)]);
    let children = match graph.edges.get(&curr) {
        Some(outgoing) => members(outgoing),
        None => Vec::new(),
    };
    assert(children@ =~= children_of(g, curr));
    assert(g.contains_key(curr) ==> children@.to_set() == g[curr]);
    assert(!g.contains_key(curr) ==> children@.len() == 0);
    let mut new_prefix = prefix.clone();
    if is_last_item {
        new_prefix.append("   ");
    } else {
        new_prefix.append("│  ");
    }
    assert(new_prefix@ == child_prefix(prefix@, is_last_item));
    let count = children.len();
    let mut i: usize = 0;
    assert(children_rows(g, children@, 0, new_prefix@, (depth - 1) as nat) =~= Seq::empty());
    while i < count
        invariant
            i <= count,
            count == children.len(),
            acyclic(graph@),
            g == graph@,
            longer == path.push(curr),
            is_walk(g, longer),
            depth == (g.dom().len() + 1 - path.len()) as nat,
            depth >= 1,
            children@ == children_of(g, curr),
            count > 0 ==> g.contains_key(curr) && longer.len() <= g.dom().len()
                && children@.to_set() == g[curr],
            lines_view(rows@) == before + seq![(prefix@, is_last_item, curr)] + children_rows(
                g,
                children@,
                i as nat,
                new_prefix@,
                (depth - 1) as nat,
            ),
        decreases count - i,
    {
        let node = children[i];
        proof {
            assert(children@.to_set().contains(children@[i as int]));
            assert(has_edge(g, curr, node));
            assert forall|k: int| 0 <= k < longer.push(node).len() - 1 implies has_edge(
                g,
                #[trigger] longer.push(node)[k],
                longer.push(node)[k + 1],
            ) by {
                if k < longer.len() - 1 {
                    assert(has_edge(g, longer[k], longer[k + 1]));
                }
            }
        }
        let ghost so_far = lines_view(rows@);
        add_rows(graph, node, &new_prefix, i == count - 1, rows, Ghost(longer));
        proof {
            assert((g.dom().len() + 1 - longer.len()) as nat == (depth - 1) as nat);
            assert(lines_view(rows@) =~= before + seq![(prefix@, is_last_item, curr)]
                + children_rows(g, children@, (i + 1) as nat, new_prefix@, (depth - 1) as nat));
        }
        i = i + 1;
    }
    assert(lines_view(rows@) =~= before + tree_rows(g, curr, prefix@, is_last_item, depth));
}

/// The lines of the tree of what the task `start` depends on, directly or
/// through other tasks, from the top down. A graph with a cycle is refused.
pub fn dependencies(start: Id, graph: &Graph) -> (lines: Result<Vec<TreeLine>, Error>)
    ensures
        lines is Ok <==> acyclic(graph@),
        lines matches Ok(rows) ==> lines_view(rows@) == tree_rows(
            graph@,
            start,
            Seq::empty(),
            true,
            graph@.dom().len() + 1,
        ),
        lines matches Err(error) ==> error matches Error::Internal(message) && first_cycle(
            graph@,
        ) matches Some(cycle) && is_cycle_message(message@, cycle),
{
    if let Some(cycle) = graph.find_cycle() {
        return Err(cycle_error(&cycle));
    }
    let mut rows: Vec<TreeLine> = Vec::new();
    let prefix = String::new();
    assert(Seq::<u64>::empty().push(start) =~= seq![start]);
    add_rows(graph, start, &prefix, true, &mut rows, Ghost(Seq::empty()));
    assert(lines_view(rows@) =~= tree_rows(
        graph@,
        start,
        Seq::empty(),
        true,
        graph@.dom().len() + 1,
    ));
    Ok(rows)
}

} // verus!
