//! Lists: where a value first and last occurs, and a list without repeats.

use vstd::prelude::*;

verus! {

/// The first place of `item` in `list`, or the length of `list` if it is not
/// in it.
pub open spec fn place_of<T>(list: Seq<T>, item: T) -> int
    decreases list.len(),
{
    if list.len() == 0 {
        0
    } else if list[0] == item {
        0
    } else {
        1 + place_of(list.drop_first(), item)
    }
}

/// The last place of `item` in `list`, or -1 if it is not in it.
pub open spec fn last_place_of<T>(list: Seq<T>, item: T) -> int
    decreases list.len(),
{
    if list.len() == 0 {
        -1
    } else if list.last() == item {
        list.len() - 1
    } else {
        last_place_of(list.drop_last(), item)
    }
}

/// `list` without what has occurred in it before.
pub open spec fn deduped<T>(list: Seq<T>) -> Seq<T>
    decreases list.len(),
{
    if list.len() == 0 {
        Seq::empty()
    } else {
        let front = deduped(list.drop_last());
        if front.contains(list.last()) {
            front
        } else {
            front.push(list.last())
        }
    }
}

/// The first place of `item` in `list` is where it says.
pub proof fn lemma_place_of<T>(list: Seq<T>, item: T)
    ensures
        0 <= place_of(list, item) <= list.len(),
        place_of(list, item) < list.len() ==> list[place_of(list, item)] == item,
        forall|i: int| 0 <= i < place_of(list, item) ==> list[i] != item,
        list.contains(item) <==> place_of(list, item) < list.len(),
    decreases list.len(),
{
    if list.len() > 0 && list[0] != item {
        let rest = list.drop_first();
        lemma_place_of(rest, item);
        assert forall|i: int| 0 <= i < place_of(list, item) implies list[i] != item by {
            if i > 0 {
                assert(rest[i - 1] != item);
            }
        }
        if list.contains(item) {
            let at = choose|at: int| 0 <= at < list.len() && list[at] == item;
            assert(rest[at - 1] == item);
        }
        if place_of(list, item) < list.len() {
            assert(rest[place_of(rest, item)] == item);
            assert(list[place_of(list, item)] == item);
        }
    } else if list.len() > 0 {
        assert(list[0] == item);
    }
}

/// The last place of `item` in `list` is where it says.
pub proof fn lemma_last_place_of<T>(list: Seq<T>, item: T)
    ensures
        -1 <= last_place_of(list, item) < list.len(),
        last_place_of(list, item) >= 0 ==> list[last_place_of(list, item)] == item,
        forall|i: int| last_place_of(list, item) < i < list.len() ==> list[i] != item,
        list.contains(item) <==> last_place_of(list, item) >= 0,
    decreases list.len(),
{
    if list.len() > 0 && list.last() != item {
        let front = list.drop_last();
        lemma_last_place_of(front, item);
        assert forall|i: int| last_place_of(list, item) < i < list.len() implies list[i]
            != item by {
            if i < front.len() {
                assert(front[i] != item);
            }
        }
        if list.contains(item) {
            let at = choose|at: int| 0 <= at < list.len() && list[at] == item;
            assert(front[at] == item);
        }
        if last_place_of(list, item) >= 0 {
            assert(front[last_place_of(front, item)] == item);
        }
    } else if list.len() > 0 {
        assert(list[list.len() - 1] == item);
    }
}

} // verus!
