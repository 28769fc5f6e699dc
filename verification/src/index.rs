//! The index of task names: for each name, the tasks that bear it.
//!
//! The view of an index is a `Map<Seq<char>, Seq<u64>>`: under each name that
//! some task bears, the identifiers of the tasks that bear it.

use vstd::prelude::*;

use crate::error::Error;
use crate::format::{frame, frames_task, join, joined, shown_ids, shows_ids};
use crate::lists::{lemma_place_of, place_of};
use crate::tasks::{Id, InternalTask};
use crate::text::{parse_decimal, parse_u64};

verus! {

/// Whether no two of `buckets` have the same name.
pub open spec fn distinct_names(buckets: Seq<(String, Vec<Id>)>) -> bool {
    forall|i: int, j: int|
        0 <= i < buckets.len() && 0 <= j < buckets.len() && i != j ==> buckets[i].0@
            != buckets[j].0@
}

/// Whether one of `buckets` has the name `name`.
pub open spec fn has_bucket(buckets: Seq<(String, Vec<Id>)>, name: Seq<char>) -> bool {
    exists|i: int| 0 <= i < buckets.len() && buckets[i].0@ == name
}

/// The place of a bucket of `buckets` that has the name `name`.
pub open spec fn bucket_at(buckets: Seq<(String, Vec<Id>)>, name: Seq<char>) -> int {
    choose|i: int| 0 <= i < buckets.len() && buckets[i].0@ == name
}

/// What `buckets` hold: under each name the identifiers in its bucket.
pub open spec fn buckets_view(buckets: Seq<(String, Vec<Id>)>) -> Map<Seq<char>, Seq<Id>> {
    Map::new(
        |name: Seq<char>| has_bucket(buckets, name),
        |name: Seq<char>| buckets[bucket_at(buckets, name)].1@,
    )
}

/// `index` once the task `id` is recorded under `name`: at the end of the
/// name's bucket, or in a bucket of its own if the name is new.
pub open spec fn with_entry(index: Map<Seq<char>, Seq<Id>>, name: Seq<char>, id: Id) -> Map<
    Seq<char>,
    Seq<Id>,
> {
    if index.contains_key(name) {
        index.insert(name, index[name].push(id))
    } else {
        index.insert(name, seq![id])
    }
}

/// The index of `tasks`: each recorded under its name, in order.
pub open spec fn index_of(tasks: Seq<InternalTask>) -> Map<Seq<char>, Seq<Id>>
    decreases tasks.len(),
{
    if tasks.len() == 0 {
        Map::empty()
    } else {
        with_entry(index_of(tasks.drop_last()), tasks.last().name@, tasks.last().id)
    }
}

/// `ids` once the one at `at` is taken out and the last has taken its place.
pub open spec fn swap_removed(ids: Seq<Id>, at: int) -> Seq<Id> {
    ids.update(at, ids.last()).drop_last()
}

/// `index` once the first `id` is taken out of the bucket of `name`, the
/// bucket's last identifier taking its place, and the bucket itself if
/// nothing is left in it. An index without such an entry stays as it is.
pub open spec fn without_entry(index: Map<Seq<char>, Seq<Id>>, name: Seq<char>, id: Id) -> Map<
    Seq<char>,
    Seq<Id>,
> {
    if index.contains_key(name) && index[name].contains(id) {
        let rest = swap_removed(index[name], place_of(index[name], id));
        if rest.len() == 0 {
            index.remove(name)
        } else {
            index.insert(name, rest)
        }
    } else {
        index
    }
}

/// Whether `message` says that no task bears the name `token`.
pub open spec fn is_unknown_name_message(message: Seq<char>, token: Seq<char>) -> bool {
    frames_task("A note by the name "@, " does not exist"@, token, message)
}

/// The message that several tasks bear one name, where `shown` shows them.
pub open spec fn ambiguous_name_message(shown: Seq<Seq<char>>) -> Seq<char> {
    "Multiple notes (Ids: ["@ + joined(shown, ", "@) + "]) by that name exist"@
}

/// Whether `message` says that the tasks `ids` bear one name, and lists each
/// of them, in their order.
pub open spec fn is_ambiguous_name_message(message: Seq<char>, ids: Seq<Id>) -> bool {
    exists|shown: Seq<Seq<char>>|
        shows_ids(ids, shown) && message == #[trigger] ambiguous_name_message(shown)
}

/// What a token resolves to in `index`: the number that it reads as, else
/// the one task that bears it as a name.
pub open spec fn resolves_to(index: Map<Seq<char>, Seq<Id>>, token: Seq<char>) -> Option<Id> {
    match parse_decimal(token, u64::MAX as nat) {
        Some(id) => Some(id as Id),
        None => if index.contains_key(token) && index[token].len() == 1 {
            Some(index[token][0])
        } else {
            None
        },
    }
}

/// What `buckets` hold under the name of one of them is in that bucket.
pub proof fn lemma_bucket_found(buckets: Seq<(String, Vec<Id>)>, at: int)
    requires
        distinct_names(buckets),
        0 <= at < buckets.len(),
    ensures
        has_bucket(buckets, buckets[at].0@),
        bucket_at(buckets, buckets[at].0@) == at,
        buckets_view(buckets)[buckets[at].0@] == buckets[at].1@,
{
}

/// Buckets with one more bucket, under a name that none of them has.
pub proof fn lemma_bucket_added(buckets: Seq<(String, Vec<Id>)>, bucket: (String, Vec<Id>))
    requires
        distinct_names(buckets),
        !has_bucket(buckets, bucket.0@),
    ensures
        distinct_names(buckets.push(bucket)),
        buckets_view(buckets.push(bucket)) == buckets_view(buckets).insert(bucket.0@, bucket.1@),
{
    let after = buckets.push(bucket);
    assert forall|i: int, j: int|
        0 <= i < after.len() && 0 <= j < after.len() && i != j implies after[i].0@
        != after[j].0@ by {
        if i < buckets.len() {
            assert(buckets[i].0@ == after[i].0@);
        }
        if j < buckets.len() {
            assert(buckets[j].0@ == after[j].0@);
        }
    }
    assert forall|key: Seq<char>| has_bucket(after, key) <==> (has_bucket(buckets, key) || key
        == bucket.0@) by {
        if has_bucket(after, key) {
            let k = choose|k: int| 0 <= k < after.len() && after[k].0@ == key;
            if k < buckets.len() {
                assert(buckets[k].0@ == key);
            }
        }
        if has_bucket(buckets, key) {
            let k = choose|k: int| 0 <= k < buckets.len() && buckets[k].0@ == key;
            assert(after[k].0@ == key);
        }
        if key == bucket.0@ {
            assert(after[after.len() - 1].0@ == key);
        }
    }
    assert forall|key: Seq<char>| has_bucket(after, key) implies #[trigger] buckets_view(after)[key]
        == buckets_view(buckets).insert(bucket.0@, bucket.1@)[key] by {
        let k = bucket_at(after, key);
        if k < buckets.len() {
            assert(buckets[k].0@ == key);
            lemma_bucket_found(buckets, k);
        }
    }
    assert(buckets_view(after) =~= buckets_view(buckets).insert(bucket.0@, bucket.1@));
}

/// Buckets with the one at `at` taken out and the last in its place.
pub proof fn lemma_bucket_dropped(buckets: Seq<(String, Vec<Id>)>, at: int)
    requires
        distinct_names(buckets),
        0 <= at < buckets.len(),
    ensures
        distinct_names(buckets.update(at, buckets.last()).drop_last()),
        buckets_view(buckets.update(at, buckets.last()).drop_last()) == buckets_view(
            buckets,
        ).remove(buckets[at].0@),
{
    let after = buckets.update(at, buckets.last()).drop_last();
    let name = buckets[at].0@;
    let last = buckets.len() - 1;
    assert forall|k: int| 0 <= k < after.len() implies after[k] == if k == at {
        buckets[last]
    } else {
        buckets[k]
    } by {}
    assert forall|key: Seq<char>| has_bucket(after, key) <==> (has_bucket(buckets, key) && key
        != name) by {
        if has_bucket(after, key) {
            let k = choose|k: int| 0 <= k < after.len() && after[k].0@ == key;
            if k == at {
                assert(buckets[last].0@ == key);
            } else {
                assert(buckets[k].0@ == key);
            }
        }
        if has_bucket(buckets, key) && key != name {
            let k = choose|k: int| 0 <= k < buckets.len() && buckets[k].0@ == key;
            if k == last {
                assert(after[at].0@ == key);
            } else {
                assert(after[k].0@ == key);
            }
        }
    }
    assert forall|key: Seq<char>| has_bucket(after, key) implies #[trigger] buckets_view(after)[key]
        == buckets_view(buckets).remove(name)[key] by {
        let k = bucket_at(after, key);
        if k == at {
            lemma_bucket_found(buckets, last);
        } else {
            lemma_bucket_found(buckets, k);
        }
    }
    assert(buckets_view(after) =~= buckets_view(buckets).remove(name));
}

/// The index of task names.
#[derive(Debug)]
pub struct Index {
    map: Vec<(String, Vec<Id>)>,
}

impl View for Index {
    type V = Map<Seq<char>, Seq<Id>>;

    closed spec fn view(&self) -> Map<Seq<char>, Seq<Id>> {
        buckets_view(self.map@)
    }
}

impl Index {
    #[verifier::type_invariant]
    spec fn names_differ(self) -> bool {
        distinct_names(self.map@)
    }

    /// An index without names.
    pub fn new() -> (index: Index)
        ensures
            index@ == Map::<Seq<char>, Seq<Id>>::empty(),
    {
        let index = Index { map: Vec::new() };
        assert(index@ =~= Map::<Seq<char>, Seq<Id>>::empty());
        index
    }

    /// The index that holds `buckets`, each a name with the tasks that bear
    /// it, if no two of them have the same name.
    pub fn from_buckets(buckets: Vec<(String, Vec<Id>)>) -> (index: Option<Index>)
        ensures
            index is Some <==> distinct_names(buckets@),
            index matches Some(made) ==> made@ == buckets_view(buckets@),
    {
        let mut i: usize = 0;
        while i < buckets.len()
            invariant
                i <= buckets.len(),
                forall|a: int, b: int|
                    0 <= a < i && 0 <= b < buckets.len() && a != b ==> buckets[a].0@
                        != buckets[b].0@,
            decreases buckets.len() - i,
        {
            let mut j: usize = i + 1;
            while j < buckets.len()
                invariant
                    i < j <= buckets.len(),
                    forall|b: int| i < b < j ==> buckets[i as int].0@ != buckets[b].0@,
                decreases buckets.len() - j,
            {
                if buckets[i].0 == buckets[j].0 {
                    return None;
                }
                j = j + 1;
            }
            i = i + 1;
        }
        Some(Index { map: buckets })
    }

    /// The buckets of the index, each a name with the tasks that bear it.
    pub fn buckets(&self) -> (buckets: Vec<(String, Vec<Id>)>)
        ensures
            distinct_names(buckets@),
            buckets_view(buckets@) == self@,
    {
        proof {
            use_type_invariant(self);
        }
        let mut buckets: Vec<(String, Vec<Id>)> = Vec::new();
        let mut i: usize = 0;
        while i < self.map.len()
            invariant
                i <= self.map.len(),
                buckets.len() == i,
                forall|k: int|
                    0 <= k < i ==> buckets[k].0@ == self.map[k].0@ && buckets[k].1@
                        == self.map[k].1@,
            decreases self.map.len() - i,
        {
            let mut ids: Vec<Id> = Vec::new();
            let mut j: usize = 0;
            while j < self.map[i as usize].1.len()
                invariant
                    i < self.map.len(),
                    j <= self.map[i as int].1.len(),
                    ids@ == self.map[i as int].1@.take(j as int),
                decreases self.map[i as int].1.len() - j,
            {
                ids.push(self.map[i].1[j]);
                j = j + 1;
            }
            buckets.push((self.map[i].0.clone(), ids));
            i = i + 1;
        }
        proof {
            let mine = self.map@;
            let theirs = buckets@;
            assert forall|key: Seq<char>| has_bucket(theirs, key) <==> has_bucket(mine, key) by {
                if has_bucket(theirs, key) {
                    let k = choose|k: int| 0 <= k < theirs.len() && theirs[k].0@ == key;
                    assert(mine[k].0@ == key);
                }
                if has_bucket(mine, key) {
                    let k = choose|k: int| 0 <= k < mine.len() && mine[k].0@ == key;
                    assert(theirs[k].0@ == key);
                }
            }
            assert forall|key: Seq<char>| has_bucket(theirs, key) implies #[trigger] buckets_view(
                theirs,
            )[key] == buckets_view(mine)[key] by {
                let k = bucket_at(theirs, key);
                assert(mine[k].0@ == key);
                lemma_bucket_found(mine, k);
            }
            assert(buckets_view(theirs) =~= buckets_view(mine));
        }
        buckets
    }

    /// The place of the bucket of `name`.
    fn find(&self, name: &String) -> (place: Option<usize>)
        ensures
            place is Some <==> self@.contains_key(name@),
            place matches Some(at) ==> at < self.map.len() && self.map[at as int].0@ == name@
                && self@[name@] == self.map[at as int].1@,
    {
        proof {
            use_type_invariant(self);
        }
        let mut i: usize = 0;
        while i < self.map.len()
            invariant
                i <= self.map.len(),
                distinct_names(self.map@),
                forall|k: int| 0 <= k < i ==> self.map[k].0@ != name@,
            decreases self.map.len() - i,
        {
            if self.map[i].0 == *name {
                proof {
                    lemma_bucket_found(self.map@, i as int);
                }
                return Some(i);
            }
            i = i + 1;
        }
        None
    }

    /// The index of `tasks`: each recorded under its name, in order.
    pub fn create(tasks: &Vec<InternalTask>) -> (index: Index)
        ensures
            index@ == index_of(tasks@),
    {
        let mut index = Index::new();
        let mut i: usize = 0;
        assert(tasks@.take(0) =~= Seq::<InternalTask>::empty());
        while i < tasks.len()
            invariant
                i <= tasks.len(),
                index@ == index_of(tasks@.take(i as int)),
            decreases tasks.len() - i,
        {
            assert(tasks@.take(i + 1).drop_last() =~= tasks@.take(i as int));
            index.insert(tasks[i].name.clone(), tasks[i].id);
            i = i + 1;
        }
        assert(tasks@.take(i as int) =~= tasks@);
        index
    }

    /// Records the task `id` under `name`.
    pub fn insert(&mut self, name: String, id: Id)
        ensures
            final(self)@ == with_entry(old(self)@, name@, id),
    {
        proof {
            use_type_invariant(&*self);
        }
        let place = self.find(&name);
        let mut map: Vec<(String, Vec<Id>)> = Vec::new();
        std::mem::swap(&mut self.map, &mut map);
        let ghost before = map@;
        let ids = match place {
            Some(at) => {
                let (_, mut ids) = map.swap_remove(at);
                ids.push(id);
                proof {
                    lemma_bucket_dropped(before, at as int);
                }
                ids
            },
            None => {
                let mut ids: Vec<Id> = Vec::new();
                ids.push(id);
                assert(ids@ =~= seq![id]);
                ids
            },
        };
        proof {
            lemma_bucket_added(map@, (name, ids));
            assert(buckets_view(map@.push((name, ids))) =~= with_entry(
                buckets_view(before),
                name@,
                id,
            ));
        }
        map.push((name, ids));
        self.map = map;
    }

    /// Takes the task `id` out from under `name`: the first such entry of the
    /// name's bucket, whose last entry takes its place. A bucket in which
    /// nothing is left goes too. Where there is no such entry, nothing
    /// changes.
    pub fn remove(&mut self, name: String, id: Id)
        ensures
            final(self)@ == without_entry(old(self)@, name@, id),
    {
        proof {
            use_type_invariant(&*self);
        }
        let at = match self.find(&name) {
            Some(at) => at,
            None => {
                return ;
            },
        };
        let mut place: usize = 0;
        proof {
            lemma_place_of(self.map[at as int].1@, id);
        }
        while place < self.map[at].1.len() && self.map[at].1[place] != id
            invariant
                at < self.map.len(),
                place <= place_of(self.map[at as int].1@, id) <= self.map[at as int].1.len(),
                place_of(self.map[at as int].1@, id) < self.map[at as int].1.len()
                    ==> self.map[at as int].1[place_of(self.map[at as int].1@, id)] == id,
            decreases self.map[at as int].1.len() - place,
        {
            place = place + 1;
        }
        if place == self.map[at].1.len() {
            return ;
        }
        assert(place == place_of(self.map[at as int].1@, id)) by {
            lemma_place_of(self.map[at as int].1@, id);
        }
        let mut map: Vec<(String, Vec<Id>)> = Vec::new();
        std::mem::swap(&mut self.map, &mut map);
        let ghost before = map@;
        let (found, mut ids) = map.swap_remove(at);
        ids.swap_remove(place);
        proof {
            lemma_bucket_dropped(before, at as int);
        }
        if !ids.is_empty() {
            proof {
                lemma_bucket_added(map@, (found, ids));
                assert(buckets_view(map@.push((found, ids))) =~= without_entry(
                    buckets_view(before),
                    name@,
                    id,
                ));
            }
            map.push((found, ids));
        }
        self.map = map;
    }

    /// Resolves what the user gave for a task. What reads as a number is the
    /// task's identifier, whatever the names are. Anything else is a name,
    /// and must be borne by one task: a name that no task bears is unknown,
    /// and one that several bear is ambiguous.
    pub fn lookup(&self, name_or_id: &String) -> (found: Result<Id, Error>)
        ensures
            found is Ok <==> resolves_to(self@, name_or_id@) is Some,
            found matches Ok(id) ==> resolves_to(self@, name_or_id@) == Some(id),
            found matches Err(error) ==> error matches Error::Generic(message) && if self@.contains_key(
                name_or_id@,
            ) && self@[name_or_id@].len() > 1 {
                is_ambiguous_name_message(message@, self@[name_or_id@])
            } else {
                is_unknown_name_message(message@, name_or_id@)
            },
    {
        if let Some(id) = parse_u64(name_or_id.as_str()) {
            return Ok(id);
        }
        if let Some(at) = self.find(name_or_id) {
            let ids = &self.map[at].1;
            if ids.len() == 1 {
                return Ok(ids[0]);
            }
            if ids.len() > 1 {
                let coloured_ids = shown_ids(ids);
                let display_ids = join(&coloured_ids, ", ");
                let message = frame("Multiple notes (Ids: [", display_ids, "]) by that name exist");
                assert(message@ == ambiguous_name_message(crate::format::texts(coloured_ids@)));
                return Err(Error::Generic(message));
            }
        }
        Err(
            Error::Generic(
                frame(
                    "A note by the name ",
                    crate::format::task(name_or_id.as_str()),
                    " does not exist",
                ),
            ),
        )
    }
}

} // verus!
