//! Insertion-ordered maps keyed by task.

use crate::outside::{
    PositionMap, map_entries, map_get, map_get_index, map_insert, map_with_capacity,
};
use crate::types::TaskId;
use vstd::prelude::*;

verus! {

/// A map from tasks to values that keeps the order in which the tasks were
/// inserted.
///
/// The values lie in a vector; the hash map holds for each task its place there.
pub struct TaskMap<V> {
    positions: PositionMap,
    values: Vec<V>,
}

impl<V> Default for TaskMap<V> {
    /// A map without tasks.
    fn default() -> (map: Self)
        ensures
            map.wf(),
            map.keys() == Seq::<u16>::empty(),
            map.values() == Seq::<V>::empty(),
    {
        TaskMap::new()
    }
}

/// The keys of a sequence of entries.
spec fn keys_of(entries: Seq<(u16, usize)>) -> Seq<u16> {
    entries.map_values(|entry: (u16, usize)| entry.0)
}

impl<V> TaskMap<V> {
    /// The numbers of the tasks in the map, in insertion order.
    pub closed spec fn keys(&self) -> Seq<u16> {
        keys_of(map_entries(self.positions))
    }

    /// The values, each at the place of its task in `keys`.
    pub closed spec fn values(&self) -> Seq<V> {
        self.values@
    }

    /// No task occurs twice, no task has the number zero, and each task has a
    /// value.
    pub closed spec fn wf(&self) -> bool {
        &&& self.keys().no_duplicates()
        &&& !self.keys().contains(0)
        &&& self.values().len() == self.keys().len()
        &&& forall|i: int|
            0 <= i < map_entries(self.positions).len() ==> (#[trigger] map_entries(
                self.positions,
            )[i]).1 == i
    }

    /// The place of a task in the order.
    pub open spec fn place(&self, number: u16) -> int {
        self.keys().index_of(number)
    }

    /// What the map holds for a task.
    pub open spec fn lookup(&self, number: u16) -> Option<V> {
        if self.keys().contains(number) {
            Some(self.values()[self.place(number)])
        } else {
            None
        }
    }

    /// The map, without the order of its tasks.
    pub open spec fn entries(&self) -> Map<u16, V> {
        entries_of(self.keys(), self.values())
    }

    /// The values lie in the order of the keys, and there are at most 65535 of
    /// them.
    pub proof fn lemma_len(&self)
        requires
            self.wf(),
        ensures
            self.keys().no_duplicates(),
            !self.keys().contains(0),
            self.values().len() == self.keys().len(),
            self.keys().len() <= 0xffff,
    {
        lemma_nonzero_numbers(self.keys());
    }

    /// A map without tasks, with room for `capacity` of them.
    pub fn with_capacity(capacity: usize) -> (map: Self)
        requires
            capacity <= 0xffff,
        ensures
            map.wf(),
            map.keys() == Seq::<u16>::empty(),
            map.values() == Seq::<V>::empty(),
    {
        let map = TaskMap { positions: map_with_capacity(capacity), values: Vec::new() };
        assert(map.keys() =~= Seq::<u16>::empty());
        map
    }

    /// A map without tasks.
    pub fn new() -> (map: Self)
        ensures
            map.wf(),
            map.keys() == Seq::<u16>::empty(),
            map.values() == Seq::<V>::empty(),
    {
        TaskMap::with_capacity(0)
    }

    /// The number of tasks in the map.
    pub fn len(&self) -> (len: usize)
        requires
            self.wf(),
        ensures
            len == self.keys().len(),
            len <= 0xffff,
        no_unwind
    {
        proof {
            self.lemma_len();
        }
        self.values.len()
    }

    /// The place of a task in the order, if the task is in the map.
    pub fn position(&self, number: u16) -> (position: Option<usize>)
        requires
            self.wf(),
        ensures
            match position {
                Some(i) => i < self.keys().len() && self.keys()[i as int] == number && self.place(
                    number,
                ) == i,
                None => !self.keys().contains(number),
            },
    {
        let found = map_get(&self.positions, number);
        proof {
            let entries = map_entries(self.positions);
            match found {
                Some(value) => {
                    let i = choose|i: int|
                        0 <= i < entries.len() && #[trigger] entries[i] == (number, value);
                    assert(self.keys()[i] == number);
                },
                None => {
                    assert forall|i: int| 0 <= i < self.keys().len() implies self.keys()[i]
                        != number by {
                        assert(entries[i].0 != number);
                    }
                },
            }
        }
        found
    }

    /// Whether a task is in the map.
    pub fn contains_key(&self, number: u16) -> (found: bool)
        requires
            self.wf(),
        ensures
            found == self.keys().contains(number),
    {
        match self.position(number) {
            Some(i) => {
                assert(self.keys()[i as int] == number);
                true
            },
            None => false,
        }
    }

    /// The number of the task at a place in the order.
    pub fn key_at(&self, position: usize) -> (number: u16)
        requires
            self.wf(),
            position < self.keys().len(),
        ensures
            number == self.keys()[position as int],
            number != 0,
    {
        assert(self.keys().contains(self.keys()[position as int]));
        let entry: Option<(u16, usize)> = map_get_index(&self.positions, position);
        entry.unwrap().0
    }

    /// The value of the task at a place in the order.
    pub fn value_at(&self, position: usize) -> (value: &V)
        requires
            self.wf(),
            position < self.keys().len(),
        ensures
            *value == self.values()[position as int],
    {
        &self.values[position]
    }

    /// The value of a task, if the task is in the map.
    pub fn get(&self, number: u16) -> (value: Option<&V>)
        requires
            self.wf(),
        ensures
            match value {
                Some(value) => self.lookup(number) == Some(*value),
                None => self.lookup(number) is None,
            },
    {
        match self.position(number) {
            Some(i) => {
                assert(self.keys()[i as int] == number);
                Some(&self.values[i])
            },
            None => None,
        }
    }

    /// Exclusive access to the value of the task at a place in the order.
    pub fn value_at_mut(&mut self, position: usize) -> (value: &mut V)
        requires
            old(self).wf(),
            position < old(self).keys().len(),
        ensures
            *value == old(self).values()[position as int],
            final(self).wf(),
            final(self).keys() == old(self).keys(),
            final(self).values() == old(self).values().update(position as int, *final(value)),
            final(self).entries() == old(self).entries().insert(
                old(self).keys()[position as int],
                *final(value),
            ),
    {
        proof {
            lemma_update_entries(self.keys(), self.values(), position as int);
        }
        &mut self.values[position]
    }

    /// Gives a task a value.
    ///
    /// A task that is in the map already keeps its place, and the value that it
    /// had is handed back. Any other task becomes the last one in the order.
    pub fn insert(&mut self, id: TaskId, value: V) -> (previous: Option<V>)
        requires
            old(self).wf(),
        ensures
            final(self).wf(),
            previous == old(self).lookup(id@),
            final(self).entries() == old(self).entries().insert(id@, value),
            old(self).keys().contains(id@) ==> final(self).keys() == old(self).keys()
                && final(self).values() == old(self).values().update(old(self).place(id@), value),
            !old(self).keys().contains(id@) ==> final(self).keys() == old(self).keys().push(id@)
                && final(self).values() == old(self).values().push(value),
    {
        self.insert_number(id.get(), value)
    }

    /// `insert` for a task that is given by its number.
    pub(crate) fn insert_number(&mut self, number: u16, value: V) -> (previous: Option<V>)
        requires
            old(self).wf(),
            number != 0,
        ensures
            final(self).wf(),
            previous == old(self).lookup(number),
            final(self).entries() == old(self).entries().insert(number, value),
            old(self).keys().contains(number) ==> final(self).keys() == old(self).keys()
                && final(self).values() == old(self).values().update(
                old(self).place(number),
                value,
            ),
            !old(self).keys().contains(number) ==> final(self).keys() == old(self).keys().push(
                number,
            ) && final(self).values() == old(self).values().push(value),
    {
        match self.position(number) {
            Some(i) => {
                assert(self.keys()[i as int] == number);
                let mut previous = value;
                std::mem::swap(&mut self.values[i], &mut previous);
                proof {
                    lemma_update_entries(self.keys(), old(self).values(), i as int);
                }
                Some(previous)
            },
            None => {
                let position: usize = self.values.len();
                proof {
                    let entries = map_entries(self.positions);
                    assert forall|i: int| 0 <= i < entries.len() implies (#[trigger] entries[i]).0
                        != number by {
                        assert(self.keys()[i] == entries[i].0);
                    }
                }
                map_insert(&mut self.positions, number, position);
                self.values.push(value);
                assert(self.keys() =~= old(self).keys().push(number));
                proof {
                    lemma_push_entries(old(self).keys(), old(self).values(), number, value);
                }
                None
            },
        }
    }
}

/// The map that two sequences of the same length stand for.
pub open spec fn entries_of<V>(keys: Seq<u16>, values: Seq<V>) -> Map<u16, V> {
    Map::new(|number: u16| keys.contains(number), |number: u16| values[keys.index_of(number)])
}

proof fn lemma_update_entries<V>(keys: Seq<u16>, values: Seq<V>, i: int)
    requires
        keys.no_duplicates(),
        keys.len() == values.len(),
        0 <= i < keys.len(),
    ensures
        forall|value: V| #[trigger]
            entries_of(keys, values.update(i, value)) == entries_of(keys, values).insert(
                keys[i],
                value,
            ),
{
    assert forall|value: V| #[trigger]
        entries_of(keys, values.update(i, value)) == entries_of(keys, values).insert(
            keys[i],
            value,
        ) by {
        assert(entries_of(keys, values.update(i, value)) =~= entries_of(keys, values).insert(
            keys[i],
            value,
        ));
    }
}

proof fn lemma_push_entries<V>(keys: Seq<u16>, values: Seq<V>, number: u16, value: V)
    requires
        keys.no_duplicates(),
        keys.len() == values.len(),
        !keys.contains(number),
    ensures
        entries_of(keys.push(number), values.push(value)) == entries_of(keys, values).insert(
            number,
            value,
        ),
{
    let pushed = keys.push(number);
    assert(pushed[keys.len() as int] == number);
    assert forall|other: u16| keys.contains(other) implies pushed.contains(other)
        && pushed.index_of(other) == keys.index_of(other) by {
        assert(pushed[keys.index_of(other)] == other);
    }
    assert forall|other: u16| pushed.contains(other) implies other == number || keys.contains(
        other,
    ) by {
        let k = choose|k: int| 0 <= k < pushed.len() && pushed[k] == other;
        if k < keys.len() {
            assert(keys[k] == other);
        }
    }
    assert(entries_of(pushed, values.push(value)) =~= entries_of(keys, values).insert(
        number,
        value,
    ));
}

/// Distinct numbers below some bound are at most that many.
pub proof fn lemma_numbers_below(numbers: Seq<u16>, bound: nat)
    requires
        numbers.no_duplicates(),
        forall|i: int| 0 <= i < numbers.len() ==> (#[trigger] numbers[i]) < bound,
    ensures
        numbers.len() <= bound,
{
    let wide = numbers.map_values(|number: u16| number as int);
    assert(wide.no_duplicates());
    wide.unique_seq_to_set();
    let range = vstd::set_lib::set_int_range(0, bound as int);
    vstd::set_lib::lemma_int_range(0, bound as int);
    assert forall|x: int| wide.to_set().contains(x) implies range.contains(x) by {
        let i = choose|i: int| 0 <= i < wide.len() && wide[i] == x;
        assert(numbers[i] < bound);
    }
    vstd::set_lib::lemma_len_subset(wide.to_set(), range);
}

/// Distinct nonzero 16-bit numbers are at most 65535 many.
pub proof fn lemma_nonzero_numbers(numbers: Seq<u16>)
    requires
        numbers.no_duplicates(),
        !numbers.contains(0),
    ensures
        numbers.len() <= 0xffff,
{
    let wide = numbers.map_values(|number: u16| number as int);
    assert(wide.no_duplicates());
    wide.unique_seq_to_set();
    let range = vstd::set_lib::set_int_range(1, 0x1_0000);
    vstd::set_lib::lemma_int_range(1, 0x1_0000);
    assert forall|x: int| wide.to_set().contains(x) implies range.contains(x) by {
        let i = choose|i: int| 0 <= i < wide.len() && wide[i] == x;
        assert(numbers.contains(numbers[i]));
    }
    vstd::set_lib::lemma_len_subset(wide.to_set(), range);
}

} // verus!
