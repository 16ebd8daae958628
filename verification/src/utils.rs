//! Ranges that can be cut in half, and collections with room for what they will hold.

use core::ops::Range;
use std::collections::{HashMap, HashSet, VecDeque};
use vstd::prelude::*;

verus! {

/// Ranges that can be cut in two.
pub trait RangeSplitAtHalf {
    /// Where the range starts.
    spec fn low(&self) -> int;

    /// Where the range ends.
    spec fn high(&self) -> int;

    /// Cuts the range into two adjacent ones of which the second is as long as the
    /// first, or longer by one.
    fn split_at_half(&self) -> (halves: (Range<usize>, Range<usize>))
        requires
            self.low() <= self.high(),
        ensures
            halves.0.start == self.low(),
            halves.0.end == halves.1.start,
            halves.1.end == self.high(),
            halves.0.end == self.low() + (self.high() - self.low()) / 2,
    ;
}

impl RangeSplitAtHalf for Range<usize> {
    open spec fn low(&self) -> int {
        self.start as int
    }

    open spec fn high(&self) -> int {
        self.end as int
    }

    fn split_at_half(&self) -> (halves: (Range<usize>, Range<usize>)) {
        let len: usize = self.end - self.start;
        let mid: usize = len / 2;
        let mid_abs: usize = self.start + mid;
        (self.start..mid_abs, mid_abs..self.end)
    }
}

/// An empty vector with room for as many elements as a graph can have tasks, or fewer.
/// Room beyond the address space cannot be had: asking for it panics.
pub fn vec_with_room<T>(room: usize) -> (vec: Vec<T>)
    requires
        room <= 0xffff,
    ensures
        vec@ == Seq::<T>::empty(),
{
    Vec::with_capacity(room)
}

/// An empty queue with room for as many elements as a graph can have tasks, or fewer.
pub fn queue_with_room<T>(room: usize) -> (queue: VecDeque<T>)
    requires
        room <= 0xffff,
    ensures
        queue@ == Seq::<T>::empty(),
{
    VecDeque::with_capacity(room)
}

/// An empty set with room for as many tasks as a graph can have, or fewer.
pub fn set_with_room(room: usize) -> (set: HashSet<u16>)
    requires
        room <= 0xffff,
    ensures
        set@ == Set::<u16>::empty(),
{
    HashSet::with_capacity(room)
}

/// An empty map with room for as many tasks as a graph can have, or fewer.
pub fn map_with_room(room: usize) -> (map: HashMap<u16, u16>)
    requires
        room <= 0xffff,
    ensures
        map@ == Map::<u16, u16>::empty(),
{
    HashMap::with_capacity(room)
}

} // verus!
