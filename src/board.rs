//! The blackboard: a bounded, ordered pool of hints shared by the searchers of one trial.
use crate::hint::Hint;
use vstd::prelude::*;

verus! {

/// The abstract content of a blackboard.
pub struct BoardView {
    pub entries: Seq<Hint>,
    pub capacity: nat,
}

impl BoardView {
    /// The board holds no more hints than its capacity.
    pub open spec fn wf(self) -> bool {
        self.entries.len() <= self.capacity
    }

    /// The board is at capacity.
    pub open spec fn is_full(self) -> bool {
        self.entries.len() >= self.capacity
    }
}

/// A pool of at most `capacity` hints, in the order they were written.
#[derive(Debug)]
pub struct Blackboard {
    entries: Vec<Hint>,
    capacity: usize,
}

impl View for Blackboard {
    type V = BoardView;

    closed spec fn view(&self) -> BoardView {
        BoardView { entries: self.entries@, capacity: self.capacity as nat }
    }
}

impl Blackboard {
    /// An empty board that can hold `capacity` hints.
    pub fn new(capacity: usize) -> (r: Blackboard)
        ensures
            r@.wf(),
            r@.entries.len() == 0,
            r@.capacity == capacity,
    {
        Blackboard { entries: Vec::new(), capacity }
    }

    /// A board that holds `entries` and can hold `capacity` hints.
    pub fn with_entries(entries: Vec<Hint>, capacity: usize) -> (r: Blackboard)
        requires
            entries@.len() <= capacity,
        ensures
            r@.wf(),
            r@.entries == entries@,
            r@.capacity == capacity,
    {
        Blackboard { entries, capacity }
    }

    /// The hints on the board, oldest first.
    pub fn entries(&self) -> (r: &Vec<Hint>)
        ensures
            r@ == self@.entries,
    {
        &self.entries
    }

    /// The number of hints on the board.
    pub fn len(&self) -> (r: usize)
        ensures
            r == self@.entries.len(),
    {
        self.entries.len()
    }

    /// Whether the board holds no hint.
    pub fn is_empty(&self) -> (r: bool)
        ensures
            r == (self@.entries.len() == 0),
    {
        self.entries.len() == 0
    }

    /// The most hints the board can hold.
    pub fn capacity(&self) -> (r: usize)
        ensures
            r == self@.capacity,
    {
        self.capacity
    }

    /// Whether the board is at capacity.
    pub fn is_full(&self) -> (r: bool)
        ensures
            r == self@.is_full(),
    {
        self.entries.len() >= self.capacity
    }

    /// Adds `h` after the other hints of a board that is not full.
    pub fn append(&mut self, h: Hint)
        requires
            !old(self)@.is_full(),
        ensures
            final(self)@.wf(),
            final(self)@.entries == old(self)@.entries.push(h),
            final(self)@.capacity == old(self)@.capacity,
    {
        self.entries.push(h);
    }

    /// Removes the hint in `slot` and adds `h` after the others.
    pub fn replace_slot(&mut self, slot: usize, h: Hint)
        requires
            old(self)@.wf(),
            slot < old(self)@.entries.len(),
        ensures
            final(self)@.wf(),
            final(self)@.entries == old(self)@.entries.remove(slot as int).push(h),
            final(self)@.capacity == old(self)@.capacity,
    {
        self.entries.remove(slot);
        self.entries.push(h);
    }
}

} // verus!
