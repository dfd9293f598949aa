//! Positional navigation: a handle bound to one buffer position of a reverse
//! index, and lazy forward and backward walks from it over buffer-adjacent
//! items. Reaching either end of the buffer ends the walk; it is never an
//! error.

use vstd::prelude::*;
use crate::reverse_index::ReverseIndex;

verus! {

/// Marker for a forward walk.
pub struct Forwards;

/// Marker for a backward walk.
pub struct Backwards;

/// A lazy walk over the buffer of a reverse index, one item per `next`
/// call, in the direction `U`. It borrows the index and never outlives it.
pub struct RiIter<'a, U> {
    starting_index: usize,
    reverse_index: &'a ReverseIndex,
    offset: usize,
    direction: U,
}

impl<'a, U> RiIter<'a, U> {
    /// The index being walked.
    pub closed spec fn target(self) -> ReverseIndex {
        *self.reverse_index
    }

    /// The position the walk started from.
    pub closed spec fn start(self) -> int {
        self.starting_index as int
    }

    /// How many steps the walk has moved from its start, the pending one
    /// included.
    pub closed spec fn offset(self) -> int {
        self.offset as int
    }
}

impl<'a> RiIter<'a, Forwards> {
    /// The position the next call of `next` reads.
    pub open spec fn pos(self) -> int {
        self.start() + self.offset()
    }

    /// The walk reads valid state and never leaves the buffer.
    pub open spec fn wf(self) -> bool {
        &&& self.target().wf()
        &&& 0 <= self.start() < self.target().buffer@.len()
        &&& 1 <= self.offset()
        &&& self.pos() <= self.target().buffer@.len()
    }

    /// The item one further toward the end of the buffer, or nothing once
    /// the walk has passed the last position.
    pub fn next(&mut self) -> (r: Option<&'a String>)
        requires
            old(self).wf(),
        ensures
            final(self).wf(),
            final(self).target() == old(self).target(),
            final(self).start() == old(self).start(),
            old(self).pos() < old(self).target().buffer@.len() ==> {
                &&& final(self).pos() == old(self).pos() + 1
                &&& (r matches Some(item) && item@ == old(self).target().texts()[old(
                    self,
                ).pos()])
            },
            old(self).pos() == old(self).target().buffer@.len() ==> {
                &&& r is None
                &&& final(self).pos() == old(self).pos()
            },
    {
        let ri: &'a ReverseIndex = self.reverse_index;
        let len = ri.buffer.len();
        let index = self.starting_index + self.offset;
        if index >= len {
            None
        } else {
            let item = &ri.buffer[index];
            self.offset = self.offset + 1;
            Some(item)
        }
    }
}

impl<'a> RiIter<'a, Backwards> {
    /// The position the next call of `next` reads; negative once the walk
    /// has passed position 0.
    pub open spec fn pos(self) -> int {
        self.start() - self.offset()
    }

    /// The walk reads valid state and never runs more than one step past
    /// position 0.
    pub open spec fn wf(self) -> bool {
        &&& self.target().wf()
        &&& 0 <= self.start() < self.target().buffer@.len()
        &&& 1 <= self.offset()
        &&& self.pos() >= -1
    }

    /// The item one further toward the start of the buffer, or nothing once
    /// the walk has passed position 0.
    pub fn next(&mut self) -> (r: Option<&'a String>)
        requires
            old(self).wf(),
        ensures
            final(self).wf(),
            final(self).target() == old(self).target(),
            final(self).start() == old(self).start(),
            old(self).pos() >= 0 ==> {
                &&& final(self).pos() == old(self).pos() - 1
                &&& (r matches Some(item) && item@ == old(self).target().texts()[old(
                    self,
                ).pos()])
            },
            old(self).pos() < 0 ==> {
                &&& r is None
                &&& final(self).pos() == old(self).pos()
            },
    {
        let ri: &'a ReverseIndex = self.reverse_index;
        let len = ri.buffer.len();
        assert(self.starting_index < len);
        if self.offset > self.starting_index {
            None
        } else {
            let index = self.starting_index - self.offset;
            let item = &ri.buffer[index];
            self.offset = self.offset + 1;
            Some(item)
        }
    }
}

/// A handle to one matched buffer position of a reverse index, produced as a
/// search result. It borrows the index, owns nothing of it, and serves to
/// read the matched item and to walk to buffer-adjacent items without a new
/// search.
pub struct RiIndex<'a> {
    index: usize,
    reverse_index: &'a ReverseIndex,
}

impl<'a> RiIndex<'a> {
    /// The index this handle points into.
    pub closed spec fn target(self) -> ReverseIndex {
        *self.reverse_index
    }

    /// The buffer position this handle is bound to.
    pub closed spec fn position(self) -> int {
        self.index as int
    }

    /// The handle points at a valid position of a well-formed index.
    pub open spec fn wf(self) -> bool {
        &&& self.target().wf()
        &&& 0 <= self.position() < self.target().buffer@.len()
    }

    pub(crate) fn new(index: usize, reverse_index: &'a ReverseIndex) -> (r: RiIndex<'a>)
        requires
            reverse_index.wf(),
            index < reverse_index.buffer@.len(),
        ensures
            r.wf(),
            r.position() == index,
            r.target() == *reverse_index,
    {
        RiIndex { index, reverse_index }
    }

    /// The item at the bound position.
    pub fn current(&self) -> (r: &'a String)
        requires
            self.wf(),
        ensures
            r@ == self.target().texts()[self.position()],
    {
        let ri: &'a ReverseIndex = self.reverse_index;
        &ri.buffer[self.index]
    }

    /// A walk toward the end of the buffer, starting one past the bound
    /// position. On the last position it yields nothing.
    pub fn forwards(&self) -> (it: RiIter<'a, Forwards>)
        requires
            self.wf(),
        ensures
            it.wf(),
            it.target() == self.target(),
            it.pos() == self.position() + 1,
    {
        RiIter {
            starting_index: self.index,
            reverse_index: self.reverse_index,
            offset: 1,
            direction: Forwards,
        }
    }

    /// A walk toward the start of the buffer, starting one before the bound
    /// position. On position 0 it yields nothing.
    pub fn backwards(&self) -> (it: RiIter<'a, Backwards>)
        requires
            self.wf(),
        ensures
            it.wf(),
            it.target() == self.target(),
            it.pos() == self.position() - 1,
    {
        RiIter {
            starting_index: self.index,
            reverse_index: self.reverse_index,
            offset: 1,
            direction: Backwards,
        }
    }
}

} // verus!
