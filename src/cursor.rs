//! Forward and reverse cursors over a list. A cursor holds only its
//! position and reads the list it is handed at each step, so it observes
//! whatever the list holds at that moment.
use crate::list::PyList;
use vstd::prelude::*;

verus! {

/// Forward cursor: starts at the front, reads then advances.
#[derive(Clone, Copy, Debug, PartialEq, Eq, Structural)]
pub struct PyListIterator {
    pub position: usize,
}

/// Reverse cursor: starts at the length, steps back then reads.
#[derive(Clone, Copy, Debug, PartialEq, Eq, Structural)]
pub struct PyListReverseIterator {
    pub position: usize,
}

impl<T: Copy> PyList<T> {
    /// A forward cursor at the front.
    pub fn iter(&self) -> (r: PyListIterator)
        ensures
            r.position == 0,
    {
        PyListIterator { position: 0 }
    }

    /// A reverse cursor at the current length.
    pub fn reversed(&self) -> (r: PyListReverseIterator)
        ensures
            r.position == self@.len(),
    {
        PyListReverseIterator { position: self.len() }
    }
}

impl PyListIterator {
    /// The cursor itself.
    pub fn iter(self) -> (r: Self)
        ensures
            r == self,
    {
        self
    }

    /// The element at the position, if the list still reaches it; the
    /// position then advances.
    pub fn next<T: Copy>(&mut self, list: &PyList<T>) -> (r: Option<T>)
        ensures
            old(self).position < list@.len() ==> r == Some(list@[old(self).position as int])
                && final(self).position == old(self).position + 1,
            old(self).position >= list@.len() ==> r is None && final(self).position == old(
                self,
            ).position,
    {
        let pos = self.position;
        if pos < list.len() {
            let x = list.borrow_elements()[pos];
            self.position = pos + 1;
            Some(x)
        } else {
            None
        }
    }

    /// How many elements remain before the cursor is exhausted.
    pub fn length_hint<T: Copy>(&self, list: &PyList<T>) -> (r: usize)
        ensures
            r == if self.position < list@.len() { list@.len() - self.position } else { 0 },
    {
        let len = list.len();
        if self.position < len {
            len - self.position
        } else {
            0
        }
    }
}

impl PyListReverseIterator {
    /// The cursor itself.
    pub fn iter(self) -> (r: Self)
        ensures
            r == self,
    {
        self
    }

    /// Steps back and reads, while the position is above zero and the list
    /// still reaches it.
    pub fn next<T: Copy>(&mut self, list: &PyList<T>) -> (r: Option<T>)
        ensures
            0 < old(self).position <= list@.len() ==> r == Some(
                list@[old(self).position - 1],
            ) && final(self).position == old(self).position - 1,
            !(0 < old(self).position <= list@.len()) ==> r is None && final(self).position
                == old(self).position,
    {
        let pos = self.position;
        if pos > 0 && pos <= list.len() {
            let x = list.borrow_elements()[pos - 1];
            self.position = pos - 1;
            Some(x)
        } else {
            None
        }
    }

    /// How many elements remain: the position itself.
    pub fn length_hint(&self) -> (r: usize)
        ensures
            r == self.position,
    {
        self.position
    }
}

} // verus!
