//! An ordered, fixed-membership container for one constraint unit.

use vstd::prelude::*;

use crate::position::Position;

verus! {

/// The elements of one constraint unit (a row's cells, a column's cells,
/// or a box's cells), as an owned, order-preserving snapshot.
///
/// A `Group` is built once from a slice and immutable afterwards: it is a
/// copy, not a live view, so later grid mutations never change it.
#[derive(Clone, PartialEq, Eq, Debug)]
pub struct Group<T> {
    elements: Vec<T>,
}

impl<T> View for Group<T> {
    type V = Seq<T>;

    closed spec fn view(&self) -> Seq<T> {
        self.elements@
    }
}

impl<T: Copy> Group<T> {
    /// Creates a Group containing exactly the elements of `elems`, in order.
    pub fn from(elems: &[T]) -> (g: Group<T>)
        ensures
            g@ == elems@,
    {
        let mut elements: Vec<T> = Vec::new();
        let mut i: usize = 0;
        while i < elems.len()
            invariant
                i <= elems@.len(),
                elements@ == elems@.take(i as int),
            decreases elems@.len() - i,
        {
            elements.push(elems[i]);
            proof {
                assert(elems@.take(i + 1) =~= elems@.take(i as int).push(elems@[i as int]));
            }
            i += 1;
        }
        proof {
            assert(elems@.take(elems@.len() as int) =~= elems@);
        }
        Group { elements }
    }
}

impl<T> Group<T> {
    /// The number of elements in the group.
    pub fn len(&self) -> (n: usize)
        ensures
            n == self@.len(),
    {
        self.elements.len()
    }

    /// The element at index `i`, in construction order.
    pub fn get(&self, i: usize) -> (x: &T)
        requires
            i < self@.len(),
        ensures
            *x == self@[i as int],
    {
        &self.elements[i]
    }

    /// A fresh traversal of the group's elements from the start.
    pub fn iter<'a>(&'a self) -> (it: GroupIter<'a, T>)
        ensures
            it@ == self@,
    {
        GroupIter::new(self)
    }
}

/// Value equality that verified code can rely on: `same` returns exactly
/// whether the two values are equal. Implemented for the element types
/// groups are built over (symbols and positions).
pub trait ValueEq: Sized {
    fn same(&self, other: &Self) -> (r: bool)
        ensures
            r == (self == other),
    ;
}

impl ValueEq for char {
    fn same(&self, other: &char) -> (r: bool)
        ensures
            r == (self == other),
    {
        *self == *other
    }
}

impl ValueEq for Position {
    fn same(&self, other: &Position) -> (r: bool)
        ensures
            r == (self == other),
    {
        *self == *other
    }
}

impl<T: ValueEq> Group<T> {
    /// Returns whether the Group contains a given element.
    pub fn contains(&self, elem: T) -> (r: bool)
        ensures
            r == self@.contains(elem),
    {
        let mut i: usize = 0;
        while i < self.elements.len()
            invariant
                i <= self@.len(),
                forall|j: int| 0 <= j < i ==> self@[j] != elem,
            decreases self@.len() - i,
        {
            if self.elements[i].same(&elem) {
                assert(self@[i as int] == elem);
                return true;
            }
            i += 1;
        }
        false
    }
}

/// A traversal over a [`Group`]'s elements, yielding them in
/// construction order. Its view is the sequence of elements not yet
/// yielded.
pub struct GroupIter<'a, T> {
    group: &'a Group<T>,
    cursor: usize,
}

impl<'a, T> View for GroupIter<'a, T> {
    type V = Seq<T>;

    closed spec fn view(&self) -> Seq<T> {
        if self.cursor <= self.group@.len() {
            self.group@.skip(self.cursor as int)
        } else {
            Seq::empty()
        }
    }
}

impl<'a, T> GroupIter<'a, T> {
    fn new(group: &'a Group<T>) -> (it: GroupIter<'a, T>)
        ensures
            it@ == group@,
    {
        GroupIter { group, cursor: 0 }
    }

    /// Yields the next element not yet traversed, or `None` once every
    /// element has been yielded.
    pub fn next(&mut self) -> (r: Option<&'a T>)
        ensures
            old(self)@.len() > 0 ==> {
                &&& r matches Some(x) && *x == old(self)@[0]
                &&& final(self)@ == old(self)@.skip(1)
            },
            old(self)@.len() == 0 ==> r is None && final(self)@ == old(self)@,
    {
        if self.cursor < self.group.elements.len() {
            let x = &self.group.elements[self.cursor];
            proof {
                assert(self.group@.skip(self.cursor as int)[0] == self.group@[self.cursor as int]);
                assert(self.group@.skip(self.cursor as int + 1) =~= self.group@.skip(
                    self.cursor as int,
                ).skip(1));
            }
            self.cursor += 1;
            Some(x)
        } else {
            None
        }
    }
}

/// Law: membership in a group built by `Group::from` is exactly
/// membership in the slice it was built from; in particular a group
/// built from an empty slice contains nothing.
pub proof fn lemma_from_contains<T>(g: &Group<T>, elems: Seq<T>, x: T)
    requires
        g@ == elems,
    ensures
        g@.contains(x) <==> elems.contains(x),
        elems.len() == 0 ==> !g@.contains(x),
{
}

/// Law: `iter` is restartable. Any two traversals started on the same
/// group have the same elements left to yield, so running each to the
/// end yields identical sequences.
pub proof fn lemma_iter_restartable<T>(g: &Group<T>, it1: &GroupIter<T>, it2: &GroupIter<T>)
    requires
        it1@ == g@,
        it2@ == g@,
    ensures
        it1@ == it2@,
{
}

} // verus!
