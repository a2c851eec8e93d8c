//! A vector with a statically bounded length. The bound is part of the
//! type, so a value can always be stored in a fixed-size slot; `push`
//! demands that there is room instead of growing past the bound.

use vstd::prelude::*;

verus! {

pub struct StackVec<T, const MAX_LEN: usize> {
    data: Vec<T>,
}

impl<T, const MAX_LEN: usize> StackVec<T, MAX_LEN> {
    /// The elements currently stored, as a sequence.
    pub closed spec fn view(&self) -> Seq<T> {
        self.data@
    }

    pub fn new() -> (r: Self)
        ensures
            r.view() == Seq::<T>::empty(),
    {
        StackVec { data: Vec::new() }
    }

    pub fn len(&self) -> (r: usize)
        ensures
            r == self.view().len(),
    {
        self.data.len()
    }

    pub fn push(&mut self, val: T)
        requires
            old(self).view().len() < MAX_LEN,
        ensures
            final(self).view() == old(self).view().push(val),
    {
        self.data.push(val);
    }

    pub fn pop(&mut self) -> (r: T)
        requires
            old(self).view().len() > 0,
        ensures
            r == old(self).view().last(),
            final(self).view() == old(self).view().drop_last(),
    {
        self.data.pop().unwrap()
    }

    pub fn get(&self, idx: usize) -> (r: &T)
        requires
            idx < self.view().len(),
        ensures
            *r == self.view()[idx as int],
    {
        &self.data[idx]
    }

    /// Replace the element at `idx`, in place.
    pub fn set(&mut self, idx: usize, val: T)
        requires
            idx < old(self).view().len(),
        ensures
            final(self).view() == old(self).view().update(idx as int, val),
    {
        self.data.set(idx, val);
    }

    pub fn iter(&self) -> (r: StackVecIter<'_, T, MAX_LEN>)
        ensures
            r.vec() == self,
            r.head() == 0,
            r.tail() == self.view().len(),
    {
        StackVecIter { vec: self, head: 0, tail: self.data.len() }
    }
}

impl<T: Clone, const MAX_LEN: usize> StackVec<T, MAX_LEN> {
    /// Grow to `new_len` elements by appending clones of `fill`, or
    /// shrink to it by dropping elements from the end.
    pub fn resize(&mut self, new_len: usize, fill: T)
        requires
            new_len <= MAX_LEN,
            call_ensures_clone_identity::<T>(),
        ensures
            final(self).view().len() == new_len,
            forall|i: int|
                0 <= i < new_len ==> final(self).view()[i] == (if i
                    < old(self).view().len() {
                    old(self).view()[i]
                } else {
                    fill
                }),
    {
        self.data.resize(new_len, fill);
    }
}

/// Whether `T::clone` is known to return a value equal to its argument.
/// Holds for `Copy` data cloned member-wise; demanded where a caller
/// needs the clones to carry the original elements.
pub open spec fn call_ensures_clone_identity<T: Clone>() -> bool {
    forall|x: T, r: T| vstd::pervasive::cloned::<T>(x, r) ==> r == x
}

pub struct StackVecIter<'a, T, const MAX_LEN: usize> {
    vec: &'a StackVec<T, MAX_LEN>,
    head: usize,
    tail: usize,
}

impl<'a, T, const MAX_LEN: usize> StackVecIter<'a, T, MAX_LEN> {
    pub closed spec fn vec(&self) -> &'a StackVec<T, MAX_LEN> {
        self.vec
    }

    pub closed spec fn head(&self) -> int {
        self.head as int
    }

    pub closed spec fn tail(&self) -> int {
        self.tail as int
    }

    /// Positions already handed out never pass the cursor bounds.
    pub open spec fn wf(&self) -> bool {
        0 <= self.head() && self.tail() <= self.vec().view().len()
    }

    /// The next element from the front, if the cursors have not met.
    pub fn next(&mut self) -> (r: Option<&'a T>)
        requires
            old(self).wf(),
        ensures
            final(self).vec() == old(self).vec(),
            final(self).tail() == old(self).tail(),
            old(self).head() < old(self).tail() ==> {
                &&& final(self).head() == old(self).head() + 1
                &&& r == Some(&old(self).vec().view()[old(self).head()])
            },
            old(self).head() >= old(self).tail() ==> {
                &&& final(self).head() == old(self).head()
                &&& r is None
            },
    {
        if self.head < self.tail {
            let item = self.vec.get(self.head);
            self.head = self.head + 1;
            Some(item)
        } else {
            None
        }
    }

    /// The next element from the back, if the cursors have not met.
    pub fn next_back(&mut self) -> (r: Option<&'a T>)
        requires
            old(self).wf(),
        ensures
            final(self).vec() == old(self).vec(),
            final(self).head() == old(self).head(),
            old(self).head() < old(self).tail() ==> {
                &&& final(self).tail() == old(self).tail() - 1
                &&& r == Some(&old(self).vec().view()[old(self).tail() - 1])
            },
            old(self).head() >= old(self).tail() ==> {
                &&& final(self).tail() == old(self).tail()
                &&& r is None
            },
    {
        if self.head < self.tail {
            self.tail = self.tail - 1;
            Some(self.vec.get(self.tail))
        } else {
            None
        }
    }
}

} // verus!
