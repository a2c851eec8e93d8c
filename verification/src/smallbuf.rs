//! Byte and length buffers backed by `smallvec`, so that per-message
//! data lives inline up to the expected sizes and only spills to the
//! heap past them. Verus cannot digest `smallvec`'s `Array` bound, so
//! each buffer is a struct with a hidden field; a name gives its
//! contents as a sequence, and small trusted wrappers state what each
//! `smallvec` call does to that sequence, as `smallvec`'s source shows:
//! `push` appends, `len` is the length, indexing reads or replaces one
//! element, `from_elem` repeats one.

use vstd::prelude::*;

verus! {

/// The units of one message, inline up to a typical message length.
#[verifier::external_body]
pub struct UnitBuf {
    inner: smallvec::SmallVec<[u8; 143]>,
}

/// The bytes a `UnitBuf` holds, in order.
pub uninterp spec fn unit_buf(v: UnitBuf) -> Seq<u8>;

impl UnitBuf {
    /// Relies on `smallvec::SmallVec::new`: the new vector is empty.
    #[verifier::external_body]
    pub fn new() -> (r: UnitBuf)
        ensures
            unit_buf(r) == Seq::<u8>::empty(),
    {
        UnitBuf { inner: smallvec::SmallVec::new() }
    }

    /// Relies on `smallvec::SmallVec::push`: appends one element.
    #[verifier::external_body]
    pub fn push(&mut self, b: u8)
        requires
            unit_buf(*old(self)).len() < usize::MAX,
        ensures
            unit_buf(*final(self)) == unit_buf(*old(self)).push(b),
    {
        self.inner.push(b);
    }

    /// Relies on `smallvec::SmallVec::len`: the number of elements.
    #[verifier::external_body]
    pub fn len(&self) -> (r: usize)
        ensures
            r == unit_buf(*self).len(),
    {
        self.inner.len()
    }

    /// Relies on `smallvec`'s `Index` impl: reads the element at `i`.
    #[verifier::external_body]
    pub fn get(&self, i: usize) -> (r: u8)
        requires
            i < unit_buf(*self).len(),
        ensures
            r == unit_buf(*self)[i as int],
    {
        self.inner[i]
    }
}

impl Clone for UnitBuf {
    /// Relies on `smallvec`'s `Clone` impl: the copy holds the same
    /// bytes.
    #[verifier::external_body]
    fn clone(&self) -> (r: UnitBuf)
        ensures
            unit_buf(r) == unit_buf(*self),
    {
        UnitBuf { inner: self.inner.clone() }
    }
}

/// The interleaved cells of all messages, inline up to the expected
/// total size.
#[verifier::external_body]
pub struct CellBuf {
    inner: smallvec::SmallVec<[u8; 1239]>,
}

/// The bytes a `CellBuf` holds, in order.
pub uninterp spec fn cell_buf(v: CellBuf) -> Seq<u8>;

impl CellBuf {
    /// Relies on `smallvec::SmallVec::from_elem`: `n` copies of `b`.
    #[verifier::external_body]
    pub fn filled(b: u8, n: usize) -> (r: CellBuf)
        ensures
            cell_buf(r) == Seq::<u8>::new(n as nat, |i: int| b),
    {
        CellBuf { inner: smallvec::SmallVec::from_elem(b, n) }
    }

    /// Relies on `smallvec::SmallVec::len`: the number of elements.
    #[verifier::external_body]
    pub fn len(&self) -> (r: usize)
        ensures
            r == cell_buf(*self).len(),
    {
        self.inner.len()
    }

    /// Relies on `smallvec`'s `Index` impl: reads the element at `i`.
    #[verifier::external_body]
    pub fn get(&self, i: usize) -> (r: u8)
        requires
            i < cell_buf(*self).len(),
        ensures
            r == cell_buf(*self)[i as int],
    {
        self.inner[i]
    }

    /// Relies on `smallvec`'s `IndexMut` impl: replaces the element at
    /// `i`.
    #[verifier::external_body]
    pub fn set(&mut self, i: usize, b: u8)
        requires
            i < cell_buf(*old(self)).len(),
        ensures
            cell_buf(*final(self)) == cell_buf(*old(self)).update(i as int, b),
    {
        self.inner[i] = b;
    }
}

/// The unit counts of all messages, inline up to the expected count.
#[verifier::external_body]
pub struct CountBuf {
    inner: smallvec::SmallVec<[usize; 9]>,
}

/// The values a `CountBuf` holds, in order.
pub uninterp spec fn count_buf(v: CountBuf) -> Seq<usize>;

impl CountBuf {
    /// Relies on `smallvec::SmallVec::new`: the new vector is empty.
    #[verifier::external_body]
    pub fn new() -> (r: CountBuf)
        ensures
            count_buf(r) == Seq::<usize>::empty(),
    {
        CountBuf { inner: smallvec::SmallVec::new() }
    }

    /// Relies on `smallvec::SmallVec::push`: appends one element.
    #[verifier::external_body]
    pub fn push(&mut self, c: usize)
        requires
            count_buf(*old(self)).len() < usize::MAX,
        ensures
            count_buf(*final(self)) == count_buf(*old(self)).push(c),
    {
        self.inner.push(c);
    }

    /// Relies on `smallvec::SmallVec::len`: the number of elements.
    #[verifier::external_body]
    pub fn len(&self) -> (r: usize)
        ensures
            r == count_buf(*self).len(),
    {
        self.inner.len()
    }

    /// Relies on `smallvec`'s `Index` impl: reads the element at `i`.
    #[verifier::external_body]
    pub fn get(&self, i: usize) -> (r: usize)
        requires
            i < count_buf(*self).len(),
        ensures
            r == count_buf(*self)[i as int],
    {
        self.inner[i]
    }
}

} // verus!
