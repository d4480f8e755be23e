//! The search-path buffer.
//!
//! Root-to-leaf paths are short (the depth bound keeps them logarithmic), so
//! they are buffered in a `smallvec::SmallVec` that stays on the stack for
//! typical depths and spills to the heap only beyond that. Verus cannot read
//! `SmallVec` (its `Array` trait parameter cannot be declared), so the
//! buffer is held in an opaque struct and its contents are named by
//! `stack_seq`; each wrapper below states over that name what the
//! corresponding `SmallVec` method does.

use vstd::prelude::*;

verus! {

/// A last-in-first-out buffer of slot indices, stored inline up to a fixed
/// depth and on the heap beyond it.
#[verifier::external_body]
pub struct IdxStack {
    buf: smallvec::SmallVec<[usize; 32]>,
}

/// The sequence of indices an `IdxStack` holds, oldest first.
pub uninterp spec fn stack_seq(s: IdxStack) -> Seq<usize>;

impl IdxStack {
    /// Relies on smallvec::SmallVec::new: constructs an empty vector.
    #[verifier::external_body]
    pub fn new() -> (r: Self)
        ensures
            stack_seq(r) == Seq::<usize>::empty(),
    {
        IdxStack { buf: smallvec::SmallVec::new() }
    }

    /// Relies on smallvec::SmallVec::push: appends one element at the end,
    /// spilling to the heap when the inline capacity is exhausted.
    #[verifier::external_body]
    pub fn push(&mut self, idx: usize)
        ensures
            stack_seq(*final(self)) == stack_seq(*old(self)).push(idx),
    {
        self.buf.push(idx)
    }

    /// Relies on smallvec::SmallVec::len: the number of elements held.
    #[verifier::external_body]
    pub fn len(&self) -> (r: usize)
        ensures
            r == stack_seq(*self).len(),
    {
        self.buf.len()
    }

    /// Relies on smallvec's `Index` impl (slice indexing): the `i`th element,
    /// oldest first.
    #[verifier::external_body]
    pub fn get(&self, i: usize) -> (r: usize)
        requires
            i < stack_seq(*self).len(),
        ensures
            r == stack_seq(*self)[i as int],
    {
        self.buf[i]
    }
}

} // verus!
