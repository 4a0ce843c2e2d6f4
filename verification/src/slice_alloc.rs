//! An append-only allocator over a fixed-capacity buffer. Slots are handed out
//! in order, one reservation per slot, and are read and written only through
//! their reservation.

use vstd::prelude::*;

verus! {

/// Why a reservation could not be made.
#[derive(Debug, Clone, Copy, PartialEq, Eq)]
pub enum AllocError {
    /// Every slot of the buffer has been handed out already.
    CapacityExceeded,
}

impl AllocError {
    /// A short description of the error.
    pub fn message(&self) -> (s: String)
        ensures
            s@ == "arena capacity exceeded"@,
    {
        "arena capacity exceeded".to_owned()
    }
}

/// A reservation for one slot of a [`SliceAlloc`]. It is neither `Copy` nor
/// `Clone`: whoever holds it is the one writer of that slot.
#[derive(Debug)]
pub struct Reserve {
    ix: usize,
}

impl Reserve {
    /// The index of the reserved slot.
    pub closed spec fn slot(&self) -> nat {
        self.ix as nat
    }

    /// The index of the reserved slot, without giving the reservation up.
    pub fn index(&self) -> (ix: usize)
        ensures
            ix == self.slot(),
    {
        self.ix
    }

    /// Gives the reservation up for the index of its slot.
    pub fn into(self) -> (ix: usize)
        ensures
            ix == self.slot(),
    {
        self.ix
    }
}

/// Hands out the slots of a buffer one after the other.
pub struct SliceAlloc<T> {
    inner: Vec<T>,
    alloced: usize,
}

impl<T> SliceAlloc<T> {
    #[verifier::type_invariant]
    spec fn inv(self) -> bool {
        self.alloced <= self.inner@.len()
    }

    /// The whole buffer, reserved or not.
    pub closed spec fn view(&self) -> Seq<T> {
        self.inner@
    }

    /// How many slots have been handed out.
    pub closed spec fn used(&self) -> nat {
        self.alloced as nat
    }

    /// How many slots the buffer has.
    pub open spec fn capacity(&self) -> nat {
        self@.len()
    }

    /// The slots handed out so far, in order.
    pub open spec fn filled(&self) -> Seq<T> {
        self@.take(self.used() as int)
    }

    /// Takes a buffer over; none of its slots is reserved yet.
    pub fn wrap(inner: Vec<T>) -> (arena: SliceAlloc<T>)
        ensures
            arena@ == inner@,
            arena.used() == 0,
    {
        SliceAlloc { inner, alloced: 0 }
    }

    /// Reserves the next free slot. Fails, changing nothing, when all slots
    /// are taken.
    pub fn reserve(&mut self) -> (res: Result<Reserve, AllocError>)
        ensures
            final(self)@ == old(self)@,
            old(self).used() < old(self).capacity() ==> res is Ok && res->Ok_0.slot() == old(
                self,
            ).used() && final(self).used() == old(self).used() + 1,
            old(self).used() >= old(self).capacity() ==> res == Err::<Reserve, AllocError>(
                AllocError::CapacityExceeded,
            ) && final(self).used() == old(self).used(),
    {
        proof {
            use_type_invariant(&*self);
        }
        if self.alloced < self.inner.len() {
            let ix = self.alloced;
            self.alloced = ix + 1;
            Ok(Reserve { ix })
        } else {
            Err(AllocError::CapacityExceeded)
        }
    }

    /// Stores `value` in the reserved slot.
    pub fn write(&mut self, at: &Reserve, value: T)
        requires
            at.slot() < old(self).used(),
        ensures
            final(self)@ == old(self)@.update(at.slot() as int, value),
            final(self).used() == old(self).used(),
    {
        proof {
            use_type_invariant(&*self);
        }
        self.inner[at.ix] = value;
    }

    /// The value in the reserved slot.
    pub fn read(&self, at: &Reserve) -> (value: &T)
        requires
            at.slot() < self.used(),
        ensures
            *value == self@[at.slot() as int],
    {
        proof {
            use_type_invariant(self);
        }
        &self.inner[at.ix]
    }

    /// How many slots have been handed out.
    pub fn len(&self) -> (n: usize)
        ensures
            n == self.used(),
            n <= self.capacity(),
    {
        proof {
            use_type_invariant(self);
        }
        self.alloced
    }

    /// How many slots the buffer has.
    pub fn slots(&self) -> (n: usize)
        ensures
            n == self.capacity(),
    {
        self.inner.len()
    }

    /// Forgets every reservation; the buffer keeps its contents.
    pub fn reset(&mut self)
        ensures
            final(self)@ == old(self)@,
            final(self).used() == 0,
    {
        self.alloced = 0;
    }

    /// The slots handed out so far.
    pub fn as_slice(&self) -> (s: &[T])
        ensures
            s@ == self.filled(),
    {
        proof {
            use_type_invariant(self);
        }
        vstd::slice::slice_subrange(self.inner.as_slice(), 0, self.alloced)
    }

    /// Gives the buffer back.
    pub fn into_inner(self) -> (inner: Vec<T>)
        ensures
            inner@ == self@,
    {
        self.inner
    }
}

} // verus!
