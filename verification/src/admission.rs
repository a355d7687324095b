//! The admission gate: the permit counter that bounds how many connections
//! are served at once. A permit is acquired before a connection is served
//! and released exactly once when its handling ends.

use vstd::prelude::*;

verus! {

/// A fixed-capacity permit counter.
pub struct Gate {
    capacity: usize,
    in_flight: usize,
}

impl Gate {
    /// The number of permits outstanding never exceeds the capacity.
    #[verifier::type_invariant]
    pub closed spec fn inv(self) -> bool {
        self.in_flight <= self.capacity
    }

    /// The configured connection limit.
    pub closed spec fn spec_capacity(&self) -> int {
        self.capacity as int
    }

    /// How many permits are outstanding.
    pub closed spec fn active(&self) -> int {
        self.in_flight as int
    }

    /// A gate admitting at most `capacity` concurrent holders.
    pub fn new(capacity: usize) -> (r: Gate)
        ensures
            r.spec_capacity() == capacity,
            r.active() == 0,
    {
        Gate { capacity, in_flight: 0 }
    }

    /// Acquire: admit one more holder if the ceiling allows it.
    pub fn try_acquire(&mut self) -> (r: bool)
        ensures
            r == (old(self).active() < old(self).spec_capacity()),
            final(self).spec_capacity() == old(self).spec_capacity(),
            final(self).active() == if r {
                old(self).active() + 1
            } else {
                old(self).active()
            },
    {
        proof {
            use_type_invariant(&*self);
        }
        if self.in_flight < self.capacity {
            self.in_flight = self.in_flight + 1;
            true
        } else {
            false
        }
    }

    /// Admission ceiling: however acquisitions and releases have
    /// interleaved, the permits outstanding never exceed the limit.
    pub fn load(&self) -> (r: (usize, usize))
        ensures
            r.0 == self.active(),
            r.1 == self.spec_capacity(),
            r.0 <= r.1,
    {
        proof {
            use_type_invariant(&*self);
        }
        (self.in_flight, self.capacity)
    }

    /// Give a permit back.
    pub fn release(&mut self)
        requires
            old(self).active() > 0,
        ensures
            final(self).spec_capacity() == old(self).spec_capacity(),
            final(self).active() == old(self).active() - 1,
    {
        proof {
            use_type_invariant(&*self);
        }
        self.in_flight = self.in_flight - 1;
    }
}

} // verus!
