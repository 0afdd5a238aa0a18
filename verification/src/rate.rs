//! The stateful half of the acceptance rule: a divisor and a cyclic
//! counter.  Every `divisor`-th step is accepted; the divisor can only
//! grow, and only when the controller says so.

use vstd::prelude::*;

verus! {

/// A simple sampler: accepts every `divisor`-th step.
#[derive(Clone, Copy)]
pub struct SamplingRate {
    divisor: u32,
    counter: u32,
}

impl SamplingRate {
    /// The current divisor.
    pub closed spec fn divisor_spec(&self) -> nat {
        self.divisor as nat
    }

    /// The current position inside the cycle of length `divisor`.
    pub closed spec fn counter_spec(&self) -> nat {
        self.counter as nat
    }

    /// The divisor is positive and the counter stays inside the cycle.
    pub open spec fn wf(&self) -> bool {
        1 <= self.divisor_spec() && self.counter_spec() < self.divisor_spec()
    }

    /// Creates a rate that accepts every `divisor`-th step, starting with
    /// the `divisor`-th one.
    pub fn new(divisor: u32) -> (r: Self)
        requires
            divisor >= 1,
        ensures
            r.wf(),
            r.divisor_spec() == divisor,
            r.counter_spec() == 0,
    {
        Self { divisor, counter: 0 }
    }

    /// Advances by one step; returns true iff this step is accepted.
    pub fn step(&mut self) -> (r: bool)
        requires
            old(self).wf(),
        ensures
            final(self).wf(),
            final(self).divisor_spec() == old(self).divisor_spec(),
            final(self).counter_spec() == (old(self).counter_spec() + 1) % old(
                self,
            ).divisor_spec(),
            r <==> final(self).counter_spec() == 0,
    {
        self.counter += 1;
        self.counter %= self.divisor;
        self.counter == 0
    }

    /// Reduces the sampling rate by the given ratio.
    pub fn div(&mut self, ratio: u32)
        requires
            old(self).wf(),
            ratio >= 1,
            old(self).divisor_spec() * ratio <= u32::MAX,
        ensures
            final(self).wf(),
            final(self).divisor_spec() == old(self).divisor_spec() * ratio,
            final(self).counter_spec() == old(self).counter_spec(),
    {
        proof {
            let c = old(self).counter_spec();
            let d = old(self).divisor_spec();
            assert(c < d * ratio) by (nonlinear_arith)
                requires
                    c < d,
                    ratio >= 1,
            ;
        }
        self.divisor *= ratio;
    }

    /// The current divisor.
    pub fn divisor(&self) -> (r: u32)
        ensures
            r == self.divisor_spec(),
    {
        self.divisor
    }
}

} // verus!
