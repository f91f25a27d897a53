//! A seed provider: a counter bumped on every timer tick, so that within a
//! boot no two draws see the same seed.

use vstd::prelude::*;

verus! {

/// The seed counter.
pub struct RngSeed {
    pub times: u64,
}

impl RngSeed {
    /// Bumps the counter; at the top of its range it wraps to zero.
    pub fn inc(&mut self)
        ensures
            final(self).times == if old(self).times < u64::MAX {
                (old(self).times + 1) as u64
            } else {
                0u64
            },
    {
        if self.times < u64::MAX {
            self.times = self.times + 1;
        } else {
            self.times = 0;
        }
    }

    /// Bumps the counter and hands the fresh value out.
    pub fn get(&mut self) -> (r: u64)
        ensures
            final(self).times == if old(self).times < u64::MAX {
                (old(self).times + 1) as u64
            } else {
                0u64
            },
            r == final(self).times,
    {
        self.inc();
        self.times
    }
}

} // verus!
