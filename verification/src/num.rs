//! Nonzero machine integers.
use vstd::prelude::*;

verus! {

/// A signed machine integer that is known not to be zero.
#[derive(Clone, Copy, Debug)]
pub struct NonZeroIsize {
    value: isize,
}

impl View for NonZeroIsize {
    type V = isize;

    closed spec fn view(&self) -> isize {
        self.value
    }
}

impl NonZeroIsize {
    #[verifier::type_invariant]
    spec fn nonzero(self) -> bool {
        self.value != 0
    }

    /// The nonzero integer `n`, or nothing for zero.
    pub fn new(n: isize) -> (r: Option<NonZeroIsize>)
        ensures
            n == 0 ==> r is None,
            n != 0 ==> (r matches Some(x) && x@ == n),
    {
        if n == 0 {
            None
        } else {
            Some(NonZeroIsize { value: n })
        }
    }

    /// The integer held.
    pub fn get(self) -> (r: isize)
        ensures
            r == self@,
            r != 0,
    {
        proof {
            use_type_invariant(&self);
        }
        self.value
    }
}

} // verus!
