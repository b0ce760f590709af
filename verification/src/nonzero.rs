//! 128-bit integers that are known not to be zero.
//!
//! A divisor is checked for zero once, when one of these is made, and never again.

use vstd::prelude::*;

verus! {

/// An unsigned 128-bit integer that is not zero.
#[derive(Clone, Copy, Debug)]
pub struct NonZeroU128 {
    value: u128,
}

/// A signed 128-bit integer that is not zero.
#[derive(Clone, Copy, Debug)]
pub struct NonZeroI128 {
    value: i128,
}

impl View for NonZeroU128 {
    type V = u128;

    closed spec fn view(&self) -> u128 {
        self.value
    }
}

impl View for NonZeroI128 {
    type V = i128;

    closed spec fn view(&self) -> i128 {
        self.value
    }
}

impl NonZeroU128 {
    /// The wrapped number is not zero.
    #[verifier::type_invariant]
    spec fn is_nonzero(self) -> bool {
        self.value != 0
    }

    /// Wraps `value` if it is not zero.
    pub fn new(value: u128) -> (r: Option<NonZeroU128>)
        ensures
            value == 0 <==> r is None,
            r matches Some(n) ==> n@ == value,
    {
        if value == 0 {
            None
        } else {
            Some(NonZeroU128 { value })
        }
    }

    /// The wrapped number.
    pub fn get(self) -> (r: u128)
        ensures
            r == self@,
            r != 0,
    {
        proof {
            use_type_invariant(&self);
        }
        self.value
    }
}

impl NonZeroI128 {
    /// The wrapped number is not zero.
    #[verifier::type_invariant]
    spec fn is_nonzero(self) -> bool {
        self.value != 0
    }

    /// Wraps `value` if it is not zero.
    pub fn new(value: i128) -> (r: Option<NonZeroI128>)
        ensures
            value == 0 <==> r is None,
            r matches Some(n) ==> n@ == value,
    {
        if value == 0 {
            None
        } else {
            Some(NonZeroI128 { value })
        }
    }

    /// The wrapped number.
    pub fn get(self) -> (r: i128)
        ensures
            r == self@,
            r != 0,
    {
        proof {
            use_type_invariant(&self);
        }
        self.value
    }

    /// The absolute value, which is not zero either and always fits an unsigned number.
    pub fn unsigned_abs(self) -> (r: NonZeroU128)
        ensures
            r@ == if self@ < 0 { -self@ } else { self@ as int },
    {
        proof {
            use_type_invariant(&self);
        }
        let v = self.value;
        if v < 0 {
            NonZeroU128 { value: ((-(v + 1)) as u128) + 1 }
        } else {
            NonZeroU128 { value: v as u128 }
        }
    }
}

} // verus!
