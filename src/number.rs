//! The big number type.
use vstd::prelude::*;

use crate::limb::limbs_value;

verus! {

/// A nonnegative integer held as 64-bit limbs, least significant first.
/// High zero limbs are allowed, so several limb sequences stand for one value.
#[derive(Debug)]
pub struct Number {
    limbs: Vec<u64>,
}

impl View for Number {
    type V = Seq<u64>;

    /// The limbs, least significant first.
    closed spec fn view(&self) -> Seq<u64> {
        self.limbs@
    }
}

impl Clone for Number {
    fn clone(&self) -> (r: Number)
        ensures
            r@ == self@,
    {
        Number { limbs: self.limbs.clone() }
    }
}

impl Number {
    /// The integer that the limbs stand for.
    pub open spec fn value(&self) -> nat {
        limbs_value(self@)
    }

    pub(crate) fn from_limbs(limbs: Vec<u64>) -> (r: Number)
        ensures
            r@ == limbs@,
    {
        Number { limbs }
    }

    pub(crate) fn limbs(&self) -> (r: &Vec<u64>)
        ensures
            r@ == self@,
    {
        &self.limbs
    }
}

} // verus!
