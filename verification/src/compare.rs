//! Equality and order of [`BigInt`] values: those of the numbers they denote.

use vstd::prelude::*;
use vstd::std_specs::cmp::{PartialEqSpecImpl, PartialOrdSpecImpl};
use std::cmp::Ordering;
use crate::bigint::BigInt;
use crate::limb_ops::{eq_limbs, lt_limbs};

verus! {

impl PartialEq for BigInt {
    fn eq(&self, other: &BigInt) -> (r: bool) {
        eq_limbs(self.chunks.as_slice(), other.chunks.as_slice())
    }
}

impl PartialEqSpecImpl for BigInt {
    open spec fn obeys_eq_spec() -> bool {
        true
    }

    open spec fn eq_spec(&self, other: &BigInt) -> bool {
        self@ == other@
    }
}

impl PartialOrd for BigInt {
    fn partial_cmp(&self, other: &BigInt) -> (r: Option<Ordering>) {
        if lt_limbs(self.chunks.as_slice(), other.chunks.as_slice()) {
            Some(Ordering::Less)
        } else if lt_limbs(other.chunks.as_slice(), self.chunks.as_slice()) {
            Some(Ordering::Greater)
        } else {
            Some(Ordering::Equal)
        }
    }
}

impl PartialOrdSpecImpl for BigInt {
    open spec fn obeys_partial_cmp_spec() -> bool {
        true
    }

    open spec fn partial_cmp_spec(&self, other: &BigInt) -> Option<Ordering> {
        if self@ < other@ {
            Some(Ordering::Less)
        } else if self@ > other@ {
            Some(Ordering::Greater)
        } else {
            Some(Ordering::Equal)
        }
    }
}

} // verus!
