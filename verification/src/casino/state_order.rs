//! Player states ordered by the chips they stand for: a check, a fold and
//! every state without an amount come first, as nothing.
use vstd::prelude::*;

use core::cmp::Ordering;
use vstd::std_specs::cmp::PartialOrdSpecImpl;

use crate::casino::state::PlayerState;

verus! {

/// How two amounts compare.
pub open spec fn amount_order(a: usize, b: usize) -> Ordering {
    if a < b {
        Ordering::Less
    } else if a > b {
        Ordering::Greater
    } else {
        Ordering::Equal
    }
}

impl PartialOrd for PlayerState {
    fn partial_cmp(&self, other: &PlayerState) -> (r: Option<Ordering>) {
        let a = self.amount();
        let b = other.amount();
        if a < b {
            Some(Ordering::Less)
        } else if a > b {
            Some(Ordering::Greater)
        } else {
            Some(Ordering::Equal)
        }
    }
}

impl PartialOrdSpecImpl for PlayerState {
    open spec fn obeys_partial_cmp_spec() -> bool {
        true
    }

    open spec fn partial_cmp_spec(&self, other: &PlayerState) -> Option<Ordering> {
        Some(amount_order(self.amount(), other.amount()))
    }
}

} // verus!
