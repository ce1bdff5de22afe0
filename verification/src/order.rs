use crate::list::{in_order, name_precedes};
use crate::pony::Pony;
use std::cmp::Ordering;
use vstd::prelude::*;
use vstd::std_specs::cmp::PartialOrdSpecImpl;

verus! {

impl PartialOrd for Pony {
    /// Characters are ordered by their names, as the dictionary orders them.
    fn partial_cmp(&self, other: &Self) -> (order: Option<Ordering>) {
        let before = name_precedes(self.name(), other.name());
        let behind = name_precedes(other.name(), self.name());
        if before && behind {
            Some(Ordering::Equal)
        } else if before {
            Some(Ordering::Less)
        } else {
            Some(Ordering::Greater)
        }
    }
}

impl PartialOrdSpecImpl for Pony {
    open spec fn obeys_partial_cmp_spec() -> bool {
        true
    }

    open spec fn partial_cmp_spec(&self, other: &Self) -> Option<Ordering> {
        if in_order(self@.name, other@.name) && in_order(other@.name, self@.name) {
            Some(Ordering::Equal)
        } else if in_order(self@.name, other@.name) {
            Some(Ordering::Less)
        } else {
            Some(Ordering::Greater)
        }
    }
}

} // verus!
