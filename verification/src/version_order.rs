//! `PartialOrd` for versions, so that `<` and `>` compare them by components.

use std::cmp::Ordering;

use vstd::prelude::*;

use crate::text::Order;
use crate::version::{Version, version_order};

verus! {

/// The standard library's ordering value for an `Order`.
pub open spec fn std_ordering(o: Order) -> Ordering {
    match o {
        Order::Less => Ordering::Less,
        Order::Equal => Ordering::Equal,
        Order::Greater => Ordering::Greater,
    }
}

impl PartialOrd for Version {
    fn partial_cmp(&self, other: &Version) -> (r: Option<Ordering>) {
        match self.compare(other) {
            Order::Less => Some(Ordering::Less),
            Order::Equal => Some(Ordering::Equal),
            Order::Greater => Some(Ordering::Greater),
        }
    }
}

impl vstd::std_specs::cmp::PartialOrdSpecImpl for Version {
    open spec fn obeys_partial_cmp_spec() -> bool {
        true
    }

    open spec fn partial_cmp_spec(&self, other: &Version) -> Option<Ordering> {
        Some(std_ordering(version_order(self.name@, other.name@)))
    }
}

} // verus!
