//! The order of the scheduling classes: Low below High below Critical, as
//! their wire codes are ordered.
use crate::protocol::{priority_code, priority_of_code, IoPriority};
use core::cmp::Ordering;
use vstd::prelude::*;
use vstd::std_specs::cmp::PartialOrdSpec;

verus! {

/// How two codes compare.
pub open spec fn code_order(a: u8, b: u8) -> Ordering {
    if a < b {
        Ordering::Less
    } else if a == b {
        Ordering::Equal
    } else {
        Ordering::Greater
    }
}

impl PartialOrd for IoPriority {
    fn partial_cmp(&self, other: &Self) -> (r: Option<Ordering>) {
        let a = self.to_u8();
        let b = other.to_u8();
        if a < b {
            Some(Ordering::Less)
        } else if a == b {
            Some(Ordering::Equal)
        } else {
            Some(Ordering::Greater)
        }
    }
}

impl vstd::std_specs::cmp::PartialOrdSpecImpl for IoPriority {
    open spec fn obeys_partial_cmp_spec() -> bool {
        true
    }

    open spec fn partial_cmp_spec(&self, other: &Self) -> Option<Ordering> {
        Some(code_order(priority_code(*self), priority_code(*other)))
    }
}

/// Classes compare as their codes do: decoding codes 0, 1 and 2 gives Low,
/// High and Critical, and one class is below another exactly when its code
/// is smaller.
pub proof fn lemma_priority_order(a: u8, b: u8)
    requires
        a <= 2,
        b <= 2,
    ensures
        priority_of_code(a) is Some,
        priority_of_code(a).unwrap().partial_cmp_spec(&priority_of_code(b).unwrap()) == Some(
            code_order(a, b),
        ),
        IoPriority::Low.partial_cmp_spec(&IoPriority::High) == Some(Ordering::Less),
        IoPriority::High.partial_cmp_spec(&IoPriority::Critical) == Some(Ordering::Less),
{
}

} // verus!
