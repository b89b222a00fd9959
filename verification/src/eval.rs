//! Candidate moves and their order.

use vstd::prelude::*;
use core::cmp::Ordering;

verus! {

/// A column and the value of the position that a move into it leads to.
/// Two of them are ordered by their values alone; the columns play no part.
#[derive(Debug, Clone, Copy, PartialEq, Eq, Structural)]
pub struct Eval(pub usize, pub i32);

impl PartialOrd for Eval {
    fn partial_cmp(&self, other: &Self) -> (r: Option<Ordering>) {
        if self.1 < other.1 {
            Some(Ordering::Less)
        } else if self.1 > other.1 {
            Some(Ordering::Greater)
        } else {
            Some(Ordering::Equal)
        }
    }
}

impl vstd::std_specs::cmp::PartialOrdSpecImpl for Eval {
    open spec fn obeys_partial_cmp_spec() -> bool {
        true
    }

    open spec fn partial_cmp_spec(&self, other: &Self) -> Option<Ordering> {
        if self.1 < other.1 {
            Some(Ordering::Less)
        } else if self.1 > other.1 {
            Some(Ordering::Greater)
        } else {
            Some(Ordering::Equal)
        }
    }
}

} // verus!
