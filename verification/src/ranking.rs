//! An alternative ranking of score records: cells whose worst candidate fits worst come first,
//! and among the records of equally hard cells the smaller error comes first.
//!
//! The greedy assignor does not consult this ranking; it orders records by their own error
//! alone.

use crate::matrix::ErrInfo;
use core::cmp::Ordering;
use vstd::prelude::*;
use vstd::std_specs::cmp::PartialOrdSpecImpl;

verus! {

impl PartialOrd for ErrInfo {
    fn partial_cmp(&self, other: &Self) -> (order: Option<Ordering>) {
        if other.pos_err_min < self.pos_err_min {
            Some(Ordering::Less)
        } else if other.pos_err_min > self.pos_err_min {
            Some(Ordering::Greater)
        } else if self.err < other.err {
            Some(Ordering::Less)
        } else if self.err > other.err {
            Some(Ordering::Greater)
        } else {
            Some(Ordering::Equal)
        }
    }
}

impl PartialOrdSpecImpl for ErrInfo {
    open spec fn obeys_partial_cmp_spec() -> bool {
        true
    }

    open spec fn partial_cmp_spec(&self, other: &Self) -> Option<Ordering> {
        if other.pos_err_min < self.pos_err_min {
            Some(Ordering::Less)
        } else if other.pos_err_min > self.pos_err_min {
            Some(Ordering::Greater)
        } else if self.err < other.err {
            Some(Ordering::Less)
        } else if self.err > other.err {
            Some(Ordering::Greater)
        } else {
            Some(Ordering::Equal)
        }
    }
}

} // verus!
