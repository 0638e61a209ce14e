//! The canonical order of substrings as the comparison operators.

use crate::substring::{precedes, Substring};
use core::cmp::Ordering;
use vstd::prelude::*;
use vstd::std_specs::cmp::PartialOrdSpecImpl;

verus! {

impl PartialOrd for Substring {
    /// Compares by the canonical order: longer encodings are less, and
    /// among equal byte lengths the lexicographically smaller is less.
    fn partial_cmp(&self, other: &Self) -> (out: Option<Ordering>) {
        if self.comes_before(other) {
            if other.comes_before(self) {
                Some(Ordering::Equal)
            } else {
                Some(Ordering::Less)
            }
        } else {
            Some(Ordering::Greater)
        }
    }
}

impl PartialOrdSpecImpl for Substring {
    open spec fn obeys_partial_cmp_spec() -> bool {
        true
    }

    open spec fn partial_cmp_spec(&self, other: &Self) -> Option<Ordering> {
        if precedes(self@, other@) {
            if precedes(other@, self@) {
                Some(Ordering::Equal)
            } else {
                Some(Ordering::Less)
            }
        } else {
            Some(Ordering::Greater)
        }
    }
}

} // verus!
