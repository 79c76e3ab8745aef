//! Positions on the grid.

use core::cmp::Ordering;
use vstd::prelude::*;

verus! {

/// The place of a cell: `x` is its row and `y` its column, both counted
/// from 0. Two positions are equal when both numbers are, and they are
/// ordered by row first and by column second.
#[derive(Clone, Copy, Debug, PartialEq, Eq, Structural, Ord, Hash)]
pub struct Coords {
    pub x: usize,
    pub y: usize,
}

impl Coords {
    /// Whether this position comes before `other`: in an earlier row, or in
    /// the same row and an earlier column.
    pub open spec fn before(self, other: Coords) -> bool {
        self.x < other.x || (self.x == other.x && self.y < other.y)
    }
}

impl PartialOrd for Coords {
    fn partial_cmp(&self, other: &Coords) -> (r: Option<Ordering>) {
        if self.x < other.x {
            Some(Ordering::Less)
        } else if self.x > other.x {
            Some(Ordering::Greater)
        } else if self.y < other.y {
            Some(Ordering::Less)
        } else if self.y > other.y {
            Some(Ordering::Greater)
        } else {
            Some(Ordering::Equal)
        }
    }
}

impl vstd::std_specs::cmp::PartialOrdSpecImpl for Coords {
    open spec fn obeys_partial_cmp_spec() -> bool {
        true
    }

    open spec fn partial_cmp_spec(&self, other: &Coords) -> Option<Ordering> {
        if self.before(*other) {
            Some(Ordering::Less)
        } else if other.before(*self) {
            Some(Ordering::Greater)
        } else {
            Some(Ordering::Equal)
        }
    }
}

} // verus!
