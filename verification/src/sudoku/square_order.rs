//! Equality and order of squares: by their packed place and value alone,
//! whatever their caches hold.
use crate::sudoku::square::SudokuSquare;
use std::cmp::Ordering;
use vstd::prelude::*;
use vstd::std_specs::cmp::{PartialEqSpecImpl, PartialOrdSpecImpl};

verus! {

impl PartialEq for SudokuSquare {
    fn eq(&self, other: &Self) -> (r: bool) {
        self.data() == other.data()
    }
}

impl PartialEqSpecImpl for SudokuSquare {
    open spec fn obeys_eq_spec() -> bool {
        true
    }

    open spec fn eq_spec(&self, other: &Self) -> bool {
        self.packed() == other.packed()
    }
}

impl Eq for SudokuSquare {

}

impl PartialOrd for SudokuSquare {
    fn partial_cmp(&self, other: &Self) -> (r: Option<Ordering>) {
        if self.data() < other.data() {
            Some(Ordering::Less)
        } else if self.data() == other.data() {
            Some(Ordering::Equal)
        } else {
            Some(Ordering::Greater)
        }
    }
}

impl PartialOrdSpecImpl for SudokuSquare {
    open spec fn obeys_partial_cmp_spec() -> bool {
        true
    }

    open spec fn partial_cmp_spec(&self, other: &Self) -> Option<Ordering> {
        if self.packed() < other.packed() {
            Some(Ordering::Less)
        } else if self.packed() == other.packed() {
            Some(Ordering::Equal)
        } else {
            Some(Ordering::Greater)
        }
    }
}

} // verus!
