//! Public structs describing a chemical equation's layout.

use vstd::prelude::*;

verus! {

/// Description of a chemical equation: how many formulas sit on each side,
/// and the total. Populated by the caller that lays out the equation.
#[derive(Clone)]
pub struct ChemicalEquation {
    /// The number of the chemical formulas of the left side.
    pub left: usize,
    /// The number of the chemical formulas of the right side.
    pub right: usize,
    /// The sum of all the chemical formulas in the equation.
    pub sum: usize,
}

impl ChemicalEquation {
    /// A zeroed equation description.
    pub fn new() -> (r: Self)
        ensures
            r.left == 0,
            r.right == 0,
            r.sum == 0,
    {
        Self { left: 0, right: 0, sum: 0 }
    }
}

} // verus!
