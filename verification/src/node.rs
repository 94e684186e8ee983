//! The AST node model: tagged variants held by the arena tree.

use vstd::prelude::*;

verus! {

/// One node of the abstract syntax tree.
pub enum NodeType {
    /// A leaf element symbol and its multiplier; the multiplier defaults to
    /// one when no explicit count follows the symbol.
    Atom(Vec<u8>, i32),
    /// A molecule: its numeric prefix multiplies all descendants, its charge
    /// is the net signed charge from a trailing annotation (zero when
    /// absent).
    Molecule(i32, i32),
    /// A parenthesised group: its suffix multiplies all descendants and
    /// defaults to one.
    ParenthesisWrapper(i32),
    /// The tree root; contributes no multiplier, its children are additive
    /// sub-formulas.
    Group,
}

} // verus!
