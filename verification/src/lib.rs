//! Chemical-formula parsing and accumulation.
//!
//! Formula text (nested parenthetical groups, stoichiometric coefficients,
//! hydrate-style dot concatenation, ionic charge annotations) is parsed into
//! an arena-backed abstract syntax tree, reduced into a flat signed
//! element-count mapping, and accumulated over several formulas into a
//! rows-by-columns matrix for an equation balancer.

pub mod atomdict;
pub mod failures;
pub mod grammar;
pub mod node;
pub mod structs;
pub mod table;
pub mod tree;
pub mod treebuilder;
