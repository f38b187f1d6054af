//! The machine-oriented stage: the intermediate representation handed on
//! after optimization, where the passes that shape code generation run.
//! It shares its types with the intermediate representation.
pub mod lower;
pub mod optimize;

pub use crate::hir::expr::{Boundary, DispatchArm};
pub use crate::ranges::CharRange;
pub use lower::lower;
pub use optimize::optimize;

use vstd::prelude::*;

verus! {

/// An expression of the machine-oriented stage.
pub type MirExpr = crate::hir::expr::IrExpr;

/// A program of the machine-oriented stage.
pub type MirProgram = crate::hir::program::IrProgram;

/// A rule of the machine-oriented stage.
pub type MirRule = crate::hir::program::IrRule;

} // verus!
