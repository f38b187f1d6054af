//! The intermediate representation: rules resolved to indices, repetitions
//! unified, character classes as range sets.
pub mod expr;
pub mod optimize;
pub mod program;

pub use crate::ranges::CharRange;
pub use expr::{Boundary, DispatchArm, IrExpr};

pub use program::{IrProgram, IrRule};
pub use optimize::optimize;
