//! The intermediate representation as seen from the grammar: lowering from
//! the syntax tree, and the optimizing pipeline.
pub mod lower;
pub mod optimize;

pub use crate::hir::expr::{Boundary, DispatchArm, IrExpr};
pub use crate::hir::program::{IrProgram, IrRule};
pub use crate::ranges::CharRange;
pub use lower::lower;
pub use optimize::optimize;
