//! Handing an optimized program on to the machine-oriented stage.
use crate::hir::program::{copy_program, IrProgram};
use vstd::prelude::*;

verus! {

/// The machine-oriented program for `program`: the same rules, state
/// declarations and expressions.
pub fn lower(program: &IrProgram) -> (res: IrProgram)
    ensures
        res@ == program@,
{
    copy_program(program)
}

} // verus!
