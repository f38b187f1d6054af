//! Code generation planning: what parser code a grammar becomes, decided
//! here and written out by a renderer one node at a time.
pub mod code;
pub mod expr;
pub mod laws;
pub mod module;

use crate::ast::Grammar;
use crate::hir::optimize::closed::{law_ir_optimize_keeps_closed, law_mir_optimize_keeps_closed};
use crate::ir::lower::{grammar_resolves, law_lower_closed, lower_model};
use crate::ir::optimize::ir_optimized_model;
use crate::mir::optimize::mir_optimized_model;
use module::{module_plan, plan_module, ModulePlan};
use vstd::prelude::*;

verus! {

/// The plan of the parser module for a grammar whose rule references all
/// name rules: the grammar is lowered, optimized, handed on to the
/// machine-oriented stage and optimized there, and the result planned.
pub fn plan_grammar(grammar: &Grammar) -> (res: ModulePlan)
    requires
        grammar_resolves(grammar@),
    ensures
        res@ == module_plan(mir_optimized_model(ir_optimized_model(lower_model(grammar@)))),
{
    let ir = crate::ir::lower(grammar);
    let ir = crate::ir::optimize(ir);
    let mir = crate::mir::lower(&ir);
    let mir = crate::mir::optimize(mir);
    proof {
        law_lower_closed(grammar@);
        law_ir_optimize_keeps_closed(lower_model(grammar@));
        law_mir_optimize_keeps_closed(ir_optimized_model(lower_model(grammar@)));
    }
    plan_module(&mir)
}

} // verus!
