//! The passes of the machine-oriented stage.
use crate::hir::optimize::dispatch::{dispatch_program, recognize_dispatch};
use crate::hir::optimize::delimited::{delimited_program, recognize_delimited};
use crate::hir::optimize::list::{list_program, recognize_separated_list};
use crate::hir::optimize::patterns::{recognize_take_while, take_while_program};
use crate::hir::optimize::scan::{recognize_scan_repeat, scan_program};
use crate::hir::expr::IrModel;
use crate::hir::optimize::inline::rule_exprs;
use crate::hir::optimize::{keeps_rules, lemma_keeps_trans, lemma_with_exprs_keeps};
use crate::hir::program::{IrProgram, ProgramModel};
use vstd::prelude::*;

verus! {

/// Repetitions of sets are fused, choices become dispatch tables (grouping
/// alternatives with the same first characters), repeated dispatch tables
/// become scanners, separated lists are recognized, and so are delimited
/// expressions (a literal, a repetition of zero or more, a literal).
pub open spec fn mir_optimized_model(p: ProgramModel) -> ProgramModel {
    delimited_program(list_program(scan_program(dispatch_program(take_while_program(p), true))))
}

/// Run the passes of the machine-oriented stage.
pub fn optimize(program: IrProgram) -> (res: IrProgram)
    ensures
        res@ == mir_optimized_model(program@),
{
    let program = recognize_take_while(program);
    let program = recognize_dispatch(program, true);
    let program = recognize_scan_repeat(program);
    let program = recognize_separated_list(program);
    recognize_delimited(program)
}

/// The passes of this stage keep every rule as it was, but for its expression.
pub proof fn law_mir_optimize_keeps_rules(p: ProgramModel)
    ensures
        keeps_rules(p, mir_optimized_model(p)),
{
    let a = take_while_program(p);
    lemma_with_exprs_keeps(p, |m: IrModel| crate::hir::optimize::patterns::take_while_model(m));
    let b = dispatch_program(a, true);
    lemma_with_exprs_keeps(a, |m: IrModel| crate::hir::optimize::dispatch::dispatch_model(m, rule_exprs(a.rules), true));
    let c = scan_program(b);
    lemma_with_exprs_keeps(b, |m: IrModel| crate::hir::optimize::scan::scan_expr_model(m, rule_exprs(b.rules)));
    let d = list_program(c);
    lemma_with_exprs_keeps(c, |m: IrModel| crate::hir::optimize::list::list_model(m));
    lemma_keeps_trans(p, a, b);
    lemma_keeps_trans(p, b, c);
    lemma_keeps_trans(p, c, d);
    let e = delimited_program(d);
    lemma_with_exprs_keeps(d, |m: IrModel| crate::hir::optimize::delimited::delimited_model(m));
    lemma_keeps_trans(p, d, e);
}

} // verus!
