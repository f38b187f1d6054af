//! The optimizing pipeline over the intermediate representation.
use crate::hir::optimize::dispatch::{dispatch_program, recognize_dispatch};
use crate::hir::optimize::inline::{compute_ref_counts, eliminate_dead_rules, inline_small_single_use_rules, inline_trivial_rules, small_inlining, trivial_inlining, with_ref_counts};
use crate::hir::optimize::normalize::single_char_to_charset;
use crate::hir::optimize::normalize::single_char_program;
use crate::hir::optimize::patterns::{recognize_take_while, take_while_program};
use crate::hir::optimize::{normalize, normalize_program};
use crate::hir::expr::IrModel;
use crate::hir::optimize::{keeps_rules, lemma_keeps_trans, lemma_normalize_keeps, lemma_ref_counts_keeps, lemma_small_keeps, lemma_trivial_keeps, lemma_with_exprs_keeps};
use crate::hir::optimize::inline::rule_exprs;
use crate::hir::program::{IrProgram, ProgramModel};
use vstd::prelude::*;

verus! {

/// The pipeline: single characters of choices become sets, the program is
/// normalized, trivial and then small single-use rules are inlined, the
/// program is normalized again, repetitions of sets are fused, reference
/// counts are set, and choices become one-arm-per-alternative dispatch tables
/// where their first characters are disjoint.
pub open spec fn ir_optimized_model(p: ProgramModel) -> ProgramModel {
    dispatch_program(
        with_ref_counts(
            take_while_program(normalize_program(small_inlining(trivial_inlining(normalize_program(single_char_program(p)))))),
        ),
        false,
    )
}

/// Run all optimization passes on the program.
pub fn optimize(program: IrProgram) -> (res: IrProgram)
    ensures
        res@ == ir_optimized_model(program@),
{
    let program = single_char_to_charset(program);
    let program = normalize(program);
    let program = inline_trivial_rules(program);
    let program = inline_small_single_use_rules(program);
    let program = normalize(program);
    let program = recognize_take_while(program);
    let program = eliminate_dead_rules(program);
    let program = compute_ref_counts(program);
    recognize_dispatch(program, false)
}

/// Optimizing keeps every rule, under its name, in its place, with its error
/// label, guards and emits; inlined rules stay in the program, flagged.
pub proof fn law_ir_optimize_keeps_rules(p: ProgramModel)
    ensures
        keeps_rules(p, ir_optimized_model(p)),
{
    let a = single_char_program(p);
    lemma_with_exprs_keeps(p, |m: IrModel| crate::hir::optimize::normalize::single_char_to_charset_model(m));
    let b = normalize_program(a);
    lemma_normalize_keeps(a);
    let c = trivial_inlining(b);
    lemma_trivial_keeps(b);
    let d = small_inlining(c);
    lemma_small_keeps(c);
    let e = normalize_program(d);
    lemma_normalize_keeps(d);
    let f = take_while_program(e);
    lemma_with_exprs_keeps(e, |m: IrModel| crate::hir::optimize::patterns::take_while_model(m));
    let g = with_ref_counts(f);
    lemma_ref_counts_keeps(f);
    let h = dispatch_program(g, false);
    lemma_with_exprs_keeps(g, |m: IrModel| crate::hir::optimize::dispatch::dispatch_model(m, rule_exprs(g.rules), false));
    lemma_keeps_trans(p, a, b);
    lemma_keeps_trans(p, b, c);
    lemma_keeps_trans(p, c, d);
    lemma_keeps_trans(p, d, e);
    lemma_keeps_trans(p, e, f);
    lemma_keeps_trans(p, f, g);
    lemma_keeps_trans(p, g, h);
}

} // verus!
