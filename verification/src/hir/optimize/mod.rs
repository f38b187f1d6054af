//! Optimization passes over the intermediate representation, and the pipeline
//! that chains the normalizing and inlining ones.
pub mod closed;
pub mod counts;
pub mod delimited;
pub mod dispatch;
pub mod inline;
pub mod labels;
pub mod list;
pub mod normalize;
pub mod patterns;
pub mod scan;

use crate::hir::expr::IrModel;
use crate::hir::program::{with_exprs, IrProgram, ProgramModel};
use inline::{apply_inlining, small_marks, trivial_marks, compute_ref_counts, inline_small_single_use_rules, inline_trivial_rules, small_inlining, trivial_inlining, with_ref_counts};
use normalize::{fuse_literals, fuse_program, flatten, flatten_program, merge_charsets, merge_program, single_char_program, single_char_to_charset};
use vstd::prelude::*;

verus! {

/// Flatten nested sequences and choices, merge the character sets of choices,
/// then fuse adjacent literals.
pub open spec fn normalize_program(p: ProgramModel) -> ProgramModel {
    fuse_program(merge_program(flatten_program(p)))
}

/// The normalizing and inlining pipeline: single characters of choices become
/// sets, the program is normalized, trivial and then small single-use rules
/// are inlined, the program is normalized again, and reference counts are set.
pub open spec fn optimized_model(p: ProgramModel) -> ProgramModel {
    with_ref_counts(normalize_program(small_inlining(trivial_inlining(normalize_program(single_char_program(p))))))
}

/// Normalize the program.
pub(crate) fn normalize(program: IrProgram) -> (res: IrProgram)
    ensures
        res@ == normalize_program(program@),
{
    let program = flatten(program);
    let program = merge_charsets(program);
    fuse_literals(program)
}

/// Run the normalizing and inlining passes on the program.
pub fn optimize(program: IrProgram) -> (res: IrProgram)
    ensures
        res@ == optimized_model(program@),
{
    let program = single_char_to_charset(program);
    let program = normalize(program);
    let program = inline_trivial_rules(program);
    let program = inline_small_single_use_rules(program);
    let program = normalize(program);
    compute_ref_counts(program)
}

// ── Laws ──

/// The rules of `q` are those of `p`: the same state declarations and number
/// of rules, each with the same name, error label, guards and emits, in the
/// same order; a rule inlined in `p` stays inlined in `q`.
pub open spec fn keeps_rules(p: ProgramModel, q: ProgramModel) -> bool {
    &&& q.state_decls == p.state_decls
    &&& q.rules.len() == p.rules.len()
    &&& forall|i: int|
        0 <= i < p.rules.len() ==> {
            &&& (#[trigger] q.rules[i]).name == p.rules[i].name
            &&& q.rules[i].error_label == p.rules[i].error_label
            &&& q.rules[i].guards == p.rules[i].guards
            &&& q.rules[i].emits == p.rules[i].emits
            &&& (p.rules[i].inline ==> q.rules[i].inline)
        }
}

pub proof fn lemma_keeps_trans(p: ProgramModel, q: ProgramModel, r: ProgramModel)
    requires
        keeps_rules(p, q),
        keeps_rules(q, r),
    ensures
        keeps_rules(p, r),
{
    assert forall|i: int| 0 <= i < p.rules.len() implies {
        &&& (#[trigger] r.rules[i]).name == p.rules[i].name
        &&& r.rules[i].error_label == p.rules[i].error_label
        &&& r.rules[i].guards == p.rules[i].guards
        &&& r.rules[i].emits == p.rules[i].emits
        &&& (p.rules[i].inline ==> r.rules[i].inline)
    } by {
        assert(q.rules[i].name == p.rules[i].name);
    }
}

/// A pass that only rewrites expressions keeps the rules.
pub proof fn lemma_with_exprs_keeps(p: ProgramModel, f: spec_fn(IrModel) -> IrModel)
    ensures
        keeps_rules(p, with_exprs(p, f)),
{
}

proof fn lemma_inlining_keeps(p: ProgramModel, marks: Seq<bool>)
    requires
        marks.len() == p.rules.len(),
        forall|i: int| 0 <= i < p.rules.len() && p.rules[i].inline ==> #[trigger] marks[i],
    ensures
        keeps_rules(p, apply_inlining(p, marks)),
{
}

pub proof fn lemma_trivial_keeps(p: ProgramModel)
    ensures
        keeps_rules(p, trivial_inlining(p)),
{
    lemma_inlining_keeps(p, trivial_marks(p.rules));
}

pub proof fn lemma_small_keeps(p: ProgramModel)
    ensures
        keeps_rules(p, small_inlining(p)),
{
    lemma_inlining_keeps(p, small_marks(p.rules));
}

pub proof fn lemma_ref_counts_keeps(p: ProgramModel)
    ensures
        keeps_rules(p, with_ref_counts(p)),
{
}

pub proof fn lemma_normalize_keeps(p: ProgramModel)
    ensures
        keeps_rules(p, normalize_program(p)),
{
    let a = flatten_program(p);
    let b = merge_program(a);
    let c = fuse_program(b);
    lemma_with_exprs_keeps(p, |m: IrModel| normalize::flatten_model(m));
    lemma_with_exprs_keeps(a, |m: IrModel| normalize::merge_charsets_model(m));
    lemma_with_exprs_keeps(b, |m: IrModel| normalize::fuse_literals_model(m));
    lemma_keeps_trans(p, a, b);
    lemma_keeps_trans(p, b, c);
}

/// Optimizing keeps every rule, under its name, in its place, with its error
/// label, guards and emits; inlined rules stay in the program, flagged.
pub proof fn law_optimize_keeps_rules(p: ProgramModel)
    ensures
        keeps_rules(p, optimized_model(p)),
{
    let a = single_char_program(p);
    lemma_with_exprs_keeps(p, |m: IrModel| normalize::single_char_to_charset_model(m));
    let b = normalize_program(a);
    lemma_normalize_keeps(a);
    let c = trivial_inlining(b);
    lemma_trivial_keeps(b);
    let d = small_inlining(c);
    lemma_small_keeps(c);
    let e = normalize_program(d);
    lemma_normalize_keeps(d);
    let f = with_ref_counts(e);
    lemma_ref_counts_keeps(e);
    lemma_keeps_trans(p, a, b);
    lemma_keeps_trans(p, b, c);
    lemma_keeps_trans(p, c, d);
    lemma_keeps_trans(p, d, e);
    lemma_keeps_trans(p, e, f);
}

} // verus!
