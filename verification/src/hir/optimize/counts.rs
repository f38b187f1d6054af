//! Reference counts of the optimized program: building one-arm-per-
//! alternative dispatch tables moves no rule reference, so the counts set
//! before it still count the references of the final program.
use crate::hir::expr::{ArmModel, IrModel};
use crate::hir::optimize::dispatch::{build_model, choice_or_dispatch, dispatch_all, dispatch_model, dispatch_program, group_arm, group_items};
use crate::hir::optimize::inline::{
    counted_exprs, occurrences, occurrences_arms, occurrences_list, rule_exprs, sat_add, small_inlining, small_marks,
    small_selected, trivial_inlining, trivial_marks, with_ref_counts,
};
use crate::hir::optimize::normalize::{flatten_program, fuse_program, merge_program, single_char_program};
use crate::hir::optimize::patterns::take_while_program;
use crate::hir::program::ProgramModel;
use crate::ir::optimize::ir_optimized_model;
use vstd::prelude::*;

verus! {

/// Lists whose elements refer to a rule equally often refer to it equally often.
proof fn lemma_occurrences_list_pointwise(a: Seq<IrModel>, b: Seq<IrModel>, idx: usize)
    requires
        a.len() == b.len(),
        forall|k: int| 0 <= k < a.len() ==> occurrences(#[trigger] a[k], idx) == occurrences(b[k], idx),
    ensures
        occurrences_list(a, idx) == occurrences_list(b, idx),
    decreases a.len(),
{
    if a.len() > 0 {
        lemma_occurrences_list_pointwise(a.drop_last(), b.drop_last(), idx);
    }
}

/// Arms whose bodies refer to a rule equally often refer to it equally often.
proof fn lemma_occurrences_arms_pointwise(a: Seq<ArmModel>, b: Seq<ArmModel>, idx: usize)
    requires
        a.len() == b.len(),
        forall|k: int| 0 <= k < a.len() ==> occurrences(*(#[trigger] a[k]).expr, idx) == occurrences(*b[k].expr, idx),
    ensures
        occurrences_arms(a, idx) == occurrences_arms(b, idx),
    decreases a.len(),
{
    if a.len() > 0 {
        lemma_occurrences_arms_pointwise(a.drop_last(), b.drop_last(), idx);
    }
}

/// Arms whose bodies are the items, one for one, refer to a rule as often
/// as the items do.
proof fn lemma_occurrences_arms_items(arms: Seq<ArmModel>, items: Seq<IrModel>, idx: usize)
    requires
        arms.len() == items.len(),
        forall|k: int| 0 <= k < arms.len() ==> *(#[trigger] arms[k]).expr == items[k],
    ensures
        occurrences_arms(arms, idx) == occurrences_list(items, idx),
    decreases arms.len(),
{
    if arms.len() > 0 {
        lemma_occurrences_arms_items(arms.drop_last(), items.drop_last(), idx);
    }
}

/// Without grouping, each alternative forms a group of its own.
proof fn lemma_ungrouped(items: Seq<IrModel>, rules: Seq<IrModel>)
    ensures
        group_items(items, rules, false) matches Some(gs) ==> gs.len() == items.len() && forall|k: int|
            0 <= k < gs.len() ==> (#[trigger] gs[k]).1 == seq![items[k]],
    decreases items.len(),
{
    if items.len() > 0 {
        lemma_ungrouped(items.drop_last(), rules);
        if let Some(gs) = group_items(items, rules, false) {
            let prev = group_items(items.drop_last(), rules, false)->Some_0;
            assert(gs == prev.push((gs.last().0, seq![items.last()])));
            assert forall|k: int| 0 <= k < gs.len() implies (#[trigger] gs[k]).1 == seq![items[k]] by {
                if k < prev.len() {
                    assert(gs[k] == prev[k]);
                    assert(items.drop_last()[k] == items[k]);
                }
            }
        }
    }
}

/// A choice becomes, at most, a table with one arm per alternative, which
/// refers to each rule as often as the alternatives do.
proof fn lemma_choice_or_dispatch_occurrences(items: Seq<IrModel>, rules: Seq<IrModel>, idx: usize)
    ensures
        occurrences(choice_or_dispatch(items, rules, false), idx) == occurrences_list(items, idx),
{
    lemma_ungrouped(items, rules);
    if let Some(arms) = build_model(items, rules, false) {
        let gs = group_items(items, rules, false)->Some_0;
        assert(arms == gs.map_values(|g: (Seq<crate::ranges::CharRange>, Seq<IrModel>)| group_arm(g)));
        assert forall|k: int| 0 <= k < arms.len() implies *(#[trigger] arms[k]).expr == items[k] by {
            assert(arms[k] == group_arm(gs[k]));
            assert(gs[k].1 == seq![items[k]]);
        }
        lemma_occurrences_arms_items(arms, items, idx);
    }
}

/// Building one-arm-per-alternative dispatch tables keeps how often an
/// expression refers to each rule.
pub proof fn lemma_dispatch_keeps_occurrences(m: IrModel, rules: Seq<IrModel>, idx: usize)
    ensures
        occurrences(dispatch_model(m, rules, false), idx) == occurrences(m, idx),
    decreases m,
{
    match m {
        IrModel::Sequence(items) => {
            let d = dispatch_model(m, rules, false)->Sequence_0;
            assert forall|k: int| 0 <= k < d.len() implies occurrences(#[trigger] d[k], idx) == occurrences(items[k], idx) by {
                lemma_dispatch_keeps_occurrences(items[k], rules, idx);
            }
            lemma_occurrences_list_pointwise(d, items, idx);
        },
        IrModel::Choice(items) => {
            let d = dispatch_all(items, rules, false);
            assert forall|k: int| 0 <= k < d.len() implies occurrences(#[trigger] d[k], idx) == occurrences(items[k], idx) by {
                lemma_dispatch_keeps_occurrences(items[k], rules, idx);
            }
            lemma_occurrences_list_pointwise(d, items, idx);
            lemma_choice_or_dispatch_occurrences(d, rules, idx);
        },
        IrModel::Dispatch(arms) => {
            let d = dispatch_model(m, rules, false)->Dispatch_0;
            assert forall|k: int| 0 <= k < d.len() implies occurrences(*(#[trigger] d[k]).expr, idx) == occurrences(*arms[k].expr, idx) by {
                assert(decreases_to!(arms => arms[k]));
                lemma_dispatch_keeps_occurrences(*arms[k].expr, rules, idx);
            }
            lemma_occurrences_arms_pointwise(d, arms, idx);
        },
        IrModel::Scan { specials: arms, .. } => {
            let d = dispatch_model(m, rules, false)->Scan_specials;
            assert forall|k: int| 0 <= k < d.len() implies occurrences(*(#[trigger] d[k]).expr, idx) == occurrences(*arms[k].expr, idx) by {
                assert(decreases_to!(arms => arms[k]));
                lemma_dispatch_keeps_occurrences(*arms[k].expr, rules, idx);
            }
            lemma_occurrences_arms_pointwise(d, arms, idx);
        },
        IrModel::Repeat { expr: inner, .. } => lemma_dispatch_keeps_occurrences(*inner, rules, idx),
        IrModel::PosLookahead(inner) => lemma_dispatch_keeps_occurrences(*inner, rules, idx),
        IrModel::NegLookahead(inner) => lemma_dispatch_keeps_occurrences(*inner, rules, idx),
        IrModel::WithFlag { body: inner, .. } => lemma_dispatch_keeps_occurrences(*inner, rules, idx),
        IrModel::WithCounter { body: inner, .. } => lemma_dispatch_keeps_occurrences(*inner, rules, idx),
        IrModel::When { body: inner, .. } => lemma_dispatch_keeps_occurrences(*inner, rules, idx),
        IrModel::DepthLimit { body: inner, .. } => lemma_dispatch_keeps_occurrences(*inner, rules, idx),
        IrModel::Labeled { expr: inner, .. } => lemma_dispatch_keeps_occurrences(*inner, rules, idx),
        _ => {},
    }
}

/// In the optimized program, the reference count of each rule is the number
/// of references to it in the rules that are not inlined (an inlined rule's
/// body is not a call site), capped at `usize::MAX`.
pub proof fn law_ir_optimize_counts_references(p: ProgramModel, i: int)
    requires
        0 <= i < p.rules.len(),
    ensures
        ir_optimized_model(p).rules[i].ref_count as int == sat_add(
            0,
            occurrences_list(counted_exprs(ir_optimized_model(p).rules, true), i as usize) as int,
        ),
{
    let r = ir_optimized_model(p);
    let f = crate::hir::optimize::patterns::take_while_program(
        crate::hir::optimize::normalize_program(
            crate::hir::optimize::inline::small_inlining(
                crate::hir::optimize::inline::trivial_inlining(
                    crate::hir::optimize::normalize_program(crate::hir::optimize::normalize::single_char_program(p)),
                ),
            ),
        ),
    );
    let g = with_ref_counts(f);
    assert(r == dispatch_program(g, false));
    let before = counted_exprs(g.rules, true);
    let after = counted_exprs(r.rules, true);
    assert forall|k: int| 0 <= k < after.len() implies occurrences(#[trigger] after[k], i as usize) == occurrences(before[k], i as usize) by {
        assert(r.rules[k].inline == g.rules[k].inline);
        if !g.rules[k].inline {
            assert(r.rules[k].expr == dispatch_model(g.rules[k].expr, rule_exprs(g.rules), false));
            lemma_dispatch_keeps_occurrences(g.rules[k].expr, rule_exprs(g.rules), i as usize);
        }
    }
    lemma_occurrences_list_pointwise(after, before, i as usize);
    assert(before =~= counted_exprs(f.rules, true));
    let total = sat_add(0, occurrences_list(counted_exprs(f.rules, true), i as usize) as int);
    assert(0 <= total <= usize::MAX);
    assert(g.rules[i].ref_count == total as usize);
    assert(r.rules[i].ref_count == g.rules[i].ref_count);
}

/// A rule the optimizer inlines is one without guards or emitted counters:
/// starting from a program with no rule inlined, as lowering gives, every
/// rule inlined in the optimized program had neither.
pub proof fn law_ir_optimize_inlines_plain_rules(p: ProgramModel, i: int)
    requires
        0 <= i < p.rules.len(),
        forall|k: int| 0 <= k < p.rules.len() ==> !(#[trigger] p.rules[k]).inline,
    ensures
        ir_optimized_model(p).rules[i].inline ==> p.rules[i].guards.len() == 0 && p.rules[i].emits.len() == 0,
{
    let a = single_char_program(p);
    let b0 = flatten_program(a);
    let b1 = merge_program(b0);
    let b = fuse_program(b1);
    let c = trivial_inlining(b);
    let d = small_inlining(c);
    let e0 = flatten_program(d);
    let e1 = merge_program(e0);
    let e = fuse_program(e1);
    let f = take_while_program(e);
    let g = with_ref_counts(f);
    let r = dispatch_program(g, false);
    assert(b == crate::hir::optimize::normalize_program(a));
    assert(e == crate::hir::optimize::normalize_program(d));
    assert(r == ir_optimized_model(p));
    assert(b.rules[i].inline == p.rules[i].inline && b.rules[i].guards == p.rules[i].guards
        && b.rules[i].emits == p.rules[i].emits) by {
        assert(a.rules[i].inline == p.rules[i].inline && a.rules[i].guards == p.rules[i].guards && a.rules[i].emits == p.rules[i].emits);
        assert(b0.rules[i].inline == a.rules[i].inline && b0.rules[i].guards == a.rules[i].guards && b0.rules[i].emits == a.rules[i].emits);
        assert(b1.rules[i].inline == b0.rules[i].inline && b1.rules[i].guards == b0.rules[i].guards && b1.rules[i].emits == b0.rules[i].emits);
    }
    assert(c.rules[i].inline == trivial_marks(b.rules)[i]);
    assert(c.rules[i].guards == b.rules[i].guards && c.rules[i].emits == b.rules[i].emits);
    if exists|k: int| 0 <= k < c.rules.len() && small_selected(c.rules, k) {
        assert(d == crate::hir::optimize::inline::apply_inlining(c, small_marks(c.rules)));
        assert(d.rules[i].inline == small_marks(c.rules)[i]);
    } else {
        assert(d == c);
    }
    assert(r.rules[i].inline == d.rules[i].inline) by {
        assert(e0.rules[i].inline == d.rules[i].inline);
        assert(e1.rules[i].inline == e0.rules[i].inline);
        assert(e.rules[i].inline == e1.rules[i].inline);
        assert(f.rules[i].inline == e.rules[i].inline);
        assert(g.rules[i].inline == f.rules[i].inline);
        assert(r.rules[i].inline == g.rules[i].inline);
    }
}

/// Small single-use inlining selects the rules referred to exactly once in
/// all rule expressions, without guards, emitted counters or error label,
/// costing at most 14 and not referring to themselves; with none selected
/// the program is unchanged. Otherwise each selected rule becomes inlined,
/// every other flag stays, names, guards, emits, labels and counts stay,
/// and every reference to an inlined rule is replaced, one level deep, by
/// that rule's expression.
pub proof fn law_small_inlining_selects_and_replaces(p: ProgramModel)
    ensures
        small_inlining(p).rules.len() == p.rules.len(),
        small_inlining(p).state_decls == p.state_decls,
        (forall|i: int| 0 <= i < p.rules.len() ==> !small_selected(p.rules, i)) ==> small_inlining(p) == p,
        (exists|i: int| 0 <= i < p.rules.len() && small_selected(p.rules, i)) ==> forall|i: int|
            0 <= i < p.rules.len() ==> {
                let r = #[trigger] small_inlining(p).rules[i];
                let q = p.rules[i];
                &&& r.inline == (q.inline || small_selected(p.rules, i))
                &&& r.name == q.name
                &&& r.error_label == q.error_label
                &&& r.guards == q.guards
                &&& r.emits == q.emits
                &&& r.ref_count == q.ref_count
                &&& r.expr == crate::hir::optimize::inline::inline_model(
                    q.expr,
                    crate::hir::optimize::inline::inline_table(p.rules, small_marks(p.rules)),
                )
            },
{
}

} // verus!
