//! Recognition of fused repetition patterns.
use crate::ast::{copy_condition, copy_string};
use crate::hir::expr::{arm_models, copy_expr, copy_ranges, ir_models, lemma_arm_models_index, lemma_models_index, ArmModel, DispatchArm, IrExpr, IrModel};
use crate::hir::program::{ProgramModel, rule_model, rule_models, with_expr, with_exprs, IrProgram};
use vstd::prelude::*;

verus! {

/// A repetition of a character set becomes a `TakeWhile` over the same ranges and bounds; everything else is rebuilt around its rewritten parts.
pub open spec fn take_while_model(m: IrModel) -> IrModel
    decreases m,
{
    match m {
        IrModel::Sequence(items) => IrModel::Sequence(Seq::new(items.len(), |i: int| if 0 <= i < items.len() { take_while_model(items[i]) } else { IrModel::Any })),
        IrModel::Choice(items) => IrModel::Choice(Seq::new(items.len(), |i: int| if 0 <= i < items.len() { take_while_model(items[i]) } else { IrModel::Any })),
        IrModel::Dispatch(arms) => IrModel::Dispatch(Seq::new(arms.len(), |i: int| if 0 <= i < arms.len() { ArmModel { ranges: arms[i].ranges, expr: Box::new(take_while_model(*arms[i].expr)) } } else { ArmModel { ranges: Seq::empty(), expr: Box::new(IrModel::Any) } })),
        IrModel::Repeat { expr, min, max } => {
            let inner = take_while_model(*expr);
            if inner is CharSet {
                IrModel::TakeWhile { ranges: inner->CharSet_0, min, max }
            } else {
                IrModel::Repeat { expr: Box::new(inner), min, max }
            }
        },
        IrModel::PosLookahead(inner) => IrModel::PosLookahead(Box::new(take_while_model(*inner))),
        IrModel::NegLookahead(inner) => IrModel::NegLookahead(Box::new(take_while_model(*inner))),
        IrModel::WithFlag { flag, body } => IrModel::WithFlag { flag, body: Box::new(take_while_model(*body)) },
        IrModel::WithCounter { counter, amount, body } => IrModel::WithCounter { counter, amount, body: Box::new(take_while_model(*body)) },
        IrModel::When { condition, body } => IrModel::When { condition, body: Box::new(take_while_model(*body)) },
        IrModel::DepthLimit { limit, body } => IrModel::DepthLimit { limit, body: Box::new(take_while_model(*body)) },
        IrModel::Scan { plain_ranges, specials, min } => IrModel::Scan { plain_ranges, specials: Seq::new(specials.len(), |i: int| if 0 <= i < specials.len() { ArmModel { ranges: specials[i].ranges, expr: Box::new(take_while_model(*specials[i].expr)) } } else { ArmModel { ranges: Seq::empty(), expr: Box::new(IrModel::Any) } }), min },
        IrModel::Labeled { expr, label } => IrModel::Labeled { expr: Box::new(take_while_model(*expr)), label },
        IrModel::SeparatedList { first, rest } => IrModel::SeparatedList { first: Box::new(take_while_model(*first)), rest: Box::new(take_while_model(*rest)) },
        other => other,
    }
}

pub(crate) fn recognize_take_while_expr(e: &IrExpr) -> (res: IrExpr)
    ensures
        res@ == take_while_model(e@),
    decreases e,
{
    match e {
        IrExpr::Sequence(items) => {
            let r = recognize_take_while_expr_list(items);
            let res = IrExpr::Sequence(r);
            proof {
                lemma_models_index(r@);
                lemma_models_index(items@);
                assert(ir_models(r@) =~= take_while_model(e@)->Sequence_0);
            }
            res
        },
        IrExpr::Choice(items) => {
            let r = recognize_take_while_expr_list(items);
            let res = IrExpr::Choice(r);
            proof {
                lemma_models_index(r@);
                lemma_models_index(items@);
                assert(ir_models(r@) =~= take_while_model(e@)->Choice_0);
            }
            res
        },
        IrExpr::Dispatch(arms) => {
            let r = recognize_take_while_expr_arms(arms);
            let res = IrExpr::Dispatch(r);
            proof {
                lemma_arm_models_index(r@);
                lemma_arm_models_index(arms@);
                assert(arm_models(r@) =~= take_while_model(e@)->Dispatch_0);
            }
            res
        },
        IrExpr::Repeat { expr, min, max } => {
            let inner = recognize_take_while_expr(expr);
            match inner {
                IrExpr::CharSet(ranges) => IrExpr::TakeWhile { ranges, min: *min, max: *max },
                other => IrExpr::Repeat { expr: Box::new(other), min: *min, max: *max },
            }
        },
        IrExpr::PosLookahead(inner) => IrExpr::PosLookahead(Box::new(recognize_take_while_expr(inner))),
        IrExpr::NegLookahead(inner) => IrExpr::NegLookahead(Box::new(recognize_take_while_expr(inner))),
        IrExpr::WithFlag { flag, body } => IrExpr::WithFlag { flag: copy_string(flag), body: Box::new(recognize_take_while_expr(body)) },
        IrExpr::WithCounter { counter, amount, body } => IrExpr::WithCounter { counter: copy_string(counter), amount: *amount, body: Box::new(recognize_take_while_expr(body)) },
        IrExpr::When { condition, body } => IrExpr::When { condition: copy_condition(condition), body: Box::new(recognize_take_while_expr(body)) },
        IrExpr::DepthLimit { limit, body } => IrExpr::DepthLimit { limit: *limit, body: Box::new(recognize_take_while_expr(body)) },
        IrExpr::Scan { plain_ranges, specials, min } => {
            let r = recognize_take_while_expr_arms(specials);
            let res = IrExpr::Scan { plain_ranges: copy_ranges(plain_ranges), specials: r, min: *min };
            proof {
                lemma_arm_models_index(r@);
                lemma_arm_models_index(specials@);
                assert(arm_models(r@) =~= take_while_model(e@)->specials);
            }
            res
        },
        IrExpr::Labeled { expr, label } => IrExpr::Labeled { expr: Box::new(recognize_take_while_expr(expr)), label: copy_string(label) },
        IrExpr::SeparatedList { first, rest } => IrExpr::SeparatedList { first: Box::new(recognize_take_while_expr(first)), rest: Box::new(recognize_take_while_expr(rest)) },
        _ => copy_expr(e),
    }
}

fn recognize_take_while_expr_list(items: &Vec<IrExpr>) -> (res: Vec<IrExpr>)
    ensures
        res@.len() == items@.len(),
        forall|k: int| 0 <= k < items@.len() ==> (#[trigger] res@[k])@ == take_while_model(items@[k]@),
    decreases items,
{
    let mut res: Vec<IrExpr> = Vec::new();
    let mut i: usize = 0;
    while i < items.len()
        invariant
            i <= items@.len(),
            res@.len() == i,
            forall|k: int| 0 <= k < i ==> (#[trigger] res@[k])@ == take_while_model(items@[k]@),
        decreases items@.len() - i,
    {
        proof {
            assert(decreases_to!(items => items@[i as int]));
        }
        res.push(recognize_take_while_expr(&items[i]));
        i = i + 1;
    }
    res
}

fn recognize_take_while_expr_arms(arms: &Vec<DispatchArm>) -> (res: Vec<DispatchArm>)
    ensures
        res@.len() == arms@.len(),
        forall|k: int| 0 <= k < arms@.len() ==> (#[trigger] res@[k]).ranges@ == arms@[k].ranges@ && (*res@[k].expr)@ == take_while_model((*arms@[k].expr)@),
    decreases arms,
{
    let mut res: Vec<DispatchArm> = Vec::new();
    let mut i: usize = 0;
    while i < arms.len()
        invariant
            i <= arms@.len(),
            res@.len() == i,
            forall|k: int| 0 <= k < i ==> (#[trigger] res@[k]).ranges@ == arms@[k].ranges@ && (*res@[k].expr)@ == take_while_model((*arms@[k].expr)@),
        decreases arms@.len() - i,
    {
        proof {
            assert(decreases_to!(arms => arms@[i as int]));
        }
        let arm = &arms[i];
        let expr = recognize_take_while_expr(&arm.expr);
        res.push(DispatchArm { ranges: copy_ranges(&arm.ranges), expr: Box::new(expr) });
        i = i + 1;
    }
    res
}

/// Every rule with its repetitions of character sets fused.
pub open spec fn take_while_program(p: ProgramModel) -> ProgramModel {
    with_exprs(p, |m: IrModel| take_while_model(m))
}

/// Fuse every repetition of a character set into a `TakeWhile`.
pub(crate) fn recognize_take_while(program: IrProgram) -> (res: IrProgram)
    ensures
        res@ == take_while_program(program@),
{
    let mut program = program;
    let ghost old_model = program@;
    let mut i: usize = 0;
    while i < program.rules.len()
        invariant
            i <= program.rules@.len(),
            program.rules@.len() == old_model.rules.len(),
            program@.state_decls == old_model.state_decls,
            forall|k: int| 0 <= k < i ==> rule_model(#[trigger] program.rules@[k]) == with_expr(old_model.rules[k], take_while_model(old_model.rules[k].expr)),
            forall|k: int| i <= k < program.rules@.len() ==> rule_model(#[trigger] program.rules@[k]) == old_model.rules[k],
        decreases program.rules@.len() - i,
    {
        let new_expr = recognize_take_while_expr(&program.rules[i].expr);
        let ghost before = program.rules@;
        program.rules[i].expr = new_expr;
        proof {
            assert(rule_model(program.rules@[i as int]) =~= with_expr(old_model.rules[i as int], take_while_model(old_model.rules[i as int].expr)));
            assert forall|k: int| 0 <= k < program.rules@.len() && k != i implies program.rules@[k] == before[k] by {}
        }
        i = i + 1;
    }
    proof {
        assert(rule_models(program.rules@) =~= with_exprs(old_model, |m: IrModel| take_while_model(m)).rules);
        assert(program@ =~= with_exprs(old_model, |m: IrModel| take_while_model(m)));
    }
    program
}


// ── Laws ──

/// A repetition of a character set becomes a character-class run over the
/// same ranges with the same bounds.
pub proof fn law_take_while_keeps_set_and_bounds(r: Seq<crate::ranges::CharRange>, min: u32, max: Option<u32>)
    ensures
        take_while_model(IrModel::Repeat { expr: Box::new(IrModel::CharSet(r)), min, max }) == (IrModel::TakeWhile {
            ranges: r,
            min,
            max,
        }),
{
    assert(take_while_model(IrModel::CharSet(r)) == IrModel::CharSet(r));
}

/// A repetition becomes a character-class run only with the repetition's
/// own bounds; otherwise it stays a repetition of its rewritten body.
pub proof fn law_take_while_only_from_repetition(e: IrModel, min: u32, max: Option<u32>)
    ensures
        take_while_model(IrModel::Repeat { expr: Box::new(e), min, max }) is TakeWhile ==> take_while_model(
            IrModel::Repeat { expr: Box::new(e), min, max },
        )->TakeWhile_min == min && take_while_model(IrModel::Repeat { expr: Box::new(e), min, max })->TakeWhile_max
            == max,
        !(take_while_model(IrModel::Repeat { expr: Box::new(e), min, max }) is TakeWhile) ==> take_while_model(
            IrModel::Repeat { expr: Box::new(e), min, max },
        ) == (IrModel::Repeat { expr: Box::new(take_while_model(e)), min, max }),
{
}

} // verus!
