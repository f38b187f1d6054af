//! Recognition of delimited expressions: an opening literal, a repetition
//! of zero or more, and a closing literal, such as a quoted string.
use crate::ast::{copy_condition, copy_string};
use crate::hir::expr::{arm_models, copy_expr, copy_ranges, ir_models, lemma_arm_models_index, lemma_models_index, ArmModel, DispatchArm, IrExpr, IrModel};
use crate::hir::program::{ProgramModel, rule_model, rule_models, with_expr, with_exprs, IrProgram};
use vstd::prelude::*;

verus! {

/// A repetition that may match zero times and has no upper bound: a plain
/// repetition, a fused character-class repetition or a scanner.
pub open spec fn zero_or_more(m: IrModel) -> bool {
    match m {
        IrModel::Repeat { min, max, .. } => min == 0 && max is None,
        IrModel::TakeWhile { min, max, .. } => min == 0 && max is None,
        IrModel::Scan { min, .. } => min == 0,
        _ => false,
    }
}

/// `open body close`, with literals around a repetition of zero or more,
/// becomes a delimited expression; any other sequence stays.
pub open spec fn delimited_seq_model(items: Seq<IrModel>) -> IrModel {
    if items.len() == 3 && items[0] is Literal && items[2] is Literal && zero_or_more(items[1]) {
        IrModel::Delimited { open: items[0]->Literal_0, body: Box::new(items[1]), close: items[2]->Literal_0 }
    } else {
        IrModel::Sequence(items)
    }
}

/// Whether a rewritten expression is a repetition of zero or more.
fn is_zero_or_more(e: &IrExpr) -> (res: bool)
    ensures
        res == zero_or_more(e@),
{
    match e {
        IrExpr::Repeat { min, max, .. } => *min == 0 && max.is_none(),
        IrExpr::TakeWhile { min, max, .. } => *min == 0 && max.is_none(),
        IrExpr::Scan { min, .. } => *min == 0,
        _ => false,
    }
}

/// A sequence of the already rewritten `items`, as a delimited expression
/// when it has that shape.
fn delimited_seq(items: Vec<IrExpr>) -> (res: IrExpr)
    ensures
        res@ == delimited_seq_model(ir_models(items@)),
{
    proof {
        lemma_models_index(items@);
    }
    if items.len() == 3 {
        if let IrExpr::Literal(open) = &items[0] {
            if let IrExpr::Literal(close) = &items[2] {
                if is_zero_or_more(&items[1]) {
                    proof {
                        assert(ir_models(items@)[0] == items@[0]@);
                        assert(ir_models(items@)[1] == items@[1]@);
                        assert(ir_models(items@)[2] == items@[2]@);
                    }
                    return IrExpr::Delimited { open: copy_string(open), body: Box::new(copy_expr(&items[1])), close: copy_string(close) };
                }
            }
        }
        proof {
            assert(ir_models(items@)[0] == items@[0]@);
            assert(ir_models(items@)[1] == items@[1]@);
            assert(ir_models(items@)[2] == items@[2]@);
        }
    }
    IrExpr::Sequence(items)
}

/// Every item of `items`, rewritten.
pub open spec fn delimited_all(items: Seq<IrModel>) -> Seq<IrModel>
    decreases items,
{
    Seq::new(items.len(), |i: int| if 0 <= i < items.len() { delimited_model(items[i]) } else { IrModel::Any })
}

/// Every sequence of a literal, a repetition of zero or more and a literal,
/// after its items are rewritten, becomes a delimited expression.
pub open spec fn delimited_model(m: IrModel) -> IrModel
    decreases m,
{
    match m {
        IrModel::Sequence(items) => delimited_seq_model(delimited_all(items)),
        IrModel::Choice(items) => IrModel::Choice(Seq::new(items.len(), |i: int| if 0 <= i < items.len() { delimited_model(items[i]) } else { IrModel::Any })),
        IrModel::Dispatch(arms) => IrModel::Dispatch(Seq::new(arms.len(), |i: int| if 0 <= i < arms.len() { ArmModel { ranges: arms[i].ranges, expr: Box::new(delimited_model(*arms[i].expr)) } } else { ArmModel { ranges: Seq::empty(), expr: Box::new(IrModel::Any) } })),
        IrModel::Repeat { expr, min, max } => IrModel::Repeat { expr: Box::new(delimited_model(*expr)), min, max },
        IrModel::PosLookahead(inner) => IrModel::PosLookahead(Box::new(delimited_model(*inner))),
        IrModel::NegLookahead(inner) => IrModel::NegLookahead(Box::new(delimited_model(*inner))),
        IrModel::WithFlag { flag, body } => IrModel::WithFlag { flag, body: Box::new(delimited_model(*body)) },
        IrModel::WithCounter { counter, amount, body } => IrModel::WithCounter { counter, amount, body: Box::new(delimited_model(*body)) },
        IrModel::When { condition, body } => IrModel::When { condition, body: Box::new(delimited_model(*body)) },
        IrModel::DepthLimit { limit, body } => IrModel::DepthLimit { limit, body: Box::new(delimited_model(*body)) },
        IrModel::Scan { plain_ranges, specials, min } => IrModel::Scan { plain_ranges, specials: Seq::new(specials.len(), |i: int| if 0 <= i < specials.len() { ArmModel { ranges: specials[i].ranges, expr: Box::new(delimited_model(*specials[i].expr)) } } else { ArmModel { ranges: Seq::empty(), expr: Box::new(IrModel::Any) } }), min },
        IrModel::Labeled { expr, label } => IrModel::Labeled { expr: Box::new(delimited_model(*expr)), label },
        IrModel::SeparatedList { first, rest } => IrModel::SeparatedList { first: Box::new(delimited_model(*first)), rest: Box::new(delimited_model(*rest)) },
        IrModel::Delimited { open, body, close } => IrModel::Delimited { open, body: Box::new(delimited_model(*body)), close },
        other => other,
    }
}

pub(crate) fn recognize_delimited_expr(e: &IrExpr) -> (res: IrExpr)
    ensures
        res@ == delimited_model(e@),
    decreases e,
{
    match e {
        IrExpr::Sequence(items) => {
            let r = recognize_delimited_expr_list(items);
            proof {
                lemma_models_index(r@);
                lemma_models_index(items@);
                assert(ir_models(r@) =~= delimited_all(ir_models(items@)));
            }
            delimited_seq(r)
        },
        IrExpr::Choice(items) => {
            let r = recognize_delimited_expr_list(items);
            let res = IrExpr::Choice(r);
            proof {
                lemma_models_index(r@);
                lemma_models_index(items@);
                assert(ir_models(r@) =~= delimited_model(e@)->Choice_0);
            }
            res
        },
        IrExpr::Dispatch(arms) => {
            let r = recognize_delimited_expr_arms(arms);
            let res = IrExpr::Dispatch(r);
            proof {
                lemma_arm_models_index(r@);
                lemma_arm_models_index(arms@);
                assert(arm_models(r@) =~= delimited_model(e@)->Dispatch_0);
            }
            res
        },
        IrExpr::Repeat { expr, min, max } => IrExpr::Repeat { expr: Box::new(recognize_delimited_expr(expr)), min: *min, max: *max },
        IrExpr::PosLookahead(inner) => IrExpr::PosLookahead(Box::new(recognize_delimited_expr(inner))),
        IrExpr::NegLookahead(inner) => IrExpr::NegLookahead(Box::new(recognize_delimited_expr(inner))),
        IrExpr::WithFlag { flag, body } => IrExpr::WithFlag { flag: copy_string(flag), body: Box::new(recognize_delimited_expr(body)) },
        IrExpr::WithCounter { counter, amount, body } => IrExpr::WithCounter { counter: copy_string(counter), amount: *amount, body: Box::new(recognize_delimited_expr(body)) },
        IrExpr::When { condition, body } => IrExpr::When { condition: copy_condition(condition), body: Box::new(recognize_delimited_expr(body)) },
        IrExpr::DepthLimit { limit, body } => IrExpr::DepthLimit { limit: *limit, body: Box::new(recognize_delimited_expr(body)) },
        IrExpr::Scan { plain_ranges, specials, min } => {
            let r = recognize_delimited_expr_arms(specials);
            let res = IrExpr::Scan { plain_ranges: copy_ranges(plain_ranges), specials: r, min: *min };
            proof {
                lemma_arm_models_index(r@);
                lemma_arm_models_index(specials@);
                assert(arm_models(r@) =~= delimited_model(e@)->specials);
            }
            res
        },
        IrExpr::Labeled { expr, label } => IrExpr::Labeled { expr: Box::new(recognize_delimited_expr(expr)), label: copy_string(label) },
        IrExpr::SeparatedList { first, rest } => IrExpr::SeparatedList { first: Box::new(recognize_delimited_expr(first)), rest: Box::new(recognize_delimited_expr(rest)) },
        IrExpr::Delimited { open, body, close } => IrExpr::Delimited { open: copy_string(open), body: Box::new(recognize_delimited_expr(body)), close: copy_string(close) },
        _ => copy_expr(e),
    }
}

fn recognize_delimited_expr_list(items: &Vec<IrExpr>) -> (res: Vec<IrExpr>)
    ensures
        res@.len() == items@.len(),
        forall|k: int| 0 <= k < items@.len() ==> (#[trigger] res@[k])@ == delimited_model(items@[k]@),
    decreases items,
{
    let mut res: Vec<IrExpr> = Vec::new();
    let mut i: usize = 0;
    while i < items.len()
        invariant
            i <= items@.len(),
            res@.len() == i,
            forall|k: int| 0 <= k < i ==> (#[trigger] res@[k])@ == delimited_model(items@[k]@),
        decreases items@.len() - i,
    {
        proof {
            assert(decreases_to!(items => items@[i as int]));
        }
        res.push(recognize_delimited_expr(&items[i]));
        i = i + 1;
    }
    res
}

fn recognize_delimited_expr_arms(arms: &Vec<DispatchArm>) -> (res: Vec<DispatchArm>)
    ensures
        res@.len() == arms@.len(),
        forall|k: int| 0 <= k < arms@.len() ==> (#[trigger] res@[k]).ranges@ == arms@[k].ranges@ && (*res@[k].expr)@ == delimited_model((*arms@[k].expr)@),
    decreases arms,
{
    let mut res: Vec<DispatchArm> = Vec::new();
    let mut i: usize = 0;
    while i < arms.len()
        invariant
            i <= arms@.len(),
            res@.len() == i,
            forall|k: int| 0 <= k < i ==> (#[trigger] res@[k]).ranges@ == arms@[k].ranges@ && (*res@[k].expr)@ == delimited_model((*arms@[k].expr)@),
        decreases arms@.len() - i,
    {
        proof {
            assert(decreases_to!(arms => arms@[i as int]));
        }
        let arm = &arms[i];
        let expr = recognize_delimited_expr(&arm.expr);
        res.push(DispatchArm { ranges: copy_ranges(&arm.ranges), expr: Box::new(expr) });
        i = i + 1;
    }
    res
}

/// Every rule with its delimited expressions recognized.
pub open spec fn delimited_program(p: ProgramModel) -> ProgramModel {
    with_exprs(p, |m: IrModel| delimited_model(m))
}

/// Turn every sequence of a literal, a repetition of zero or more and a
/// literal into a delimited expression.
pub(crate) fn recognize_delimited(program: IrProgram) -> (res: IrProgram)
    ensures
        res@ == delimited_program(program@),
{
    let mut program = program;
    let ghost old_model = program@;
    let mut i: usize = 0;
    while i < program.rules.len()
        invariant
            i <= program.rules@.len(),
            program.rules@.len() == old_model.rules.len(),
            program@.state_decls == old_model.state_decls,
            forall|k: int| 0 <= k < i ==> rule_model(#[trigger] program.rules@[k]) == with_expr(old_model.rules[k], delimited_model(old_model.rules[k].expr)),
            forall|k: int| i <= k < program.rules@.len() ==> rule_model(#[trigger] program.rules@[k]) == old_model.rules[k],
        decreases program.rules@.len() - i,
    {
        let new_expr = recognize_delimited_expr(&program.rules[i].expr);
        let ghost before = program.rules@;
        program.rules[i].expr = new_expr;
        proof {
            assert(rule_model(program.rules@[i as int]) =~= with_expr(old_model.rules[i as int], delimited_model(old_model.rules[i as int].expr)));
            assert forall|k: int| 0 <= k < program.rules@.len() && k != i implies program.rules@[k] == before[k] by {}
        }
        i = i + 1;
    }
    proof {
        assert(rule_models(program.rules@) =~= with_exprs(old_model, |m: IrModel| delimited_model(m)).rules);
        assert(program@ =~= with_exprs(old_model, |m: IrModel| delimited_model(m)));
    }
    program
}


// ── Laws ──

/// A literal, a repetition of zero or more and a literal become a delimited
/// expression that opens with the first literal, closes with the second,
/// and has the repetition (rewritten) as its body.
pub proof fn law_delimited_keeps_order(open: Seq<char>, body: IrModel, close: Seq<char>)
    requires
        zero_or_more(delimited_model(body)),
    ensures
        delimited_model(IrModel::Sequence(seq![IrModel::Literal(open), body, IrModel::Literal(close)])) == (
        IrModel::Delimited { open, body: Box::new(delimited_model(body)), close }),
{
    let items = seq![IrModel::Literal(open), body, IrModel::Literal(close)];
    let l = delimited_all(items);
    assert(l[0] == delimited_model(items[0]));
    assert(l[1] == delimited_model(items[1]));
    assert(l[2] == delimited_model(items[2]));
}

/// A delimited expression comes only from a sequence of three items: its
/// opening literal is the first item, its body the second (rewritten), and
/// its closing literal the third.
pub proof fn law_delimited_comes_from_three_items(items: Seq<IrModel>)
    ensures
        delimited_model(IrModel::Sequence(items)) is Delimited ==> items.len() == 3,
        delimited_model(IrModel::Sequence(items)) is Delimited ==> items[0] == IrModel::Literal(
            delimited_model(IrModel::Sequence(items))->open,
        ),
        delimited_model(IrModel::Sequence(items)) is Delimited ==> *delimited_model(IrModel::Sequence(items))->Delimited_body
            == delimited_model(items[1]),
        delimited_model(IrModel::Sequence(items)) is Delimited ==> items[2] == IrModel::Literal(
            delimited_model(IrModel::Sequence(items))->close,
        ),
{
    let l = delimited_all(items);
    if items.len() == 3 {
        assert(l[0] == delimited_model(items[0]));
        assert(l[1] == delimited_model(items[1]));
        assert(l[2] == delimited_model(items[2]));
    }
}

} // verus!
