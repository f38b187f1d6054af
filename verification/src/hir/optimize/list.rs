//! Recognition of separated lists.
use crate::ast::{copy_condition, copy_string};
use crate::hir::expr::{arm_models, copy_expr, copy_ranges, ir_models, lemma_arm_models_index, lemma_models_index, ArmModel, DispatchArm, IrExpr, IrModel};
use crate::hir::program::{ProgramModel, rule_model, rule_models, with_expr, with_exprs, IrProgram};
use vstd::prelude::*;

verus! {

/// A sequence of at least two items: the shape of a separator followed by an element.
pub open spec fn separated_tail(m: IrModel) -> bool {
    match m {
        IrModel::Sequence(parts) => parts.len() >= 2,
        _ => false,
    }
}

/// `first (sep elem)*` becomes a separated list; any other sequence stays.
pub open spec fn list_seq_model(items: Seq<IrModel>) -> IrModel {
    if items.len() == 2 {
        match items[1] {
            IrModel::Repeat { expr, min, max } => if min == 0 && max is None && separated_tail(*expr) {
                IrModel::SeparatedList { first: Box::new(items[0]), rest: expr }
            } else {
                IrModel::Sequence(items)
            },
            _ => IrModel::Sequence(items),
        }
    } else {
        IrModel::Sequence(items)
    }
}

/// Every item of `items`, rewritten.
pub open spec fn list_all(items: Seq<IrModel>) -> Seq<IrModel>
    decreases items,
{
    Seq::new(items.len(), |i: int| if 0 <= i < items.len() { list_model(items[i]) } else { IrModel::Any })
}

/// A sequence of the already rewritten `items`, as a separated list when it has that shape.
fn list_seq(items: Vec<IrExpr>) -> (res: IrExpr)
    ensures
        res@ == list_seq_model(ir_models(items@)),
{
    proof {
        lemma_models_index(items@);
    }
    if items.len() == 2 {
        match &items[1] {
            IrExpr::Repeat { expr, min, max } => {
                let tail = match &**expr {
                    IrExpr::Sequence(parts) => {
                        proof {
                            lemma_models_index(parts@);
                        }
                        parts.len() >= 2
                    },
                    _ => false,
                };
                proof {
                    assert(ir_models(items@)[1] == items@[1]@);
                    assert(tail == separated_tail((**expr)@));
                }
                if *min == 0 && max.is_none() && tail {
                    proof {
                        lemma_models_index(items@);
                    }
                    let res = IrExpr::SeparatedList { first: Box::new(copy_expr(&items[0])), rest: Box::new(copy_expr(expr)) };
                    proof {
                        assert(ir_models(items@)[0] == items@[0]@);
                    }
                    return res;
                }
            },
            _ => {},
        }
    }
    IrExpr::Sequence(items)
}

/// Every sequence `first (sep elem)*`, after its items are rewritten, becomes a separated list.
pub open spec fn list_model(m: IrModel) -> IrModel
    decreases m,
{
    match m {
        IrModel::Sequence(items) => list_seq_model(list_all(items)),
        IrModel::Choice(items) => IrModel::Choice(Seq::new(items.len(), |i: int| if 0 <= i < items.len() { list_model(items[i]) } else { IrModel::Any })),
        IrModel::Dispatch(arms) => IrModel::Dispatch(Seq::new(arms.len(), |i: int| if 0 <= i < arms.len() { ArmModel { ranges: arms[i].ranges, expr: Box::new(list_model(*arms[i].expr)) } } else { ArmModel { ranges: Seq::empty(), expr: Box::new(IrModel::Any) } })),
        IrModel::Repeat { expr, min, max } => IrModel::Repeat { expr: Box::new(list_model(*expr)), min, max },
        IrModel::PosLookahead(inner) => IrModel::PosLookahead(Box::new(list_model(*inner))),
        IrModel::NegLookahead(inner) => IrModel::NegLookahead(Box::new(list_model(*inner))),
        IrModel::WithFlag { flag, body } => IrModel::WithFlag { flag, body: Box::new(list_model(*body)) },
        IrModel::WithCounter { counter, amount, body } => IrModel::WithCounter { counter, amount, body: Box::new(list_model(*body)) },
        IrModel::When { condition, body } => IrModel::When { condition, body: Box::new(list_model(*body)) },
        IrModel::DepthLimit { limit, body } => IrModel::DepthLimit { limit, body: Box::new(list_model(*body)) },
        IrModel::Scan { plain_ranges, specials, min } => IrModel::Scan { plain_ranges, specials: Seq::new(specials.len(), |i: int| if 0 <= i < specials.len() { ArmModel { ranges: specials[i].ranges, expr: Box::new(list_model(*specials[i].expr)) } } else { ArmModel { ranges: Seq::empty(), expr: Box::new(IrModel::Any) } }), min },
        IrModel::Labeled { expr, label } => IrModel::Labeled { expr: Box::new(list_model(*expr)), label },
        IrModel::SeparatedList { first, rest } => IrModel::SeparatedList { first: Box::new(list_model(*first)), rest: Box::new(list_model(*rest)) },
        other => other,
    }
}

pub(crate) fn recognize_list_expr(e: &IrExpr) -> (res: IrExpr)
    ensures
        res@ == list_model(e@),
    decreases e,
{
    match e {
        IrExpr::Sequence(items) => {
            let r = recognize_list_expr_list(items);
            proof {
                lemma_models_index(r@);
                lemma_models_index(items@);
                assert(ir_models(r@) =~= list_all(ir_models(items@)));
            }
            list_seq(r)
        },
        IrExpr::Choice(items) => {
            let r = recognize_list_expr_list(items);
            let res = IrExpr::Choice(r);
            proof {
                lemma_models_index(r@);
                lemma_models_index(items@);
                assert(ir_models(r@) =~= list_model(e@)->Choice_0);
            }
            res
        },
        IrExpr::Dispatch(arms) => {
            let r = recognize_list_expr_arms(arms);
            let res = IrExpr::Dispatch(r);
            proof {
                lemma_arm_models_index(r@);
                lemma_arm_models_index(arms@);
                assert(arm_models(r@) =~= list_model(e@)->Dispatch_0);
            }
            res
        },
        IrExpr::Repeat { expr, min, max } => IrExpr::Repeat { expr: Box::new(recognize_list_expr(expr)), min: *min, max: *max },
        IrExpr::PosLookahead(inner) => IrExpr::PosLookahead(Box::new(recognize_list_expr(inner))),
        IrExpr::NegLookahead(inner) => IrExpr::NegLookahead(Box::new(recognize_list_expr(inner))),
        IrExpr::WithFlag { flag, body } => IrExpr::WithFlag { flag: copy_string(flag), body: Box::new(recognize_list_expr(body)) },
        IrExpr::WithCounter { counter, amount, body } => IrExpr::WithCounter { counter: copy_string(counter), amount: *amount, body: Box::new(recognize_list_expr(body)) },
        IrExpr::When { condition, body } => IrExpr::When { condition: copy_condition(condition), body: Box::new(recognize_list_expr(body)) },
        IrExpr::DepthLimit { limit, body } => IrExpr::DepthLimit { limit: *limit, body: Box::new(recognize_list_expr(body)) },
        IrExpr::Scan { plain_ranges, specials, min } => {
            let r = recognize_list_expr_arms(specials);
            let res = IrExpr::Scan { plain_ranges: copy_ranges(plain_ranges), specials: r, min: *min };
            proof {
                lemma_arm_models_index(r@);
                lemma_arm_models_index(specials@);
                assert(arm_models(r@) =~= list_model(e@)->specials);
            }
            res
        },
        IrExpr::Labeled { expr, label } => IrExpr::Labeled { expr: Box::new(recognize_list_expr(expr)), label: copy_string(label) },
        IrExpr::SeparatedList { first, rest } => IrExpr::SeparatedList { first: Box::new(recognize_list_expr(first)), rest: Box::new(recognize_list_expr(rest)) },
        _ => copy_expr(e),
    }
}

fn recognize_list_expr_list(items: &Vec<IrExpr>) -> (res: Vec<IrExpr>)
    ensures
        res@.len() == items@.len(),
        forall|k: int| 0 <= k < items@.len() ==> (#[trigger] res@[k])@ == list_model(items@[k]@),
    decreases items,
{
    let mut res: Vec<IrExpr> = Vec::new();
    let mut i: usize = 0;
    while i < items.len()
        invariant
            i <= items@.len(),
            res@.len() == i,
            forall|k: int| 0 <= k < i ==> (#[trigger] res@[k])@ == list_model(items@[k]@),
        decreases items@.len() - i,
    {
        proof {
            assert(decreases_to!(items => items@[i as int]));
        }
        res.push(recognize_list_expr(&items[i]));
        i = i + 1;
    }
    res
}

fn recognize_list_expr_arms(arms: &Vec<DispatchArm>) -> (res: Vec<DispatchArm>)
    ensures
        res@.len() == arms@.len(),
        forall|k: int| 0 <= k < arms@.len() ==> (#[trigger] res@[k]).ranges@ == arms@[k].ranges@ && (*res@[k].expr)@ == list_model((*arms@[k].expr)@),
    decreases arms,
{
    let mut res: Vec<DispatchArm> = Vec::new();
    let mut i: usize = 0;
    while i < arms.len()
        invariant
            i <= arms@.len(),
            res@.len() == i,
            forall|k: int| 0 <= k < i ==> (#[trigger] res@[k]).ranges@ == arms@[k].ranges@ && (*res@[k].expr)@ == list_model((*arms@[k].expr)@),
        decreases arms@.len() - i,
    {
        proof {
            assert(decreases_to!(arms => arms@[i as int]));
        }
        let arm = &arms[i];
        let expr = recognize_list_expr(&arm.expr);
        res.push(DispatchArm { ranges: copy_ranges(&arm.ranges), expr: Box::new(expr) });
        i = i + 1;
    }
    res
}

/// Every rule with its separated lists recognized.
pub open spec fn list_program(p: ProgramModel) -> ProgramModel {
    with_exprs(p, |m: IrModel| list_model(m))
}

/// Turn every sequence of an item and an unbounded repetition of a separator-and-item sequence into a separated list.
pub(crate) fn recognize_separated_list(program: IrProgram) -> (res: IrProgram)
    ensures
        res@ == list_program(program@),
{
    let mut program = program;
    let ghost old_model = program@;
    let mut i: usize = 0;
    while i < program.rules.len()
        invariant
            i <= program.rules@.len(),
            program.rules@.len() == old_model.rules.len(),
            program@.state_decls == old_model.state_decls,
            forall|k: int| 0 <= k < i ==> rule_model(#[trigger] program.rules@[k]) == with_expr(old_model.rules[k], list_model(old_model.rules[k].expr)),
            forall|k: int| i <= k < program.rules@.len() ==> rule_model(#[trigger] program.rules@[k]) == old_model.rules[k],
        decreases program.rules@.len() - i,
    {
        let new_expr = recognize_list_expr(&program.rules[i].expr);
        let ghost before = program.rules@;
        program.rules[i].expr = new_expr;
        proof {
            assert(rule_model(program.rules@[i as int]) =~= with_expr(old_model.rules[i as int], list_model(old_model.rules[i as int].expr)));
            assert forall|k: int| 0 <= k < program.rules@.len() && k != i implies program.rules@[k] == before[k] by {}
        }
        i = i + 1;
    }
    proof {
        assert(rule_models(program.rules@) =~= with_exprs(old_model, |m: IrModel| list_model(m)).rules);
        assert(program@ =~= with_exprs(old_model, |m: IrModel| list_model(m)));
    }
    program
}


// ── Laws ──

/// An item followed by any number of separator-and-item sequences becomes a
/// separated list: its first element is the item, and its repeated part is
/// the separator-and-item sequence, each rewritten.
pub proof fn law_list_starts_with_the_item(x: IrModel, tail: IrModel)
    requires
        list_model(tail) is Sequence,
        list_model(tail)->Sequence_0.len() >= 2,
    ensures
        list_model(IrModel::Sequence(seq![x, (IrModel::Repeat { expr: Box::new(tail), min: 0, max: None })])) == (
        IrModel::SeparatedList { first: Box::new(list_model(x)), rest: Box::new(list_model(tail)) }),
{
    let items = seq![x, IrModel::Repeat { expr: Box::new(tail), min: 0, max: None }];
    let l = list_all(items);
    assert(l[0] == list_model(x));
    assert(l[1] == list_model(items[1]));
}

/// A separated list comes only from a sequence of two items, the second an
/// unbounded repetition of a sequence of at least two parts: the list's
/// first element is the first item, and repeating its rest gives back the
/// second item (each rewritten).
pub proof fn law_list_comes_from_item_and_repetition(items: Seq<IrModel>)
    ensures
        list_model(IrModel::Sequence(items)) is SeparatedList ==> items.len() == 2,
        list_model(IrModel::Sequence(items)) is SeparatedList ==> *list_model(IrModel::Sequence(items))->first
            == list_model(items[0]),
        list_model(IrModel::Sequence(items)) is SeparatedList ==> list_model(items[1]) == (IrModel::Repeat {
            expr: list_model(IrModel::Sequence(items))->rest,
            min: 0,
            max: None,
        }),
        list_model(IrModel::Sequence(items)) is SeparatedList ==> separated_tail(*list_model(IrModel::Sequence(items))->rest),
{
    let l = list_all(items);
    if items.len() == 2 {
        assert(l[0] == list_model(items[0]));
        assert(l[1] == list_model(items[1]));
    }
}

} // verus!
