//! Normalization passes: single-character literals in choices become
//! character sets, nested sequences and choices are flattened, character
//! sets in a choice are merged, and adjacent literals in a sequence are fused.
use crate::ast::{copy_condition, copy_string};
use crate::hir::expr::{arm_models, copy_expr, copy_ranges, ir_model, ir_models, lemma_arm_models_index, lemma_models_concat, lemma_models_index, lemma_models_push, ArmModel, DispatchArm, IrExpr, IrModel};
use crate::hir::program::{ProgramModel, rule_model, rule_models, with_expr, with_exprs, IrProgram};
use crate::ranges::{coalesce_model, coalesce_ranges, CharRange};
use vstd::prelude::*;
use vstd::string::{StrSliceExecFns, StringExecFns};

verus! {


/// A one-character literal becomes the character set of that character.
pub open spec fn single_char_charset(m: IrModel) -> IrModel {
    match m {
        IrModel::Literal(s) => if s.len() == 1 {
            IrModel::CharSet(seq![CharRange { start: s[0], end: s[0] }])
        } else {
            m
        },
        _ => m,
    }
}

fn single_char_charset_expr(e: IrExpr) -> (res: IrExpr)
    ensures
        res@ == single_char_charset(e@),
{
    match e {
        IrExpr::Literal(s) => {
            if s.as_str().unicode_len() == 1 {
                let ch = s.as_str().get_char(0);
                let res = IrExpr::CharSet(vec![CharRange::single(ch)]);
                proof {
                    assert(res@ =~= single_char_charset(IrExpr::Literal(s)@));
                }
                res
            } else {
                IrExpr::Literal(s)
            }
        },
        other => other,
    }
}

fn single_char_choice_list(items: &Vec<IrExpr>) -> (res: Vec<IrExpr>)
    ensures
        res@.len() == items@.len(),
        forall|k: int| 0 <= k < items@.len() ==> (#[trigger] res@[k])@ == single_char_charset(single_char_to_charset_model(items@[k]@)),
    decreases items,
{
    let mut res: Vec<IrExpr> = Vec::new();
    let mut i: usize = 0;
    while i < items.len()
        invariant
            i <= items@.len(),
            res@.len() == i,
            forall|k: int| 0 <= k < i ==> (#[trigger] res@[k])@ == single_char_charset(single_char_to_charset_model(items@[k]@)),
        decreases items@.len() - i,
    {
        proof {
            assert(decreases_to!(items => items@[i as int]));
        }
        let item = single_char_to_charset_expr(&items[i]);
        res.push(single_char_charset_expr(item));
        i = i + 1;
    }
    res
}

/// Inside a choice, a one-character literal becomes a character set, so that it can merge with other sets.
pub open spec fn single_char_to_charset_model(m: IrModel) -> IrModel
    decreases m,
{
    match m {
        IrModel::Sequence(items) => IrModel::Sequence(Seq::new(items.len(), |i: int| if 0 <= i < items.len() { single_char_to_charset_model(items[i]) } else { IrModel::Any })),
        IrModel::Choice(items) => IrModel::Choice(Seq::new(items.len(), |i: int| if 0 <= i < items.len() { single_char_charset(single_char_to_charset_model(items[i])) } else { IrModel::Any })),
        IrModel::Dispatch(arms) => IrModel::Dispatch(Seq::new(arms.len(), |i: int| if 0 <= i < arms.len() { ArmModel { ranges: arms[i].ranges, expr: Box::new(single_char_to_charset_model(*arms[i].expr)) } } else { ArmModel { ranges: Seq::empty(), expr: Box::new(IrModel::Any) } })),
        IrModel::Repeat { expr, min, max } => IrModel::Repeat { expr: Box::new(single_char_to_charset_model(*expr)), min, max },
        IrModel::PosLookahead(inner) => IrModel::PosLookahead(Box::new(single_char_to_charset_model(*inner))),
        IrModel::NegLookahead(inner) => IrModel::NegLookahead(Box::new(single_char_to_charset_model(*inner))),
        IrModel::WithFlag { flag, body } => IrModel::WithFlag { flag, body: Box::new(single_char_to_charset_model(*body)) },
        IrModel::WithCounter { counter, amount, body } => IrModel::WithCounter { counter, amount, body: Box::new(single_char_to_charset_model(*body)) },
        IrModel::When { condition, body } => IrModel::When { condition, body: Box::new(single_char_to_charset_model(*body)) },
        IrModel::DepthLimit { limit, body } => IrModel::DepthLimit { limit, body: Box::new(single_char_to_charset_model(*body)) },
        IrModel::Scan { plain_ranges, specials, min } => IrModel::Scan { plain_ranges, specials: Seq::new(specials.len(), |i: int| if 0 <= i < specials.len() { ArmModel { ranges: specials[i].ranges, expr: Box::new(single_char_to_charset_model(*specials[i].expr)) } } else { ArmModel { ranges: Seq::empty(), expr: Box::new(IrModel::Any) } }), min },
        IrModel::Labeled { expr, label } => IrModel::Labeled { expr: Box::new(single_char_to_charset_model(*expr)), label },
        other => other,
    }
}

fn single_char_to_charset_expr(e: &IrExpr) -> (res: IrExpr)
    ensures
        res@ == single_char_to_charset_model(e@),
    decreases e,
{
    match e {
        IrExpr::Sequence(items) => {
            let r = single_char_to_charset_expr_list(items);
            let res = IrExpr::Sequence(r);
            proof {
                lemma_models_index(r@);
                lemma_models_index(items@);
                assert(ir_models(r@) =~= single_char_to_charset_model(e@)->Sequence_0);
            }
            res
        },
        IrExpr::Choice(items) => {
            let r = single_char_choice_list(items);
            let res = IrExpr::Choice(r);
            proof {
                lemma_models_index(r@);
                lemma_models_index(items@);
                assert(ir_models(r@) =~= single_char_to_charset_model(e@)->Choice_0);
            }
            res
        },
        IrExpr::Dispatch(arms) => {
            let r = single_char_to_charset_expr_arms(arms);
            let res = IrExpr::Dispatch(r);
            proof {
                lemma_arm_models_index(r@);
                lemma_arm_models_index(arms@);
                assert(arm_models(r@) =~= single_char_to_charset_model(e@)->Dispatch_0);
            }
            res
        },
        IrExpr::Repeat { expr, min, max } => IrExpr::Repeat { expr: Box::new(single_char_to_charset_expr(expr)), min: *min, max: *max },
        IrExpr::PosLookahead(inner) => IrExpr::PosLookahead(Box::new(single_char_to_charset_expr(inner))),
        IrExpr::NegLookahead(inner) => IrExpr::NegLookahead(Box::new(single_char_to_charset_expr(inner))),
        IrExpr::WithFlag { flag, body } => IrExpr::WithFlag { flag: copy_string(flag), body: Box::new(single_char_to_charset_expr(body)) },
        IrExpr::WithCounter { counter, amount, body } => IrExpr::WithCounter { counter: copy_string(counter), amount: *amount, body: Box::new(single_char_to_charset_expr(body)) },
        IrExpr::When { condition, body } => IrExpr::When { condition: copy_condition(condition), body: Box::new(single_char_to_charset_expr(body)) },
        IrExpr::DepthLimit { limit, body } => IrExpr::DepthLimit { limit: *limit, body: Box::new(single_char_to_charset_expr(body)) },
        IrExpr::Scan { plain_ranges, specials, min } => {
            let r = single_char_to_charset_expr_arms(specials);
            let res = IrExpr::Scan { plain_ranges: copy_ranges(plain_ranges), specials: r, min: *min };
            proof {
                lemma_arm_models_index(r@);
                lemma_arm_models_index(specials@);
                assert(arm_models(r@) =~= single_char_to_charset_model(e@)->specials);
            }
            res
        },
        IrExpr::Labeled { expr, label } => IrExpr::Labeled { expr: Box::new(single_char_to_charset_expr(expr)), label: copy_string(label) },
        _ => copy_expr(e),
    }
}

fn single_char_to_charset_expr_list(items: &Vec<IrExpr>) -> (res: Vec<IrExpr>)
    ensures
        res@.len() == items@.len(),
        forall|k: int| 0 <= k < items@.len() ==> (#[trigger] res@[k])@ == single_char_to_charset_model(items@[k]@),
    decreases items,
{
    let mut res: Vec<IrExpr> = Vec::new();
    let mut i: usize = 0;
    while i < items.len()
        invariant
            i <= items@.len(),
            res@.len() == i,
            forall|k: int| 0 <= k < i ==> (#[trigger] res@[k])@ == single_char_to_charset_model(items@[k]@),
        decreases items@.len() - i,
    {
        proof {
            assert(decreases_to!(items => items@[i as int]));
        }
        res.push(single_char_to_charset_expr(&items[i]));
        i = i + 1;
    }
    res
}

fn single_char_to_charset_expr_arms(arms: &Vec<DispatchArm>) -> (res: Vec<DispatchArm>)
    ensures
        res@.len() == arms@.len(),
        forall|k: int| 0 <= k < arms@.len() ==> (#[trigger] res@[k]).ranges@ == arms@[k].ranges@ && (*res@[k].expr)@ == single_char_to_charset_model((*arms@[k].expr)@),
    decreases arms,
{
    let mut res: Vec<DispatchArm> = Vec::new();
    let mut i: usize = 0;
    while i < arms.len()
        invariant
            i <= arms@.len(),
            res@.len() == i,
            forall|k: int| 0 <= k < i ==> (#[trigger] res@[k]).ranges@ == arms@[k].ranges@ && (*res@[k].expr)@ == single_char_to_charset_model((*arms@[k].expr)@),
        decreases arms@.len() - i,
    {
        proof {
            assert(decreases_to!(arms => arms@[i as int]));
        }
        let arm = &arms[i];
        let expr = single_char_to_charset_expr(&arm.expr);
        res.push(DispatchArm { ranges: copy_ranges(&arm.ranges), expr: Box::new(expr) });
        i = i + 1;
    }
    res
}

/// Every rule with single-character alternatives of its choices turned into sets.
pub open spec fn single_char_program(p: ProgramModel) -> ProgramModel {
    with_exprs(p, |m: IrModel| single_char_to_charset_model(m))
}

/// Apply the single-character conversion to every rule.
pub(crate) fn single_char_to_charset(program: IrProgram) -> (res: IrProgram)
    ensures
        res@ == single_char_program(program@),
{
    let mut program = program;
    let ghost old_model = program@;
    let mut i: usize = 0;
    while i < program.rules.len()
        invariant
            i <= program.rules@.len(),
            program.rules@.len() == old_model.rules.len(),
            program@.state_decls == old_model.state_decls,
            forall|k: int| 0 <= k < i ==> rule_model(#[trigger] program.rules@[k]) == with_expr(old_model.rules[k], single_char_to_charset_model(old_model.rules[k].expr)),
            forall|k: int| i <= k < program.rules@.len() ==> rule_model(#[trigger] program.rules@[k]) == old_model.rules[k],
        decreases program.rules@.len() - i,
    {
        let new_expr = single_char_to_charset_expr(&program.rules[i].expr);
        let ghost before = program.rules@;
        program.rules[i].expr = new_expr;
        proof {
            assert(rule_model(program.rules@[i as int]) =~= with_expr(old_model.rules[i as int], single_char_to_charset_model(old_model.rules[i as int].expr)));
            assert forall|k: int| 0 <= k < program.rules@.len() && k != i implies program.rules@[k] == before[k] by {}
        }
        i = i + 1;
    }
    proof {
        assert(rule_models(program.rules@) =~= with_exprs(old_model, |m: IrModel| single_char_to_charset_model(m)).rules);
        assert(program@ =~= with_exprs(old_model, |m: IrModel| single_char_to_charset_model(m)));
    }
    program
}

/// The items a flattened child contributes to its parent sequence.
pub open spec fn splice_sequence(m: IrModel) -> Seq<IrModel> {
    match m {
        IrModel::Sequence(inner) => inner,
        _ => seq![m],
    }
}

/// The items a flattened child contributes to its parent choice.
pub open spec fn splice_choice(m: IrModel) -> Seq<IrModel> {
    match m {
        IrModel::Choice(inner) => inner,
        _ => seq![m],
    }
}

/// A one-item sequence is that item.
pub open spec fn unwrap_sequence(s: Seq<IrModel>) -> IrModel {
    if s.len() == 1 {
        s[0]
    } else {
        IrModel::Sequence(s)
    }
}

/// A one-item choice is that item.
pub open spec fn unwrap_choice(s: Seq<IrModel>) -> IrModel {
    if s.len() == 1 {
        s[0]
    } else {
        IrModel::Choice(s)
    }
}

/// The flattened children of a sequence, with nested sequences spliced in.
pub open spec fn flatten_seq_items(s: Seq<IrModel>) -> Seq<IrModel>
    decreases s,
{
    if s.len() == 0 {
        Seq::empty()
    } else {
        flatten_seq_items(s.drop_last()) + splice_sequence(flatten_model(s[s.len() - 1]))
    }
}

/// The flattened alternatives of a choice, with nested choices spliced in.
pub open spec fn flatten_choice_items(s: Seq<IrModel>) -> Seq<IrModel>
    decreases s,
{
    if s.len() == 0 {
        Seq::empty()
    } else {
        flatten_choice_items(s.drop_last()) + splice_choice(flatten_model(s[s.len() - 1]))
    }
}

/// Nested sequences are spliced into their parent sequence and nested choices into their parent choice; a one-item sequence or choice becomes its item.
pub open spec fn flatten_model(m: IrModel) -> IrModel
    decreases m,
{
    match m {
        IrModel::Sequence(items) => unwrap_sequence(flatten_seq_items(items)),
        IrModel::Choice(items) => unwrap_choice(flatten_choice_items(items)),
        IrModel::Dispatch(arms) => IrModel::Dispatch(Seq::new(arms.len(), |i: int| if 0 <= i < arms.len() { ArmModel { ranges: arms[i].ranges, expr: Box::new(flatten_model(*arms[i].expr)) } } else { ArmModel { ranges: Seq::empty(), expr: Box::new(IrModel::Any) } })),
        IrModel::Repeat { expr, min, max } => IrModel::Repeat { expr: Box::new(flatten_model(*expr)), min, max },
        IrModel::PosLookahead(inner) => IrModel::PosLookahead(Box::new(flatten_model(*inner))),
        IrModel::NegLookahead(inner) => IrModel::NegLookahead(Box::new(flatten_model(*inner))),
        IrModel::WithFlag { flag, body } => IrModel::WithFlag { flag, body: Box::new(flatten_model(*body)) },
        IrModel::WithCounter { counter, amount, body } => IrModel::WithCounter { counter, amount, body: Box::new(flatten_model(*body)) },
        IrModel::When { condition, body } => IrModel::When { condition, body: Box::new(flatten_model(*body)) },
        IrModel::DepthLimit { limit, body } => IrModel::DepthLimit { limit, body: Box::new(flatten_model(*body)) },
        IrModel::Scan { plain_ranges, specials, min } => IrModel::Scan { plain_ranges, specials: Seq::new(specials.len(), |i: int| if 0 <= i < specials.len() { ArmModel { ranges: specials[i].ranges, expr: Box::new(flatten_model(*specials[i].expr)) } } else { ArmModel { ranges: Seq::empty(), expr: Box::new(IrModel::Any) } }), min },
        IrModel::Labeled { expr, label } => IrModel::Labeled { expr: Box::new(flatten_model(*expr)), label },
        other => other,
    }
}

fn flatten_expr(e: &IrExpr) -> (res: IrExpr)
    ensures
        res@ == flatten_model(e@),
    decreases e,
{
    match e {
        IrExpr::Sequence(items) => {
            let mut flat = flatten_seq_list(items);
            if flat.len() == 1 {
                proof {
                    lemma_models_index(flat@);
                }
                flat.pop().unwrap()
            } else {
                IrExpr::Sequence(flat)
            }
        },
        IrExpr::Choice(items) => {
            let mut flat = flatten_choice_list(items);
            if flat.len() == 1 {
                proof {
                    lemma_models_index(flat@);
                }
                flat.pop().unwrap()
            } else {
                IrExpr::Choice(flat)
            }
        },
        IrExpr::Dispatch(arms) => {
            let r = flatten_expr_arms(arms);
            let res = IrExpr::Dispatch(r);
            proof {
                lemma_arm_models_index(r@);
                lemma_arm_models_index(arms@);
                assert(arm_models(r@) =~= flatten_model(e@)->Dispatch_0);
            }
            res
        },
        IrExpr::Repeat { expr, min, max } => IrExpr::Repeat { expr: Box::new(flatten_expr(expr)), min: *min, max: *max },
        IrExpr::PosLookahead(inner) => IrExpr::PosLookahead(Box::new(flatten_expr(inner))),
        IrExpr::NegLookahead(inner) => IrExpr::NegLookahead(Box::new(flatten_expr(inner))),
        IrExpr::WithFlag { flag, body } => IrExpr::WithFlag { flag: copy_string(flag), body: Box::new(flatten_expr(body)) },
        IrExpr::WithCounter { counter, amount, body } => IrExpr::WithCounter { counter: copy_string(counter), amount: *amount, body: Box::new(flatten_expr(body)) },
        IrExpr::When { condition, body } => IrExpr::When { condition: copy_condition(condition), body: Box::new(flatten_expr(body)) },
        IrExpr::DepthLimit { limit, body } => IrExpr::DepthLimit { limit: *limit, body: Box::new(flatten_expr(body)) },
        IrExpr::Scan { plain_ranges, specials, min } => {
            let r = flatten_expr_arms(specials);
            let res = IrExpr::Scan { plain_ranges: copy_ranges(plain_ranges), specials: r, min: *min };
            proof {
                lemma_arm_models_index(r@);
                lemma_arm_models_index(specials@);
                assert(arm_models(r@) =~= flatten_model(e@)->specials);
            }
            res
        },
        IrExpr::Labeled { expr, label } => IrExpr::Labeled { expr: Box::new(flatten_expr(expr)), label: copy_string(label) },
        _ => copy_expr(e),
    }
}

fn flatten_expr_arms(arms: &Vec<DispatchArm>) -> (res: Vec<DispatchArm>)
    ensures
        res@.len() == arms@.len(),
        forall|k: int| 0 <= k < arms@.len() ==> (#[trigger] res@[k]).ranges@ == arms@[k].ranges@ && (*res@[k].expr)@ == flatten_model((*arms@[k].expr)@),
    decreases arms,
{
    let mut res: Vec<DispatchArm> = Vec::new();
    let mut i: usize = 0;
    while i < arms.len()
        invariant
            i <= arms@.len(),
            res@.len() == i,
            forall|k: int| 0 <= k < i ==> (#[trigger] res@[k]).ranges@ == arms@[k].ranges@ && (*res@[k].expr)@ == flatten_model((*arms@[k].expr)@),
        decreases arms@.len() - i,
    {
        proof {
            assert(decreases_to!(arms => arms@[i as int]));
        }
        let arm = &arms[i];
        let expr = flatten_expr(&arm.expr);
        res.push(DispatchArm { ranges: copy_ranges(&arm.ranges), expr: Box::new(expr) });
        i = i + 1;
    }
    res
}

fn flatten_seq_list(items: &Vec<IrExpr>) -> (res: Vec<IrExpr>)
    ensures
        ir_models(res@) == flatten_seq_items(ir_models(items@)),
    decreases items,
{
    let ghost ms = ir_models(items@);
    let mut flat: Vec<IrExpr> = Vec::new();
    let mut i: usize = 0;
    proof {
        lemma_models_index(items@);
        assert(ms.take(0) =~= Seq::<IrModel>::empty());
        assert(ir_models(flat@) =~= Seq::<IrModel>::empty());
    }
    while i < items.len()
        invariant
            i <= items@.len(),
            ms == ir_models(items@),
            ms.len() == items@.len(),
            ir_models(flat@) == flatten_seq_items(ms.take(i as int)),
        decreases items@.len() - i,
    {
        proof {
            assert(decreases_to!(items => items@[i as int]));
            lemma_models_index(items@);
            assert(ms.take(i + 1).drop_last() =~= ms.take(i as int));
            assert(ms.take(i + 1)[i as int] == ms[i as int]);
        }
        let item = flatten_expr(&items[i]);
        let ghost before = flat@;
        match item {
            IrExpr::Sequence(mut inner) => {
                let ghost inner_before = inner@;
                flat.append(&mut inner);
                proof {
                    lemma_models_concat(before, inner_before);
                }
            },
            other => {
                flat.push(other);
                proof {
                    lemma_models_push(before, other);
                }
            },
        }
        i = i + 1;
    }
    proof {
        assert(ms.take(ms.len() as int) =~= ms);
    }
    flat
}

fn flatten_choice_list(items: &Vec<IrExpr>) -> (res: Vec<IrExpr>)
    ensures
        ir_models(res@) == flatten_choice_items(ir_models(items@)),
    decreases items,
{
    let ghost ms = ir_models(items@);
    let mut flat: Vec<IrExpr> = Vec::new();
    let mut i: usize = 0;
    proof {
        lemma_models_index(items@);
        assert(ms.take(0) =~= Seq::<IrModel>::empty());
        assert(ir_models(flat@) =~= Seq::<IrModel>::empty());
    }
    while i < items.len()
        invariant
            i <= items@.len(),
            ms == ir_models(items@),
            ms.len() == items@.len(),
            ir_models(flat@) == flatten_choice_items(ms.take(i as int)),
        decreases items@.len() - i,
    {
        proof {
            assert(decreases_to!(items => items@[i as int]));
            lemma_models_index(items@);
            assert(ms.take(i + 1).drop_last() =~= ms.take(i as int));
            assert(ms.take(i + 1)[i as int] == ms[i as int]);
        }
        let item = flatten_expr(&items[i]);
        let ghost before = flat@;
        match item {
            IrExpr::Choice(mut inner) => {
                let ghost inner_before = inner@;
                flat.append(&mut inner);
                proof {
                    lemma_models_concat(before, inner_before);
                }
            },
            other => {
                flat.push(other);
                proof {
                    lemma_models_push(before, other);
                }
            },
        }
        i = i + 1;
    }
    proof {
        assert(ms.take(ms.len() as int) =~= ms);
    }
    flat
}

/// Every rule with its nested sequences and choices flattened.
pub open spec fn flatten_program(p: ProgramModel) -> ProgramModel {
    with_exprs(p, |m: IrModel| flatten_model(m))
}

/// Flatten nested sequences and choices in every rule.
pub(crate) fn flatten(program: IrProgram) -> (res: IrProgram)
    ensures
        res@ == flatten_program(program@),
{
    let mut program = program;
    let ghost old_model = program@;
    let mut i: usize = 0;
    while i < program.rules.len()
        invariant
            i <= program.rules@.len(),
            program.rules@.len() == old_model.rules.len(),
            program@.state_decls == old_model.state_decls,
            forall|k: int| 0 <= k < i ==> rule_model(#[trigger] program.rules@[k]) == with_expr(old_model.rules[k], flatten_model(old_model.rules[k].expr)),
            forall|k: int| i <= k < program.rules@.len() ==> rule_model(#[trigger] program.rules@[k]) == old_model.rules[k],
        decreases program.rules@.len() - i,
    {
        let new_expr = flatten_expr(&program.rules[i].expr);
        let ghost before = program.rules@;
        program.rules[i].expr = new_expr;
        proof {
            assert(rule_model(program.rules@[i as int]) =~= with_expr(old_model.rules[i as int], flatten_model(old_model.rules[i as int].expr)));
            assert forall|k: int| 0 <= k < program.rules@.len() && k != i implies program.rules@[k] == before[k] by {}
        }
        i = i + 1;
    }
    proof {
        assert(rule_models(program.rules@) =~= with_exprs(old_model, |m: IrModel| flatten_model(m)).rules);
        assert(program@ =~= with_exprs(old_model, |m: IrModel| flatten_model(m)));
    }
    program
}

/// The ranges of the character-set alternatives, in order.
pub open spec fn charset_ranges(s: Seq<IrModel>) -> Seq<CharRange>
    decreases s.len(),
{
    if s.len() == 0 {
        Seq::empty()
    } else {
        charset_ranges(s.drop_last()) + match s.last() {
            IrModel::CharSet(r) => r,
            _ => Seq::empty(),
        }
    }
}

/// The alternatives that are not character sets, in order.
pub open spec fn non_charsets(s: Seq<IrModel>) -> Seq<IrModel>
    decreases s.len(),
{
    if s.len() == 0 {
        Seq::empty()
    } else {
        non_charsets(s.drop_last()) + match s.last() {
            IrModel::CharSet(_) => Seq::empty(),
            other => seq![other],
        }
    }
}

/// A choice whose character-set alternatives are merged into one coalesced
/// set placed first, followed by the other alternatives in order.
pub open spec fn merge_choice(ms: Seq<IrModel>) -> IrModel {
    let ranges = charset_ranges(ms);
    let others = non_charsets(ms);
    if ranges.len() > 0 {
        let result = seq![IrModel::CharSet(coalesce_model(ranges))] + others;
        if result.len() == 1 {
            result[0]
        } else {
            IrModel::Choice(result)
        }
    } else if others.len() == 1 {
        others[0]
    } else {
        IrModel::Choice(others)
    }
}

/// The alternatives of a choice after merging inside each of them.
pub open spec fn merge_charsets_items(s: Seq<IrModel>) -> Seq<IrModel>
    decreases s,
{
    Seq::new(s.len(), |i: int| if 0 <= i < s.len() { merge_charsets_model(s[i]) } else { IrModel::Any })
}

/// Character sets among the alternatives of a choice are merged into one canonical set.
pub open spec fn merge_charsets_model(m: IrModel) -> IrModel
    decreases m,
{
    match m {
        IrModel::Sequence(items) => IrModel::Sequence(Seq::new(items.len(), |i: int| if 0 <= i < items.len() { merge_charsets_model(items[i]) } else { IrModel::Any })),
        IrModel::Choice(items) => merge_choice(merge_charsets_items(items)),
        IrModel::Dispatch(arms) => IrModel::Dispatch(Seq::new(arms.len(), |i: int| if 0 <= i < arms.len() { ArmModel { ranges: arms[i].ranges, expr: Box::new(merge_charsets_model(*arms[i].expr)) } } else { ArmModel { ranges: Seq::empty(), expr: Box::new(IrModel::Any) } })),
        IrModel::Repeat { expr, min, max } => IrModel::Repeat { expr: Box::new(merge_charsets_model(*expr)), min, max },
        IrModel::PosLookahead(inner) => IrModel::PosLookahead(Box::new(merge_charsets_model(*inner))),
        IrModel::NegLookahead(inner) => IrModel::NegLookahead(Box::new(merge_charsets_model(*inner))),
        IrModel::WithFlag { flag, body } => IrModel::WithFlag { flag, body: Box::new(merge_charsets_model(*body)) },
        IrModel::WithCounter { counter, amount, body } => IrModel::WithCounter { counter, amount, body: Box::new(merge_charsets_model(*body)) },
        IrModel::When { condition, body } => IrModel::When { condition, body: Box::new(merge_charsets_model(*body)) },
        IrModel::DepthLimit { limit, body } => IrModel::DepthLimit { limit, body: Box::new(merge_charsets_model(*body)) },
        IrModel::Scan { plain_ranges, specials, min } => IrModel::Scan { plain_ranges, specials: Seq::new(specials.len(), |i: int| if 0 <= i < specials.len() { ArmModel { ranges: specials[i].ranges, expr: Box::new(merge_charsets_model(*specials[i].expr)) } } else { ArmModel { ranges: Seq::empty(), expr: Box::new(IrModel::Any) } }), min },
        IrModel::Labeled { expr, label } => IrModel::Labeled { expr: Box::new(merge_charsets_model(*expr)), label },
        other => other,
    }
}

fn merge_charsets_expr(e: &IrExpr) -> (res: IrExpr)
    ensures
        res@ == merge_charsets_model(e@),
    decreases e,
{
    match e {
        IrExpr::Sequence(items) => {
            let r = merge_charsets_expr_list(items);
            let res = IrExpr::Sequence(r);
            proof {
                lemma_models_index(r@);
                lemma_models_index(items@);
                assert(ir_models(r@) =~= merge_charsets_model(e@)->Sequence_0);
            }
            res
        },
        IrExpr::Choice(items) => {
            let (merged, mut others) = merge_choice_parts(items);
            proof {
                lemma_models_index(others@);
            }
            if merged.len() > 0 {
                let merged = coalesce_ranges(merged);
                let mut result: Vec<IrExpr> = Vec::new();
                result.push(IrExpr::CharSet(merged));
                let ghost first = result@;
                let ghost rest = others@;
                result.append(&mut others);
                proof {
                    lemma_models_concat(first, rest);
                    lemma_models_index(result@);
                    assert(ir_models(result@) =~= seq![IrModel::CharSet(coalesce_model(charset_ranges(merge_charsets_items(ir_models(items@)))))] + non_charsets(merge_charsets_items(ir_models(items@))));
                }
                if result.len() == 1 {
                    result.pop().unwrap()
                } else {
                    IrExpr::Choice(result)
                }
            } else if others.len() == 1 {
                others.pop().unwrap()
            } else {
                IrExpr::Choice(others)
            }
        },
        IrExpr::Dispatch(arms) => {
            let r = merge_charsets_expr_arms(arms);
            let res = IrExpr::Dispatch(r);
            proof {
                lemma_arm_models_index(r@);
                lemma_arm_models_index(arms@);
                assert(arm_models(r@) =~= merge_charsets_model(e@)->Dispatch_0);
            }
            res
        },
        IrExpr::Repeat { expr, min, max } => IrExpr::Repeat { expr: Box::new(merge_charsets_expr(expr)), min: *min, max: *max },
        IrExpr::PosLookahead(inner) => IrExpr::PosLookahead(Box::new(merge_charsets_expr(inner))),
        IrExpr::NegLookahead(inner) => IrExpr::NegLookahead(Box::new(merge_charsets_expr(inner))),
        IrExpr::WithFlag { flag, body } => IrExpr::WithFlag { flag: copy_string(flag), body: Box::new(merge_charsets_expr(body)) },
        IrExpr::WithCounter { counter, amount, body } => IrExpr::WithCounter { counter: copy_string(counter), amount: *amount, body: Box::new(merge_charsets_expr(body)) },
        IrExpr::When { condition, body } => IrExpr::When { condition: copy_condition(condition), body: Box::new(merge_charsets_expr(body)) },
        IrExpr::DepthLimit { limit, body } => IrExpr::DepthLimit { limit: *limit, body: Box::new(merge_charsets_expr(body)) },
        IrExpr::Scan { plain_ranges, specials, min } => {
            let r = merge_charsets_expr_arms(specials);
            let res = IrExpr::Scan { plain_ranges: copy_ranges(plain_ranges), specials: r, min: *min };
            proof {
                lemma_arm_models_index(r@);
                lemma_arm_models_index(specials@);
                assert(arm_models(r@) =~= merge_charsets_model(e@)->specials);
            }
            res
        },
        IrExpr::Labeled { expr, label } => IrExpr::Labeled { expr: Box::new(merge_charsets_expr(expr)), label: copy_string(label) },
        _ => copy_expr(e),
    }
}

fn merge_charsets_expr_list(items: &Vec<IrExpr>) -> (res: Vec<IrExpr>)
    ensures
        res@.len() == items@.len(),
        forall|k: int| 0 <= k < items@.len() ==> (#[trigger] res@[k])@ == merge_charsets_model(items@[k]@),
    decreases items,
{
    let mut res: Vec<IrExpr> = Vec::new();
    let mut i: usize = 0;
    while i < items.len()
        invariant
            i <= items@.len(),
            res@.len() == i,
            forall|k: int| 0 <= k < i ==> (#[trigger] res@[k])@ == merge_charsets_model(items@[k]@),
        decreases items@.len() - i,
    {
        proof {
            assert(decreases_to!(items => items@[i as int]));
        }
        res.push(merge_charsets_expr(&items[i]));
        i = i + 1;
    }
    res
}

fn merge_charsets_expr_arms(arms: &Vec<DispatchArm>) -> (res: Vec<DispatchArm>)
    ensures
        res@.len() == arms@.len(),
        forall|k: int| 0 <= k < arms@.len() ==> (#[trigger] res@[k]).ranges@ == arms@[k].ranges@ && (*res@[k].expr)@ == merge_charsets_model((*arms@[k].expr)@),
    decreases arms,
{
    let mut res: Vec<DispatchArm> = Vec::new();
    let mut i: usize = 0;
    while i < arms.len()
        invariant
            i <= arms@.len(),
            res@.len() == i,
            forall|k: int| 0 <= k < i ==> (#[trigger] res@[k]).ranges@ == arms@[k].ranges@ && (*res@[k].expr)@ == merge_charsets_model((*arms@[k].expr)@),
        decreases arms@.len() - i,
    {
        proof {
            assert(decreases_to!(arms => arms@[i as int]));
        }
        let arm = &arms[i];
        let expr = merge_charsets_expr(&arm.expr);
        res.push(DispatchArm { ranges: copy_ranges(&arm.ranges), expr: Box::new(expr) });
        i = i + 1;
    }
    res
}

fn merge_choice_parts(items: &Vec<IrExpr>) -> (res: (Vec<CharRange>, Vec<IrExpr>))
    ensures
        res.0@ == charset_ranges(merge_charsets_items(ir_models(items@))),
        ir_models(res.1@) == non_charsets(merge_charsets_items(ir_models(items@))),
    decreases items,
{
    let ghost ms = merge_charsets_items(ir_models(items@));
    let mut merged: Vec<CharRange> = Vec::new();
    let mut others: Vec<IrExpr> = Vec::new();
    let mut i: usize = 0;
    proof {
        lemma_models_index(items@);
        assert(ms.take(0) =~= Seq::<IrModel>::empty());
        assert(ir_models(others@) =~= Seq::<IrModel>::empty());
    }
    while i < items.len()
        invariant
            i <= items@.len(),
            ms == merge_charsets_items(ir_models(items@)),
            ms.len() == items@.len(),
            forall|k: int| 0 <= k < items@.len() ==> ms[k] == merge_charsets_model(#[trigger] items@[k]@),
            merged@ == charset_ranges(ms.take(i as int)),
            ir_models(others@) == non_charsets(ms.take(i as int)),
        decreases items@.len() - i,
    {
        proof {
            assert(decreases_to!(items => items@[i as int]));
            assert(ms.take(i + 1).drop_last() =~= ms.take(i as int));
            assert(ms.take(i + 1).last() == ms[i as int]);
        }
        let item = merge_charsets_expr(&items[i]);
        let ghost before = others@;
        match item {
            IrExpr::CharSet(mut rs) => {
                merged.append(&mut rs);
                proof {
                    assert(ir_models(others@) =~= non_charsets(ms.take(i + 1)));
                }
            },
            other => {
                others.push(other);
                proof {
                    lemma_models_push(before, other);
                    assert(merged@ =~= charset_ranges(ms.take(i + 1)));
                }
            },
        }
        i = i + 1;
    }
    proof {
        assert(ms.take(ms.len() as int) =~= ms);
    }
    (merged, others)
}

/// Every rule with the character sets of its choices merged.
pub open spec fn merge_program(p: ProgramModel) -> ProgramModel {
    with_exprs(p, |m: IrModel| merge_charsets_model(m))
}

/// Merge character sets in the choices of every rule.
pub(crate) fn merge_charsets(program: IrProgram) -> (res: IrProgram)
    ensures
        res@ == merge_program(program@),
{
    let mut program = program;
    let ghost old_model = program@;
    let mut i: usize = 0;
    while i < program.rules.len()
        invariant
            i <= program.rules@.len(),
            program.rules@.len() == old_model.rules.len(),
            program@.state_decls == old_model.state_decls,
            forall|k: int| 0 <= k < i ==> rule_model(#[trigger] program.rules@[k]) == with_expr(old_model.rules[k], merge_charsets_model(old_model.rules[k].expr)),
            forall|k: int| i <= k < program.rules@.len() ==> rule_model(#[trigger] program.rules@[k]) == old_model.rules[k],
        decreases program.rules@.len() - i,
    {
        let new_expr = merge_charsets_expr(&program.rules[i].expr);
        let ghost before = program.rules@;
        program.rules[i].expr = new_expr;
        proof {
            assert(rule_model(program.rules@[i as int]) =~= with_expr(old_model.rules[i as int], merge_charsets_model(old_model.rules[i as int].expr)));
            assert forall|k: int| 0 <= k < program.rules@.len() && k != i implies program.rules@[k] == before[k] by {}
        }
        i = i + 1;
    }
    proof {
        assert(rule_models(program.rules@) =~= with_exprs(old_model, |m: IrModel| merge_charsets_model(m)).rules);
        assert(program@ =~= with_exprs(old_model, |m: IrModel| merge_charsets_model(m)));
    }
    program
}

/// Adjacent literal items of a sequence joined into one literal.
pub open spec fn fuse_items(s: Seq<IrModel>) -> Seq<IrModel>
    decreases s.len(),
{
    if s.len() == 0 {
        Seq::empty()
    } else {
        let prev = fuse_items(s.drop_last());
        let x = s.last();
        if prev.len() > 0 && prev.last() is Literal && x is Literal {
            prev.update(prev.len() - 1, IrModel::Literal(prev.last()->Literal_0 + x->Literal_0))
        } else {
            prev.push(x)
        }
    }
}

/// The items of a sequence after fusing inside each of them.
pub open spec fn fuse_literals_items(s: Seq<IrModel>) -> Seq<IrModel>
    decreases s,
{
    Seq::new(s.len(), |i: int| if 0 <= i < s.len() { fuse_literals_model(s[i]) } else { IrModel::Any })
}

/// Adjacent literals in a sequence are joined into one literal.
pub open spec fn fuse_literals_model(m: IrModel) -> IrModel
    decreases m,
{
    match m {
        IrModel::Sequence(items) => unwrap_sequence(fuse_items(fuse_literals_items(items))),
        IrModel::Choice(items) => IrModel::Choice(Seq::new(items.len(), |i: int| if 0 <= i < items.len() { fuse_literals_model(items[i]) } else { IrModel::Any })),
        IrModel::Dispatch(arms) => IrModel::Dispatch(Seq::new(arms.len(), |i: int| if 0 <= i < arms.len() { ArmModel { ranges: arms[i].ranges, expr: Box::new(fuse_literals_model(*arms[i].expr)) } } else { ArmModel { ranges: Seq::empty(), expr: Box::new(IrModel::Any) } })),
        IrModel::Repeat { expr, min, max } => IrModel::Repeat { expr: Box::new(fuse_literals_model(*expr)), min, max },
        IrModel::PosLookahead(inner) => IrModel::PosLookahead(Box::new(fuse_literals_model(*inner))),
        IrModel::NegLookahead(inner) => IrModel::NegLookahead(Box::new(fuse_literals_model(*inner))),
        IrModel::WithFlag { flag, body } => IrModel::WithFlag { flag, body: Box::new(fuse_literals_model(*body)) },
        IrModel::WithCounter { counter, amount, body } => IrModel::WithCounter { counter, amount, body: Box::new(fuse_literals_model(*body)) },
        IrModel::When { condition, body } => IrModel::When { condition, body: Box::new(fuse_literals_model(*body)) },
        IrModel::DepthLimit { limit, body } => IrModel::DepthLimit { limit, body: Box::new(fuse_literals_model(*body)) },
        IrModel::Scan { plain_ranges, specials, min } => IrModel::Scan { plain_ranges, specials: Seq::new(specials.len(), |i: int| if 0 <= i < specials.len() { ArmModel { ranges: specials[i].ranges, expr: Box::new(fuse_literals_model(*specials[i].expr)) } } else { ArmModel { ranges: Seq::empty(), expr: Box::new(IrModel::Any) } }), min },
        IrModel::Labeled { expr, label } => IrModel::Labeled { expr: Box::new(fuse_literals_model(*expr)), label },
        other => other,
    }
}

fn fuse_literals_expr(e: &IrExpr) -> (res: IrExpr)
    ensures
        res@ == fuse_literals_model(e@),
    decreases e,
{
    match e {
        IrExpr::Sequence(items) => {
            let mut fused = fuse_sequence_list(items);
            if fused.len() == 1 {
                proof {
                    lemma_models_index(fused@);
                }
                fused.pop().unwrap()
            } else {
                IrExpr::Sequence(fused)
            }
        },
        IrExpr::Choice(items) => {
            let r = fuse_literals_expr_list(items);
            let res = IrExpr::Choice(r);
            proof {
                lemma_models_index(r@);
                lemma_models_index(items@);
                assert(ir_models(r@) =~= fuse_literals_model(e@)->Choice_0);
            }
            res
        },
        IrExpr::Dispatch(arms) => {
            let r = fuse_literals_expr_arms(arms);
            let res = IrExpr::Dispatch(r);
            proof {
                lemma_arm_models_index(r@);
                lemma_arm_models_index(arms@);
                assert(arm_models(r@) =~= fuse_literals_model(e@)->Dispatch_0);
            }
            res
        },
        IrExpr::Repeat { expr, min, max } => IrExpr::Repeat { expr: Box::new(fuse_literals_expr(expr)), min: *min, max: *max },
        IrExpr::PosLookahead(inner) => IrExpr::PosLookahead(Box::new(fuse_literals_expr(inner))),
        IrExpr::NegLookahead(inner) => IrExpr::NegLookahead(Box::new(fuse_literals_expr(inner))),
        IrExpr::WithFlag { flag, body } => IrExpr::WithFlag { flag: copy_string(flag), body: Box::new(fuse_literals_expr(body)) },
        IrExpr::WithCounter { counter, amount, body } => IrExpr::WithCounter { counter: copy_string(counter), amount: *amount, body: Box::new(fuse_literals_expr(body)) },
        IrExpr::When { condition, body } => IrExpr::When { condition: copy_condition(condition), body: Box::new(fuse_literals_expr(body)) },
        IrExpr::DepthLimit { limit, body } => IrExpr::DepthLimit { limit: *limit, body: Box::new(fuse_literals_expr(body)) },
        IrExpr::Scan { plain_ranges, specials, min } => {
            let r = fuse_literals_expr_arms(specials);
            let res = IrExpr::Scan { plain_ranges: copy_ranges(plain_ranges), specials: r, min: *min };
            proof {
                lemma_arm_models_index(r@);
                lemma_arm_models_index(specials@);
                assert(arm_models(r@) =~= fuse_literals_model(e@)->specials);
            }
            res
        },
        IrExpr::Labeled { expr, label } => IrExpr::Labeled { expr: Box::new(fuse_literals_expr(expr)), label: copy_string(label) },
        _ => copy_expr(e),
    }
}

fn fuse_literals_expr_list(items: &Vec<IrExpr>) -> (res: Vec<IrExpr>)
    ensures
        res@.len() == items@.len(),
        forall|k: int| 0 <= k < items@.len() ==> (#[trigger] res@[k])@ == fuse_literals_model(items@[k]@),
    decreases items,
{
    let mut res: Vec<IrExpr> = Vec::new();
    let mut i: usize = 0;
    while i < items.len()
        invariant
            i <= items@.len(),
            res@.len() == i,
            forall|k: int| 0 <= k < i ==> (#[trigger] res@[k])@ == fuse_literals_model(items@[k]@),
        decreases items@.len() - i,
    {
        proof {
            assert(decreases_to!(items => items@[i as int]));
        }
        res.push(fuse_literals_expr(&items[i]));
        i = i + 1;
    }
    res
}

fn fuse_literals_expr_arms(arms: &Vec<DispatchArm>) -> (res: Vec<DispatchArm>)
    ensures
        res@.len() == arms@.len(),
        forall|k: int| 0 <= k < arms@.len() ==> (#[trigger] res@[k]).ranges@ == arms@[k].ranges@ && (*res@[k].expr)@ == fuse_literals_model((*arms@[k].expr)@),
    decreases arms,
{
    let mut res: Vec<DispatchArm> = Vec::new();
    let mut i: usize = 0;
    while i < arms.len()
        invariant
            i <= arms@.len(),
            res@.len() == i,
            forall|k: int| 0 <= k < i ==> (#[trigger] res@[k]).ranges@ == arms@[k].ranges@ && (*res@[k].expr)@ == fuse_literals_model((*arms@[k].expr)@),
        decreases arms@.len() - i,
    {
        proof {
            assert(decreases_to!(arms => arms@[i as int]));
        }
        let arm = &arms[i];
        let expr = fuse_literals_expr(&arm.expr);
        res.push(DispatchArm { ranges: copy_ranges(&arm.ranges), expr: Box::new(expr) });
        i = i + 1;
    }
    res
}

fn fuse_sequence_list(items: &Vec<IrExpr>) -> (res: Vec<IrExpr>)
    ensures
        ir_models(res@) == fuse_items(fuse_literals_items(ir_models(items@))),
    decreases items,
{
    let ghost ms = fuse_literals_items(ir_models(items@));
    let mut fused: Vec<IrExpr> = Vec::new();
    let mut i: usize = 0;
    proof {
        lemma_models_index(items@);
        assert(ms.take(0) =~= Seq::<IrModel>::empty());
        assert(ir_models(fused@) =~= Seq::<IrModel>::empty());
    }
    while i < items.len()
        invariant
            i <= items@.len(),
            ms == fuse_literals_items(ir_models(items@)),
            ms.len() == items@.len(),
            forall|k: int| 0 <= k < items@.len() ==> ms[k] == fuse_literals_model(#[trigger] items@[k]@),
            ir_models(fused@) == fuse_items(ms.take(i as int)),
        decreases items@.len() - i,
    {
        proof {
            assert(decreases_to!(items => items@[i as int]));
            assert(ms.take(i + 1).drop_last() =~= ms.take(i as int));
            assert(ms.take(i + 1).last() == ms[i as int]);
        }
        let item = fuse_literals_expr(&items[i]);
        let ghost before = fused@;
        let n = fused.len();
        let mut joined: Option<String> = None;
        if n > 0 {
            if let IrExpr::Literal(prev) = &fused[n - 1] {
                if let IrExpr::Literal(next) = &item {
                    let mut j = copy_string(prev);
                    j.append(next.as_str());
                    joined = Some(j);
                }
            }
        }
        proof {
            lemma_models_index(before);
        }
        match joined {
            Some(j) => {
                fused.set(n - 1, IrExpr::Literal(j));
                proof {
                    lemma_models_index(fused@);
                    assert(ir_models(fused@) =~= fuse_items(ms.take(i + 1)));
                }
            },
            None => {
                fused.push(item);
                proof {
                    lemma_models_push(before, item);
                }
            },
        }
        i = i + 1;
    }
    proof {
        assert(ms.take(ms.len() as int) =~= ms);
    }
    fused
}

/// Every rule with the adjacent literals of its sequences fused.
pub open spec fn fuse_program(p: ProgramModel) -> ProgramModel {
    with_exprs(p, |m: IrModel| fuse_literals_model(m))
}

/// Fuse adjacent literals in the sequences of every rule.
pub(crate) fn fuse_literals(program: IrProgram) -> (res: IrProgram)
    ensures
        res@ == fuse_program(program@),
{
    let mut program = program;
    let ghost old_model = program@;
    let mut i: usize = 0;
    while i < program.rules.len()
        invariant
            i <= program.rules@.len(),
            program.rules@.len() == old_model.rules.len(),
            program@.state_decls == old_model.state_decls,
            forall|k: int| 0 <= k < i ==> rule_model(#[trigger] program.rules@[k]) == with_expr(old_model.rules[k], fuse_literals_model(old_model.rules[k].expr)),
            forall|k: int| i <= k < program.rules@.len() ==> rule_model(#[trigger] program.rules@[k]) == old_model.rules[k],
        decreases program.rules@.len() - i,
    {
        let new_expr = fuse_literals_expr(&program.rules[i].expr);
        let ghost before = program.rules@;
        program.rules[i].expr = new_expr;
        proof {
            assert(rule_model(program.rules@[i as int]) =~= with_expr(old_model.rules[i as int], fuse_literals_model(old_model.rules[i as int].expr)));
            assert forall|k: int| 0 <= k < program.rules@.len() && k != i implies program.rules@[k] == before[k] by {}
        }
        i = i + 1;
    }
    proof {
        assert(rule_models(program.rules@) =~= with_exprs(old_model, |m: IrModel| fuse_literals_model(m)).rules);
        assert(program@ =~= with_exprs(old_model, |m: IrModel| fuse_literals_model(m)));
    }
    program
}


// ── Laws ──

/// Two adjacent literals are fused into one literal spelling the first,
/// then the second.
pub proof fn law_fuse_keeps_text_order(a: Seq<char>, b: Seq<char>)
    ensures
        fuse_literals_model(IrModel::Sequence(seq![IrModel::Literal(a), IrModel::Literal(b)])) == IrModel::Literal(a + b),
{
    let items = seq![IrModel::Literal(a), IrModel::Literal(b)];
    let f = fuse_literals_items(items);
    assert(f[0] == IrModel::Literal(a));
    assert(f[1] == IrModel::Literal(b));
    assert(f =~= items);
    let one = seq![IrModel::Literal(a)];
    assert(items.drop_last() =~= one);
    assert(one.drop_last() =~= Seq::<IrModel>::empty());
    assert(fuse_items(Seq::<IrModel>::empty()) =~= Seq::<IrModel>::empty());
    assert(fuse_items(one) =~= Seq::<IrModel>::empty().push(IrModel::Literal(a)));
    assert(fuse_items(one) =~= one);
    assert(items.last() == IrModel::Literal(b));
    assert(fuse_items(items) =~= seq![IrModel::Literal(a + b)]);
}


/// Inside a choice, an alternative that is a one-character literal becomes
/// the set of exactly that character; in a sequence, a literal stays a
/// literal.
pub proof fn law_single_char_alternative_becomes_set(items: Seq<IrModel>, k: int, c: char)
    requires
        0 <= k < items.len(),
        items[k] == IrModel::Literal(seq![c]),
    ensures
        single_char_to_charset_model(IrModel::Choice(items))->Choice_0[k] == IrModel::CharSet(
            seq![CharRange { start: c, end: c }],
        ),
        single_char_to_charset_model(IrModel::Sequence(items))->Sequence_0[k] == IrModel::Literal(seq![c]),
{
    assert(single_char_to_charset_model(items[k]) == IrModel::Literal(seq![c]));
    assert(seq![c][0] == c);
}

} // verus!
