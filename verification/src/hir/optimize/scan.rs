//! Lowering of repeated dispatch tables into chunked scanners.
use crate::ast::{copy_condition, copy_string};
use crate::hir::expr::{arm_models, copy_arm, copy_expr, copy_ranges, ir_models, lemma_arm_models_index, lemma_models_index, ArmModel, DispatchArm, IrExpr, IrModel};
use crate::hir::optimize::dispatch::{all_chars, all_chars_vec, contains_index, opt_ranges, single_char_set, single_set};
use crate::hir::optimize::inline::rule_exprs;
use crate::hir::program::{ProgramModel, rule_model, rule_models, with_expr, with_exprs, IrProgram};
use crate::ranges::{coalesce_model, coalesce_ranges, invert_model, invert_ranges, ranges_equal, CharRange};
use vstd::prelude::*;

verus! {

/// The characters of an expression that always consumes exactly one
/// character from a fixed set, as far as it can be told: a one-character
/// literal, a set, `ANY`, a one-item sequence, `!x ANY` where `x` matches one
/// character, a `TakeWhile` of exactly one, or a rule or label around one.
pub open spec fn single_consumption(m: IrModel, rules: Seq<IrModel>, visiting: Seq<usize>) -> Option<Seq<CharRange>>
    decreases rules.len() - visiting.len(), m,
{
    match m {
        IrModel::Literal(s) => if s.len() == 1 {
            Some(seq![CharRange { start: s[0], end: s[0] }])
        } else {
            None
        },
        IrModel::CharSet(r) => Some(r),
        IrModel::Any => Some(all_chars()),
        IrModel::RuleRef(idx) => if visiting.contains(idx) || idx >= rules.len() || visiting.len() >= rules.len() {
            None
        } else {
            single_consumption(rules[idx as int], rules, visiting.push(idx))
        },
        IrModel::Sequence(items) => if items.len() == 1 {
            single_consumption(items[0], rules, visiting)
        } else if items.len() == 2 && items[0] is NegLookahead && items[1] is Any {
            match single_set(*items[0]->NegLookahead_0, rules, visiting) {
                Some(d) => Some(invert_model(coalesce_model(d))),
                None => None,
            }
        } else {
            None
        },
        IrModel::TakeWhile { ranges, min, max } => if min == 1 && max == Some(1u32) {
            Some(ranges)
        } else {
            None
        },
        IrModel::Labeled { expr, .. } => single_consumption(*expr, rules, visiting),
        _ => None,
    }
}

/// An arm that consumes exactly the characters it is dispatched on, one at a time.
pub open spec fn arm_is_plain(a: ArmModel, rules: Seq<IrModel>) -> bool {
    match single_consumption(*a.expr, rules, Seq::empty()) {
        Some(r) => coalesce_model(r) == a.ranges,
        None => false,
    }
}

/// The ranges of the plain arms, in order.
pub open spec fn plain_ranges_of(arms: Seq<ArmModel>, rules: Seq<IrModel>) -> Seq<CharRange>
    decreases arms.len(),
{
    if arms.len() == 0 {
        Seq::empty()
    } else {
        plain_ranges_of(arms.drop_last(), rules) + (if arm_is_plain(arms.last(), rules) {
            arms.last().ranges
        } else {
            Seq::empty()
        })
    }
}

/// The arms that are not plain, in order.
pub open spec fn special_arms(arms: Seq<ArmModel>, rules: Seq<IrModel>) -> Seq<ArmModel>
    decreases arms.len(),
{
    if arms.len() == 0 {
        Seq::empty()
    } else if arm_is_plain(arms.last(), rules) {
        special_arms(arms.drop_last(), rules)
    } else {
        special_arms(arms.drop_last(), rules).push(arms.last())
    }
}

/// The scanner for an unbounded repetition of `m`, if `m` is a dispatch
/// table with both plain and special arms.
pub open spec fn scan_model(m: IrModel, min: u32, rules: Seq<IrModel>) -> Option<IrModel> {
    match m {
        IrModel::Dispatch(arms) => {
            let plain = coalesce_model(plain_ranges_of(arms, rules));
            let specials = special_arms(arms, rules);
            if plain.len() == 0 || specials.len() == 0 {
                None
            } else {
                Some(IrModel::Scan { plain_ranges: plain, specials, min })
            }
        },
        _ => None,
    }
}

/// A repetition of the already rewritten `inner`: a scanner when it is
/// unbounded and one can be built, else the repetition itself.
pub open spec fn scan_repeat_model(inner: IrModel, min: u32, max: Option<u32>, rules: Seq<IrModel>) -> IrModel {
    if max is None && scan_model(inner, min, rules) is Some {
        scan_model(inner, min, rules)->0
    } else {
        IrModel::Repeat { expr: Box::new(inner), min, max }
    }
}

/// The characters `e` consumes if it always consumes exactly one of a fixed set.
fn single_char_consumption_ranges(e: &IrExpr, rules: &Vec<IrExpr>, visiting: &mut Vec<usize>) -> (res: Option<Vec<CharRange>>)
    ensures
        final(visiting)@ == old(visiting)@,
        opt_ranges(res) == single_consumption(e@, ir_models(rules@), old(visiting)@),
    decreases rules@.len() - old(visiting)@.len(), e,
{
    proof {
        lemma_models_index(rules@);
    }
    match e {
        IrExpr::Literal(s) => {
            let n = s.as_str().unicode_len();
            if n == 1 {
                let ch = s.as_str().get_char(0);
                let mut v: Vec<CharRange> = Vec::new();
                v.push(CharRange::single(ch));
                proof {
                    assert(v@ =~= seq![CharRange { start: s@[0], end: s@[0] }]);
                }
                Some(v)
            } else {
                None
            }
        },
        IrExpr::CharSet(r) => Some(copy_ranges(r)),
        IrExpr::Any => Some(all_chars_vec()),
        IrExpr::RuleRef(idx) => {
            let idx = *idx;
            if contains_index(visiting, idx) || idx >= rules.len() || visiting.len() >= rules.len() {
                return None;
            }
            let ghost v0 = visiting@;
            visiting.push(idx);
            let r = single_char_consumption_ranges(&rules[idx], rules, visiting);
            visiting.pop();
            proof {
                assert(visiting@ =~= v0);
            }
            r
        },
        IrExpr::Sequence(items) => {
            proof {
                lemma_models_index(items@);
            }
            if items.len() == 1 {
                proof {
                    assert(decreases_to!(e => items@[0]));
                }
                single_char_consumption_ranges(&items[0], rules, visiting)
            } else if items.len() == 2 {
                match (&items[0], &items[1]) {
                    (IrExpr::NegLookahead(inner), IrExpr::Any) => {
                        let d = single_char_set(inner, rules, visiting);
                        match d {
                            Some(d) => Some(invert_ranges(&coalesce_ranges(d))),
                            None => None,
                        }
                    },
                    _ => None,
                }
            } else {
                None
            }
        },
        IrExpr::TakeWhile { ranges, min, max } => {
            if *min == 1 && *max == Some(1u32) {
                Some(copy_ranges(ranges))
            } else {
                None
            }
        },
        IrExpr::Labeled { expr, .. } => single_char_consumption_ranges(expr, rules, visiting),
        _ => None,
    }
}

/// Whether `arm` consumes exactly the characters it is dispatched on.
fn is_plain_arm(arm: &DispatchArm, rules: &Vec<IrExpr>) -> (res: bool)
    ensures
        res == arm_is_plain(arm@, ir_models(rules@)),
{
    let mut visiting: Vec<usize> = Vec::new();
    let r = single_char_consumption_ranges(&arm.expr, rules, &mut visiting);
    proof {
        assert(visiting@ =~= Seq::<usize>::empty());
    }
    match r {
        Some(r) => {
            let c = coalesce_ranges(r);
            ranges_equal(&c, &arm.ranges)
        },
        None => false,
    }
}

/// The scanner for an unbounded repetition of `e`, if `e` is a dispatch table
/// with both arms that consume one character of their own ranges and other arms.
fn build_scan_expr(e: &IrExpr, min: u32, rules: &Vec<IrExpr>) -> (res: Option<IrExpr>)
    ensures
        match res {
            Some(s) => scan_model(e@, min, ir_models(rules@)) == Some(s@),
            None => scan_model(e@, min, ir_models(rules@)) is None,
        },
{
    let arms = match e {
        IrExpr::Dispatch(arms) => arms,
        _ => {
            return None;
        },
    };
    proof {
        lemma_arm_models_index(arms@);
    }
    let ghost ms = arm_models(arms@);
    let ghost rs = ir_models(rules@);
    let mut plain: Vec<CharRange> = Vec::new();
    let mut specials: Vec<DispatchArm> = Vec::new();
    let mut i: usize = 0;
    proof {
        assert(ms.take(0) =~= Seq::<ArmModel>::empty());
        assert(arm_models(specials@) =~= Seq::<ArmModel>::empty());
    }
    while i < arms.len()
        invariant
            i <= arms@.len(),
            ms == arm_models(arms@),
            rs == ir_models(rules@),
            ms.len() == arms@.len(),
            forall|k: int| 0 <= k < arms@.len() ==> #[trigger] ms[k] == arms@[k]@,
            plain@ == plain_ranges_of(ms.take(i as int), rs),
            arm_models(specials@) == special_arms(ms.take(i as int), rs),
        decreases arms@.len() - i,
    {
        proof {
            assert(ms.take(i + 1).drop_last() =~= ms.take(i as int));
            assert(ms.take(i + 1).last() == arms@[i as int]@);
            lemma_arm_models_index(specials@);
        }
        if is_plain_arm(&arms[i], rules) {
            let mut more = copy_ranges(&arms[i].ranges);
            plain.append(&mut more);
        } else {
            let ghost before = specials@;
            specials.push(copy_arm(&arms[i]));
            proof {
                lemma_arm_models_index(specials@);
                assert(arm_models(specials@) =~= arm_models(before).push(arms@[i as int]@));
            }
        }
        proof {
            if !arm_is_plain(arms@[i as int]@, rs) {
                assert(plain@ =~= plain_ranges_of(ms.take(i as int), rs) + Seq::<CharRange>::empty());
            }
        }
        i = i + 1;
    }
    proof {
        assert(ms.take(arms@.len() as int) =~= ms);
    }
    let plain = coalesce_ranges(plain);
    if plain.len() == 0 || specials.len() == 0 {
        proof {
            lemma_arm_models_index(specials@);
        }
        return None;
    }
    Some(IrExpr::Scan { plain_ranges: plain, specials, min })
}

/// A repetition of the already rewritten `inner`, as a scanner when possible.
fn scan_repeat(inner: IrExpr, min: u32, max: Option<u32>, rules: &Vec<IrExpr>) -> (res: IrExpr)
    ensures
        res@ == scan_repeat_model(inner@, min, max, ir_models(rules@)),
{
    if max.is_none() {
        match build_scan_expr(&inner, min, rules) {
            Some(s) => {
                return s;
            },
            None => {},
        }
    }
    IrExpr::Repeat { expr: Box::new(inner), min, max }
}

/// Every unbounded repetition of a dispatch table with plain and special arms, after its body is rewritten, becomes a scanner.
pub open spec fn scan_expr_model(m: IrModel, rules: Seq<IrModel>) -> IrModel
    decreases m,
{
    match m {
        IrModel::Sequence(items) => IrModel::Sequence(Seq::new(items.len(), |i: int| if 0 <= i < items.len() { scan_expr_model(items[i], rules) } else { IrModel::Any })),
        IrModel::Choice(items) => IrModel::Choice(Seq::new(items.len(), |i: int| if 0 <= i < items.len() { scan_expr_model(items[i], rules) } else { IrModel::Any })),
        IrModel::Dispatch(arms) => IrModel::Dispatch(Seq::new(arms.len(), |i: int| if 0 <= i < arms.len() { ArmModel { ranges: arms[i].ranges, expr: Box::new(scan_expr_model(*arms[i].expr, rules)) } } else { ArmModel { ranges: Seq::empty(), expr: Box::new(IrModel::Any) } })),
        IrModel::Repeat { expr, min, max } => scan_repeat_model(scan_expr_model(*expr, rules), min, max, rules),
        IrModel::PosLookahead(inner) => IrModel::PosLookahead(Box::new(scan_expr_model(*inner, rules))),
        IrModel::NegLookahead(inner) => IrModel::NegLookahead(Box::new(scan_expr_model(*inner, rules))),
        IrModel::WithFlag { flag, body } => IrModel::WithFlag { flag, body: Box::new(scan_expr_model(*body, rules)) },
        IrModel::WithCounter { counter, amount, body } => IrModel::WithCounter { counter, amount, body: Box::new(scan_expr_model(*body, rules)) },
        IrModel::When { condition, body } => IrModel::When { condition, body: Box::new(scan_expr_model(*body, rules)) },
        IrModel::DepthLimit { limit, body } => IrModel::DepthLimit { limit, body: Box::new(scan_expr_model(*body, rules)) },
        IrModel::Scan { plain_ranges, specials, min } => IrModel::Scan { plain_ranges, specials: Seq::new(specials.len(), |i: int| if 0 <= i < specials.len() { ArmModel { ranges: specials[i].ranges, expr: Box::new(scan_expr_model(*specials[i].expr, rules)) } } else { ArmModel { ranges: Seq::empty(), expr: Box::new(IrModel::Any) } }), min },
        IrModel::Labeled { expr, label } => IrModel::Labeled { expr: Box::new(scan_expr_model(*expr, rules)), label },
        IrModel::SeparatedList { first, rest } => IrModel::SeparatedList { first: Box::new(scan_expr_model(*first, rules)), rest: Box::new(scan_expr_model(*rest, rules)) },
        other => other,
    }
}

pub(crate) fn recognize_scan_expr(e: &IrExpr, rules: &Vec<IrExpr>) -> (res: IrExpr)
    ensures
        res@ == scan_expr_model(e@, ir_models(rules@)),
    decreases e,
{
    match e {
        IrExpr::Sequence(items) => {
            let r = recognize_scan_expr_list(items, rules);
            let res = IrExpr::Sequence(r);
            proof {
                lemma_models_index(r@);
                lemma_models_index(items@);
                assert(ir_models(r@) =~= scan_expr_model(e@, ir_models(rules@))->Sequence_0);
            }
            res
        },
        IrExpr::Choice(items) => {
            let r = recognize_scan_expr_list(items, rules);
            let res = IrExpr::Choice(r);
            proof {
                lemma_models_index(r@);
                lemma_models_index(items@);
                assert(ir_models(r@) =~= scan_expr_model(e@, ir_models(rules@))->Choice_0);
            }
            res
        },
        IrExpr::Dispatch(arms) => {
            let r = recognize_scan_expr_arms(arms, rules);
            let res = IrExpr::Dispatch(r);
            proof {
                lemma_arm_models_index(r@);
                lemma_arm_models_index(arms@);
                assert(arm_models(r@) =~= scan_expr_model(e@, ir_models(rules@))->Dispatch_0);
            }
            res
        },
        IrExpr::Repeat { expr, min, max } => {
            let inner = recognize_scan_expr(expr, rules);
            scan_repeat(inner, *min, *max, rules)
        },
        IrExpr::PosLookahead(inner) => IrExpr::PosLookahead(Box::new(recognize_scan_expr(inner, rules))),
        IrExpr::NegLookahead(inner) => IrExpr::NegLookahead(Box::new(recognize_scan_expr(inner, rules))),
        IrExpr::WithFlag { flag, body } => IrExpr::WithFlag { flag: copy_string(flag), body: Box::new(recognize_scan_expr(body, rules)) },
        IrExpr::WithCounter { counter, amount, body } => IrExpr::WithCounter { counter: copy_string(counter), amount: *amount, body: Box::new(recognize_scan_expr(body, rules)) },
        IrExpr::When { condition, body } => IrExpr::When { condition: copy_condition(condition), body: Box::new(recognize_scan_expr(body, rules)) },
        IrExpr::DepthLimit { limit, body } => IrExpr::DepthLimit { limit: *limit, body: Box::new(recognize_scan_expr(body, rules)) },
        IrExpr::Scan { plain_ranges, specials, min } => {
            let r = recognize_scan_expr_arms(specials, rules);
            let res = IrExpr::Scan { plain_ranges: copy_ranges(plain_ranges), specials: r, min: *min };
            proof {
                lemma_arm_models_index(r@);
                lemma_arm_models_index(specials@);
                assert(arm_models(r@) =~= scan_expr_model(e@, ir_models(rules@))->specials);
            }
            res
        },
        IrExpr::Labeled { expr, label } => IrExpr::Labeled { expr: Box::new(recognize_scan_expr(expr, rules)), label: copy_string(label) },
        IrExpr::SeparatedList { first, rest } => IrExpr::SeparatedList { first: Box::new(recognize_scan_expr(first, rules)), rest: Box::new(recognize_scan_expr(rest, rules)) },
        _ => copy_expr(e),
    }
}

fn recognize_scan_expr_list(items: &Vec<IrExpr>, rules: &Vec<IrExpr>) -> (res: Vec<IrExpr>)
    ensures
        res@.len() == items@.len(),
        forall|k: int| 0 <= k < items@.len() ==> (#[trigger] res@[k])@ == scan_expr_model(items@[k]@, ir_models(rules@)),
    decreases items,
{
    let mut res: Vec<IrExpr> = Vec::new();
    let mut i: usize = 0;
    while i < items.len()
        invariant
            i <= items@.len(),
            res@.len() == i,
            forall|k: int| 0 <= k < i ==> (#[trigger] res@[k])@ == scan_expr_model(items@[k]@, ir_models(rules@)),
        decreases items@.len() - i,
    {
        proof {
            assert(decreases_to!(items => items@[i as int]));
        }
        res.push(recognize_scan_expr(&items[i], rules));
        i = i + 1;
    }
    res
}

fn recognize_scan_expr_arms(arms: &Vec<DispatchArm>, rules: &Vec<IrExpr>) -> (res: Vec<DispatchArm>)
    ensures
        res@.len() == arms@.len(),
        forall|k: int| 0 <= k < arms@.len() ==> (#[trigger] res@[k]).ranges@ == arms@[k].ranges@ && (*res@[k].expr)@ == scan_expr_model((*arms@[k].expr)@, ir_models(rules@)),
    decreases arms,
{
    let mut res: Vec<DispatchArm> = Vec::new();
    let mut i: usize = 0;
    while i < arms.len()
        invariant
            i <= arms@.len(),
            res@.len() == i,
            forall|k: int| 0 <= k < i ==> (#[trigger] res@[k]).ranges@ == arms@[k].ranges@ && (*res@[k].expr)@ == scan_expr_model((*arms@[k].expr)@, ir_models(rules@)),
        decreases arms@.len() - i,
    {
        proof {
            assert(decreases_to!(arms => arms@[i as int]));
        }
        let arm = &arms[i];
        let expr = recognize_scan_expr(&arm.expr, rules);
        res.push(DispatchArm { ranges: copy_ranges(&arm.ranges), expr: Box::new(expr) });
        i = i + 1;
    }
    res
}


/// Every rule with scanners, looking through rule references as the rules stand.
pub open spec fn scan_program(p: ProgramModel) -> ProgramModel {
    with_exprs(p, |m: IrModel| scan_expr_model(m, rule_exprs(p.rules)))
}

/// Lower to scanners every unbounded repetition of a dispatch table whose arms
/// are partly plain (one character of their own ranges) and partly special,
/// looking through rule references as the rules stand before the pass.
pub(crate) fn recognize_scan_repeat(program: IrProgram) -> (res: IrProgram)
    ensures
        res@ == scan_program(program@),
{
    let mut snapshot: Vec<IrExpr> = Vec::new();
    let mut s: usize = 0;
    while s < program.rules.len()
        invariant
            s <= program.rules@.len(),
            snapshot@.len() == s,
            forall|k: int| 0 <= k < s ==> (#[trigger] snapshot@[k])@ == program.rules@[k].expr@,
        decreases program.rules@.len() - s,
    {
        snapshot.push(copy_expr(&program.rules[s].expr));
        s = s + 1;
    }
    proof {
        lemma_models_index(snapshot@);
        assert(ir_models(snapshot@) =~= rule_exprs(program@.rules));
    }
    pass_scan(program, &snapshot)
}

/// Rewrite every rule with the scanners that `rules` allow.
fn pass_scan(program: IrProgram, rules: &Vec<IrExpr>) -> (res: IrProgram)
    ensures
        res@ == with_exprs(program@, |m: IrModel| scan_expr_model(m, ir_models(rules@))),
{
    let mut program = program;
    let ghost old_model = program@;
    let mut i: usize = 0;
    while i < program.rules.len()
        invariant
            i <= program.rules@.len(),
            program.rules@.len() == old_model.rules.len(),
            program@.state_decls == old_model.state_decls,
            forall|k: int| 0 <= k < i ==> rule_model(#[trigger] program.rules@[k]) == with_expr(old_model.rules[k], scan_expr_model(old_model.rules[k].expr, ir_models(rules@))),
            forall|k: int| i <= k < program.rules@.len() ==> rule_model(#[trigger] program.rules@[k]) == old_model.rules[k],
        decreases program.rules@.len() - i,
    {
        let new_expr = recognize_scan_expr(&program.rules[i].expr, rules);
        let ghost before = program.rules@;
        program.rules[i].expr = new_expr;
        proof {
            assert(rule_model(program.rules@[i as int]) =~= with_expr(old_model.rules[i as int], scan_expr_model(old_model.rules[i as int].expr, ir_models(rules@))));
            assert forall|k: int| 0 <= k < program.rules@.len() && k != i implies program.rules@[k] == before[k] by {}
        }
        i = i + 1;
    }
    proof {
        assert(rule_models(program.rules@) =~= with_exprs(old_model, |m: IrModel| scan_expr_model(m, ir_models(rules@))).rules);
        assert(program@ =~= with_exprs(old_model, |m: IrModel| scan_expr_model(m, ir_models(rules@))));
    }
    program
}


// ── Laws ──

/// A repetition stays a repetition of its rewritten body, or becomes a
/// scanner only when it is unbounded, and then a scanner that repeats at
/// least as many times as the repetition asked for.
pub proof fn law_scan_keeps_repetition_bounds(e: IrModel, min: u32, max: Option<u32>, rules: Seq<IrModel>)
    ensures
        !(scan_expr_model(IrModel::Repeat { expr: Box::new(e), min, max }, rules) is Scan) ==> scan_expr_model(
            IrModel::Repeat { expr: Box::new(e), min, max },
            rules,
        ) == (IrModel::Repeat { expr: Box::new(scan_expr_model(e, rules)), min, max }),
        scan_expr_model(IrModel::Repeat { expr: Box::new(e), min, max }, rules) is Scan ==> max is None,
        scan_expr_model(IrModel::Repeat { expr: Box::new(e), min, max }, rules) is Scan ==> scan_expr_model(
            IrModel::Repeat { expr: Box::new(e), min, max },
            rules,
        )->Scan_min == min,
{
}

} // verus!
