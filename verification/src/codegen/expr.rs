//! The combinator chosen for each kind of expression.
use super::code::{
    alt_code, char_test, chunk_alts, code_model, code_models, interleave, lemma_chunk_alts_len,
    lemma_code_models_index, sequence_code, span, CharTest, Code, CodeModel, Span, TestModel,
    RANGE_TUPLE_LIMIT, TUPLE_LIMIT,
};
use crate::ast::copy_condition;
use crate::ast::copy_string;
use crate::hir::expr::{
    arm_model, arm_models, copy_ranges, ir_model, ir_models, lemma_arm_models_index,
    lemma_models_index, ArmModel, DispatchArm, IrExpr, IrModel,
};
use crate::hir::program::{refs_below, refs_below_all, refs_below_arms};
use crate::ranges::CharRange;
use vstd::prelude::*;

verus! {

/// The models of a list of names.
pub open spec fn name_models(s: Seq<String>) -> Seq<Seq<char>> {
    s.map_values(|n: String| n@)
}

/// Each element wrapped in `.void()`.
pub open spec fn voided(s: Seq<CodeModel>) -> Seq<CodeModel> {
    s.map_values(|c: CodeModel| CodeModel::Void(Box::new(c)))
}

/// A repetition: `opt` for zero or one, else `repeat` over the span.
pub open spec fn repeat_code(inner: CodeModel, min: u32, max: Option<u32>) -> CodeModel {
    if min == 0 && max == Some(1u32) {
        CodeModel::Opt(Box::new(inner))
    } else {
        CodeModel::Repeat(span(min, max), Box::new(inner))
    }
}

/// A dispatch arm: peek at one of its first characters, then parse its body.
pub open spec fn arm_code(ranges: Seq<CharRange>, body: CodeModel) -> CodeModel {
    CodeModel::Void(
        Box::new(
            CodeModel::Tuple(
                seq![
                    CodeModel::Peek(Box::new(CodeModel::OneOf(char_test(ranges)))),
                    CodeModel::Void(Box::new(body)),
                ],
            ),
        ),
    )
}

/// The code of an expression, with rule `i` called by `names[i]`.
pub open spec fn expr_code(m: IrModel, names: Seq<Seq<char>>) -> CodeModel
    decreases m,
{
    match m {
        IrModel::Literal(s) => CodeModel::Literal(s),
        IrModel::CharSet(r) => CodeModel::OneOf(char_test(r)),
        IrModel::Any => CodeModel::Any,
        IrModel::Boundary(b) => CodeModel::Boundary(b),
        IrModel::RuleRef(i) => CodeModel::Call(names[i as int]),
        IrModel::Sequence(items) => sequence_code(exprs_code(items, names)),
        IrModel::Choice(items) => alt_code(voided(exprs_code(items, names))),
        IrModel::Dispatch(arms) => alt_code(arms_code(arms, names)),
        IrModel::Repeat { expr, min, max } => repeat_code(expr_code(*expr, names), min, max),
        IrModel::PosLookahead(inner) => CodeModel::Peek(Box::new(expr_code(*inner, names))),
        IrModel::NegLookahead(inner) => CodeModel::Not(Box::new(expr_code(*inner, names))),
        IrModel::WithFlag { flag, body } => CodeModel::WithFlag(flag, Box::new(expr_code(*body, names))),
        IrModel::WithCounter { counter, amount, body } => CodeModel::WithCounter(
            counter,
            amount as usize,
            Box::new(expr_code(*body, names)),
        ),
        IrModel::When { condition, body } => CodeModel::When(condition, Box::new(expr_code(*body, names))),
        IrModel::DepthLimit { limit, body } => CodeModel::DepthLimit(
            limit as usize,
            Box::new(expr_code(*body, names)),
        ),
        IrModel::TakeWhile { ranges, min, max } => CodeModel::TakeWhile(span(min, max), char_test(ranges)),
        IrModel::Scan { plain_ranges, specials, min } => CodeModel::Repeat(
            span(min, None),
            Box::new(
                CodeModel::Alt(
                    seq![
                        CodeModel::Void(Box::new(CodeModel::TakeWhile(span(1, None), char_test(plain_ranges)))),
                        CodeModel::Void(Box::new(alt_code(arms_code(specials, names)))),
                    ],
                ),
            ),
        ),
        IrModel::Labeled { expr, label } => CodeModel::Labeled(Box::new(expr_code(*expr, names)), label),
        IrModel::SeparatedList { first, rest } => CodeModel::Tuple(
            seq![
                CodeModel::Void(Box::new(expr_code(*first, names))),
                CodeModel::Repeat(span(0, None), Box::new(CodeModel::Void(Box::new(expr_code(*rest, names))))),
            ],
        ),
        IrModel::Delimited { open, body, close } => CodeModel::Tuple(
            seq![
                CodeModel::Void(Box::new(CodeModel::Literal(open))),
                CodeModel::Void(Box::new(expr_code(*body, names))),
                CodeModel::Void(Box::new(CodeModel::Literal(close))),
            ],
        ),
    }
}

/// The code of each expression of a list.
pub open spec fn exprs_code(s: Seq<IrModel>, names: Seq<Seq<char>>) -> Seq<CodeModel>
    decreases s,
{
    Seq::new(
        s.len(),
        |i: int|
            if 0 <= i < s.len() {
                expr_code(s[i], names)
            } else {
                CodeModel::Any
            },
    )
}

/// The code of each arm of a dispatch table.
pub open spec fn arms_code(s: Seq<ArmModel>, names: Seq<Seq<char>>) -> Seq<CodeModel>
    decreases s,
{
    Seq::new(
        s.len(),
        |i: int|
            if 0 <= i < s.len() {
                arm_code(s[i].ranges, expr_code(*s[i].expr, names))
            } else {
                CodeModel::Any
            },
    )
}

proof fn lemma_models_subrange(s: Seq<Code>, a: int, b: int)
    requires
        0 <= a <= b <= s.len(),
    ensures
        code_models(s.subrange(a, b)) == code_models(s).subrange(a, b),
{
    assert(code_models(s.subrange(a, b)) =~= code_models(s).subrange(a, b));
}

proof fn lemma_models_push(s: Seq<Code>, x: Code)
    ensures
        code_models(s.push(x)) == code_models(s).push(code_model(x)),
{
    assert(code_models(s.push(x)) =~= code_models(s).push(code_model(x)));
}

proof fn lemma_front(before: Seq<Code>, after: Seq<Code>, x: Code, all: Seq<CodeModel>, i: int)
    requires
        0 <= i < all.len(),
        before.len() > 0,
        code_models(before) == all.skip(i),
        x == before[0],
        after == before.remove(0),
    ensures
        code_model(x) == all[i],
        code_models(after) == all.skip(i + 1),
{
    lemma_code_models_index(before);
    lemma_code_models_index(after);
    assert(code_models(before)[0] == all.skip(i)[0]);
    assert forall|k: int| 0 <= k < after.len() implies code_models(after)[k] == all.skip(i + 1)[k] by {
        assert(after[k] == before[k + 1]);
        assert(code_models(before)[k + 1] == all.skip(i)[k + 1]);
    }
    assert(code_models(after) =~= all.skip(i + 1));
}

/// How a set of ranges is written.
pub fn plan_test(ranges: &Vec<CharRange>) -> (res: CharTest)
    ensures
        res@ == char_test(ranges@),
{
    if ranges.len() == 1 {
        let r = ranges[0];
        if r.start == r.end {
            CharTest::Char(r.start)
        } else {
            CharTest::Range(r.start, r.end)
        }
    } else if ranges.len() <= RANGE_TUPLE_LIMIT {
        CharTest::Tuple(copy_ranges(ranges))
    } else {
        CharTest::Closure(copy_ranges(ranges))
    }
}

/// The repetition range for `min` and `max`.
pub fn plan_span(min: u32, max: Option<u32>) -> (res: Span)
    ensures
        res == span(min, max),
{
    match max {
        None => Span::AtLeast(min as usize),
        Some(m) => if m == min {
            Span::Exactly(m as usize)
        } else {
            Span::Between(min as usize, m as usize)
        },
    }
}

/// An ordered choice among the alternatives, nested in chunks of at most
/// `TUPLE_LIMIT` where there are more.
pub fn plan_alt(items: Vec<Code>) -> (res: Code)
    ensures
        res@ == alt_code(code_models(items@)),
    decreases items@.len(),
{
    if items.len() <= TUPLE_LIMIT {
        return Code::Alt(items);
    }
    let ghost all = code_models(items@);
    let mut chunks: Vec<Code> = Vec::new();
    let mut rest = items;
    while rest.len() > TUPLE_LIMIT
        invariant
            code_models(chunks@) + chunk_alts(code_models(rest@)) == chunk_alts(all),
        decreases rest@.len(),
    {
        let ghost before = rest@;
        let tail = rest.split_off(TUPLE_LIMIT);
        proof {
            lemma_models_subrange(before, 0, TUPLE_LIMIT as int);
            lemma_models_subrange(before, TUPLE_LIMIT as int, before.len() as int);
            assert(code_models(before).take(TUPLE_LIMIT as int) =~= code_models(before).subrange(
                0,
                TUPLE_LIMIT as int,
            ));
            assert(code_models(before).skip(TUPLE_LIMIT as int) =~= code_models(before).subrange(
                TUPLE_LIMIT as int,
                before.len() as int,
            ));
        }
        let ghost old_chunks = chunks@;
        chunks.push(Code::Alt(rest));
        proof {
            lemma_models_push(old_chunks, Code::Alt(rest));
            assert(code_models(chunks@) + chunk_alts(code_models(tail@)) =~= code_models(old_chunks)
                + chunk_alts(code_models(before)));
        }
        rest = tail;
    }
    let ghost old_chunks = chunks@;
    chunks.push(Code::Alt(rest));
    proof {
        lemma_models_push(old_chunks, Code::Alt(rest));
        assert(code_models(chunks@) =~= chunk_alts(all));
        lemma_chunk_alts_len(all);
        lemma_code_models_index(chunks@);
    }
    plan_alt(chunks)
}

/// A sequence of the elements, with position trackers between them.
pub fn plan_sequence(codes: Vec<Code>) -> (res: Code)
    ensures
        res@ == sequence_code(code_models(codes@)),
{
    if codes.len() <= 1 {
        return Code::Tuple(codes);
    }
    let ghost all = code_models(codes@);
    let n = codes.len();
    let mut joined: Vec<Code> = Vec::new();
    let mut rest = codes;
    let mut i: usize = 0;
    while i < n
        invariant
            n == all.len(),
            n >= 2,
            i <= n,
            code_models(rest@) == all.skip(i as int),
            i == 0 ==> joined@.len() == 0,
            i > 0 ==> code_models(joined@) == interleave(all).take(2 * i - 1),
        decreases n - i,
    {
        proof {
            lemma_code_models_index(rest@);
            assert(rest@.len() == n - i);
        }
        let ghost before = rest@;
        let x = rest.remove(0);
        proof {
            lemma_front(before, rest@, x, all, i as int);
        }
        if i > 0 {
            let ghost j0 = joined@;
            joined.push(Code::TrackPos);
            proof {
                lemma_models_push(j0, Code::TrackPos);
            }
        }
        let ghost j1 = joined@;
        joined.push(x);
        proof {
            lemma_models_push(j1, x);
            assert(code_models(joined@) =~= interleave(all).take(2 * i + 1));
        }
        i = i + 1;
    }
    proof {
        assert(interleave(all).take(2 * n - 1) =~= interleave(all));
    }
    if joined.len() <= TUPLE_LIMIT {
        Code::Tuple(joined)
    } else {
        Code::Steps(joined)
    }
}

/// Each element wrapped in `.void()`.
pub fn plan_voided(codes: Vec<Code>) -> (res: Vec<Code>)
    ensures
        code_models(res@) == voided(code_models(codes@)),
{
    let ghost all = code_models(codes@);
    let n = codes.len();
    let mut out: Vec<Code> = Vec::new();
    let mut rest = codes;
    let mut i: usize = 0;
    while i < n
        invariant
            n == all.len(),
            i <= n,
            code_models(rest@) == all.skip(i as int),
            code_models(out@) == voided(all).take(i as int),
        decreases n - i,
    {
        proof {
            lemma_code_models_index(rest@);
        }
        let ghost before = rest@;
        let x = rest.remove(0);
        proof {
            lemma_front(before, rest@, x, all, i as int);
        }
        let ghost o = out@;
        out.push(Code::Void(Box::new(x)));
        proof {
            lemma_models_push(o, Code::Void(Box::new(x)));
            assert(code_models(out@) =~= voided(all).take(i + 1));
        }
        i = i + 1;
    }
    proof {
        assert(voided(all).take(n as int) =~= voided(all));
    }
    out
}

/// A repetition of `inner`: `opt` for zero or one, else `repeat`.
pub fn plan_repeat(inner: Code, min: u32, max: Option<u32>) -> (res: Code)
    ensures
        res@ == repeat_code(inner@, min, max),
{
    let at_most_one = match max {
        Some(m) => m == 1,
        None => false,
    };
    if min == 0 && at_most_one {
        Code::Opt(Box::new(inner))
    } else {
        Code::Repeat(plan_span(min, max), Box::new(inner))
    }
}

/// The code of a scan: at least `min` times, either a run of plain
/// characters or one of the special cases.
pub fn plan_scan(plain: CharTest, special: Code, min: u32) -> (res: Code)
    ensures
        res@ == CodeModel::Repeat(
            span(min, None),
            Box::new(
                CodeModel::Alt(
                    seq![
                        CodeModel::Void(Box::new(CodeModel::TakeWhile(span(1, None), plain@))),
                        CodeModel::Void(Box::new(special@)),
                    ],
                ),
            ),
        ),
{
    let take = Code::TakeWhile(plan_span(1, None), plain);
    assert(take@ == CodeModel::TakeWhile(span(1, None), plain@));
    let run = Code::Void(Box::new(take));
    let other = Code::Void(Box::new(special));
    let mut both: Vec<Code> = Vec::new();
    both.push(run);
    both.push(other);
    proof {
        lemma_code_models_index(both@);
        assert(code_models(both@) =~= seq![code_model(both@[0]), code_model(both@[1])]);
    }
    let alt = Code::Alt(both);
    assert(alt@ == CodeModel::Alt(code_models(both@)));
    Code::Repeat(plan_span(min, None), Box::new(alt))
}

/// The code of a separated list: the first element, then any number of
/// the rest.
pub fn plan_list(first: Code, rest: Code) -> (res: Code)
    ensures
        res@ == CodeModel::Tuple(
            seq![
                CodeModel::Void(Box::new(first@)),
                CodeModel::Repeat(span(0, None), Box::new(CodeModel::Void(Box::new(rest@)))),
            ],
        ),
{
    let head = Code::Void(Box::new(first));
    let more = Code::Void(Box::new(rest));
    assert(more@ == CodeModel::Void(Box::new(rest@)));
    let tail = Code::Repeat(plan_span(0, None), Box::new(more));
    let mut both: Vec<Code> = Vec::new();
    both.push(head);
    both.push(tail);
    proof {
        lemma_code_models_index(both@);
        assert(code_models(both@) =~= seq![code_model(both@[0]), code_model(both@[1])]);
    }
    Code::Tuple(both)
}

/// The code of a delimited expression: the opening literal, the body and
/// the closing literal, one after another.
pub fn plan_delimited(open: &String, body: Code, close: &String) -> (res: Code)
    ensures
        res@ == CodeModel::Tuple(
            seq![
                CodeModel::Void(Box::new(CodeModel::Literal(open@))),
                CodeModel::Void(Box::new(body@)),
                CodeModel::Void(Box::new(CodeModel::Literal(close@))),
            ],
        ),
{
    let ghost b = body@;
    let open_lit = Code::Literal(copy_string(open));
    assert(open_lit@ == CodeModel::Literal(open@));
    let first = Code::Void(Box::new(open_lit));
    assert(first@ == CodeModel::Void(Box::new(CodeModel::Literal(open@))));
    let middle = Code::Void(Box::new(body));
    assert(middle@ == CodeModel::Void(Box::new(b)));
    let close_lit = Code::Literal(copy_string(close));
    assert(close_lit@ == CodeModel::Literal(close@));
    let last = Code::Void(Box::new(close_lit));
    assert(last@ == CodeModel::Void(Box::new(CodeModel::Literal(close@))));
    let mut parts: Vec<Code> = Vec::new();
    parts.push(first);
    parts.push(middle);
    parts.push(last);
    proof {
        lemma_code_models_index(parts@);
        assert(code_models(parts@) =~= seq![code_model(parts@[0]), code_model(parts@[1]), code_model(parts@[2])]);
    }
    Code::Tuple(parts)
}

/// The code of a dispatch arm with a planned body.
pub fn plan_arm(test: CharTest, body: Code) -> (res: Code)
    ensures
        res@ == CodeModel::Void(
            Box::new(
                CodeModel::Tuple(
                    seq![CodeModel::Peek(Box::new(CodeModel::OneOf(test@))), CodeModel::Void(Box::new(body@))],
                ),
            ),
        ),
{
    let one_of = Code::OneOf(test);
    assert(one_of@ == CodeModel::OneOf(test@));
    let mut pair: Vec<Code> = Vec::new();
    pair.push(Code::Peek(Box::new(one_of)));
    pair.push(Code::Void(Box::new(body)));
    proof {
        lemma_code_models_index(pair@);
        assert(code_models(pair@) =~= seq![code_model(pair@[0]), code_model(pair@[1])]);
    }
    let tuple = Code::Tuple(pair);
    assert(tuple@ == CodeModel::Tuple(code_models(pair@)));
    Code::Void(Box::new(tuple))
}

/// The code of an expression; rule `i` is called by `names[i]`.
#[verifier::rlimit(40)]
pub fn plan_expr(e: &IrExpr, names: &Vec<String>) -> (res: Code)
    requires
        refs_below(e@, names@.len()),
    ensures
        res@ == expr_code(e@, name_models(names@)),
    decreases e,
{
    match e {
        IrExpr::Literal(s) => Code::Literal(copy_string(s)),
        IrExpr::CharSet(r) => Code::OneOf(plan_test(r)),
        IrExpr::Any => Code::Any,
        IrExpr::Boundary(b) => Code::Boundary(*b),
        IrExpr::RuleRef(i) => Code::Call(copy_string(&names[*i])),
        IrExpr::Sequence(items) => {
            let codes = plan_exprs(items, names);
            plan_sequence(codes)
        },
        IrExpr::Choice(items) => {
            let codes = plan_exprs(items, names);
            plan_alt(plan_voided(codes))
        },
        IrExpr::Dispatch(arms) => plan_alt(plan_arms(arms, names)),
        IrExpr::Repeat { expr, min, max } => plan_repeat(plan_expr(expr, names), *min, *max),
        IrExpr::PosLookahead(inner) => Code::Peek(Box::new(plan_expr(inner, names))),
        IrExpr::NegLookahead(inner) => Code::Not(Box::new(plan_expr(inner, names))),
        IrExpr::WithFlag { flag, body } => Code::WithFlag(copy_string(flag), Box::new(plan_expr(body, names))),
        IrExpr::WithCounter { counter, amount, body } => Code::WithCounter(
            copy_string(counter),
            *amount as usize,
            Box::new(plan_expr(body, names)),
        ),
        IrExpr::When { condition, body } => Code::When(
            copy_condition(condition),
            Box::new(plan_expr(body, names)),
        ),
        IrExpr::DepthLimit { limit, body } => Code::DepthLimit(*limit as usize, Box::new(plan_expr(body, names))),
        IrExpr::TakeWhile { ranges, min, max } => Code::TakeWhile(plan_span(*min, *max), plan_test(ranges)),
        IrExpr::Scan { plain_ranges, specials, min } => {
            let special = plan_alt(plan_arms(specials, names));
            plan_scan(plan_test(plain_ranges), special, *min)
        },
        IrExpr::Labeled { expr, label } => Code::Labeled(Box::new(plan_expr(expr, names)), copy_string(label)),
        IrExpr::SeparatedList { first, rest } => {
            let head = plan_expr(first, names);
            plan_list(head, plan_expr(rest, names))
        },
        IrExpr::Delimited { open, body, close } => plan_delimited(open, plan_expr(body, names), close),
    }
}

/// The code of each expression of a list.
pub fn plan_exprs(items: &Vec<IrExpr>, names: &Vec<String>) -> (res: Vec<Code>)
    requires
        refs_below_all(ir_models(items@), names@.len()),
    ensures
        code_models(res@) == exprs_code(ir_models(items@), name_models(names@)),
    decreases items,
{
    let mut res: Vec<Code> = Vec::new();
    let mut i: usize = 0;
    while i < items.len()
        invariant
            i <= items@.len(),
            res@.len() == i,
            refs_below_all(ir_models(items@), names@.len()),
            forall|k: int|
                0 <= k < i ==> code_model(#[trigger] res@[k]) == expr_code(ir_model(items@[k]), name_models(names@)),
        decreases items@.len() - i,
    {
        proof {
            lemma_models_index(items@);
            assert(decreases_to!(items => items@[i as int]));
            assert(refs_below(ir_models(items@)[i as int], names@.len()));
        }
        res.push(plan_expr(&items[i], names));
        i = i + 1;
    }
    proof {
        lemma_models_index(items@);
        lemma_code_models_index(res@);
        assert(code_models(res@) =~= exprs_code(ir_models(items@), name_models(names@)));
    }
    res
}

/// The code of each arm of a dispatch table.
pub fn plan_arms(arms: &Vec<DispatchArm>, names: &Vec<String>) -> (res: Vec<Code>)
    requires
        refs_below_arms(arm_models(arms@), names@.len()),
    ensures
        code_models(res@) == arms_code(arm_models(arms@), name_models(names@)),
    decreases arms,
{
    let mut res: Vec<Code> = Vec::new();
    let mut i: usize = 0;
    while i < arms.len()
        invariant
            i <= arms@.len(),
            res@.len() == i,
            refs_below_arms(arm_models(arms@), names@.len()),
            forall|k: int|
                0 <= k < i ==> code_model(#[trigger] res@[k]) == arm_code(
                    arms@[k].ranges@,
                    expr_code(ir_model(*arms@[k].expr), name_models(names@)),
                ),
        decreases arms@.len() - i,
    {
        proof {
            lemma_arm_models_index(arms@);
            assert(decreases_to!(arms => arms@[i as int]));
            assert(refs_below(*arm_models(arms@)[i as int].expr, names@.len()));
        }
        let arm = &arms[i];
        let test = plan_test(&arm.ranges);
        let body = plan_expr(&arm.expr, names);
        let code = plan_arm(test, body);
        assert(code@ == arm_code(arms@[i as int].ranges@, expr_code(ir_model(*arms@[i as int].expr), name_models(names@))));
        res.push(code);
        i = i + 1;
    }
    proof {
        lemma_arm_models_index(arms@);
        lemma_code_models_index(res@);
        assert(code_models(res@) =~= arms_code(arm_models(arms@), name_models(names@)));
    }
    res
}

} // verus!
