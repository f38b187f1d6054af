use crate::ast::{copy_condition, copy_string, CondModel, GuardCondition};
use crate::ranges::CharRange;
use vstd::prelude::*;

verus! {

/// IR expression — the core matching primitive.
///
/// Unlike the syntax tree there is no `Group`, character classes are range
/// sets, rule references are resolved to indices, and all repetitions carry
/// explicit bounds.
#[derive(Debug, PartialEq)]
pub enum IrExpr {
    /// Match a literal string. Adjacent literals can be fused.
    Literal(String),
    /// Match one character from a set of inclusive ranges.
    CharSet(Vec<CharRange>),
    /// Match any single character.
    Any,
    /// Match a position boundary (zero-width).
    Boundary(Boundary),
    /// Reference to another rule by index.
    RuleRef(usize),
    /// Match a sequence of expressions in order.
    Sequence(Vec<IrExpr>),
    /// Ordered choice: try each in order, backtrack on failure.
    Choice(Vec<IrExpr>),
    /// Deterministic choice lowered to a single-character dispatch table.
    Dispatch(Vec<DispatchArm>),
    /// Repetition with bounds: `*` = (0, None), `+` = (1, None), `?` = (0, Some(1)).
    Repeat { expr: Box<IrExpr>, min: u32, max: Option<u32> },
    /// Positive lookahead (zero-width).
    PosLookahead(Box<IrExpr>),
    /// Negative lookahead (zero-width).
    NegLookahead(Box<IrExpr>),
    /// Set flag, run body, restore previous value.
    WithFlag { flag: String, body: Box<IrExpr> },
    /// Increment counter, run body, decrement on exit.
    WithCounter { counter: String, amount: u32, body: Box<IrExpr> },
    /// Run body only if condition holds; otherwise succeed with no consumption.
    When { condition: GuardCondition, body: Box<IrExpr> },
    /// Fail if recursion depth exceeds limit.
    DepthLimit { limit: u32, body: Box<IrExpr> },
    /// Fused char-class repeat.
    TakeWhile { ranges: Vec<CharRange>, min: u32, max: Option<u32> },
    /// Repetition lowered to a chunked scanner plus special-case dispatch.
    Scan { plain_ranges: Vec<CharRange>, specials: Vec<DispatchArm>, min: u32 },
    /// User-defined error label; optimization passes do not merge across it.
    Labeled { expr: Box<IrExpr>, label: String },
    /// `first (rest)*` where `rest` is a sequence: a separated list.
    SeparatedList { first: Box<IrExpr>, rest: Box<IrExpr> },
    /// `open body close`: a literal, a repetition of zero or more, and a literal.
    Delimited { open: String, body: Box<IrExpr>, close: String },
}

/// A single arm in a deterministic dispatch table.
#[derive(Debug, PartialEq)]
pub struct DispatchArm {
    pub ranges: Vec<CharRange>,
    pub expr: Box<IrExpr>,
}

/// Zero-width position assertion.
#[derive(Debug, Clone, Copy, PartialEq, Eq, Structural)]
pub enum Boundary {
    /// Start of input (position 0).
    Soi,
    /// End of input (no remaining bytes).
    Eoi,
    /// Start of a line (position 0 or after `\n`).
    LineStart,
    /// End of a line (at `\n` or end of input).
    LineEnd,
}

// ── Mathematical model ──

#[verifier::ext_equal]
pub enum IrModel {
    Literal(Seq<char>),
    CharSet(Seq<CharRange>),
    Any,
    Boundary(Boundary),
    RuleRef(usize),
    Sequence(Seq<IrModel>),
    Choice(Seq<IrModel>),
    Dispatch(Seq<ArmModel>),
    Repeat { expr: Box<IrModel>, min: u32, max: Option<u32> },
    PosLookahead(Box<IrModel>),
    NegLookahead(Box<IrModel>),
    WithFlag { flag: Seq<char>, body: Box<IrModel> },
    WithCounter { counter: Seq<char>, amount: u32, body: Box<IrModel> },
    When { condition: CondModel, body: Box<IrModel> },
    DepthLimit { limit: u32, body: Box<IrModel> },
    TakeWhile { ranges: Seq<CharRange>, min: u32, max: Option<u32> },
    Scan { plain_ranges: Seq<CharRange>, specials: Seq<ArmModel>, min: u32 },
    Labeled { expr: Box<IrModel>, label: Seq<char> },
    SeparatedList { first: Box<IrModel>, rest: Box<IrModel> },
    Delimited { open: Seq<char>, body: Box<IrModel>, close: Seq<char> },
}

#[verifier::ext_equal]
pub struct ArmModel {
    pub ranges: Seq<CharRange>,
    pub expr: Box<IrModel>,
}

pub open spec fn ir_model(e: IrExpr) -> IrModel
    decreases e,
{
    match e {
        IrExpr::Literal(s) => IrModel::Literal(s@),
        IrExpr::CharSet(r) => IrModel::CharSet(r@),
        IrExpr::Any => IrModel::Any,
        IrExpr::Boundary(b) => IrModel::Boundary(b),
        IrExpr::RuleRef(i) => IrModel::RuleRef(i),
        IrExpr::Sequence(items) => IrModel::Sequence(ir_models(items@)),
        IrExpr::Choice(items) => IrModel::Choice(ir_models(items@)),
        IrExpr::Dispatch(arms) => IrModel::Dispatch(arm_models(arms@)),
        IrExpr::Repeat { expr, min, max } => IrModel::Repeat { expr: Box::new(ir_model(*expr)), min, max },
        IrExpr::PosLookahead(inner) => IrModel::PosLookahead(Box::new(ir_model(*inner))),
        IrExpr::NegLookahead(inner) => IrModel::NegLookahead(Box::new(ir_model(*inner))),
        IrExpr::WithFlag { flag, body } => IrModel::WithFlag { flag: flag@, body: Box::new(ir_model(*body)) },
        IrExpr::WithCounter { counter, amount, body } => IrModel::WithCounter {
            counter: counter@,
            amount,
            body: Box::new(ir_model(*body)),
        },
        IrExpr::When { condition, body } => IrModel::When {
            condition: condition@,
            body: Box::new(ir_model(*body)),
        },
        IrExpr::DepthLimit { limit, body } => IrModel::DepthLimit { limit, body: Box::new(ir_model(*body)) },
        IrExpr::TakeWhile { ranges, min, max } => IrModel::TakeWhile { ranges: ranges@, min, max },
        IrExpr::Scan { plain_ranges, specials, min } => IrModel::Scan {
            plain_ranges: plain_ranges@,
            specials: arm_models(specials@),
            min,
        },
        IrExpr::Labeled { expr, label } => IrModel::Labeled { expr: Box::new(ir_model(*expr)), label: label@ },
        IrExpr::SeparatedList { first, rest } => IrModel::SeparatedList {
            first: Box::new(ir_model(*first)),
            rest: Box::new(ir_model(*rest)),
        },
        IrExpr::Delimited { open, body, close } => IrModel::Delimited {
            open: open@,
            body: Box::new(ir_model(*body)),
            close: close@,
        },
    }
}

impl View for IrExpr {
    type V = IrModel;

    open spec fn view(&self) -> IrModel {
        ir_model(*self)
    }
}

pub open spec fn arm_model(a: DispatchArm) -> ArmModel {
    ArmModel { ranges: a.ranges@, expr: Box::new(ir_model(*a.expr)) }
}

impl View for DispatchArm {
    type V = ArmModel;

    open spec fn view(&self) -> ArmModel {
        arm_model(*self)
    }
}

/// The models of a list of expressions.
pub open spec fn ir_models(s: Seq<IrExpr>) -> Seq<IrModel>
    decreases s,
{
    Seq::new(
        s.len(),
        |i: int|
            if 0 <= i < s.len() {
                ir_model(s[i])
            } else {
                IrModel::Any
            },
    )
}

/// The models of a list of dispatch arms.
pub open spec fn arm_models(s: Seq<DispatchArm>) -> Seq<ArmModel>
    decreases s,
{
    Seq::new(
        s.len(),
        |i: int|
            if 0 <= i < s.len() {
                ArmModel { ranges: s[i].ranges@, expr: Box::new(ir_model(*s[i].expr)) }
            } else {
                ArmModel { ranges: Seq::empty(), expr: Box::new(IrModel::Any) }
            },
    )
}

pub proof fn lemma_models_index(s: Seq<IrExpr>)
    ensures
        ir_models(s).len() == s.len(),
        forall|i: int| 0 <= i < s.len() ==> #[trigger] ir_models(s)[i] == ir_model(s[i]),
{
}

pub proof fn lemma_arm_models_index(s: Seq<DispatchArm>)
    ensures
        arm_models(s).len() == s.len(),
        forall|i: int| 0 <= i < s.len() ==> #[trigger] arm_models(s)[i] == arm_model(s[i]),
{
}

pub proof fn lemma_models_push(s: Seq<IrExpr>, x: IrExpr)
    ensures
        ir_models(s.push(x)) == ir_models(s).push(ir_model(x)),
{
    assert(ir_models(s.push(x)) =~= ir_models(s).push(ir_model(x)));
}

pub proof fn lemma_models_concat(a: Seq<IrExpr>, b: Seq<IrExpr>)
    ensures
        ir_models(a + b) == ir_models(a) + ir_models(b),
{
    assert(ir_models(a + b) =~= ir_models(a) + ir_models(b));
}

pub fn copy_ranges(r: &Vec<CharRange>) -> (res: Vec<CharRange>)
    ensures
        res@ == r@,
{
    let mut res: Vec<CharRange> = Vec::new();
    let mut i: usize = 0;
    while i < r.len()
        invariant
            i <= r@.len(),
            res@ == r@.take(i as int),
        decreases r@.len() - i,
    {
        res.push(r[i]);
        i = i + 1;
        proof {
            assert(res@ =~= r@.take(i as int));
        }
    }
    proof {
        assert(r@.take(r@.len() as int) =~= r@);
    }
    res
}

pub fn copy_arm(a: &DispatchArm) -> (res: DispatchArm)
    ensures
        res@ == a@,
    decreases a,
{
    DispatchArm { ranges: copy_ranges(&a.ranges), expr: Box::new(copy_expr(&a.expr)) }
}

pub fn copy_arms(arms: &Vec<DispatchArm>) -> (res: Vec<DispatchArm>)
    ensures
        arm_models(res@) == arm_models(arms@),
    decreases arms,
{
    let mut res: Vec<DispatchArm> = Vec::new();
    let mut i: usize = 0;
    while i < arms.len()
        invariant
            i <= arms@.len(),
            res@.len() == i,
            forall|k: int| 0 <= k < i ==> arm_model(#[trigger] res@[k]) == arm_model(arms@[k]),
        decreases arms@.len() - i,
    {
        proof {
            assert(decreases_to!(arms => arms@[i as int]));
        }
        res.push(copy_arm(&arms[i]));
        i = i + 1;
    }
    proof {
        assert(arm_models(res@) =~= arm_models(arms@));
    }
    res
}

pub fn copy_exprs(items: &Vec<IrExpr>) -> (res: Vec<IrExpr>)
    ensures
        ir_models(res@) == ir_models(items@),
    decreases items,
{
    let mut res: Vec<IrExpr> = Vec::new();
    let mut i: usize = 0;
    while i < items.len()
        invariant
            i <= items@.len(),
            res@.len() == i,
            forall|k: int| 0 <= k < i ==> ir_model(#[trigger] res@[k]) == ir_model(items@[k]),
        decreases items@.len() - i,
    {
        proof {
            assert(decreases_to!(items => items@[i as int]));
        }
        res.push(copy_expr(&items[i]));
        i = i + 1;
    }
    proof {
        assert(ir_models(res@) =~= ir_models(items@));
    }
    res
}

/// A deep copy whose model equals that of the copied expression.
pub fn copy_expr(e: &IrExpr) -> (res: IrExpr)
    ensures
        res@ == e@,
    decreases e,
{
    match e {
        IrExpr::Literal(s) => IrExpr::Literal(copy_string(s)),
        IrExpr::CharSet(r) => IrExpr::CharSet(copy_ranges(r)),
        IrExpr::Any => IrExpr::Any,
        IrExpr::Boundary(b) => IrExpr::Boundary(*b),
        IrExpr::RuleRef(i) => IrExpr::RuleRef(*i),
        IrExpr::Sequence(items) => {
            let r = copy_exprs(items);
            IrExpr::Sequence(r)
        },
        IrExpr::Choice(items) => {
            let r = copy_exprs(items);
            IrExpr::Choice(r)
        },
        IrExpr::Dispatch(arms) => {
            let r = copy_arms(arms);
            IrExpr::Dispatch(r)
        },
        IrExpr::Repeat { expr, min, max } => IrExpr::Repeat {
            expr: Box::new(copy_expr(expr)),
            min: *min,
            max: *max,
        },
        IrExpr::PosLookahead(inner) => IrExpr::PosLookahead(Box::new(copy_expr(inner))),
        IrExpr::NegLookahead(inner) => IrExpr::NegLookahead(Box::new(copy_expr(inner))),
        IrExpr::WithFlag { flag, body } => IrExpr::WithFlag {
            flag: copy_string(flag),
            body: Box::new(copy_expr(body)),
        },
        IrExpr::WithCounter { counter, amount, body } => IrExpr::WithCounter {
            counter: copy_string(counter),
            amount: *amount,
            body: Box::new(copy_expr(body)),
        },
        IrExpr::When { condition, body } => IrExpr::When {
            condition: copy_condition(condition),
            body: Box::new(copy_expr(body)),
        },
        IrExpr::DepthLimit { limit, body } => IrExpr::DepthLimit {
            limit: *limit,
            body: Box::new(copy_expr(body)),
        },
        IrExpr::TakeWhile { ranges, min, max } => IrExpr::TakeWhile {
            ranges: copy_ranges(ranges),
            min: *min,
            max: *max,
        },
        IrExpr::Scan { plain_ranges, specials, min } => {
            let p = copy_ranges(plain_ranges);
            let s = copy_arms(specials);
            IrExpr::Scan { plain_ranges: p, specials: s, min: *min }
        },
        IrExpr::Labeled { expr, label } => IrExpr::Labeled {
            expr: Box::new(copy_expr(expr)),
            label: copy_string(label),
        },
        IrExpr::SeparatedList { first, rest } => IrExpr::SeparatedList {
            first: Box::new(copy_expr(first)),
            rest: Box::new(copy_expr(rest)),
        },
        IrExpr::Delimited { open, body, close } => IrExpr::Delimited {
            open: copy_string(open),
            body: Box::new(copy_expr(body)),
            close: copy_string(close),
        },
    }
}

} // verus!
