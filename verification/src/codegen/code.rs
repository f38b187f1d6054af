//! The shape of the emitted parser code: one node per combinator that the
//! renderer writes out, with the choices already made.
use crate::ast::{CondModel, GuardCondition};
use crate::hir::expr::Boundary;
use crate::ranges::CharRange;
use vstd::prelude::*;

verus! {

/// The most elements that one combinator tuple of the parser runtime takes.
pub const TUPLE_LIMIT: usize = 21;

/// The most ranges written as a tuple; longer sets become a closure.
pub const RANGE_TUPLE_LIMIT: usize = 10;

/// How many repetitions a `repeat` or `take_while` accepts.
#[derive(Debug, Clone, Copy, PartialEq, Eq, Structural)]
pub enum Span {
    /// `n`
    Exactly(usize),
    /// `n..`
    AtLeast(usize),
    /// `n..=m`
    Between(usize, usize),
}

/// How a set of character ranges is written.
#[derive(Debug, PartialEq)]
pub enum CharTest {
    /// One character: `'c'`.
    Char(char),
    /// One inclusive range: `'a'..='z'`.
    Range(char, char),
    /// A tuple of characters and ranges.
    Tuple(Vec<CharRange>),
    /// A closure `|c: char| matches!(c, ...)`.
    Closure(Vec<CharRange>),
}

/// One combinator of the emitted code.
#[derive(Debug, PartialEq)]
pub enum Code {
    /// `literal("...")`
    Literal(String),
    /// `one_of(...)`
    OneOf(CharTest),
    /// `any.void()`
    Any,
    /// A zero-width position check.
    Boundary(Boundary),
    /// A call of the function generated for a rule.
    Call(String),
    /// `(a, b, ...)`: parse each in turn.
    Tuple(Vec<Code>),
    /// A closure that parses each element in turn, for sequences too long
    /// for a tuple.
    Steps(Vec<Code>),
    /// A closure that records the current position as reached.
    TrackPos,
    /// `alt((a, b, ...))`
    Alt(Vec<Code>),
    /// `(x).void()`
    Void(Box<Code>),
    /// `opt(x)`
    Opt(Box<Code>),
    /// `repeat(span, x)` folded into `()`.
    Repeat(Span, Box<Code>),
    /// `peek(x)`
    Peek(Box<Code>),
    /// `not(x)`
    Not(Box<Code>),
    /// Set a flag around `x`, then restore it.
    WithFlag(String, Box<Code>),
    /// Add to a counter around `x`, then take it back.
    WithCounter(String, usize, Box<Code>),
    /// Run `x` only when the condition holds.
    When(GuardCondition, Box<Code>),
    /// Fail when the recursion depth has reached the limit, else run `x` one
    /// level deeper.
    DepthLimit(usize, Box<Code>),
    /// `take_while(span, test)`
    TakeWhile(Span, CharTest),
    /// `(x).context(...)` with an expected-value description.
    Labeled(Box<Code>, String),
}

// ── Mathematical model ──

pub enum TestModel {
    Char(char),
    Range(char, char),
    Tuple(Seq<CharRange>),
    Closure(Seq<CharRange>),
}

pub enum CodeModel {
    Literal(Seq<char>),
    OneOf(TestModel),
    Any,
    Boundary(Boundary),
    Call(Seq<char>),
    Tuple(Seq<CodeModel>),
    Steps(Seq<CodeModel>),
    TrackPos,
    Alt(Seq<CodeModel>),
    Void(Box<CodeModel>),
    Opt(Box<CodeModel>),
    Repeat(Span, Box<CodeModel>),
    Peek(Box<CodeModel>),
    Not(Box<CodeModel>),
    WithFlag(Seq<char>, Box<CodeModel>),
    WithCounter(Seq<char>, usize, Box<CodeModel>),
    When(CondModel, Box<CodeModel>),
    DepthLimit(usize, Box<CodeModel>),
    TakeWhile(Span, TestModel),
    Labeled(Box<CodeModel>, Seq<char>),
}

pub open spec fn test_model(t: CharTest) -> TestModel {
    match t {
        CharTest::Char(c) => TestModel::Char(c),
        CharTest::Range(a, b) => TestModel::Range(a, b),
        CharTest::Tuple(r) => TestModel::Tuple(r@),
        CharTest::Closure(r) => TestModel::Closure(r@),
    }
}

impl View for CharTest {
    type V = TestModel;

    open spec fn view(&self) -> TestModel {
        test_model(*self)
    }
}

pub open spec fn code_model(c: Code) -> CodeModel
    decreases c,
{
    match c {
        Code::Literal(s) => CodeModel::Literal(s@),
        Code::OneOf(t) => CodeModel::OneOf(test_model(t)),
        Code::Any => CodeModel::Any,
        Code::Boundary(b) => CodeModel::Boundary(b),
        Code::Call(n) => CodeModel::Call(n@),
        Code::Tuple(cs) => CodeModel::Tuple(code_models(cs@)),
        Code::Steps(cs) => CodeModel::Steps(code_models(cs@)),
        Code::TrackPos => CodeModel::TrackPos,
        Code::Alt(cs) => CodeModel::Alt(code_models(cs@)),
        Code::Void(x) => CodeModel::Void(Box::new(code_model(*x))),
        Code::Opt(x) => CodeModel::Opt(Box::new(code_model(*x))),
        Code::Repeat(s, x) => CodeModel::Repeat(s, Box::new(code_model(*x))),
        Code::Peek(x) => CodeModel::Peek(Box::new(code_model(*x))),
        Code::Not(x) => CodeModel::Not(Box::new(code_model(*x))),
        Code::WithFlag(f, x) => CodeModel::WithFlag(f@, Box::new(code_model(*x))),
        Code::WithCounter(n, a, x) => CodeModel::WithCounter(n@, a, Box::new(code_model(*x))),
        Code::When(g, x) => CodeModel::When(g@, Box::new(code_model(*x))),
        Code::DepthLimit(l, x) => CodeModel::DepthLimit(l, Box::new(code_model(*x))),
        Code::TakeWhile(s, t) => CodeModel::TakeWhile(s, test_model(t)),
        Code::Labeled(x, l) => CodeModel::Labeled(Box::new(code_model(*x)), l@),
    }
}

/// The models of a list of code nodes.
pub open spec fn code_models(s: Seq<Code>) -> Seq<CodeModel>
    decreases s,
{
    Seq::new(
        s.len(),
        |i: int|
            if 0 <= i < s.len() {
                code_model(s[i])
            } else {
                CodeModel::Any
            },
    )
}

impl View for Code {
    type V = CodeModel;

    open spec fn view(&self) -> CodeModel {
        code_model(*self)
    }
}

pub proof fn lemma_code_models_index(s: Seq<Code>)
    ensures
        code_models(s).len() == s.len(),
        forall|i: int| 0 <= i < s.len() ==> #[trigger] code_models(s)[i] == code_model(s[i]),
{
}

// ── What is emitted ──

/// How a set of ranges is written: one range alone, up to ten as a tuple,
/// more as a matching closure.
pub open spec fn char_test(rs: Seq<CharRange>) -> TestModel {
    if rs.len() == 1 {
        if rs[0].start == rs[0].end {
            TestModel::Char(rs[0].start)
        } else {
            TestModel::Range(rs[0].start, rs[0].end)
        }
    } else if rs.len() <= RANGE_TUPLE_LIMIT {
        TestModel::Tuple(rs)
    } else {
        TestModel::Closure(rs)
    }
}

/// The repetition range of `min` and `max`: `min..` without a maximum, the
/// bare count when both agree, else `min..=max`.
pub open spec fn span(min: u32, max: Option<u32>) -> Span {
    match max {
        None => Span::AtLeast(min as usize),
        Some(m) => if m == min {
            Span::Exactly(m as usize)
        } else {
            Span::Between(min as usize, m as usize)
        },
    }
}

/// Chunks of at most `TUPLE_LIMIT` alternatives, each an `alt`, in order.
pub open spec fn chunk_alts(s: Seq<CodeModel>) -> Seq<CodeModel>
    decreases s.len(),
{
    if s.len() <= TUPLE_LIMIT {
        seq![CodeModel::Alt(s)]
    } else {
        seq![CodeModel::Alt(s.take(TUPLE_LIMIT as int))] + chunk_alts(s.skip(TUPLE_LIMIT as int))
    }
}

pub proof fn lemma_chunk_alts_len(s: Seq<CodeModel>)
    ensures
        chunk_alts(s).len() >= 1,
        s.len() >= 1 ==> chunk_alts(s).len() <= s.len(),
        s.len() > TUPLE_LIMIT ==> chunk_alts(s).len() < s.len(),
    decreases s.len(),
{
    if s.len() > TUPLE_LIMIT {
        lemma_chunk_alts_len(s.skip(TUPLE_LIMIT as int));
    }
}

/// An ordered choice among `s`: one `alt` when it fits in a tuple, else
/// `alt`s of the chunks, nested as deep as needed.
pub open spec fn alt_code(s: Seq<CodeModel>) -> CodeModel
    decreases s.len(),
{
    if s.len() <= TUPLE_LIMIT {
        CodeModel::Alt(s)
    } else {
        proof {
            lemma_chunk_alts_len(s);
        }
        alt_code(chunk_alts(s))
    }
}

/// The elements with a position tracker between each two neighbours.
pub open spec fn interleave(s: Seq<CodeModel>) -> Seq<CodeModel> {
    Seq::new(
        (2 * s.len() - 1) as nat,
        |j: int|
            if j % 2 == 0 {
                s[j / 2]
            } else {
                CodeModel::TrackPos
            },
    )
}

/// A sequence: one element or none as written; more with position trackers
/// between them, as a tuple while that fits, else as a closure of steps.
pub open spec fn sequence_code(s: Seq<CodeModel>) -> CodeModel {
    if s.len() <= 1 {
        CodeModel::Tuple(s)
    } else if interleave(s).len() <= TUPLE_LIMIT {
        CodeModel::Tuple(interleave(s))
    } else {
        CodeModel::Steps(interleave(s))
    }
}

} // verus!
