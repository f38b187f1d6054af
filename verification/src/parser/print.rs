//! The tokens that spell a syntax tree: what the parser reads back into it.
use crate::ast::{BuiltinPredicate, CompareOp, CondModel, ExprModel, ItemModel, RepeatKind, RuleModel, StateDeclModel, StateKind, StatementModel};
use crate::lexer::TokenModel;
use vstd::prelude::*;

verus! {

pub open spec fn builtin_token(b: BuiltinPredicate) -> TokenModel {
    match b {
        BuiltinPredicate::Soi => TokenModel::Soi,
        BuiltinPredicate::Eoi => TokenModel::Eoi,
        BuiltinPredicate::Any => TokenModel::Any,
        BuiltinPredicate::LineStart => TokenModel::LineStart,
        BuiltinPredicate::LineEnd => TokenModel::LineEnd,
    }
}

pub open spec fn op_token(op: CompareOp) -> TokenModel {
    match op {
        CompareOp::Gt => TokenModel::Gt,
        CompareOp::Lt => TokenModel::Lt,
        CompareOp::Ge => TokenModel::Ge,
        CompareOp::Le => TokenModel::Le,
        CompareOp::Eq => TokenModel::EqEq,
        CompareOp::Ne => TokenModel::BangEq,
    }
}

pub open spec fn repeat_tokens(kind: RepeatKind) -> Seq<TokenModel> {
    match kind {
        RepeatKind::ZeroOrMore => seq![TokenModel::Star],
        RepeatKind::OneOrMore => seq![TokenModel::Plus],
        RepeatKind::Optional => seq![TokenModel::Question],
        RepeatKind::Exact(n) => seq![TokenModel::LBrace, TokenModel::Number(n), TokenModel::RBrace],
        RepeatKind::AtLeast(n) => seq![TokenModel::LBrace, TokenModel::Number(n), TokenModel::Comma, TokenModel::RBrace],
        RepeatKind::AtMost(m) => seq![TokenModel::LBrace, TokenModel::Comma, TokenModel::Number(m), TokenModel::RBrace],
        RepeatKind::Range(n, m) => seq![
            TokenModel::LBrace,
            TokenModel::Number(n),
            TokenModel::Comma,
            TokenModel::Number(m),
            TokenModel::RBrace,
        ],
    }
}

pub open spec fn cond_tokens(c: CondModel) -> Seq<TokenModel> {
    match c {
        CondModel::NotFlag(n) => seq![TokenModel::Bang, TokenModel::Ident(n)],
        CondModel::IsFlag(n) => seq![TokenModel::Ident(n)],
        CondModel::Builtin(b) => seq![builtin_token(b)],
        CondModel::Compare { name, op, value } => seq![TokenModel::Ident(name), op_token(op), TokenModel::Number(value)],
    }
}

/// The tokens of an expression.
pub open spec fn expr_tokens(e: ExprModel) -> Seq<TokenModel>
    decreases e,
{
    match e {
        ExprModel::StringLit(s) => seq![TokenModel::StringLit(s)],
        ExprModel::CharRange(a, b) => seq![TokenModel::CharLit(a), TokenModel::DotDot, TokenModel::CharLit(b)],
        ExprModel::Ident(n) => seq![TokenModel::Ident(n)],
        ExprModel::Builtin(b) => seq![builtin_token(b)],
        ExprModel::Sequence(items) => seq_tokens(items),
        ExprModel::Choice(items) => choice_tokens(items),
        ExprModel::Repeat { expr, kind } => expr_tokens(*expr) + repeat_tokens(kind),
        ExprModel::PosLookahead(inner) => seq![TokenModel::Amp] + expr_tokens(*inner),
        ExprModel::NegLookahead(inner) => seq![TokenModel::Bang] + expr_tokens(*inner),
        ExprModel::Group(inner) => seq![TokenModel::LParen] + expr_tokens(*inner) + seq![TokenModel::RParen],
        ExprModel::With { flag, body } => seq![TokenModel::With, TokenModel::Ident(flag), TokenModel::LBrace] + expr_tokens(*body)
            + seq![TokenModel::RBrace],
        ExprModel::WithIncrement { counter, amount, body } => seq![
            TokenModel::With,
            TokenModel::Ident(counter),
            TokenModel::PlusEq,
            TokenModel::Number(amount),
            TokenModel::LBrace,
        ] + expr_tokens(*body) + seq![TokenModel::RBrace],
        ExprModel::When { condition, body } => seq![TokenModel::When] + cond_tokens(condition) + seq![TokenModel::LBrace]
            + expr_tokens(*body) + seq![TokenModel::RBrace],
        ExprModel::DepthLimit { limit, body } => seq![
            TokenModel::DepthLimit,
            TokenModel::LParen,
            TokenModel::Number(limit),
            TokenModel::RParen,
            TokenModel::LBrace,
        ] + expr_tokens(*body) + seq![TokenModel::RBrace],
        ExprModel::Labeled { expr, label } => expr_tokens(*expr) + seq![TokenModel::At, TokenModel::StringLit(label)],
    }
}

/// The tokens of the items of a sequence, one after another.
pub open spec fn seq_tokens(items: Seq<ExprModel>) -> Seq<TokenModel>
    decreases items,
{
    if items.len() == 0 {
        Seq::empty()
    } else {
        seq_tokens(items.drop_last()) + expr_tokens(items.last())
    }
}

/// The tokens of the alternatives of a choice, separated by `|`.
pub open spec fn choice_tokens(items: Seq<ExprModel>) -> Seq<TokenModel>
    decreases items,
{
    if items.len() == 0 {
        Seq::empty()
    } else if items.len() == 1 {
        expr_tokens(items[0])
    } else {
        choice_tokens(items.drop_last()) + seq![TokenModel::Pipe] + expr_tokens(items.last())
    }
}

pub open spec fn statement_tokens(s: StatementModel) -> Seq<TokenModel> {
    match s {
        StatementModel::Guard(c) => seq![TokenModel::Guard] + cond_tokens(c),
        StatementModel::Emit(n) => seq![TokenModel::Emit, TokenModel::Ident(n)],
    }
}

pub open spec fn statements_tokens(ss: Seq<StatementModel>) -> Seq<TokenModel>
    decreases ss.len(),
{
    if ss.len() == 0 {
        Seq::empty()
    } else {
        statements_tokens(ss.drop_last()) + statement_tokens(ss.last())
    }
}

pub open spec fn label_tokens(label: Option<Seq<char>>) -> Seq<TokenModel> {
    match label {
        Some(l) => seq![TokenModel::At, TokenModel::StringLit(l)],
        None => Seq::empty(),
    }
}

pub open spec fn rule_tokens(r: RuleModel) -> Seq<TokenModel> {
    seq![TokenModel::Ident(r.name), TokenModel::Eq] + label_tokens(r.error_label) + seq![TokenModel::LBrace]
        + statements_tokens(r.statements) + expr_tokens(r.expr) + seq![TokenModel::RBrace]
}

pub open spec fn decl_tokens(d: StateDeclModel) -> Seq<TokenModel> {
    seq![
        TokenModel::Let,
        match d.kind {
            StateKind::Flag => TokenModel::Flag,
            StateKind::Counter => TokenModel::Counter,
        },
        TokenModel::Ident(d.name),
    ]
}

pub open spec fn item_tokens(i: ItemModel) -> Seq<TokenModel> {
    match i {
        ItemModel::StateDecl(d) => decl_tokens(d),
        ItemModel::RuleDef(r) => rule_tokens(r),
    }
}

/// The tokens of a whole grammar.
pub open spec fn grammar_tokens(items: Seq<ItemModel>) -> Seq<TokenModel>
    decreases items.len(),
{
    if items.len() == 0 {
        Seq::empty()
    } else {
        grammar_tokens(items.drop_last()) + item_tokens(items.last())
    }
}

/// An expression is spelled by at least one token.
pub proof fn lemma_expr_tokens_nonempty(e: ExprModel)
    requires
        e !is Sequence && e !is Choice,
    ensures
        expr_tokens(e).len() > 0,
{
}

} // verus!
