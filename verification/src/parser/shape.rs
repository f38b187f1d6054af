//! The shapes of syntax trees that the parser builds, and the tokens that
//! may follow each construct: a tree of such a shape, spelled by the tokens
//! at the read position and followed by such a token, is read back as
//! itself.
use super::print::{choice_tokens, expr_tokens, grammar_tokens, seq_tokens, statement_tokens, statements_tokens};
use super::tokens::TokenStream;
use crate::ast::{BuiltinPredicate, CondModel, ExprModel, ItemModel, RuleModel, StatementModel};
use crate::lexer::TokenModel;
use vstd::prelude::*;

verus! {

/// A token that can start an expression.
pub open spec fn starts_expr(t: TokenModel) -> bool {
    match t {
        TokenModel::StringLit(_) => true,
        TokenModel::CharLit(_) => true,
        TokenModel::Ident(_) => true,
        TokenModel::Soi => true,
        TokenModel::Eoi => true,
        TokenModel::Any => true,
        TokenModel::LineStart => true,
        TokenModel::LineEnd => true,
        TokenModel::LParen => true,
        TokenModel::Amp => true,
        TokenModel::Bang => true,
        TokenModel::With => true,
        TokenModel::When => true,
        TokenModel::DepthLimit => true,
        _ => false,
    }
}

/// A token that continues a postfix-decorated expression.
pub open spec fn continues_postfix(t: TokenModel) -> bool {
    t is Plus || t is Star || t is Question || t is LBrace || t is At
}

/// A comparison operator token.
pub open spec fn is_compare_token(t: TokenModel) -> bool {
    t is Gt || t is Lt || t is Ge || t is Le || t is EqEq || t is BangEq
}

/// The token at index `i`, if there is one.
pub open spec fn token_at(s: Seq<TokenModel>, i: int) -> Option<TokenModel> {
    if 0 <= i < s.len() {
        Some(s[i])
    } else {
        None
    }
}

/// Nothing after a postfix-decorated expression extends it.
pub open spec fn ends_postfix(t: Option<TokenModel>) -> bool {
    !(t matches Some(x) && continues_postfix(x))
}

/// Nothing after a sequence extends it.
pub open spec fn ends_sequence(t: Option<TokenModel>) -> bool {
    ends_postfix(t) && !(t matches Some(x) && starts_expr(x))
}

/// Nothing after a choice extends it.
pub open spec fn ends_choice(t: Option<TokenModel>) -> bool {
    ends_sequence(t) && t != Some(TokenModel::Pipe)
}

/// Nothing after a condition extends it.
pub open spec fn ends_condition(t: Option<TokenModel>) -> bool {
    !(t matches Some(x) && is_compare_token(x))
}

/// Nothing after a list of statements extends it.
pub open spec fn ends_statements(t: Option<TokenModel>) -> bool {
    ends_condition(t) && t != Some(TokenModel::Guard) && t != Some(TokenModel::Emit)
}

/// The tokens at the read position begin with `s`.
pub open spec fn reads_next(ts: TokenStream, s: Seq<TokenModel>) -> bool {
    &&& 0 <= ts.pos()
    &&& ts.pos() + s.len() <= ts.toks().len()
    &&& ts.toks().subrange(ts.pos(), ts.pos() + s.len()) == s
}

/// The token right after `s` at the read position, if there is one.
pub open spec fn next_after(ts: TokenStream, s: Seq<TokenModel>) -> Option<TokenModel> {
    token_at(ts.toks(), ts.pos() + s.len())
}

// ── Shapes ──

/// A condition the parser reads: any but a guard on `ANY`.
pub open spec fn cond_shaped(c: CondModel) -> bool {
    !(c matches CondModel::Builtin(BuiltinPredicate::Any))
}

/// An atom: a literal, a reference, a builtin, a group, or a block form.
pub open spec fn atom_shaped(e: ExprModel) -> bool
    decreases e, 0nat,
{
    match e {
        ExprModel::StringLit(_) => true,
        ExprModel::CharRange(_, _) => true,
        ExprModel::Ident(_) => true,
        ExprModel::Builtin(_) => true,
        ExprModel::Group(inner) => choice_shaped(*inner),
        ExprModel::With { body, .. } => choice_shaped(*body),
        ExprModel::WithIncrement { body, .. } => choice_shaped(*body),
        ExprModel::When { condition, body } => cond_shaped(condition) && choice_shaped(*body),
        ExprModel::DepthLimit { body, .. } => choice_shaped(*body),
        _ => false,
    }
}

/// An atom, possibly under one lookahead.
pub open spec fn prefix_shaped(e: ExprModel) -> bool
    decreases e, 1nat,
{
    match e {
        ExprModel::PosLookahead(inner) => atom_shaped(*inner),
        ExprModel::NegLookahead(inner) => atom_shaped(*inner),
        _ => atom_shaped(e),
    }
}

/// A prefix-shaped expression under any number of repetitions and labels.
pub open spec fn postfix_shaped(e: ExprModel) -> bool
    decreases e, 2nat,
{
    match e {
        ExprModel::Repeat { expr, .. } => postfix_shaped(*expr),
        ExprModel::Labeled { expr, .. } => postfix_shaped(*expr),
        _ => prefix_shaped(e),
    }
}

/// Every element is postfix-shaped.
pub open spec fn all_postfix_shaped(s: Seq<ExprModel>) -> bool
    decreases s, 3nat,
{
    forall|i: int| 0 <= i < s.len() ==> postfix_shaped(#[trigger] s[i])
}

/// A postfix-shaped expression, or a sequence of at least two of them.
pub open spec fn sequence_shaped(e: ExprModel) -> bool
    decreases e, 4nat,
{
    match e {
        ExprModel::Sequence(items) => items.len() >= 2 && all_postfix_shaped(items),
        _ => postfix_shaped(e),
    }
}

/// Every element is sequence-shaped.
pub open spec fn all_sequence_shaped(s: Seq<ExprModel>) -> bool
    decreases s, 5nat,
{
    forall|i: int| 0 <= i < s.len() ==> sequence_shaped(#[trigger] s[i])
}

/// A sequence-shaped expression, or a choice among at least two of them.
pub open spec fn choice_shaped(e: ExprModel) -> bool
    decreases e, 6nat,
{
    match e {
        ExprModel::Choice(items) => items.len() >= 2 && all_sequence_shaped(items),
        _ => sequence_shaped(e),
    }
}

/// A statement the parser reads.
pub open spec fn statement_shaped(s: StatementModel) -> bool {
    match s {
        StatementModel::Guard(c) => cond_shaped(c),
        StatementModel::Emit(_) => true,
    }
}

/// Every statement is one the parser reads.
pub open spec fn statements_shaped(ss: Seq<StatementModel>) -> bool {
    forall|i: int| 0 <= i < ss.len() ==> statement_shaped(#[trigger] ss[i])
}

/// A rule the parser reads.
pub open spec fn rule_shaped(r: RuleModel) -> bool {
    statements_shaped(r.statements) && choice_shaped(r.expr)
}

/// An item the parser reads.
pub open spec fn item_shaped(i: ItemModel) -> bool {
    match i {
        ItemModel::StateDecl(_) => true,
        ItemModel::RuleDef(r) => rule_shaped(r),
    }
}

/// A grammar the parser reads.
pub open spec fn grammar_shaped(items: Seq<ItemModel>) -> bool {
    forall|i: int| 0 <= i < items.len() ==> item_shaped(#[trigger] items[i])
}

/// Some grammar the parser reads is spelled by exactly `toks`.
pub open spec fn spells_grammar(toks: Seq<TokenModel>) -> bool {
    exists|g: Seq<ItemModel>| grammar_shaped(g) && #[trigger] grammar_tokens(g) == toks
}

// ── Token layouts ──

/// The alternatives of a choice, each as the parser sees it.
pub open spec fn alternatives_of(e: ExprModel) -> Seq<ExprModel> {
    match e {
        ExprModel::Choice(items) => items,
        _ => seq![e],
    }
}

/// The items of a sequence, each as the parser sees it.
pub open spec fn items_of(e: ExprModel) -> Seq<ExprModel> {
    match e {
        ExprModel::Sequence(items) => items,
        _ => seq![e],
    }
}

/// The tokens of the first `k` alternatives, then a `|`, then the rest.
pub proof fn lemma_choice_split(items: Seq<ExprModel>, k: int)
    requires
        1 <= k < items.len(),
    ensures
        choice_tokens(items) == choice_tokens(items.take(k)) + seq![TokenModel::Pipe] + choice_tokens(items.skip(k)),
    decreases items.len(),
{
    let dl = items.drop_last();
    if k == items.len() - 1 {
        assert(items.take(k) =~= dl);
        assert(items.skip(k) =~= seq![items.last()]);
    } else {
        lemma_choice_split(dl, k);
        assert(dl.take(k) =~= items.take(k));
        assert(items.skip(k).drop_last() =~= dl.skip(k));
        assert(items.skip(k).last() == items.last());
        assert(choice_tokens(items) =~= choice_tokens(items.take(k)) + seq![TokenModel::Pipe] + choice_tokens(
            items.skip(k),
        ));
    }
}

/// The tokens of a sequence are those of its first `k` items, then the rest.
pub proof fn lemma_seq_split(items: Seq<ExprModel>, k: int)
    requires
        0 <= k <= items.len(),
    ensures
        seq_tokens(items) == seq_tokens(items.take(k)) + seq_tokens(items.skip(k)),
    decreases items.len(),
{
    if k == items.len() {
        assert(items.take(k) =~= items);
        assert(items.skip(k) =~= Seq::<ExprModel>::empty());
        assert(seq_tokens(items) + Seq::<TokenModel>::empty() =~= seq_tokens(items));
    } else {
        let dl = items.drop_last();
        lemma_seq_split(dl, k);
        assert(dl.take(k) =~= items.take(k));
        assert(items.skip(k).drop_last() =~= dl.skip(k));
        assert(items.skip(k).last() == items.last());
        assert(seq_tokens(items) =~= seq_tokens(items.take(k)) + seq_tokens(items.skip(k)));
    }
}

/// The tokens of the items from `k` on begin with those of item `k`.
pub proof fn lemma_seq_front(items: Seq<ExprModel>, k: int)
    requires
        0 <= k < items.len(),
    ensures
        seq_tokens(items.skip(k)) == expr_tokens(items[k]) + seq_tokens(items.skip(k + 1)),
{
    let s = items.skip(k);
    lemma_seq_split(s, 1);
    assert(s.take(1) =~= seq![items[k]]);
    assert(s.skip(1) =~= items.skip(k + 1));
    assert(seq![items[k]].drop_last() =~= Seq::<ExprModel>::empty());
    assert(seq![items[k]].last() == items[k]);
    assert(seq_tokens(Seq::<ExprModel>::empty()) =~= Seq::<TokenModel>::empty());
    assert(seq_tokens(seq![items[k]]) == seq_tokens(Seq::<ExprModel>::empty()) + expr_tokens(items[k]));
    assert(seq_tokens(seq![items[k]]) =~= expr_tokens(items[k]));
}

/// A prefix-shaped expression starts with a token that can start one.
pub proof fn lemma_prefix_first(e: ExprModel)
    requires
        prefix_shaped(e),
    ensures
        expr_tokens(e).len() > 0,
        starts_expr(expr_tokens(e)[0]),
{
    match e {
        ExprModel::PosLookahead(inner) => {
            assert((seq![TokenModel::Amp] + expr_tokens(*inner))[0] == TokenModel::Amp);
        },
        ExprModel::NegLookahead(inner) => {
            assert((seq![TokenModel::Bang] + expr_tokens(*inner))[0] == TokenModel::Bang);
        },
        ExprModel::Group(inner) => {
            assert((seq![TokenModel::LParen] + expr_tokens(*inner) + seq![TokenModel::RParen])[0] == TokenModel::LParen);
        },
        ExprModel::With { flag, body } => {
            let t = seq![TokenModel::With, TokenModel::Ident(flag), TokenModel::LBrace] + expr_tokens(*body) + seq![TokenModel::RBrace];
            assert(t[0] == TokenModel::With);
        },
        ExprModel::WithIncrement { counter, amount, body } => {
            let t = seq![
                TokenModel::With,
                TokenModel::Ident(counter),
                TokenModel::PlusEq,
                TokenModel::Number(amount),
                TokenModel::LBrace,
            ] + expr_tokens(*body) + seq![TokenModel::RBrace];
            assert(t[0] == TokenModel::With);
        },
        ExprModel::When { condition, body } => {
            let t = seq![TokenModel::When] + super::print::cond_tokens(condition) + seq![TokenModel::LBrace] + expr_tokens(*body)
                + seq![TokenModel::RBrace];
            assert(t[0] == TokenModel::When);
        },
        ExprModel::DepthLimit { limit, body } => {
            let t = seq![
                TokenModel::DepthLimit,
                TokenModel::LParen,
                TokenModel::Number(limit),
                TokenModel::RParen,
                TokenModel::LBrace,
            ] + expr_tokens(*body) + seq![TokenModel::RBrace];
            assert(t[0] == TokenModel::DepthLimit);
        },
        _ => {},
    }
}

/// A postfix-shaped expression starts with a token that can start one.
pub proof fn lemma_postfix_first(e: ExprModel)
    requires
        postfix_shaped(e),
    ensures
        expr_tokens(e).len() > 0,
        starts_expr(expr_tokens(e)[0]),
    decreases e,
{
    match e {
        ExprModel::Repeat { expr, kind } => {
            lemma_postfix_first(*expr);
            assert((expr_tokens(*expr) + super::print::repeat_tokens(kind))[0] == expr_tokens(*expr)[0]);
        },
        ExprModel::Labeled { expr, label } => {
            lemma_postfix_first(*expr);
            assert((expr_tokens(*expr) + seq![TokenModel::At, TokenModel::StringLit(label)])[0] == expr_tokens(*expr)[0]);
        },
        _ => {
            lemma_prefix_first(e);
        },
    }
}

/// A sequence-shaped expression starts with a token that can start one.
pub proof fn lemma_sequence_first(e: ExprModel)
    requires
        sequence_shaped(e),
    ensures
        expr_tokens(e).len() > 0,
        starts_expr(expr_tokens(e)[0]),
{
    match e {
        ExprModel::Sequence(items) => {
            assert(postfix_shaped(items[0]));
            lemma_postfix_first(items[0]);
            lemma_seq_split(items, 0);
            lemma_seq_front(items, 0);
            assert(items.skip(0) =~= items);
            assert(items.take(0) =~= Seq::<ExprModel>::empty());
            assert(seq_tokens(Seq::<ExprModel>::empty()) =~= Seq::<TokenModel>::empty());
            assert(expr_tokens(e) == seq_tokens(items));
            assert(seq_tokens(items) =~= expr_tokens(items[0]) + seq_tokens(items.skip(1)));
        },
        _ => {
            lemma_postfix_first(e);
        },
    }
}

/// Reading `a + b` at the read position reads `a`, then `b` right after it.
pub proof fn lemma_reads_split(ts: TokenStream, a: Seq<TokenModel>, b: Seq<TokenModel>)
    requires
        reads_next(ts, a + b),
    ensures
        reads_next(ts, a),
        ts.toks().subrange(ts.pos() + a.len(), ts.pos() + a.len() + b.len()) == b,
        b.len() > 0 ==> next_after(ts, a) == Some(b[0]),
        b.len() == 0 ==> next_after(ts, a) == next_after(ts, a + b),
{
    let s = ts.toks();
    let p = ts.pos();
    assert(s.subrange(p, p + a.len()) =~= (a + b).take(a.len() as int));
    assert((a + b).take(a.len() as int) =~= a);
    assert(s.subrange(p + a.len(), p + a.len() + b.len()) =~= b) by {
        assert forall|i: int| 0 <= i < b.len() implies s.subrange(p + a.len(), p + a.len() + b.len())[i] == b[i] by {
            assert(s.subrange(p, p + (a + b).len())[a.len() + i] == (a + b)[a.len() + i]);
        }
    }
    if b.len() > 0 {
        assert(s.subrange(p, p + (a + b).len())[a.len() as int] == (a + b)[a.len() as int]);
    }
}

/// The tokens of statements are those of the first `k`, then the rest.
pub proof fn lemma_statements_split(ss: Seq<StatementModel>, k: int)
    requires
        0 <= k <= ss.len(),
    ensures
        statements_tokens(ss) == statements_tokens(ss.take(k)) + statements_tokens(ss.skip(k)),
    decreases ss.len(),
{
    if k == ss.len() {
        assert(ss.take(k) =~= ss);
        assert(ss.skip(k) =~= Seq::<StatementModel>::empty());
        assert(statements_tokens(ss) + Seq::<TokenModel>::empty() =~= statements_tokens(ss));
    } else {
        let dl = ss.drop_last();
        lemma_statements_split(dl, k);
        assert(dl.take(k) =~= ss.take(k));
        assert(ss.skip(k).drop_last() =~= dl.skip(k));
        assert(ss.skip(k).last() == ss.last());
        assert(statements_tokens(ss) =~= statements_tokens(ss.take(k)) + statements_tokens(ss.skip(k)));
    }
}

/// The tokens of the statements from `k` on begin with those of statement `k`.
pub proof fn lemma_statements_front(ss: Seq<StatementModel>, k: int)
    requires
        0 <= k < ss.len(),
    ensures
        statements_tokens(ss.skip(k)) == statement_tokens(ss[k]) + statements_tokens(ss.skip(k + 1)),
{
    let s = ss.skip(k);
    lemma_statements_split(s, 1);
    assert(s.take(1) =~= seq![ss[k]]);
    assert(s.skip(1) =~= ss.skip(k + 1));
    assert(seq![ss[k]].drop_last() =~= Seq::<StatementModel>::empty());
    assert(seq![ss[k]].last() == ss[k]);
    assert(statements_tokens(Seq::<StatementModel>::empty()) =~= Seq::<TokenModel>::empty());
    assert(statements_tokens(seq![ss[k]]) == statements_tokens(Seq::<StatementModel>::empty()) + statement_tokens(ss[k]));
    assert(statements_tokens(seq![ss[k]]) =~= statement_tokens(ss[k]));
}

/// The tokens of the first `k + 1` statements extend those of the first `k`.
pub proof fn lemma_statements_step(ss: Seq<StatementModel>, k: int)
    requires
        0 <= k < ss.len(),
    ensures
        statements_tokens(ss.take(k + 1)) == statements_tokens(ss.take(k)) + statement_tokens(ss[k]),
{
    assert(ss.take(k + 1).drop_last() =~= ss.take(k));
    assert(ss.take(k + 1).last() == ss[k]);
}

/// Reading `a + b` at `start` leaves `b` to read where `a` ends.
pub proof fn lemma_reads_at(start: TokenStream, cur: TokenStream, a: Seq<TokenModel>, b: Seq<TokenModel>)
    requires
        reads_next(start, a + b),
        cur.toks() == start.toks(),
        cur.pos() == start.pos() + a.len(),
    ensures
        reads_next(cur, b),
        next_after(cur, b) == next_after(start, a + b),
        b.len() > 0 ==> cur.peek_model() == Some(b[0]),
{
    lemma_reads_split(start, a, b);
    if b.len() > 0 {
        assert(cur.toks().subrange(cur.pos(), cur.pos() + b.len())[0] == b[0]);
    }
}

/// The alternatives of a choice-shaped expression, and their tokens.
pub proof fn lemma_alternatives(e: ExprModel)
    requires
        choice_shaped(e),
    ensures
        alternatives_of(e).len() >= 1,
        all_sequence_shaped(alternatives_of(e)),
        choice_tokens(alternatives_of(e)) == expr_tokens(e),
        alternatives_of(e).len() == 1 ==> alternatives_of(e)[0] == e && !(e is Choice),
{
    if !(e is Choice) {
        assert(alternatives_of(e)[0] == e);
        assert(all_sequence_shaped(alternatives_of(e)));
    }
}

/// The items of a sequence-shaped expression, and their tokens.
pub proof fn lemma_items(e: ExprModel)
    requires
        sequence_shaped(e),
    ensures
        items_of(e).len() >= 1,
        all_postfix_shaped(items_of(e)),
        seq_tokens(items_of(e)) == expr_tokens(e),
        items_of(e).len() == 1 ==> items_of(e)[0] == e && !(e is Sequence) && !(e is Choice),
{
    if !(e is Sequence) {
        let s = items_of(e);
        assert(s[0] == e);
        assert(all_postfix_shaped(s));
        assert(s.drop_last() =~= Seq::<ExprModel>::empty());
        assert(seq_tokens(Seq::<ExprModel>::empty()) =~= Seq::<TokenModel>::empty());
        assert(seq_tokens(s) == seq_tokens(Seq::<ExprModel>::empty()) + expr_tokens(s.last()));
        assert(seq_tokens(s) =~= expr_tokens(e));
    }
}

/// Where alternative `k` of `alts` starts: after the tokens of the first
/// `k` and a `|`; what follows it is a `|` or what follows them all.
pub proof fn lemma_choice_layout(start: TokenStream, alts: Seq<ExprModel>, k: int)
    requires
        reads_next(start, choice_tokens(alts)),
        1 <= k < alts.len(),
    ensures
        token_at(start.toks(), start.pos() + choice_tokens(alts.take(k)).len()) == Some(TokenModel::Pipe),
        ({
            let p = start.pos() + choice_tokens(alts.take(k)).len() + 1;
            &&& p + expr_tokens(alts[k]).len() <= start.toks().len()
            &&& start.toks().subrange(p, p + expr_tokens(alts[k]).len()) == expr_tokens(alts[k])
            &&& token_at(start.toks(), p + expr_tokens(alts[k]).len()) == (if k + 1 < alts.len() {
                Some(TokenModel::Pipe)
            } else {
                next_after(start, choice_tokens(alts))
            })
        }),
{
    lemma_choice_split(alts, k);
    let a = choice_tokens(alts.take(k));
    let rest = choice_tokens(alts.skip(k));
    let tail = seq![TokenModel::Pipe] + rest;
    assert(choice_tokens(alts) =~= a + tail);
    lemma_reads_split(start, a, tail);
    let sk = alts.skip(k);
    let b = expr_tokens(alts[k]);
    let after = if k + 1 < alts.len() {
        lemma_choice_split(sk, 1);
        assert(sk.take(1) =~= seq![alts[k]]);
        assert(sk.skip(1) =~= alts.skip(k + 1));
        assert(choice_tokens(seq![alts[k]]) == b);
        seq![TokenModel::Pipe] + choice_tokens(alts.skip(k + 1))
    } else {
        assert(sk =~= seq![alts[k]]);
        assert(choice_tokens(sk) == b);
        assert(rest =~= b + Seq::<TokenModel>::empty());
        Seq::<TokenModel>::empty()
    };
    assert(rest =~= b + after);
    assert(choice_tokens(alts) =~= (a + seq![TokenModel::Pipe]) + (b + after));
    lemma_reads_split(start, a + seq![TokenModel::Pipe], b + after);
    let p = start.pos() + a.len() + 1;
    let s = start.toks();
    assert(s.subrange(p, p + (b + after).len()) == b + after);
    assert(s.subrange(p, p + b.len()) =~= (b + after).take(b.len() as int));
    assert((b + after).take(b.len() as int) =~= b);
    if k + 1 < alts.len() {
        assert(s.subrange(p, p + (b + after).len())[b.len() as int] == (b + after)[b.len() as int]);
    } else {
        assert(choice_tokens(alts) =~= (a + seq![TokenModel::Pipe]) + b);
    }
}

/// Where item `k` of `items` starts: after the tokens of the first `k`;
/// what follows it starts item `k + 1`, or is what follows them all.
pub proof fn lemma_seq_layout(start: TokenStream, items: Seq<ExprModel>, k: int)
    requires
        reads_next(start, seq_tokens(items)),
        0 <= k < items.len(),
        all_postfix_shaped(items),
    ensures
        ({
            let p = start.pos() + seq_tokens(items.take(k)).len();
            &&& p + expr_tokens(items[k]).len() <= start.toks().len()
            &&& start.toks().subrange(p, p + expr_tokens(items[k]).len()) == expr_tokens(items[k])
            &&& (k + 1 < items.len() ==> token_at(start.toks(), p + expr_tokens(items[k]).len()) == Some(
                expr_tokens(items[k + 1])[0],
            ))
            &&& (k + 1 == items.len() ==> token_at(start.toks(), p + expr_tokens(items[k]).len()) == next_after(
                start,
                seq_tokens(items),
            ))
        }),
{
    lemma_seq_split(items, k);
    lemma_seq_front(items, k);
    let a = seq_tokens(items.take(k));
    let b = expr_tokens(items[k]);
    let after = seq_tokens(items.skip(k + 1));
    assert(seq_tokens(items) =~= a + (b + after));
    lemma_reads_split(start, a, b + after);
    let p = start.pos() + a.len();
    let s = start.toks();
    assert(s.subrange(p, p + b.len()) =~= (b + after).take(b.len() as int));
    assert((b + after).take(b.len() as int) =~= b);
    if k + 1 < items.len() {
        lemma_seq_front(items, k + 1);
        assert(postfix_shaped(items[k + 1]));
        lemma_postfix_first(items[k + 1]);
        assert(after == expr_tokens(items[k + 1]) + seq_tokens(items.skip(k + 2)));
        assert(after[0] == expr_tokens(items[k + 1])[0]);
        assert(s.subrange(p, p + (b + after).len())[b.len() as int] == (b + after)[b.len() as int]);
    } else {
        assert(items.skip(k + 1) =~= Seq::<ExprModel>::empty());
        assert(seq_tokens(Seq::<ExprModel>::empty()) =~= Seq::<TokenModel>::empty());
        assert(seq_tokens(items) =~= a + b);
    }
}

// ── Postfix chains ──

/// How many repetitions and labels wrap the core of `e`.
pub open spec fn postfix_depth(e: ExprModel) -> nat
    decreases e,
{
    match e {
        ExprModel::Repeat { expr, .. } => 1 + postfix_depth(*expr),
        ExprModel::Labeled { expr, .. } => 1 + postfix_depth(*expr),
        _ => 0,
    }
}

/// What one repetition or label wraps.
pub open spec fn postfix_inner(e: ExprModel) -> ExprModel {
    match e {
        ExprModel::Repeat { expr, .. } => *expr,
        ExprModel::Labeled { expr, .. } => *expr,
        _ => e,
    }
}

/// The tokens a repetition or label adds after what it wraps.
pub open spec fn postfix_op_tokens(e: ExprModel) -> Seq<TokenModel> {
    match e {
        ExprModel::Repeat { kind, .. } => super::print::repeat_tokens(kind),
        ExprModel::Labeled { label, .. } => seq![TokenModel::At, TokenModel::StringLit(label)],
        _ => Seq::empty(),
    }
}

/// `e` with its `k` outermost repetitions and labels taken off.
pub open spec fn peel(e: ExprModel, k: nat) -> ExprModel
    decreases k,
{
    if k == 0 {
        e
    } else {
        peel(postfix_inner(e), (k - 1) as nat)
    }
}

/// The tokens of the `k` outermost repetitions and labels of `e`.
pub open spec fn peeled_tokens(e: ExprModel, k: nat) -> Seq<TokenModel>
    decreases k,
{
    if k == 0 {
        Seq::empty()
    } else {
        peeled_tokens(postfix_inner(e), (k - 1) as nat) + postfix_op_tokens(e)
    }
}

/// Taking off repetitions and labels leaves their tokens after the rest.
pub proof fn lemma_peel(e: ExprModel, k: nat)
    requires
        k <= postfix_depth(e),
        postfix_shaped(e),
    ensures
        expr_tokens(e) == expr_tokens(peel(e, k)) + peeled_tokens(e, k),
        postfix_shaped(peel(e, k)),
        postfix_depth(peel(e, k)) == postfix_depth(e) - k,
        k > 0 ==> peeled_tokens(e, k) == postfix_op_tokens(peel(e, (k - 1) as nat)) + peeled_tokens(e, (k - 1) as nat),
        k > 0 ==> postfix_inner(peel(e, (k - 1) as nat)) == peel(e, k),
        k > 0 ==> (peel(e, (k - 1) as nat) is Repeat || peel(e, (k - 1) as nat) is Labeled),
    decreases k,
{
    if k == 0 {
        assert(expr_tokens(e) + Seq::<TokenModel>::empty() =~= expr_tokens(e));
    } else {
        let inner = postfix_inner(e);
        assert(e is Repeat || e is Labeled);
        assert(expr_tokens(e) == expr_tokens(inner) + postfix_op_tokens(e));
        lemma_peel(inner, (k - 1) as nat);
        assert(expr_tokens(e) =~= expr_tokens(peel(e, k)) + peeled_tokens(e, k));
        if k > 1 {
            lemma_peel(e, (k - 1) as nat);
            assert(peeled_tokens(e, k) =~= postfix_op_tokens(peel(e, (k - 1) as nat)) + peeled_tokens(e, (k - 1) as nat));
        } else {
            assert(peeled_tokens(e, 1) =~= Seq::<TokenModel>::empty() + postfix_op_tokens(e));
            assert(peeled_tokens(e, 1) =~= postfix_op_tokens(peel(e, 0)) + peeled_tokens(e, 0));
        }
    }
}

/// The token `i` places after the read position, within what is read next.
pub proof fn lemma_reads_index(ts: TokenStream, s: Seq<TokenModel>, i: int)
    requires
        reads_next(ts, s),
        0 <= i < s.len(),
    ensures
        ts.toks()[ts.pos() + i] == s[i],
        token_at(ts.toks(), ts.pos() + i) == Some(s[i]),
{
    assert(ts.toks().subrange(ts.pos(), ts.pos() + s.len())[i] == s[i]);
}

/// Reading every token of what is read next, one at a time.
pub proof fn lemma_reads_all(ts: TokenStream, s: Seq<TokenModel>)
    requires
        reads_next(ts, s),
    ensures
        forall|i: int| 0 <= i < s.len() ==> #[trigger] token_at(ts.toks(), ts.pos() + i) == Some(s[i]),
{
    assert forall|i: int| 0 <= i < s.len() implies #[trigger] token_at(ts.toks(), ts.pos() + i) == Some(s[i]) by {
        lemma_reads_index(ts, s, i);
    }
}

/// The token an atom starts with.
pub open spec fn atom_first(e: ExprModel) -> TokenModel {
    match e {
        ExprModel::StringLit(s) => TokenModel::StringLit(s),
        ExprModel::CharRange(a, _) => TokenModel::CharLit(a),
        ExprModel::Ident(n) => TokenModel::Ident(n),
        ExprModel::Builtin(b) => super::print::builtin_token(b),
        ExprModel::Group(_) => TokenModel::LParen,
        ExprModel::With { .. } => TokenModel::With,
        ExprModel::WithIncrement { .. } => TokenModel::With,
        ExprModel::When { .. } => TokenModel::When,
        ExprModel::DepthLimit { .. } => TokenModel::DepthLimit,
        _ => TokenModel::Comma,
    }
}

/// An atom is spelled starting with its first token.
pub proof fn lemma_atom_first(e: ExprModel)
    requires
        atom_shaped(e),
    ensures
        expr_tokens(e).len() > 0,
        expr_tokens(e)[0] == atom_first(e),
{
    lemma_prefix_first(e);
    match e {
        ExprModel::Group(inner) => {
            assert((seq![TokenModel::LParen] + expr_tokens(*inner) + seq![TokenModel::RParen])[0] == TokenModel::LParen);
        },
        ExprModel::With { flag, body } => {
            let t = seq![TokenModel::With, TokenModel::Ident(flag), TokenModel::LBrace] + expr_tokens(*body) + seq![TokenModel::RBrace];
            assert(t[0] == TokenModel::With);
        },
        ExprModel::WithIncrement { counter, amount, body } => {
            let t = seq![
                TokenModel::With,
                TokenModel::Ident(counter),
                TokenModel::PlusEq,
                TokenModel::Number(amount),
                TokenModel::LBrace,
            ] + expr_tokens(*body) + seq![TokenModel::RBrace];
            assert(t[0] == TokenModel::With);
        },
        ExprModel::When { condition, body } => {
            let t = seq![TokenModel::When] + super::print::cond_tokens(condition) + seq![TokenModel::LBrace] + expr_tokens(*body)
                + seq![TokenModel::RBrace];
            assert(t[0] == TokenModel::When);
        },
        ExprModel::DepthLimit { limit, body } => {
            let t = seq![
                TokenModel::DepthLimit,
                TokenModel::LParen,
                TokenModel::Number(limit),
                TokenModel::RParen,
                TokenModel::LBrace,
            ] + expr_tokens(*body) + seq![TokenModel::RBrace];
            assert(t[0] == TokenModel::DepthLimit);
        },
        _ => {},
    }
}

/// The token at hand, `i` tokens into what was read next from `start`.
pub proof fn lemma_peek_at(start: TokenStream, cur: TokenStream, s: Seq<TokenModel>, i: int)
    requires
        reads_next(start, s),
        cur.toks() == start.toks(),
        cur.pos() == start.pos() + i,
        0 <= i < s.len(),
    ensures
        cur.peek_model() == Some(s[i]),
{
    lemma_reads_index(start, s, i);
}

/// The tokens of a grammar are those of its first `k` items, then the rest.
pub proof fn lemma_grammar_split(g: Seq<ItemModel>, k: int)
    requires
        0 <= k <= g.len(),
    ensures
        grammar_tokens(g) == grammar_tokens(g.take(k)) + grammar_tokens(g.skip(k)),
    decreases g.len(),
{
    if k == g.len() {
        assert(g.take(k) =~= g);
        assert(g.skip(k) =~= Seq::<ItemModel>::empty());
        assert(grammar_tokens(g) + Seq::<TokenModel>::empty() =~= grammar_tokens(g));
    } else {
        let dl = g.drop_last();
        lemma_grammar_split(dl, k);
        assert(dl.take(k) =~= g.take(k));
        assert(g.skip(k).drop_last() =~= dl.skip(k));
        assert(g.skip(k).last() == g.last());
        assert(grammar_tokens(g) =~= grammar_tokens(g.take(k)) + grammar_tokens(g.skip(k)));
    }
}

/// The tokens of the items from `k` on begin with those of item `k`.
pub proof fn lemma_grammar_front(g: Seq<ItemModel>, k: int)
    requires
        0 <= k < g.len(),
    ensures
        grammar_tokens(g.skip(k)) == super::print::item_tokens(g[k]) + grammar_tokens(g.skip(k + 1)),
{
    let s = g.skip(k);
    lemma_grammar_split(s, 1);
    assert(s.take(1) =~= seq![g[k]]);
    assert(s.skip(1) =~= g.skip(k + 1));
    assert(seq![g[k]].drop_last() =~= Seq::<ItemModel>::empty());
    assert(seq![g[k]].last() == g[k]);
    assert(grammar_tokens(Seq::<ItemModel>::empty()) =~= Seq::<TokenModel>::empty());
    assert(grammar_tokens(seq![g[k]]) == grammar_tokens(Seq::<ItemModel>::empty()) + super::print::item_tokens(g[k]));
    assert(grammar_tokens(seq![g[k]]) =~= super::print::item_tokens(g[k]));
}

/// The tokens of the first `k + 1` items extend those of the first `k`.
pub proof fn lemma_grammar_step(g: Seq<ItemModel>, k: int)
    requires
        0 <= k < g.len(),
    ensures
        grammar_tokens(g.take(k + 1)) == grammar_tokens(g.take(k)) + super::print::item_tokens(g[k]),
{
    assert(g.take(k + 1).drop_last() =~= g.take(k));
    assert(g.take(k + 1).last() == g[k]);
}

} // verus!
