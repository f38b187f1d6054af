//! Expressions: choices of sequences of postfix-decorated, prefix-decorated atoms.
use super::error::ParseError;
use super::print::{builtin_token, choice_tokens, cond_tokens, expr_tokens, repeat_tokens, seq_tokens};
use super::shape::{
    all_postfix_shaped, all_sequence_shaped, alternatives_of, atom_shaped, choice_shaped, ends_choice, ends_postfix,
    ends_sequence, items_of, lemma_alternatives, lemma_choice_layout, lemma_choice_split, lemma_items, lemma_peel,
    lemma_atom_first, lemma_peek_at, lemma_postfix_first, lemma_prefix_first, lemma_reads_all, lemma_reads_at, lemma_reads_index, lemma_reads_split,
    lemma_seq_layout, next_after, peel, peeled_tokens, postfix_depth, postfix_op_tokens, postfix_shaped, prefix_shaped,
    reads_next, sequence_shaped, starts_expr,
};
use super::statement::parse_guard_condition;
use super::tokens::{lemma_read_none, lemma_read_one, lemma_read_split, TokenStream};
use crate::ast::{
    expr_models, lemma_expr_models_index, BuiltinPredicate, CondModel, DepthLimitExpr, Expr, ExprModel, RepeatKind, WhenExpr,
    WithExpr, WithIncrementExpr,
};
use crate::lexer::{describe, describe_text, token_text, Token, TokenModel};
use vstd::prelude::*;

verus! {

/// What a parse of an expression promises: the tokens it read spell the expression.
pub open spec fn parsed(before: TokenStream, after: TokenStream, res: Result<Expr, ParseError>) -> bool {
    res is Ok ==> after.advanced_from(&before) && after.read_since(&before) == expr_tokens(res->Ok_0@)
}

/// Neither a bare sequence nor a bare choice.
pub open spec fn is_unit(res: Result<Expr, ParseError>) -> bool {
    res is Ok ==> res->Ok_0@ !is Sequence && res->Ok_0@ !is Choice
}

/// The first alternative of an expected choice, and what follows it.
proof fn lemma_first_alternative(start: TokenStream, e: ExprModel)
    requires
        choice_shaped(e),
        reads_next(start, expr_tokens(e)),
        ends_choice(next_after(start, expr_tokens(e))),
    ensures
        alternatives_of(e).len() >= 1,
        sequence_shaped(alternatives_of(e)[0]),
        reads_next(start, expr_tokens(alternatives_of(e)[0])),
        ends_sequence(next_after(start, expr_tokens(alternatives_of(e)[0]))),
{
    let alts = alternatives_of(e);
    lemma_alternatives(e);
    assert(sequence_shaped(alts[0]));
    if alts.len() >= 2 {
        lemma_choice_split(alts, 1);
        assert(alts.take(1) =~= seq![alts[0]]);
        assert(choice_tokens(seq![alts[0]]) == expr_tokens(alts[0]));
        assert(choice_tokens(alts) =~= expr_tokens(alts[0]) + (seq![TokenModel::Pipe] + choice_tokens(alts.skip(1))));
        lemma_reads_split(start, expr_tokens(alts[0]), seq![TokenModel::Pipe] + choice_tokens(alts.skip(1)));
    }
}

/// Choice: `a | b | c`. Expecting `e`: a choice-shaped expression spelled at
/// the read position and followed by a token that does not extend it is
/// read as `e`.
pub(crate) fn parse_choice(tokens: &mut TokenStream, Ghost(e): Ghost<ExprModel>) -> (res: Result<Expr, ParseError>)
    requires
        0 <= old(tokens).pos() <= old(tokens).toks().len(),
    ensures
        parsed(*old(tokens), *final(tokens), res),
        res is Ok ==> choice_shaped(res->Ok_0@),
        choice_shaped(e) && reads_next(*old(tokens), expr_tokens(e)) && ends_choice(next_after(*old(tokens), expr_tokens(e)))
            ==> (res matches Ok(r) && r@ == e),
    decreases old(tokens).toks().len() - old(tokens).pos(), 5nat,
{
    let ghost start = *tokens;
    let ghost expected = choice_shaped(e) && reads_next(start, expr_tokens(e)) && ends_choice(next_after(start, expr_tokens(e)));
    let ghost alts = alternatives_of(e);
    proof {
        if expected {
            lemma_first_alternative(start, e);
            lemma_alternatives(e);
        }
    }
    let first = parse_sequence(tokens, Ghost(alts[0]))?;
    let mut alternatives: Vec<Expr> = Vec::new();
    alternatives.push(first);
    proof {
        lemma_expr_models_index(alternatives@);
        if expected {
            assert(expr_models(alternatives@) =~= alts.take(1));
        }
    }
    loop
        invariant
            start == *old(tokens),
            tokens.advanced_from(&start),
            alternatives@.len() >= 1,
            tokens.read_since(&start) == choice_tokens(expr_models(alternatives@)),
            all_sequence_shaped(expr_models(alternatives@)),
            alternatives@.len() == 1 ==> alternatives@[0]@ !is Choice,
            expected == (choice_shaped(e) && reads_next(start, expr_tokens(e)) && ends_choice(next_after(start, expr_tokens(e)))),
            alts == alternatives_of(e),
            expected ==> alternatives@.len() <= alts.len() && expr_models(alternatives@) == alts.take(alternatives@.len() as int)
                && choice_tokens(alts) == expr_tokens(e) && all_sequence_shaped(alts),
        ensures
            tokens.advanced_from(&start),
            alternatives@.len() >= 1,
            tokens.read_since(&start) == choice_tokens(expr_models(alternatives@)),
            all_sequence_shaped(expr_models(alternatives@)),
            alternatives@.len() == 1 ==> alternatives@[0]@ !is Choice,
            expected ==> expr_models(alternatives@) == alts,
        decreases tokens.toks().len() - tokens.pos(),
    {
        let ghost k = alternatives@.len() as int;
        proof {
            if expected {
                assert(tokens.pos() == start.pos() + choice_tokens(alts.take(k)).len());
                if k < alts.len() {
                    lemma_choice_layout(start, alts, k);
                    assert(tokens.peek_model() == Some(TokenModel::Pipe));
                } else {
                    assert(alts.take(k) =~= alts);
                    assert(tokens.peek_model() == next_after(start, expr_tokens(e)));
                }
            }
        }
        let is_pipe = match tokens.peek() {
            Some(Token::Pipe) => true,
            _ => false,
        };
        if !is_pipe {
            proof {
                if expected {
                    assert(k == alts.len());
                    assert(alts.take(k) =~= alts);
                }
            }
            break;
        }
        let ghost before = *tokens;
        let ghost prev = alternatives@;
        tokens.advance();
        let ghost mid = *tokens;
        proof {
            lemma_read_one(&before, &mid);
            if expected {
                lemma_choice_layout(start, alts, k);
                assert(sequence_shaped(alts[k]));
                assert(reads_next(mid, expr_tokens(alts[k])));
                assert(ends_sequence(next_after(mid, expr_tokens(alts[k]))));
            }
        }
        let next = parse_sequence(tokens, Ghost(alts[k]))?;
        let ghost next_model = next@;
        alternatives.push(next);
        proof {
            lemma_read_split(&before, &mid, tokens);
            lemma_read_split(&start, &before, tokens);
            lemma_expr_models_index(alternatives@);
            lemma_expr_models_index(prev);
            assert(expr_models(alternatives@).drop_last() =~= expr_models(prev));
            assert(expr_models(alternatives@).last() == next_model);
            assert(tokens.read_since(&start) =~= choice_tokens(expr_models(prev)) + seq![TokenModel::Pipe] + expr_tokens(next_model));
            assert(all_sequence_shaped(expr_models(alternatives@))) by {
                assert forall|i: int| 0 <= i < expr_models(alternatives@).len() implies sequence_shaped(
                    #[trigger] expr_models(alternatives@)[i],
                ) by {
                    if i < prev.len() {
                        assert(expr_models(alternatives@)[i] == expr_models(prev)[i]);
                    }
                }
            }
            if expected {
                assert(expr_models(alternatives@) =~= alts.take(k + 1));
            }
        }
    }
    if alternatives.len() == 1 {
        let ghost single = alternatives@;
        let only = alternatives.pop();
        match only {
            Some(only) => {
                proof {
                    lemma_expr_models_index(single);
                    assert(sequence_shaped(expr_models(single)[0]));
                }
                Ok(only)
            },
            None => Err(tokens.error("expected expression".to_owned())),
        }
    } else {
        Ok(Expr::Choice(alternatives))
    }
}

/// Whether the token at hand can start an expression.
fn is_at_expr_start(tokens: &TokenStream) -> (res: bool)
    ensures
        res == (tokens.peek_model() matches Some(t) && starts_expr(t)),
{
    match tokens.peek() {
        Some(Token::StringLit(_)) => true,
        Some(Token::CharLit(_)) => true,
        Some(Token::Ident(_)) => true,
        Some(Token::Soi) => true,
        Some(Token::Eoi) => true,
        Some(Token::Any) => true,
        Some(Token::LineStart) => true,
        Some(Token::LineEnd) => true,
        Some(Token::LParen) => true,
        Some(Token::Amp) => true,
        Some(Token::Bang) => true,
        Some(Token::With) => true,
        Some(Token::When) => true,
        Some(Token::DepthLimit) => true,
        _ => false,
    }
}

/// The first item of an expected sequence, and what follows it.
proof fn lemma_first_item(start: TokenStream, e: ExprModel)
    requires
        sequence_shaped(e),
        reads_next(start, expr_tokens(e)),
        ends_sequence(next_after(start, expr_tokens(e))),
    ensures
        items_of(e).len() >= 1,
        postfix_shaped(items_of(e)[0]),
        reads_next(start, expr_tokens(items_of(e)[0])),
        ends_postfix(next_after(start, expr_tokens(items_of(e)[0]))),
{
    let items = items_of(e);
    lemma_items(e);
    assert(postfix_shaped(items[0]));
    lemma_seq_layout(start, items, 0);
    assert(items.take(0) =~= Seq::<ExprModel>::empty());
    assert(seq_tokens(Seq::<ExprModel>::empty()) =~= Seq::<TokenModel>::empty());
    if items.len() > 1 {
        assert(postfix_shaped(items[1]));
        lemma_postfix_first(items[1]);
    }
}

/// Sequence: `a b c`. Expecting `e`: a sequence-shaped expression spelled
/// at the read position and followed by a token that does not extend it is
/// read as `e`.
fn parse_sequence(tokens: &mut TokenStream, Ghost(e): Ghost<ExprModel>) -> (res: Result<Expr, ParseError>)
    requires
        0 <= old(tokens).pos() <= old(tokens).toks().len(),
    ensures
        parsed(*old(tokens), *final(tokens), res),
        res is Ok ==> res->Ok_0@ !is Choice,
        res is Ok ==> sequence_shaped(res->Ok_0@),
        sequence_shaped(e) && reads_next(*old(tokens), expr_tokens(e)) && ends_sequence(next_after(*old(tokens), expr_tokens(e)))
            ==> (res matches Ok(r) && r@ == e),
    decreases old(tokens).toks().len() - old(tokens).pos(), 4nat,
{
    let ghost start = *tokens;
    let ghost expected = sequence_shaped(e) && reads_next(start, expr_tokens(e)) && ends_sequence(next_after(start, expr_tokens(e)));
    let ghost items_e = items_of(e);
    proof {
        if expected {
            lemma_first_item(start, e);
            lemma_items(e);
        }
    }
    let first = parse_postfix(tokens, Ghost(items_e[0]))?;
    let mut items: Vec<Expr> = Vec::new();
    let ghost first_model = first@;
    items.push(first);
    proof {
        lemma_expr_models_index(items@);
        assert(expr_models(items@).drop_last() =~= Seq::<ExprModel>::empty());
        assert(expr_models(items@).last() == first_model);
        assert(seq_tokens(Seq::<ExprModel>::empty()) =~= Seq::<TokenModel>::empty());
        assert(Seq::<TokenModel>::empty() + expr_tokens(first_model) =~= expr_tokens(first_model));
        assert(seq_tokens(expr_models(items@)) =~= expr_tokens(first_model));
        if expected {
            assert(expr_models(items@) =~= items_e.take(1));
        }
    }
    while is_at_expr_start(tokens)
        invariant
            start == *old(tokens),
            tokens.advanced_from(&start),
            items@.len() >= 1,
            tokens.read_since(&start) == seq_tokens(expr_models(items@)),
            items@.len() == 1 ==> items@[0]@ !is Choice,
            all_postfix_shaped(expr_models(items@)),
            expected == (sequence_shaped(e) && reads_next(start, expr_tokens(e)) && ends_sequence(next_after(start, expr_tokens(e)))),
            items_e == items_of(e),
            expected ==> items@.len() <= items_e.len() && expr_models(items@) == items_e.take(items@.len() as int)
                && seq_tokens(items_e) == expr_tokens(e) && all_postfix_shaped(items_e),
        decreases tokens.toks().len() - tokens.pos(),
    {
        let ghost before = *tokens;
        let ghost prev = items@;
        let ghost k = items@.len() as int;
        proof {
            if expected {
                assert(tokens.pos() == start.pos() + seq_tokens(items_e.take(k)).len());
                if k == items_e.len() {
                    assert(items_e.take(k) =~= items_e);
                    assert(tokens.peek_model() == next_after(start, expr_tokens(e)));
                    assert(false);
                }
                lemma_seq_layout(start, items_e, k);
                assert(postfix_shaped(items_e[k]));
                assert(reads_next(*tokens, expr_tokens(items_e[k])));
                if k + 1 < items_e.len() {
                    assert(postfix_shaped(items_e[k + 1]));
                    lemma_postfix_first(items_e[k + 1]);
                }
                assert(ends_postfix(next_after(*tokens, expr_tokens(items_e[k]))));
            }
        }
        let next = parse_postfix(tokens, Ghost(items_e[k]))?;
        let ghost next_model = next@;
        items.push(next);
        proof {
            lemma_read_split(&start, &before, tokens);
            lemma_expr_models_index(items@);
            lemma_expr_models_index(prev);
            assert(expr_models(items@).drop_last() =~= expr_models(prev));
            assert(expr_models(items@).last() == next_model);
            super::print::lemma_expr_tokens_nonempty(next_model);
            assert(all_postfix_shaped(expr_models(items@))) by {
                assert forall|i: int| 0 <= i < expr_models(items@).len() implies postfix_shaped(#[trigger] expr_models(items@)[i]) by {
                    if i < prev.len() {
                        assert(expr_models(items@)[i] == expr_models(prev)[i]);
                    }
                }
            }
            if expected {
                assert(expr_models(items@) =~= items_e.take(k + 1));
            }
        }
    }
    proof {
        if expected {
            let k = items@.len() as int;
            if k < items_e.len() {
                lemma_seq_layout(start, items_e, k);
                assert(postfix_shaped(items_e[k]));
                lemma_postfix_first(items_e[k]);
                assert(tokens.pos() == start.pos() + seq_tokens(items_e.take(k)).len());
                assert(tokens.toks().subrange(tokens.pos(), tokens.pos() + expr_tokens(items_e[k]).len())[0]
                    == expr_tokens(items_e[k])[0]);
                assert(false);
            }
            assert(items_e.take(k) =~= items_e);
        }
    }
    if items.len() == 1 {
        let ghost single = items@;
        let only = items.pop();
        match only {
            Some(only) => {
                proof {
                    lemma_expr_models_index(single);
                    assert(expr_models(single).drop_last() =~= Seq::<ExprModel>::empty());
                    assert(seq_tokens(Seq::<ExprModel>::empty()) =~= Seq::<TokenModel>::empty());
                    assert(Seq::<TokenModel>::empty() + expr_tokens(only@) =~= expr_tokens(only@));
                    assert(seq_tokens(expr_models(single)) =~= expr_tokens(only@));
                    assert(postfix_shaped(expr_models(single)[0]));
                }
                Ok(only)
            },
            None => Err(tokens.error("expected expression".to_owned())),
        }
    } else {
        Ok(Expr::Sequence(items))
    }
}

/// Postfix operators: `p+`, `p*`, `p?`, `p{n,m}`, `p @ "label"`. Expecting
/// `e`: a postfix-shaped expression spelled at the read position and
/// followed by a token that does not extend it is read as `e`.
fn parse_postfix(tokens: &mut TokenStream, Ghost(e): Ghost<ExprModel>) -> (res: Result<Expr, ParseError>)
    requires
        0 <= old(tokens).pos() <= old(tokens).toks().len(),
    ensures
        parsed(*old(tokens), *final(tokens), res),
        is_unit(res),
        res is Ok ==> postfix_shaped(res->Ok_0@),
        postfix_shaped(e) && reads_next(*old(tokens), expr_tokens(e)) && ends_postfix(next_after(*old(tokens), expr_tokens(e)))
            ==> (res matches Ok(r) && r@ == e),
    decreases old(tokens).toks().len() - old(tokens).pos(), 3nat,
{
    let ghost start = *tokens;
    let ghost expected = postfix_shaped(e) && reads_next(start, expr_tokens(e)) && ends_postfix(next_after(start, expr_tokens(e)));
    let ghost mut d: nat = postfix_depth(e);
    proof {
        if expected {
            lemma_peel(e, d);
            lemma_reads_split(start, expr_tokens(peel(e, d)), peeled_tokens(e, d));
            assert(prefix_shaped(peel(e, d)));
        }
    }
    let mut expr = parse_prefix(tokens, Ghost(peel(e, d)))?;
    loop
        invariant
            start == *old(tokens),
            tokens.advanced_from(&start),
            tokens.read_since(&start) == expr_tokens(expr@),
            expr@ !is Sequence && expr@ !is Choice,
            postfix_shaped(expr@),
            expected == (postfix_shaped(e) && reads_next(start, expr_tokens(e)) && ends_postfix(next_after(start, expr_tokens(e)))),
            expected ==> d <= postfix_depth(e) && expr@ == peel(e, d),
        ensures
            tokens.advanced_from(&start),
            tokens.read_since(&start) == expr_tokens(expr@),
            expr@ !is Sequence && expr@ !is Choice,
            postfix_shaped(expr@),
            expected ==> expr@ == e,
        decreases tokens.toks().len() - tokens.pos(),
    {
        let ghost before = *tokens;
        proof {
            if expected {
                lemma_peel(e, d);
                assert(tokens.pos() == start.pos() + expr_tokens(peel(e, d)).len());
                lemma_reads_at(start, *tokens, expr_tokens(peel(e, d)), peeled_tokens(e, d));
                if d > 0 {
                    let outer = peel(e, (d - 1) as nat);
                    assert(peeled_tokens(e, d) == postfix_op_tokens(outer) + peeled_tokens(e, (d - 1) as nat));
                    lemma_reads_split(*tokens, postfix_op_tokens(outer), peeled_tokens(e, (d - 1) as nat));
                    assert(postfix_op_tokens(outer).len() > 0);
                    assert(tokens.peek_model() == Some(postfix_op_tokens(outer)[0]));
                } else {
                    assert(peel(e, 0) == e);
                    assert(peeled_tokens(e, 0) =~= Seq::<TokenModel>::empty());
                    assert(expr_tokens(e) + Seq::<TokenModel>::empty() =~= expr_tokens(e));
                    assert(tokens.peek_model() == next_after(start, expr_tokens(e)));
                }
            }
        }
        let ghost outer = peel(e, (d - 1) as nat);
        let kind = match tokens.peek() {
            Some(Token::Plus) => {
                tokens.advance();
                RepeatKind::OneOrMore
            },
            Some(Token::Star) => {
                tokens.advance();
                RepeatKind::ZeroOrMore
            },
            Some(Token::Question) => {
                tokens.advance();
                RepeatKind::Optional
            },
            Some(Token::LBrace) => {
                let ghost bounds = match outer {
                    ExprModel::Repeat { kind, .. } => kind,
                    _ => RepeatKind::ZeroOrMore,
                };
                match try_parse_repeat_bounds(tokens, Ghost(bounds))? {
                    Some(kind) => kind,
                    None => {
                        break;
                    },
                }
            },
            Some(Token::At) => {
                tokens.advance();
                let ghost mid = *tokens;
                proof {
                    lemma_read_one(&before, &mid);
                    if expected {
                        assert(outer is Labeled);
                        assert(tokens.toks().subrange(before.pos(), before.pos() + 2)[1] == postfix_op_tokens(outer)[1]);
                    }
                }
                match tokens.advance() {
                    Some(Token::StringLit(label)) => {
                        let ghost inner = expr@;
                        let ghost label_model = label@;
                        expr = Expr::Labeled { expr: Box::new(expr), label };
                        proof {
                            lemma_read_one(&mid, tokens);
                            lemma_read_split(&before, &mid, tokens);
                            lemma_read_split(&start, &before, tokens);
                            assert(tokens.read_since(&start) =~= expr_tokens(inner) + seq![TokenModel::At, TokenModel::StringLit(label_model)]);
                            if expected {
                                lemma_peel(e, d);
                                assert(expr@ == outer);
                                d = (d - 1) as nat;
                            }
                        }
                        continue;
                    },
                    other => {
                        let mut message = "expected string after '@', got ".to_owned();
                        let got = match &other {
                            Some(t) => describe(Some(t)),
                            None => describe(None),
                        };
                        message.append(got.as_str());
                        return Err(tokens.error(message));
                    },
                }
            },
            _ => {
                break;
            },
        };
        let ghost inner = expr@;
        proof {
            if kind is OneOrMore || kind is ZeroOrMore || kind is Optional {
                lemma_read_one(&before, tokens);
            }
            lemma_read_split(&start, &before, tokens);
        }
        expr = Expr::Repeat { expr: Box::new(expr), kind };
        proof {
            assert(tokens.read_since(&start) =~= expr_tokens(inner) + repeat_tokens(kind));
            if expected {
                lemma_peel(e, d);
                assert(outer is Repeat);
                assert(expr@ == outer);
                d = (d - 1) as nat;
            }
        }
    }
    Ok(expr)
}

/// The token `k` places after the read position, if there is one.
pub open spec fn ahead(ts: TokenStream, k: int) -> Option<TokenModel> {
    super::shape::token_at(ts.toks(), ts.pos() + k)
}

/// The byte offset of the token `k` places after the read position, or the
/// end of the source when there is none.
pub open spec fn offset_ahead(ts: TokenStream, k: int) -> int {
    if 0 <= ts.pos() + k < ts.toks().len() {
        ts.starts()[ts.pos() + k] as int
    } else {
        ts.source_len()
    }
}

/// A token that starts an atom.
pub open spec fn starts_atom(t: TokenModel) -> bool {
    t is StringLit || t is CharLit || t is Ident || t is Soi || t is Eoi || t is Any || t is LineStart || t is LineEnd
        || t is LParen || t is With || t is When || t is DepthLimit
}

/// After the `{` at the read position, the tokens start no repeat bounds:
/// neither a number nor a comma follows, or a number is followed by neither
/// `}` nor a comma, or `number ,` by neither `}` nor a number.
pub open spec fn no_bounds_ahead(ts: TokenStream) -> bool {
    match ahead(ts, 1) {
        Some(TokenModel::Number(_)) => match ahead(ts, 2) {
            Some(TokenModel::RBrace) => false,
            Some(TokenModel::Comma) => !(ahead(ts, 3) matches Some(TokenModel::RBrace) || ahead(ts, 3) matches Some(
                TokenModel::Number(_),
            )),
            _ => true,
        },
        Some(TokenModel::Comma) => false,
        _ => true,
    }
}

/// After the `{` at the read position, repeat bounds start but are not
/// completed: `{n,m` without `}`, or `{,` without a number and a `}`.
pub open spec fn broken_bounds_ahead(ts: TokenStream) -> bool {
    match ahead(ts, 1) {
        Some(TokenModel::Number(_)) => ahead(ts, 2) == Some(TokenModel::Comma) && (ahead(ts, 3) matches Some(
            TokenModel::Number(_),
        )) && ahead(ts, 4) != Some(TokenModel::RBrace),
        Some(TokenModel::Comma) => !((ahead(ts, 2) matches Some(TokenModel::Number(_))) && ahead(ts, 3) == Some(
            TokenModel::RBrace,
        )),
        _ => false,
    }
}

/// Try to parse `{n}`, `{n,}`, `{,m}`, `{n,m}`; gives `None`, having read
/// nothing, when the `{` does not open repeat bounds.
/// Expecting `bounds`: bounds spelled at the read position are read as them.
fn try_parse_repeat_bounds(tokens: &mut TokenStream, Ghost(bounds): Ghost<RepeatKind>) -> (res: Result<Option<RepeatKind>, ParseError>)
    requires
        0 <= old(tokens).pos() <= old(tokens).toks().len(),
        old(tokens).peek_model() == Some(TokenModel::LBrace),
    ensures
        res is Ok ==> final(tokens).advanced_from(old(tokens)),
        res matches Ok(Some(kind)) ==> final(tokens).read_since(old(tokens)) == repeat_tokens(kind)
            && (kind is Exact || kind is AtLeast || kind is AtMost || kind is Range),
        res matches Ok(None) ==> final(tokens).pos() == old(tokens).pos(),
        res matches Ok(None) <==> no_bounds_ahead(*old(tokens)),
        res is Err <==> broken_bounds_ahead(*old(tokens)),
        ahead(*old(tokens), 1) matches Some(TokenModel::Number(_)) && broken_bounds_ahead(*old(tokens)) ==> res is Err
            && res->Err_0.offset == offset_ahead(*old(tokens), 4) && res->Err_0.message@ == "expected "@ + token_text(
            TokenModel::RBrace,
        ) + ", got "@ + describe_text(ahead(*old(tokens), 4)),
        ahead(*old(tokens), 1) == Some(TokenModel::Comma) && !(ahead(*old(tokens), 2) matches Some(TokenModel::Number(_)))
            ==> res is Err && res->Err_0.offset == offset_ahead(*old(tokens), 3) && res->Err_0.message@
            == "expected number, got "@ + describe_text(ahead(*old(tokens), 2)),
        ahead(*old(tokens), 1) == Some(TokenModel::Comma) && (ahead(*old(tokens), 2) matches Some(TokenModel::Number(_)))
            && ahead(*old(tokens), 3) != Some(TokenModel::RBrace) ==> res is Err && res->Err_0.offset == offset_ahead(
            *old(tokens),
            3,
        ) && res->Err_0.message@ == "expected "@ + token_text(TokenModel::RBrace) + ", got "@ + describe_text(
            ahead(*old(tokens), 3),
        ),
        (bounds is Exact || bounds is AtLeast || bounds is AtMost || bounds is Range) && reads_next(*old(tokens), repeat_tokens(bounds))
            ==> (res matches Ok(Some(kind)) && kind == bounds),
{
    let ghost start = *tokens;
    let ghost expected = (bounds is Exact || bounds is AtLeast || bounds is AtMost || bounds is Range) && reads_next(start, repeat_tokens(bounds));
    proof {
        if expected {
            lemma_reads_all(start, repeat_tokens(bounds));
        }
    }
    let saved = tokens.save();
    tokens.advance();
    let ghost s1 = *tokens;
    proof {
        lemma_read_one(&start, &s1);
    }
    match tokens.peek() {
        Some(Token::Number(_)) => {
            let n = tokens.expect_number()?;
            let ghost s2 = *tokens;
            proof {
                lemma_read_one(&s1, &s2);
                lemma_read_split(&start, &s1, &s2);
            }
            match tokens.peek() {
                Some(Token::RBrace) => {
                    tokens.advance();
                    proof {
                        lemma_read_one(&s2, tokens);
                        lemma_read_split(&start, &s2, tokens);
                        assert(tokens.read_since(&start) =~= repeat_tokens(RepeatKind::Exact(n)));
                    }
                    Ok(Some(RepeatKind::Exact(n)))
                },
                Some(Token::Comma) => {
                    tokens.advance();
                    let ghost s3 = *tokens;
                    proof {
                        lemma_read_one(&s2, &s3);
                        lemma_read_split(&start, &s2, &s3);
                    }
                    match tokens.peek() {
                        Some(Token::RBrace) => {
                            tokens.advance();
                            proof {
                                lemma_read_one(&s3, tokens);
                                lemma_read_split(&start, &s3, tokens);
                                assert(tokens.read_since(&start) =~= repeat_tokens(RepeatKind::AtLeast(n)));
                            }
                            Ok(Some(RepeatKind::AtLeast(n)))
                        },
                        Some(Token::Number(_)) => {
                            let m = tokens.expect_number()?;
                            let ghost s4 = *tokens;
                            proof {
                                lemma_read_one(&s3, &s4);
                                lemma_read_split(&start, &s3, &s4);
                            }
                            tokens.expect(&Token::RBrace)?;
                            proof {
                                lemma_read_one(&s4, tokens);
                                lemma_read_split(&start, &s4, tokens);
                                assert(tokens.read_since(&start) =~= repeat_tokens(RepeatKind::Range(n, m)));
                            }
                            Ok(Some(RepeatKind::Range(n, m)))
                        },
                        _ => {
                            tokens.restore(saved);
                            proof {
                                lemma_read_none(&start, tokens);
                            }
                            Ok(None)
                        },
                    }
                },
                _ => {
                    tokens.restore(saved);
                    proof {
                        lemma_read_none(&start, tokens);
                    }
                    Ok(None)
                },
            }
        },
        Some(Token::Comma) => {
            tokens.advance();
            let ghost s2 = *tokens;
            proof {
                lemma_read_one(&s1, &s2);
                lemma_read_split(&start, &s1, &s2);
            }
            let m = tokens.expect_number()?;
            let ghost s3 = *tokens;
            proof {
                lemma_read_one(&s2, &s3);
                lemma_read_split(&start, &s2, &s3);
            }
            tokens.expect(&Token::RBrace)?;
            proof {
                lemma_read_one(&s3, tokens);
                lemma_read_split(&start, &s3, tokens);
                assert(tokens.read_since(&start) =~= repeat_tokens(RepeatKind::AtMost(m)));
            }
            Ok(Some(RepeatKind::AtMost(m)))
        },
        _ => {
            tokens.restore(saved);
            proof {
                lemma_read_none(&start, tokens);
            }
            Ok(None)
        },
    }
}

/// Prefix operators: `&p`, `!p`. Expecting `e`: a prefix-shaped expression
/// spelled at the read position is read as `e`.
fn parse_prefix(tokens: &mut TokenStream, Ghost(e): Ghost<ExprModel>) -> (res: Result<Expr, ParseError>)
    requires
        0 <= old(tokens).pos() <= old(tokens).toks().len(),
    ensures
        parsed(*old(tokens), *final(tokens), res),
        is_unit(res),
        res is Ok ==> prefix_shaped(res->Ok_0@),
        prefix_shaped(e) && reads_next(*old(tokens), expr_tokens(e)) ==> (res matches Ok(r) && r@ == e),
    decreases old(tokens).toks().len() - old(tokens).pos(), 2nat,
{
    let ghost start = *tokens;
    let ghost expected = prefix_shaped(e) && reads_next(start, expr_tokens(e));
    let ghost inner = match e {
        ExprModel::PosLookahead(i) => *i,
        ExprModel::NegLookahead(i) => *i,
        _ => e,
    };
    proof {
        if expected {
            lemma_prefix_first(e);
            lemma_reads_index(start, expr_tokens(e), 0);
            if e is PosLookahead || e is NegLookahead {
                assert(expr_tokens(e) == seq![expr_tokens(e)[0]] + expr_tokens(inner));
                lemma_reads_at(start, start, Seq::empty(), expr_tokens(e));
            }
        }
    }
    match tokens.peek() {
        Some(Token::Amp) => {
            tokens.advance();
            let ghost mid = *tokens;
            proof {
                lemma_read_one(&start, &mid);
                if expected {
                    assert(e is PosLookahead);
                    lemma_reads_at(start, mid, seq![TokenModel::Amp], expr_tokens(inner));
                }
            }
            let expr = parse_atom(tokens, Ghost(inner))?;
            proof {
                lemma_read_split(&start, &mid, tokens);
            }
            Ok(Expr::PosLookahead(Box::new(expr)))
        },
        Some(Token::Bang) => {
            tokens.advance();
            let ghost mid = *tokens;
            proof {
                lemma_read_one(&start, &mid);
                if expected {
                    assert(e is NegLookahead);
                    lemma_reads_at(start, mid, seq![TokenModel::Bang], expr_tokens(inner));
                }
            }
            let expr = parse_atom(tokens, Ghost(inner))?;
            proof {
                lemma_read_split(&start, &mid, tokens);
            }
            Ok(Expr::NegLookahead(Box::new(expr)))
        },
        _ => {
            proof {
                if expected {
                    assert(!(e is PosLookahead) && !(e is NegLookahead));
                }
            }
            parse_atom(tokens, Ghost(e))
        },
    }
}

/// A builtin predicate token read on its own.
fn builtin_atom(tokens: &mut TokenStream, b: BuiltinPredicate) -> (res: Result<Expr, ParseError>)
    requires
        0 <= old(tokens).pos() <= old(tokens).toks().len(),
        old(tokens).peek_model() == Some(builtin_token(b)),
    ensures
        parsed(*old(tokens), *final(tokens), res),
        res matches Ok(e) && e@ == ExprModel::Builtin(b),
{
    let ghost start = *tokens;
    tokens.advance();
    proof {
        lemma_read_one(&start, tokens);
    }
    Ok(Expr::Builtin(b))
}

/// Atoms: literals, identifiers, builtins, groups, with, when, depth_limit.
/// Expecting `e`: an atom spelled at the read position is read as `e`.
fn parse_atom(tokens: &mut TokenStream, Ghost(e): Ghost<ExprModel>) -> (res: Result<Expr, ParseError>)
    requires
        0 <= old(tokens).pos() <= old(tokens).toks().len(),
    ensures
        parsed(*old(tokens), *final(tokens), res),
        is_unit(res),
        res is Ok ==> atom_shaped(res->Ok_0@),
        atom_shaped(e) && reads_next(*old(tokens), expr_tokens(e)) ==> (res matches Ok(r) && r@ == e),
        !(ahead(*old(tokens), 0) matches Some(t) && starts_atom(t)) ==> res is Err && res->Err_0.offset == offset_ahead(
            *old(tokens),
            0,
        ) && res->Err_0.message@ == "expected expression, got "@ + describe_text(ahead(*old(tokens), 0)),
        ahead(*old(tokens), 0) matches Some(TokenModel::CharLit(_)) && ahead(*old(tokens), 1) != Some(TokenModel::DotDot)
            ==> res is Err && res->Err_0.offset == offset_ahead(*old(tokens), 1) && res->Err_0.message@ == "expected "@
            + crate::lexer::token_text(TokenModel::DotDot) + ", got "@ + describe_text(ahead(*old(tokens), 1)),
        ahead(*old(tokens), 0) matches Some(TokenModel::CharLit(_)) && ahead(*old(tokens), 1) == Some(TokenModel::DotDot)
            && !(ahead(*old(tokens), 2) matches Some(TokenModel::CharLit(_))) ==> res is Err && res->Err_0.offset
            == offset_ahead(*old(tokens), 3) && res->Err_0.message@ == "expected char literal after '..'"@,
    decreases old(tokens).toks().len() - old(tokens).pos(), 1nat,
{
    let ghost start = *tokens;
    let ghost expected = atom_shaped(e) && reads_next(start, expr_tokens(e));
    proof {
        if expected {
            lemma_prefix_first(e);
            lemma_reads_all(start, expr_tokens(e));
        }
    }
    match tokens.peek() {
        Some(Token::StringLit(_)) => {
            match tokens.advance() {
                Some(Token::StringLit(s)) => {
                    proof {
                        lemma_read_one(&start, tokens);
                    }
                    Ok(Expr::StringLit(s))
                },
                _ => Err(tokens.error("expected string".to_owned())),
            }
        },
        Some(Token::CharLit(_)) => {
            match tokens.advance() {
                Some(Token::CharLit(c)) => {
                    let ghost s1 = *tokens;
                    proof {
                        lemma_read_one(&start, &s1);
                    }
                    tokens.expect(&Token::DotDot)?;
                    let ghost s2 = *tokens;
                    proof {
                        lemma_read_one(&s1, &s2);
                        lemma_read_split(&start, &s1, &s2);
                    }
                    match tokens.advance() {
                        Some(Token::CharLit(end)) => {
                            proof {
                                lemma_read_one(&s2, tokens);
                                lemma_read_split(&start, &s2, tokens);
                                assert(tokens.read_since(&start) =~= seq![TokenModel::CharLit(c), TokenModel::DotDot, TokenModel::CharLit(end)]);
                            }
                            Ok(Expr::CharRange(c, end))
                        },
                        _ => Err(tokens.error("expected char literal after '..'".to_owned())),
                    }
                },
                _ => Err(tokens.error("expected char literal".to_owned())),
            }
        },
        Some(Token::Ident(_)) => {
            match tokens.advance() {
                Some(Token::Ident(name)) => {
                    proof {
                        lemma_read_one(&start, tokens);
                    }
                    Ok(Expr::Ident(name))
                },
                _ => Err(tokens.error("expected identifier".to_owned())),
            }
        },
        Some(Token::Soi) => builtin_atom(tokens, BuiltinPredicate::Soi),
        Some(Token::Eoi) => builtin_atom(tokens, BuiltinPredicate::Eoi),
        Some(Token::Any) => builtin_atom(tokens, BuiltinPredicate::Any),
        Some(Token::LineStart) => builtin_atom(tokens, BuiltinPredicate::LineStart),
        Some(Token::LineEnd) => builtin_atom(tokens, BuiltinPredicate::LineEnd),
        Some(Token::LParen) => {
            tokens.advance();
            let ghost s1 = *tokens;
            proof {
                lemma_read_one(&start, &s1);
            }
            let ghost group = match e {
                ExprModel::Group(g) => *g,
                _ => e,
            };
            proof {
                if expected {
                    assert(e is Group);
                    assert(expr_tokens(e) =~= seq![TokenModel::LParen] + (expr_tokens(group) + seq![TokenModel::RParen]));
                    lemma_reads_at(start, s1, seq![TokenModel::LParen], expr_tokens(group) + seq![TokenModel::RParen]);
                    lemma_reads_split(s1, expr_tokens(group), seq![TokenModel::RParen]);
                }
            }
            let inner = parse_choice(tokens, Ghost(group))?;
            let ghost s2 = *tokens;
            proof {
                lemma_read_split(&start, &s1, &s2);
            }
            tokens.expect(&Token::RParen)?;
            proof {
                lemma_read_one(&s2, tokens);
                lemma_read_split(&start, &s2, tokens);
                assert(tokens.read_since(&start) =~= seq![TokenModel::LParen] + expr_tokens(inner@) + seq![TokenModel::RParen]);
            }
            Ok(Expr::Group(Box::new(inner)))
        },
        Some(Token::With) => parse_with_expr(tokens, Ghost(e)),
        Some(Token::When) => parse_when_expr(tokens, Ghost(e)),
        Some(Token::DepthLimit) => parse_depth_limit_expr(tokens, Ghost(e)),
        _ => {
            let mut message = "expected expression, got ".to_owned();
            let got = describe(tokens.peek());
            message.append(got.as_str());
            Err(tokens.error(message))
        },
    }
}

/// The body of a block: `{ choice }`, after the tokens that open it.
/// Expecting `body`: a choice-shaped body in braces at the read position is
/// read as `body`.
fn parse_block(tokens: &mut TokenStream, Ghost(body): Ghost<ExprModel>) -> (res: Result<Expr, ParseError>)
    requires
        0 <= old(tokens).pos() <= old(tokens).toks().len(),
    ensures
        res is Ok ==> final(tokens).advanced_from(old(tokens)) && final(tokens).read_since(old(tokens)) == seq![TokenModel::LBrace]
            + expr_tokens(res->Ok_0@) + seq![TokenModel::RBrace],
        res is Ok ==> choice_shaped(res->Ok_0@),
        choice_shaped(body) && reads_next(*old(tokens), seq![TokenModel::LBrace] + expr_tokens(body) + seq![TokenModel::RBrace])
            ==> (res matches Ok(r) && r@ == body),
    decreases old(tokens).toks().len() - old(tokens).pos(), 6nat,
{
    let ghost start = *tokens;
    let ghost expected = choice_shaped(body) && reads_next(start, seq![TokenModel::LBrace] + expr_tokens(body) + seq![TokenModel::RBrace]);
    proof {
        if expected {
            lemma_reads_index(start, seq![TokenModel::LBrace] + expr_tokens(body) + seq![TokenModel::RBrace], 0);
        }
    }
    tokens.expect(&Token::LBrace)?;
    let ghost s1 = *tokens;
    proof {
        lemma_read_one(&start, &s1);
        if expected {
            assert(seq![TokenModel::LBrace] + expr_tokens(body) + seq![TokenModel::RBrace] =~= seq![TokenModel::LBrace] + (
            expr_tokens(body) + seq![TokenModel::RBrace]));
            lemma_reads_at(start, s1, seq![TokenModel::LBrace], expr_tokens(body) + seq![TokenModel::RBrace]);
            lemma_reads_split(s1, expr_tokens(body), seq![TokenModel::RBrace]);
        }
    }
    let body_expr = parse_choice(tokens, Ghost(body))?;
    let ghost s2 = *tokens;
    proof {
        lemma_read_split(&start, &s1, &s2);
    }
    tokens.expect(&Token::RBrace)?;
    proof {
        lemma_read_one(&s2, tokens);
        lemma_read_split(&start, &s2, tokens);
        assert(tokens.read_since(&start) =~= seq![TokenModel::LBrace] + expr_tokens(body_expr@) + seq![TokenModel::RBrace]);
    }
    Ok(body_expr)
}

/// `with flag { body }` or `with counter += n { body }`. Expecting `e`: such
/// an atom spelled at the read position is read as `e`.
fn parse_with_expr(tokens: &mut TokenStream, Ghost(e): Ghost<ExprModel>) -> (res: Result<Expr, ParseError>)
    requires
        0 <= old(tokens).pos() <= old(tokens).toks().len(),
        old(tokens).peek_model() == Some(TokenModel::With),
    ensures
        parsed(*old(tokens), *final(tokens), res),
        is_unit(res),
        res is Ok ==> atom_shaped(res->Ok_0@),
        atom_shaped(e) && reads_next(*old(tokens), expr_tokens(e)) ==> (res matches Ok(r) && r@ == e),
    decreases old(tokens).toks().len() - old(tokens).pos(), 0nat,
{
    let ghost start = *tokens;
    let ghost expected = atom_shaped(e) && reads_next(start, expr_tokens(e));
    let ghost body = match e {
        ExprModel::With { body, .. } => *body,
        ExprModel::WithIncrement { body, .. } => *body,
        _ => e,
    };
    let ghost block = seq![TokenModel::LBrace] + expr_tokens(body) + seq![TokenModel::RBrace];
    proof {
        if expected {
            lemma_atom_first(e);
            lemma_peek_at(start, start, expr_tokens(e), 0);
            assert(e is With || e is WithIncrement);
        }
    }
    tokens.expect(&Token::With)?;
    let ghost s1 = *tokens;
    proof {
        lemma_read_one(&start, &s1);
        if expected {
            lemma_peek_at(start, s1, expr_tokens(e), 1);
        }
    }
    let name = tokens.expect_ident()?;
    let ghost s2 = *tokens;
    proof {
        lemma_read_one(&s1, &s2);
        lemma_read_split(&start, &s1, &s2);
        if expected {
            lemma_peek_at(start, s2, expr_tokens(e), 2);
        }
    }
    match tokens.peek() {
        Some(Token::PlusEq) => {
            tokens.advance();
            let ghost s3 = *tokens;
            proof {
                lemma_read_one(&s2, &s3);
                lemma_read_split(&start, &s2, &s3);
                if expected {
                    lemma_peek_at(start, s3, expr_tokens(e), 3);
                }
            }
            let amount = tokens.expect_number()?;
            let ghost s4 = *tokens;
            proof {
                lemma_read_one(&s3, &s4);
                lemma_read_split(&start, &s3, &s4);
                if expected {
                    assert(e is WithIncrement);
                    let head = seq![
                        TokenModel::With,
                        TokenModel::Ident(e->WithIncrement_counter),
                        TokenModel::PlusEq,
                        TokenModel::Number(e->WithIncrement_amount),
                    ];
                    assert(expr_tokens(e) =~= head + block);
                    lemma_reads_at(start, s4, head, block);
                }
            }
            let body_expr = parse_block(tokens, Ghost(body))?;
            proof {
                lemma_read_split(&start, &s4, tokens);
                assert(tokens.read_since(&start) =~= seq![
                    TokenModel::With,
                    TokenModel::Ident(name@),
                    TokenModel::PlusEq,
                    TokenModel::Number(amount),
                    TokenModel::LBrace,
                ] + expr_tokens(body_expr@) + seq![TokenModel::RBrace]);
            }
            Ok(Expr::WithIncrement(WithIncrementExpr { counter: name, amount, body: Box::new(body_expr) }))
        },
        Some(Token::LBrace) => {
            proof {
                if expected {
                    assert(e is With);
                    let head = seq![TokenModel::With, TokenModel::Ident(e->With_flag)];
                    assert(expr_tokens(e) =~= head + block);
                    lemma_reads_at(start, s2, head, block);
                }
            }
            let body_expr = parse_block(tokens, Ghost(body))?;
            proof {
                lemma_read_split(&start, &s2, tokens);
                assert(tokens.read_since(&start) =~= seq![TokenModel::With, TokenModel::Ident(name@), TokenModel::LBrace]
                    + expr_tokens(body_expr@) + seq![TokenModel::RBrace]);
            }
            Ok(Expr::With(WithExpr { flag: name, body: Box::new(body_expr) }))
        },
        _ => {
            let mut message = "expected '{' or '+=' after with, got ".to_owned();
            let got = describe(tokens.peek());
            message.append(got.as_str());
            Err(tokens.error(message))
        },
    }
}

/// `when condition { body }`. Expecting `e`: such an atom spelled at the
/// read position is read as `e`.
fn parse_when_expr(tokens: &mut TokenStream, Ghost(e): Ghost<ExprModel>) -> (res: Result<Expr, ParseError>)
    requires
        0 <= old(tokens).pos() <= old(tokens).toks().len(),
        old(tokens).peek_model() == Some(TokenModel::When),
    ensures
        parsed(*old(tokens), *final(tokens), res),
        is_unit(res),
        res is Ok ==> atom_shaped(res->Ok_0@),
        atom_shaped(e) && reads_next(*old(tokens), expr_tokens(e)) ==> (res matches Ok(r) && r@ == e),
    decreases old(tokens).toks().len() - old(tokens).pos(), 0nat,
{
    let ghost start = *tokens;
    let ghost expected = atom_shaped(e) && reads_next(start, expr_tokens(e));
    let ghost condition = match e {
        ExprModel::When { condition, .. } => condition,
        _ => CondModel::IsFlag(Seq::empty()),
    };
    let ghost body = match e {
        ExprModel::When { body, .. } => *body,
        _ => e,
    };
    let ghost block = seq![TokenModel::LBrace] + expr_tokens(body) + seq![TokenModel::RBrace];
    proof {
        if expected {
            lemma_atom_first(e);
            lemma_peek_at(start, start, expr_tokens(e), 0);
            assert(e is When);
        }
    }
    tokens.expect(&Token::When)?;
    let ghost s1 = *tokens;
    proof {
        lemma_read_one(&start, &s1);
        if expected {
            assert(expr_tokens(e) =~= seq![TokenModel::When] + (cond_tokens(condition) + block));
            lemma_reads_at(start, s1, seq![TokenModel::When], cond_tokens(condition) + block);
            lemma_reads_split(s1, cond_tokens(condition), block);
            assert(block[0] == TokenModel::LBrace);
        }
    }
    let condition_value = parse_guard_condition(tokens, Ghost(condition))?;
    let ghost s2 = *tokens;
    proof {
        lemma_read_split(&start, &s1, &s2);
        if expected {
            assert(expr_tokens(e) =~= (seq![TokenModel::When] + cond_tokens(condition)) + block);
            lemma_reads_at(start, s2, seq![TokenModel::When] + cond_tokens(condition), block);
        }
    }
    let body_expr = parse_block(tokens, Ghost(body))?;
    proof {
        lemma_read_split(&start, &s2, tokens);
        assert(tokens.read_since(&start) =~= seq![TokenModel::When] + cond_tokens(condition_value@) + seq![TokenModel::LBrace]
            + expr_tokens(body_expr@) + seq![TokenModel::RBrace]);
    }
    Ok(Expr::When(WhenExpr { condition: condition_value, body: Box::new(body_expr) }))
}

/// `depth_limit(n) { body }`. Expecting `e`: such an atom spelled at the
/// read position is read as `e`.
fn parse_depth_limit_expr(tokens: &mut TokenStream, Ghost(e): Ghost<ExprModel>) -> (res: Result<Expr, ParseError>)
    requires
        0 <= old(tokens).pos() <= old(tokens).toks().len(),
        old(tokens).peek_model() == Some(TokenModel::DepthLimit),
    ensures
        parsed(*old(tokens), *final(tokens), res),
        is_unit(res),
        res is Ok ==> atom_shaped(res->Ok_0@),
        atom_shaped(e) && reads_next(*old(tokens), expr_tokens(e)) ==> (res matches Ok(r) && r@ == e),
    decreases old(tokens).toks().len() - old(tokens).pos(), 0nat,
{
    let ghost start = *tokens;
    let ghost expected = atom_shaped(e) && reads_next(start, expr_tokens(e));
    let ghost body = match e {
        ExprModel::DepthLimit { body, .. } => *body,
        _ => e,
    };
    let ghost block = seq![TokenModel::LBrace] + expr_tokens(body) + seq![TokenModel::RBrace];
    proof {
        if expected {
            lemma_atom_first(e);
            lemma_peek_at(start, start, expr_tokens(e), 0);
            assert(e is DepthLimit);
        }
    }
    tokens.expect(&Token::DepthLimit)?;
    let ghost s1 = *tokens;
    proof {
        lemma_read_one(&start, &s1);
        if expected {
            lemma_peek_at(start, s1, expr_tokens(e), 1);
        }
    }
    tokens.expect(&Token::LParen)?;
    let ghost s2 = *tokens;
    proof {
        lemma_read_one(&s1, &s2);
        lemma_read_split(&start, &s1, &s2);
        if expected {
            lemma_peek_at(start, s2, expr_tokens(e), 2);
        }
    }
    let limit = tokens.expect_number()?;
    let ghost s3 = *tokens;
    proof {
        lemma_read_one(&s2, &s3);
        lemma_read_split(&start, &s2, &s3);
        if expected {
            lemma_peek_at(start, s3, expr_tokens(e), 3);
        }
    }
    tokens.expect(&Token::RParen)?;
    let ghost s4 = *tokens;
    proof {
        lemma_read_one(&s3, &s4);
        lemma_read_split(&start, &s3, &s4);
        if expected {
            let head = seq![
                TokenModel::DepthLimit,
                TokenModel::LParen,
                TokenModel::Number(e->DepthLimit_limit),
                TokenModel::RParen,
            ];
            assert(expr_tokens(e) =~= head + block);
            lemma_reads_at(start, s4, head, block);
        }
    }
    let body_expr = parse_block(tokens, Ghost(body))?;
    proof {
        lemma_read_split(&start, &s4, tokens);
        assert(tokens.read_since(&start) =~= seq![
            TokenModel::DepthLimit,
            TokenModel::LParen,
            TokenModel::Number(limit),
            TokenModel::RParen,
            TokenModel::LBrace,
        ] + expr_tokens(body_expr@) + seq![TokenModel::RBrace]);
    }
    Ok(Expr::DepthLimit(DepthLimitExpr { limit, body: Box::new(body_expr) }))
}

} // verus!
