//! Statements of a rule body: `guard condition` and `emit counter`.
use super::error::ParseError;
use super::print::{cond_tokens, op_token, statement_tokens, statements_tokens};
use super::shape::{
    cond_shaped, ends_condition, ends_statements, is_compare_token, lemma_reads_split, lemma_statements_front,
    lemma_statements_split, lemma_statements_step, next_after, reads_next, statements_shaped, token_at,
};
use super::tokens::{lemma_read_none, lemma_read_one, lemma_read_split, TokenStream};
use crate::ast::{statement_model, BuiltinPredicate, CompareOp, CondModel, EmitStmt, GuardCondition, GuardStmt, Statement, StatementModel};
use crate::lexer::{describe, Token, TokenModel};
use vstd::prelude::*;

verus! {

/// The statements at the read position, as long as they continue.
/// Expecting `ss`: statements the parser reads, spelled at the read position
/// and followed by a token that continues neither them nor a condition, are
/// read as `ss`.
pub(crate) fn parse_statements(tokens: &mut TokenStream, Ghost(ss): Ghost<Seq<StatementModel>>) -> (res: Result<Vec<Statement>, ParseError>)
    requires
        0 <= old(tokens).pos() <= old(tokens).toks().len(),
    ensures
        final(tokens).advanced_from(old(tokens)),
        res is Ok ==> final(tokens).read_since(old(tokens)) == statements_tokens(res->Ok_0@.map_values(|s: Statement| statement_model(s))),
        res is Ok ==> statements_shaped(res->Ok_0@.map_values(|s: Statement| statement_model(s))),
        statements_shaped(ss) && reads_next(*old(tokens), statements_tokens(ss)) && ends_statements(
            next_after(*old(tokens), statements_tokens(ss)),
        ) ==> (res matches Ok(v) && v@.map_values(|s: Statement| statement_model(s)) == ss),
{
    let ghost start = *tokens;
    let ghost expected = statements_shaped(ss) && reads_next(*tokens, statements_tokens(ss)) && ends_statements(
        next_after(*tokens, statements_tokens(ss)),
    );
    let mut statements: Vec<Statement> = Vec::new();
    proof {
        lemma_read_none(&start, tokens);
        assert(statements@.map_values(|s: Statement| statement_model(s)) =~= Seq::<StatementModel>::empty());
        assert(ss.take(0) =~= Seq::<StatementModel>::empty());
    }
    loop
        invariant
            start == *old(tokens),
            tokens.advanced_from(&start),
            tokens.read_since(&start) == statements_tokens(statements@.map_values(|s: Statement| statement_model(s))),
            statements_shaped(statements@.map_values(|s: Statement| statement_model(s))),
            expected == (statements_shaped(ss) && reads_next(start, statements_tokens(ss)) && ends_statements(
                next_after(start, statements_tokens(ss)),
            )),
            expected ==> statements@.len() <= ss.len() && statements@.map_values(|s: Statement| statement_model(s))
                == ss.take(statements@.len() as int),
        ensures
            tokens.advanced_from(&start),
            tokens.read_since(&start) == statements_tokens(statements@.map_values(|s: Statement| statement_model(s))),
            statements_shaped(statements@.map_values(|s: Statement| statement_model(s))),
            expected ==> statements@.map_values(|s: Statement| statement_model(s)) == ss,
        decreases tokens.toks().len() - tokens.pos(),
    {
        let ghost before = *tokens;
        let ghost prev = statements@;
        let ghost k = statements@.len() as int;
        proof {
            if expected {
                lemma_statements_split(ss, k);
                lemma_reads_split(start, statements_tokens(ss.take(k)), statements_tokens(ss.skip(k)));
                assert(tokens.pos() == start.pos() + statements_tokens(ss.take(k)).len());
                if k < ss.len() {
                    lemma_statements_front(ss, k);
                    lemma_reads_split(
                        *tokens,
                        statement_tokens(ss[k]),
                        statements_tokens(ss.skip(k + 1)),
                    );
                    assert(tokens.toks().subrange(tokens.pos(), tokens.pos() + statement_tokens(ss[k]).len())[0]
                        == statement_tokens(ss[k])[0]);
                    assert(tokens.peek_model() == Some(statement_tokens(ss[k])[0]));
                    if k + 1 < ss.len() {
                        lemma_statements_front(ss, k + 1);
                        assert(statement_tokens(ss[k + 1])[0] is Guard || statement_tokens(ss[k + 1])[0] is Emit);
                    } else {
                        assert(ss.skip(k + 1) =~= Seq::<StatementModel>::empty());
                        assert(statements_tokens(ss.skip(k)) =~= statement_tokens(ss[k]));
                    }
                } else {
                    assert(ss.skip(k) =~= Seq::<StatementModel>::empty());
                    assert(ss.take(k) =~= ss);
                    assert(tokens.peek_model() == next_after(start, statements_tokens(ss)));
                }
            }
        }
        let stmt = match tokens.peek() {
            Some(Token::Guard) => {
                let ghost c = match ss[k] {
                    StatementModel::Guard(c) => c,
                    _ => CondModel::IsFlag(Seq::empty()),
                };
                let r = parse_guard(tokens, Ghost(c));
                proof {
                    lemma_read_split(&start, &before, tokens);
                }
                match r {
                    Ok(g) => Statement::Guard(g),
                    Err(e) => {
                        return Err(e);
                    },
                }
            },
            Some(Token::Emit) => {
                let r = parse_emit(tokens);
                proof {
                    lemma_read_split(&start, &before, tokens);
                }
                match r {
                    Ok(em) => Statement::Emit(em),
                    Err(e) => {
                        return Err(e);
                    },
                }
            },
            _ => {
                proof {
                    if expected {
                        assert(k == ss.len());
                        assert(ss.take(k) =~= ss);
                    }
                }
                break;
            },
        };
        statements.push(stmt);
        proof {
            assert(statements@.map_values(|s: Statement| statement_model(s)) =~= prev.map_values(|s: Statement| statement_model(s)).push(statement_model(stmt)));
            assert(statements@.map_values(|s: Statement| statement_model(s)).drop_last() =~= prev.map_values(|s: Statement| statement_model(s)));
            if expected {
                assert(statement_model(stmt) == ss[k]);
                lemma_statements_step(ss, k);
                assert(statements@.map_values(|s: Statement| statement_model(s)) =~= ss.take(k + 1));
            }
        }
    }
    Ok(statements)
}

/// `guard condition`
fn parse_guard(tokens: &mut TokenStream, Ghost(c): Ghost<CondModel>) -> (res: Result<GuardStmt, ParseError>)
    requires
        0 <= old(tokens).pos() <= old(tokens).toks().len(),
        old(tokens).peek_model() == Some(TokenModel::Guard),
    ensures
        final(tokens).advanced_from(old(tokens)),
        final(tokens).pos() > old(tokens).pos(),
        res is Ok ==> final(tokens).read_since(old(tokens)) == seq![TokenModel::Guard] + cond_tokens(res->Ok_0.condition@),
        res is Ok ==> cond_shaped(res->Ok_0.condition@),
        cond_shaped(c) && reads_next(*old(tokens), seq![TokenModel::Guard] + cond_tokens(c)) && ends_condition(
            next_after(*old(tokens), seq![TokenModel::Guard] + cond_tokens(c)),
        ) ==> (res matches Ok(g) && g.condition@ == c),
{
    let ghost start = *tokens;
    tokens.expect(&Token::Guard)?;
    let ghost mid = *tokens;
    proof {
        lemma_read_one(&start, &mid);
        if cond_shaped(c) && reads_next(start, seq![TokenModel::Guard] + cond_tokens(c)) && ends_condition(
            next_after(start, seq![TokenModel::Guard] + cond_tokens(c)),
        ) {
            lemma_reads_split(start, seq![TokenModel::Guard], cond_tokens(c));
            assert(reads_next(mid, cond_tokens(c)));
            assert(next_after(mid, cond_tokens(c)) == next_after(start, seq![TokenModel::Guard] + cond_tokens(c)));
        }
    }
    let condition = parse_guard_condition(tokens, Ghost(c))?;
    proof {
        lemma_read_split(&start, &mid, tokens);
    }
    Ok(GuardStmt { condition })
}

fn is_compare_op(t: Option<&Token>) -> (res: bool)
    ensures
        res == (t matches Some(tok) && (tok@ is Gt || tok@ is Lt || tok@ is Ge || tok@ is Le || tok@ is EqEq || tok@ is BangEq)),
{
    match t {
        Some(Token::Gt) => true,
        Some(Token::Lt) => true,
        Some(Token::Ge) => true,
        Some(Token::Le) => true,
        Some(Token::EqEq) => true,
        Some(Token::BangEq) => true,
        _ => false,
    }
}

/// A guard condition: `!flag`, `flag`, a position predicate, or `counter op number`.
/// Expecting `c`: a condition the parser reads, spelled at the read position
/// and not followed by a comparison operator, is read as `c`.
pub(crate) fn parse_guard_condition(tokens: &mut TokenStream, Ghost(c): Ghost<CondModel>) -> (res: Result<GuardCondition, ParseError>)
    requires
        0 <= old(tokens).pos() <= old(tokens).toks().len(),
    ensures
        final(tokens).advanced_from(old(tokens)),
        res is Ok ==> final(tokens).read_since(old(tokens)) == cond_tokens(res->Ok_0@),
        res is Ok ==> cond_shaped(res->Ok_0@),
        cond_shaped(c) && reads_next(*old(tokens), cond_tokens(c)) && ends_condition(next_after(*old(tokens), cond_tokens(c)))
            ==> (res matches Ok(r) && r@ == c),
{
    let ghost start = *tokens;
    let ghost expected = cond_shaped(c) && reads_next(*tokens, cond_tokens(c)) && ends_condition(next_after(*tokens, cond_tokens(c)));
    proof {
        if expected {
            assert(start.toks().subrange(start.pos(), start.pos() + cond_tokens(c).len())[0] == cond_tokens(c)[0]);
            assert(start.peek_model() == Some(cond_tokens(c)[0]));
        }
    }
    match tokens.peek() {
        Some(Token::Bang) => {
            tokens.advance();
            let ghost mid = *tokens;
            proof {
                lemma_read_one(&start, &mid);
                if expected {
                    assert(c is NotFlag);
                    assert(start.toks().subrange(start.pos(), start.pos() + 2)[1] == cond_tokens(c)[1]);
                }
            }
            let name = tokens.expect_ident()?;
            proof {
                lemma_read_one(&mid, tokens);
                lemma_read_split(&start, &mid, tokens);
                assert(tokens.read_since(&start) =~= seq![TokenModel::Bang, TokenModel::Ident(name@)]);
            }
            Ok(GuardCondition::NotFlag(name))
        },
        Some(Token::LineStart) => {
            tokens.advance();
            proof {
                lemma_read_one(&start, tokens);
            }
            Ok(GuardCondition::Builtin(BuiltinPredicate::LineStart))
        },
        Some(Token::LineEnd) => {
            tokens.advance();
            proof {
                lemma_read_one(&start, tokens);
            }
            Ok(GuardCondition::Builtin(BuiltinPredicate::LineEnd))
        },
        Some(Token::Soi) => {
            tokens.advance();
            proof {
                lemma_read_one(&start, tokens);
            }
            Ok(GuardCondition::Builtin(BuiltinPredicate::Soi))
        },
        Some(Token::Eoi) => {
            tokens.advance();
            proof {
                lemma_read_one(&start, tokens);
            }
            Ok(GuardCondition::Builtin(BuiltinPredicate::Eoi))
        },
        Some(Token::Ident(_)) => {
            let name = tokens.expect_ident()?;
            let ghost mid = *tokens;
            proof {
                lemma_read_one(&start, &mid);
                if expected {
                    assert(c is IsFlag || c is Compare);
                    if c is Compare {
                        assert(start.toks().subrange(start.pos(), start.pos() + 3)[1] == cond_tokens(c)[1]);
                        assert(mid.peek_model() == Some(op_token(c->op)));
                    } else {
                        assert(next_after(start, cond_tokens(c)) == mid.peek_model());
                    }
                }
            }
            if is_compare_op(tokens.peek()) {
                let op = parse_compare_op(tokens)?;
                let ghost mid2 = *tokens;
                proof {
                    lemma_read_one(&mid, &mid2);
                    if expected {
                        assert(op == c->op);
                        assert(start.toks().subrange(start.pos(), start.pos() + 3)[2] == cond_tokens(c)[2]);
                    }
                }
                let value = tokens.expect_number()?;
                proof {
                    lemma_read_one(&mid2, tokens);
                    lemma_read_split(&start, &mid, &mid2);
                    lemma_read_split(&start, &mid2, tokens);
                    assert(tokens.read_since(&start) =~= seq![TokenModel::Ident(name@), op_token(op), TokenModel::Number(value)]);
                }
                Ok(GuardCondition::Compare { name, op, value })
            } else {
                Ok(GuardCondition::IsFlag(name))
            }
        },
        _ => {
            let mut message = "expected guard condition, got ".to_owned();
            let got = describe(tokens.peek());
            message.append(got.as_str());
            proof {
                lemma_read_none(&start, tokens);
            }
            Err(tokens.error(message))
        },
    }
}

/// A comparison operator.
fn parse_compare_op(tokens: &mut TokenStream) -> (res: Result<CompareOp, ParseError>)
    requires
        0 <= old(tokens).pos() <= old(tokens).toks().len(),
    ensures
        final(tokens).advanced_from(old(tokens)),
        res is Ok ==> old(tokens).peek_model() == Some(op_token(res->Ok_0)) && final(tokens).pos() == old(tokens).pos() + 1,
        (old(tokens).peek_model() matches Some(t) && is_compare_token(t)) ==> res is Ok,
{
    let ghost start = *tokens;
    let t = tokens.advance();
    proof {
        if t is Some {
            lemma_read_one(&start, tokens);
        } else {
            lemma_read_none(&start, tokens);
        }
    }
    match t {
        Some(Token::Gt) => Ok(CompareOp::Gt),
        Some(Token::Lt) => Ok(CompareOp::Lt),
        Some(Token::Ge) => Ok(CompareOp::Ge),
        Some(Token::Le) => Ok(CompareOp::Le),
        Some(Token::EqEq) => Ok(CompareOp::Eq),
        Some(Token::BangEq) => Ok(CompareOp::Ne),
        other => {
            let mut message = "expected comparison operator, got ".to_owned();
            let got = match &other {
                Some(t) => describe(Some(t)),
                None => describe(None),
            };
            message.append(got.as_str());
            Err(tokens.error(message))
        },
    }
}

/// `emit counter`
fn parse_emit(tokens: &mut TokenStream) -> (res: Result<EmitStmt, ParseError>)
    requires
        0 <= old(tokens).pos() <= old(tokens).toks().len(),
        old(tokens).peek_model() == Some(TokenModel::Emit),
    ensures
        final(tokens).advanced_from(old(tokens)),
        final(tokens).pos() > old(tokens).pos(),
        res is Ok ==> final(tokens).read_since(old(tokens)) == seq![TokenModel::Emit, TokenModel::Ident(res->Ok_0.counter@)],
        (token_at(old(tokens).toks(), old(tokens).pos() + 1) matches Some(TokenModel::Ident(_))) ==> res is Ok,
{
    let ghost start = *tokens;
    tokens.expect(&Token::Emit)?;
    let ghost mid = *tokens;
    proof {
        lemma_read_one(&start, &mid);
    }
    let counter = tokens.expect_ident()?;
    proof {
        lemma_read_one(&mid, tokens);
        lemma_read_split(&start, &mid, tokens);
        assert(tokens.read_since(&start) =~= seq![TokenModel::Emit, TokenModel::Ident(counter@)]);
    }
    Ok(EmitStmt { counter })
}

} // verus!
