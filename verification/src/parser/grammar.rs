//! A grammar: state declarations and rule definitions.
use super::error::ParseError;
use super::expr::parse_choice;
use super::print::{choice_tokens, decl_tokens, expr_tokens, grammar_tokens, item_tokens, label_tokens, rule_tokens, statements_tokens};
use super::shape::{
    alternatives_of, choice_shaped, grammar_shaped, item_shaped, lemma_alternatives, lemma_choice_split, lemma_grammar_front,
    lemma_grammar_split, lemma_grammar_step, lemma_peek_at, lemma_reads_at, lemma_reads_split, lemma_sequence_first,
    reads_next, rule_shaped, sequence_shaped, starts_expr,
};
use super::state::parse_state_decl;
use super::statement::parse_statements;
use super::tokens::{lemma_read_none, lemma_read_one, lemma_read_split, TokenStream};
use crate::ast::{
    item_model, option_string_model, statement_model, ExprModel, Grammar, Item, ItemModel, RuleBody, RuleDef, RuleModel, Statement,
    StateDeclModel, StateKind,
};
use crate::lexer::{describe, Token, TokenModel};
use vstd::prelude::*;

verus! {

/// Items until the tokens run out. Expecting `g`: a grammar the parser
/// reads, spelled by exactly the tokens from the read position on, is read
/// as `g`.
pub(crate) fn parse_grammar(tokens: &mut TokenStream, Ghost(g): Ghost<Seq<ItemModel>>) -> (res: Result<Grammar, ParseError>)
    requires
        0 <= old(tokens).pos() <= old(tokens).toks().len(),
    ensures
        res is Ok ==> final(tokens).advanced_from(old(tokens)) && final(tokens).pos() == final(tokens).toks().len()
            && final(tokens).read_since(old(tokens)) == grammar_tokens(res->Ok_0@),
        res is Ok ==> grammar_shaped(res->Ok_0@),
        grammar_shaped(g) && reads_next(*old(tokens), grammar_tokens(g)) && old(tokens).pos() + grammar_tokens(g).len()
            == old(tokens).toks().len() ==> (res matches Ok(r) && r@ == g),
{
    let ghost start = *tokens;
    let ghost expected = grammar_shaped(g) && reads_next(start, grammar_tokens(g)) && start.pos() + grammar_tokens(g).len()
        == start.toks().len();
    let mut items: Vec<Item> = Vec::new();
    proof {
        lemma_read_none(&start, tokens);
        assert(items@.map_values(|i: Item| item_model(i)) =~= Seq::<ItemModel>::empty());
        assert(g.take(0) =~= Seq::<ItemModel>::empty());
    }
    while !tokens.at_end()
        invariant
            start == *old(tokens),
            tokens.advanced_from(&start),
            tokens.read_since(&start) == grammar_tokens(items@.map_values(|i: Item| item_model(i))),
            grammar_shaped(items@.map_values(|i: Item| item_model(i))),
            expected == (grammar_shaped(g) && reads_next(start, grammar_tokens(g)) && start.pos() + grammar_tokens(g).len()
                == start.toks().len()),
            expected ==> items@.len() <= g.len() && items@.map_values(|i: Item| item_model(i)) == g.take(items@.len() as int),
        decreases tokens.toks().len() - tokens.pos(),
    {
        let ghost before = *tokens;
        let ghost prev = items@;
        let ghost k = items@.len() as int;
        proof {
            if expected {
                lemma_grammar_split(g, k);
                assert(tokens.pos() == start.pos() + grammar_tokens(g.take(k)).len());
                if k == g.len() {
                    assert(g.take(k) =~= g);
                    assert(false);
                }
                lemma_grammar_front(g, k);
                assert(grammar_tokens(g) =~= grammar_tokens(g.take(k)) + (item_tokens(g[k]) + grammar_tokens(g.skip(k + 1))));
                lemma_reads_at(start, *tokens, grammar_tokens(g.take(k)), item_tokens(g[k]) + grammar_tokens(g.skip(k + 1)));
                lemma_reads_split(*tokens, item_tokens(g[k]), grammar_tokens(g.skip(k + 1)));
                assert(item_shaped(g[k]));
            }
        }
        let item = parse_item(tokens, Ghost(g[k]))?;
        let ghost m = item@;
        items.push(item);
        proof {
            lemma_read_split(&start, &before, tokens);
            assert(items@.map_values(|i: Item| item_model(i)).drop_last() =~= prev.map_values(|i: Item| item_model(i)));
            assert(items@.map_values(|i: Item| item_model(i)).last() == m);
            let ms = items@.map_values(|i: Item| item_model(i));
            let pm = prev.map_values(|i: Item| item_model(i));
            assert(grammar_shaped(ms)) by {
                assert forall|j: int| 0 <= j < ms.len() implies item_shaped(#[trigger] ms[j]) by {
                    if j < pm.len() {
                        assert(ms[j] == pm[j]);
                    }
                }
            }
            if expected {
                lemma_grammar_step(g, k);
                assert(items@.map_values(|i: Item| item_model(i)) =~= g.take(k + 1));
            }
        }
    }
    proof {
        if expected {
            let k = items@.len() as int;
            if k < g.len() {
                lemma_grammar_split(g, k);
                lemma_grammar_front(g, k);
                lemma_item_tokens_nonempty(g[k]);
                assert(tokens.pos() == start.pos() + grammar_tokens(g.take(k)).len());
                assert(false);
            }
            assert(g.take(k) =~= g);
        }
    }
    Ok(Grammar { items })
}

proof fn lemma_item_tokens_nonempty(i: ItemModel)
    ensures
        item_tokens(i).len() > 0,
{
    match i {
        ItemModel::StateDecl(d) => {
            assert(decl_tokens_len(d));
        },
        ItemModel::RuleDef(r) => {
            assert(rule_tokens(r).len() >= 2);
        },
    }
}

spec fn decl_tokens_len(d: crate::ast::StateDeclModel) -> bool {
    decl_tokens(d).len() == 3
}

/// A state declaration or a rule definition. Expecting `i`: an item the
/// parser reads, spelled at the read position, is read as `i`.
fn parse_item(tokens: &mut TokenStream, Ghost(i): Ghost<ItemModel>) -> (res: Result<Item, ParseError>)
    requires
        0 <= old(tokens).pos() <= old(tokens).toks().len(),
    ensures
        res is Ok ==> final(tokens).advanced_from(old(tokens)) && final(tokens).pos() > old(tokens).pos()
            && final(tokens).read_since(old(tokens)) == item_tokens(res->Ok_0@),
        res is Ok ==> item_shaped(res->Ok_0@),
        item_shaped(i) && reads_next(*old(tokens), item_tokens(i)) ==> (res matches Ok(r) && r@ == i),
{
    let ghost start = *tokens;
    let ghost expected = item_shaped(i) && reads_next(start, item_tokens(i));
    proof {
        if expected {
            lemma_item_tokens_nonempty(i);
            lemma_peek_at(start, start, item_tokens(i), 0);
        }
    }
    let ghost decl = match i {
        ItemModel::StateDecl(d) => d,
        _ => StateDeclModel { kind: StateKind::Flag, name: Seq::empty() },
    };
    let ghost rule = match i {
        ItemModel::RuleDef(r) => r,
        _ => RuleModel { name: Seq::empty(), error_label: None, statements: Seq::empty(), expr: ExprModel::Ident(Seq::empty()) },
    };
    match tokens.peek() {
        Some(Token::Let) => {
            let d = parse_state_decl(tokens, Ghost(decl))?;
            proof {
                assert(decl_tokens_len(d@));
            }
            Ok(Item::StateDecl(d))
        },
        Some(Token::Ident(_)) => {
            let r = parse_rule_def(tokens, Ghost(rule))?;
            proof {
                assert(rule_tokens(r@).len() >= 2);
            }
            Ok(Item::RuleDef(r))
        },
        _ => {
            let mut message = "expected 'let' or rule name, got ".to_owned();
            let got = describe(tokens.peek());
            message.append(got.as_str());
            Err(tokens.error(message))
        },
    }
}

/// `name = @ "label" { statements expr }`, the label optional. Expecting
/// `r`: a rule the parser reads, spelled at the read position, is read as `r`.
fn parse_rule_def(tokens: &mut TokenStream, Ghost(r): Ghost<RuleModel>) -> (res: Result<RuleDef, ParseError>)
    requires
        0 <= old(tokens).pos() <= old(tokens).toks().len(),
    ensures
        res is Ok ==> final(tokens).advanced_from(old(tokens)) && final(tokens).read_since(old(tokens)) == rule_tokens(res->Ok_0@),
        res is Ok ==> rule_shaped(res->Ok_0@),
        rule_shaped(r) && reads_next(*old(tokens), rule_tokens(r)) ==> (res matches Ok(d) && d@ == r),
{
    let ghost start = *tokens;
    let ghost expected = rule_shaped(r) && reads_next(start, rule_tokens(r));
    let ghost head = seq![TokenModel::Ident(r.name), TokenModel::Eq];
    let ghost labels = label_tokens(r.error_label);
    let ghost stmts = statements_tokens(r.statements);
    let ghost body = expr_tokens(r.expr);
    proof {
        if expected {
            assert(rule_tokens(r) =~= head + (labels + (seq![TokenModel::LBrace] + (stmts + (body + seq![TokenModel::RBrace])))));
            lemma_peek_at(start, start, rule_tokens(r), 0);
        }
    }
    let name = tokens.expect_ident()?;
    let ghost s1 = *tokens;
    proof {
        lemma_read_one(&start, &s1);
        if expected {
            lemma_peek_at(start, s1, rule_tokens(r), 1);
        }
    }
    tokens.expect(&Token::Eq)?;
    let ghost s2 = *tokens;
    proof {
        lemma_read_one(&s1, &s2);
        lemma_read_split(&start, &s1, &s2);
        if expected {
            lemma_reads_at(start, s2, head, labels + (seq![TokenModel::LBrace] + (stmts + (body + seq![TokenModel::RBrace]))));
            if r.error_label is Some {
                lemma_peek_at(s2, s2, labels + (seq![TokenModel::LBrace] + (stmts + (body + seq![TokenModel::RBrace]))), 0);
            } else {
                assert(labels + (seq![TokenModel::LBrace] + (stmts + (body + seq![TokenModel::RBrace]))) =~= seq![TokenModel::LBrace]
                    + (stmts + (body + seq![TokenModel::RBrace])));
                lemma_peek_at(s2, s2, seq![TokenModel::LBrace] + (stmts + (body + seq![TokenModel::RBrace])), 0);
            }
        }
    }
    let at = match tokens.peek() {
        Some(Token::At) => true,
        _ => false,
    };
    let error_label = if at {
        tokens.advance();
        let ghost s3 = *tokens;
        proof {
            lemma_read_one(&s2, &s3);
            if expected {
                assert(r.error_label is Some);
                let rest = labels + (seq![TokenModel::LBrace] + (stmts + (body + seq![TokenModel::RBrace])));
                lemma_peek_at(s2, s3, rest, 1);
            }
        }
        match tokens.advance() {
            Some(Token::StringLit(s)) => {
                proof {
                    lemma_read_one(&s3, tokens);
                    lemma_read_split(&s2, &s3, tokens);
                    assert(tokens.read_since(&s2) =~= seq![TokenModel::At, TokenModel::StringLit(s@)]);
                }
                Some(s)
            },
            other => {
                let mut message = "expected string after '@', got ".to_owned();
                let got = match &other {
                    Some(t) => describe(Some(t)),
                    None => describe(None),
                };
                message.append(got.as_str());
                return Err(tokens.error(message));
            },
        }
    } else {
        proof {
            lemma_read_none(&s2, tokens);
        }
        None
    };
    let ghost s4 = *tokens;
    proof {
        lemma_read_split(&start, &s2, &s4);
        if expected {
            assert(label_tokens(option_string_model(error_label)) == labels);
            assert(rule_tokens(r) =~= (head + labels) + (seq![TokenModel::LBrace] + (stmts + (body + seq![TokenModel::RBrace]))));
            lemma_reads_at(start, s4, head + labels, seq![TokenModel::LBrace] + (stmts + (body + seq![TokenModel::RBrace])));
            lemma_peek_at(s4, s4, seq![TokenModel::LBrace] + (stmts + (body + seq![TokenModel::RBrace])), 0);
        }
    }
    tokens.expect(&Token::LBrace)?;
    let ghost s5 = *tokens;
    proof {
        lemma_read_one(&s4, &s5);
        lemma_read_split(&start, &s4, &s5);
        if expected {
            assert(rule_tokens(r) =~= (head + labels + seq![TokenModel::LBrace]) + (stmts + (body + seq![TokenModel::RBrace])));
            lemma_reads_at(start, s5, head + labels + seq![TokenModel::LBrace], stmts + (body + seq![TokenModel::RBrace]));
            lemma_reads_split(s5, stmts, body + seq![TokenModel::RBrace]);
            lemma_atom_or_more_first(r.expr);
            assert((body + seq![TokenModel::RBrace])[0] == body[0]);
        }
    }
    let statements = parse_statements(tokens, Ghost(r.statements))?;
    let ghost s6 = *tokens;
    proof {
        lemma_read_split(&start, &s5, &s6);
        if expected {
            assert(rule_tokens(r) =~= (head + labels + seq![TokenModel::LBrace] + stmts) + (body + seq![TokenModel::RBrace]));
            lemma_reads_at(start, s6, head + labels + seq![TokenModel::LBrace] + stmts, body + seq![TokenModel::RBrace]);
            lemma_reads_split(s6, body, seq![TokenModel::RBrace]);
        }
    }
    let expr = parse_choice(tokens, Ghost(r.expr))?;
    let ghost s7 = *tokens;
    proof {
        lemma_read_split(&start, &s6, &s7);
    }
    tokens.expect(&Token::RBrace)?;
    let rule = RuleDef { name, error_label, body: RuleBody { statements, expr } };
    proof {
        lemma_read_one(&s7, tokens);
        lemma_read_split(&start, &s7, tokens);
        assert(tokens.read_since(&start) =~= rule_tokens(rule@));
    }
    Ok(rule)
}

/// The expression of a rule starts with a token that can start one.
proof fn lemma_atom_or_more_first(e: ExprModel)
    requires
        choice_shaped(e),
    ensures
        expr_tokens(e).len() > 0,
        starts_expr(expr_tokens(e)[0]),
{
    lemma_alternatives(e);
    let alts = alternatives_of(e);
    assert(sequence_shaped(alts[0]));
    lemma_sequence_first(alts[0]);
    if alts.len() >= 2 {
        lemma_choice_split(alts, 1);
        assert(alts.take(1) =~= seq![alts[0]]);
        assert(choice_tokens(seq![alts[0]]) == expr_tokens(alts[0]));
        assert(expr_tokens(e)[0] == expr_tokens(alts[0])[0]);
    }
}

} // verus!
