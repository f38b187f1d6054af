//! State declarations: `let flag name`, `let counter name`.
use super::error::ParseError;
use super::print::decl_tokens;
use super::shape::{lemma_peek_at, reads_next};
use super::tokens::{lemma_read_one, lemma_read_split, TokenStream};
use crate::ast::{StateDecl, StateDeclModel, StateKind};
use crate::lexer::{describe, Token, TokenModel};
use vstd::prelude::*;

verus! {

/// `let flag name` or `let counter name`. Expecting `d`: a declaration
/// spelled at the read position is read as `d`.
pub(crate) fn parse_state_decl(tokens: &mut TokenStream, Ghost(d): Ghost<StateDeclModel>) -> (res: Result<StateDecl, ParseError>)
    requires
        0 <= old(tokens).pos() <= old(tokens).toks().len(),
    ensures
        res is Ok ==> final(tokens).advanced_from(old(tokens)) && final(tokens).read_since(old(tokens)) == decl_tokens(res->Ok_0@),
        reads_next(*old(tokens), decl_tokens(d)) ==> (res matches Ok(r) && r@ == d),
{
    let ghost start = *tokens;
    let ghost expected = reads_next(start, decl_tokens(d));
    proof {
        if expected {
            lemma_peek_at(start, start, decl_tokens(d), 0);
        }
    }
    tokens.expect(&Token::Let)?;
    let ghost s1 = *tokens;
    proof {
        lemma_read_one(&start, &s1);
        if expected {
            lemma_peek_at(start, s1, decl_tokens(d), 1);
        }
    }
    let kind = match tokens.advance() {
        Some(Token::Flag) => StateKind::Flag,
        Some(Token::Counter) => StateKind::Counter,
        other => {
            let mut message = "expected 'flag' or 'counter', got ".to_owned();
            let got = match &other {
                Some(t) => describe(Some(t)),
                None => describe(None),
            };
            message.append(got.as_str());
            return Err(tokens.error(message));
        },
    };
    let ghost s2 = *tokens;
    proof {
        lemma_read_one(&s1, &s2);
        lemma_read_split(&start, &s1, &s2);
        if expected {
            lemma_peek_at(start, s2, decl_tokens(d), 2);
        }
    }
    let name = tokens.expect_ident()?;
    let decl = StateDecl { kind, name };
    proof {
        lemma_read_one(&s2, tokens);
        lemma_read_split(&start, &s2, tokens);
        assert(tokens.read_since(&start) =~= decl_tokens(decl@));
    }
    Ok(decl)
}

} // verus!
