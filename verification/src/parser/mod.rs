//! The parser: a recursive descent over the tokens of a source text.
pub mod error;
pub mod expr;
pub mod grammar;
pub mod print;
pub mod shape;
pub mod state;
pub mod statement;
pub mod tokens;
pub mod unique;

pub use error::ParseError;
pub use tokens::TokenStream;

use crate::ast::{Grammar, ItemModel};
use crate::lexer::{byte_offset, error_end, lex_from, TokenModel};
use print::grammar_tokens;
use shape::{grammar_shaped, reads_next, spells_grammar};
use vstd::prelude::*;

verus! {

/// Parse a source text into a grammar. On success the tokens of the source
/// spell the grammar exactly, and the grammar has a shape the parser builds;
/// whenever the source tokenizes and its tokens spell a grammar of such a
/// shape, parsing succeeds. A source that does not tokenize fails at the
/// byte offset where no token starts. Tokens spell at most one grammar of
/// such a shape, so the grammar parsed is the one the tokens spell.
pub fn parse(source: &str) -> (res: Result<Grammar, ParseError>)
    ensures
        res is Ok ==> lex_from(source@, 0) is Ok && grammar_tokens(res->Ok_0@) == lex_from(source@, 0)->Ok_0.map_values(
            |t: (TokenModel, int, int)| t.0,
        ),
        res is Ok ==> grammar_shaped(res->Ok_0@),
        lex_from(source@, 0) is Ok && spells_grammar(lex_from(source@, 0)->Ok_0.map_values(|t: (TokenModel, int, int)| t.0))
            ==> res is Ok,
        forall|g: Seq<ItemModel>|
            lex_from(source@, 0) is Ok && grammar_shaped(g) && #[trigger] grammar_tokens(g) == lex_from(
                source@,
                0,
            )->Ok_0.map_values(|t: (TokenModel, int, int)| t.0) ==> (res matches Ok(r) && r@ == g),
        lex_from(source@, 0) is Err ==> res is Err && res->Err_0.offset == byte_offset(source@, lex_from(source@, 0)->Err_0)
            && res->Err_0.message@ == "unexpected character '"@ + source@.subrange(
            lex_from(source@, 0)->Err_0,
            error_end(source@, lex_from(source@, 0)->Err_0),
        ) + "'"@,
{
    let ghost toks = lex_from(source@, 0)->Ok_0.map_values(|t: (TokenModel, int, int)| t.0);
    let ghost g = choose|g: Seq<ItemModel>| grammar_shaped(g) && #[trigger] grammar_tokens(g) == toks;
    let res = parse_expecting(source, Ghost(g));
    proof {
        assert forall|h: Seq<ItemModel>| grammar_shaped(h) && #[trigger] grammar_tokens(h) == toks implies h == g by {
            unique::law_tokens_spell_one_grammar(h, g);
        }
    }
    res
}

/// Parse a source text, expecting `g`: when the source tokenizes into
/// exactly the tokens of `g`, a grammar of a shape the parser builds, the
/// result is `g`.
pub(crate) fn parse_expecting(source: &str, Ghost(g): Ghost<Seq<ItemModel>>) -> (res: Result<Grammar, ParseError>)
    ensures
        res is Ok ==> lex_from(source@, 0) is Ok && grammar_tokens(res->Ok_0@) == lex_from(source@, 0)->Ok_0.map_values(
            |t: (TokenModel, int, int)| t.0,
        ),
        res is Ok ==> grammar_shaped(res->Ok_0@),
        lex_from(source@, 0) is Ok && grammar_shaped(g) && grammar_tokens(g) == lex_from(source@, 0)->Ok_0.map_values(
            |t: (TokenModel, int, int)| t.0,
        ) ==> (res matches Ok(r) && r@ == g),
        lex_from(source@, 0) is Err ==> res is Err && res->Err_0.offset == byte_offset(source@, lex_from(source@, 0)->Err_0)
            && res->Err_0.message@ == "unexpected character '"@ + source@.subrange(
            lex_from(source@, 0)->Err_0,
            error_end(source@, lex_from(source@, 0)->Err_0),
        ) + "'"@,
{
    let mut tokens = TokenStream::new(source)?;
    let ghost start = tokens;
    let ghost toks = lex_from(source@, 0)->Ok_0.map_values(|t: (TokenModel, int, int)| t.0);
    proof {
        if grammar_shaped(g) && grammar_tokens(g) == toks {
            assert(start.toks().subrange(0, toks.len() as int) =~= toks);
            assert(reads_next(start, grammar_tokens(g)));
        }
    }
    let grammar = grammar::parse_grammar(&mut tokens, Ghost(g))?;
    proof {
        assert(tokens.read_since(&start) =~= tokens.toks());
    }
    Ok(grammar)
}

} // verus!
