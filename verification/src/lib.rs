//! A parser-generator front end: a grammar language is tokenized, parsed,
//! validated, lowered to an intermediate representation, and optimized in
//! stages; a line index maps byte offsets back to lines and columns.
pub mod ast;
pub mod codegen;
pub mod hir;
pub mod ir;
pub mod lexer;
pub mod line_index;
pub mod mir;
pub mod naming;
pub mod parser;
pub mod ranges;
pub mod validator;

use lexer::{lex_from, TokenModel};
use parser::print::grammar_tokens;
use parser::shape::{grammar_shaped, spells_grammar};
use parser::ParseError;
use validator::{reported, reports_problem, valid, validate, ValidationError};
use vstd::prelude::*;

verus! {

/// Why a source text did not compile.
#[derive(Debug)]
pub enum CompileError {
    Parse(ParseError),
    Validation(Vec<ValidationError>),
}

/// Parse and validate a source text. A parsed grammar is spelled exactly by
/// the tokens of the source and has a shape the parser builds; it compiles
/// when it is also valid (every rule reference names a rule, and rule names
/// are unique). Compiling succeeds exactly when the source tokenizes into
/// the tokens of a valid grammar of such a shape; parsing fails exactly when
/// the source does not tokenize or its tokens spell no grammar of such a
/// shape. Since tokens spell at most one grammar of such a shape, the
/// grammar compiled is the one the tokens spell, and one that is not valid
/// is answered with exactly the errors that validating it gives.
pub fn compile(source: &str) -> (res: Result<ast::Grammar, CompileError>)
    ensures
        match res {
            Ok(g) => lex_from(source@, 0) is Ok && grammar_tokens(g@) == lex_from(source@, 0)->Ok_0.map_values(
                |t: (TokenModel, int, int)| t.0,
            ) && valid(g@) && grammar_shaped(g@),
            Err(CompileError::Parse(e)) => lex_from(source@, 0) is Err ==> e.offset == lexer::byte_offset(
                source@,
                lex_from(source@, 0)->Err_0,
            ) && e.message@ == "unexpected character '"@ + source@.subrange(
                lex_from(source@, 0)->Err_0,
                lexer::error_end(source@, lex_from(source@, 0)->Err_0),
            ) + "'"@,
            Err(CompileError::Validation(errors)) => errors@.len() > 0,
        },
        res is Ok <==> lex_from(source@, 0) is Ok && compiles_to_valid(
            lex_from(source@, 0)->Ok_0.map_values(|t: (TokenModel, int, int)| t.0),
        ),
        res matches Err(CompileError::Parse(_)) <==> !(lex_from(source@, 0) is Ok && spells_grammar(
            lex_from(source@, 0)->Ok_0.map_values(|t: (TokenModel, int, int)| t.0),
        )),
        forall|g: Seq<ast::ItemModel>|
            lex_from(source@, 0) is Ok && grammar_shaped(g) && #[trigger] grammar_tokens(g) == lex_from(
                source@,
                0,
            )->Ok_0.map_values(|t: (TokenModel, int, int)| t.0) ==> if valid(g) {
                res matches Ok(r) && r@ == g
            } else {
                res matches Err(CompileError::Validation(errors)) && (forall|k: int|
                    0 <= k < errors@.len() ==> reports_problem(g, (#[trigger] errors@[k]).message@)) && (forall|
                    m: Seq<char>,
                | #[trigger] reports_problem(g, m) ==> reported(errors@, m)) && validator::messages(errors@)
                    == validator::validation_messages(g)
            },
{
    let ghost toks = lex_from(source@, 0)->Ok_0.map_values(|t: (TokenModel, int, int)| t.0);
    let grammar = match parser::parse(source) {
        Ok(g) => g,
        Err(e) => {
            proof {
                if lex_from(source@, 0) is Ok && spells_grammar(toks) {
                    let g = choose|g: Seq<ast::ItemModel>| grammar_shaped(g) && #[trigger] grammar_tokens(g) == toks;
                }
                if compiles_to_valid(toks) {
                    let g = choose|g: Seq<ast::ItemModel>| grammar_shaped(g) && #[trigger] grammar_tokens(g) == toks && valid(g);
                }
            }
            return Err(CompileError::Parse(e));
        },
    };
    proof {
        assert forall|g: Seq<ast::ItemModel>| grammar_shaped(g) && #[trigger] grammar_tokens(g) == toks implies g
            == grammar@ by {
            parser::unique::law_tokens_spell_one_grammar(g, grammar@);
        }
    }
    match validate(&grammar) {
        Ok(()) => Ok(grammar),
        Err(errors) => Err(CompileError::Validation(errors)),
    }
}

/// Some valid grammar of a shape the parser builds is spelled by exactly `toks`.
pub open spec fn compiles_to_valid(toks: Seq<TokenModel>) -> bool {
    exists|g: Seq<ast::ItemModel>| grammar_shaped(g) && #[trigger] grammar_tokens(g) == toks && valid(g)
}

} // verus!
