//! The token stream the parser reads, with its position.
use super::error::ParseError;
use crate::lexer::{describe, describe_text, token_text, lex, lex_from, byte_offset, same_token, copy_token, Spanned, Token, TokenModel, spanned_models, byte_spans, error_end};
use vstd::prelude::*;
use vstd::string::StringSliceAdditionalSpecFns;

verus! {

/// The tokens of a source text with their byte spans, and a read position.
pub struct TokenStream {
    tokens: Vec<Spanned>,
    pos: usize,
    source_len: usize,
}

impl TokenStream {
    /// The tokens, in order.
    pub closed spec fn toks(&self) -> Seq<TokenModel> {
        self.tokens@.map_values(|t: Spanned| t.token@)
    }

    /// The byte offset where each token starts.
    pub closed spec fn starts(&self) -> Seq<usize> {
        self.tokens@.map_values(|t: Spanned| t.start)
    }

    /// The read position: the index of the next token.
    pub closed spec fn pos(&self) -> int {
        self.pos as int
    }

    /// The length of the source text in bytes.
    pub closed spec fn source_len(&self) -> int {
        self.source_len as int
    }

    /// The token at the read position, if there is one.
    pub open spec fn peek_model(&self) -> Option<TokenModel> {
        if 0 <= self.pos() < self.toks().len() {
            Some(self.toks()[self.pos()])
        } else {
            None
        }
    }

    /// The byte offset of the token at the read position, or the end of the source.
    pub open spec fn offset_model(&self) -> int {
        if 0 <= self.pos() < self.toks().len() {
            self.starts()[self.pos()] as int
        } else {
            self.source_len()
        }
    }

    /// The same tokens read from position `p`.
    pub open spec fn moved(&self, other: &Self) -> bool {
        &&& self.toks() == other.toks()
        &&& self.starts() == other.starts()
        &&& self.source_len() == other.source_len()
    }

    /// The tokens read since `before`.
    pub open spec fn read_since(&self, before: &Self) -> Seq<TokenModel> {
        self.toks().subrange(before.pos(), self.pos())
    }

    /// The same tokens as `before`, read from the same or a later position.
    pub open spec fn advanced_from(&self, before: &Self) -> bool {
        &&& self.moved(before)
        &&& 0 <= before.pos() <= self.pos() <= self.toks().len()
    }

    /// Tokenize `source`. On failure the error names the characters that
    /// start no token, at their byte offset.
    pub fn new(source: &str) -> (res: Result<Self, ParseError>)
        ensures
            match res {
                Ok(ts) => lex_from(source@, 0) is Ok
                    && ts.toks() == lex_from(source@, 0)->Ok_0.map_values(|t: (TokenModel, int, int)| t.0)
                    && ts.starts().len() == ts.toks().len()
                    && (forall|k: int| 0 <= k < ts.starts().len() ==> #[trigger] ts.starts()[k] as int == byte_offset(source@, lex_from(source@, 0)->Ok_0[k].1))
                    && ts.pos() == 0
                    && ts.source_len() == source.spec_bytes().len(),
                Err(e) => lex_from(source@, 0) is Err && e.offset == byte_offset(source@, lex_from(source@, 0)->Err_0)
                    && e.message@ == "unexpected character '"@ + source@.subrange(
                    lex_from(source@, 0)->Err_0,
                    error_end(source@, lex_from(source@, 0)->Err_0),
                ) + "'"@,
            },
    {
        match lex(source) {
            Ok(tokens) => {
                let source_len = source.as_bytes().len();
                let ts = TokenStream { tokens, pos: 0, source_len };
                proof {
                    let found = lex_from(source@, 0)->Ok_0;
                    assert(spanned_models(ts.tokens@) == byte_spans(source@, found));
                    assert forall|k: int| 0 <= k < ts.tokens@.len() implies #[trigger] ts.toks()[k] == found.map_values(|t: (TokenModel, int, int)| t.0)[k] by {
                        assert(spanned_models(ts.tokens@)[k] == byte_spans(source@, found)[k]);
                    }
                    assert(ts.toks() =~= found.map_values(|t: (TokenModel, int, int)| t.0));
                    assert forall|k: int| 0 <= k < ts.starts().len() implies #[trigger] ts.starts()[k] as int == byte_offset(source@, found[k].1) by {
                        assert(spanned_models(ts.tokens@)[k] == byte_spans(source@, found)[k]);
                    }
                }
                Ok(ts)
            },
            Err(e) => {
                let mut message = "unexpected character '".to_owned();
                message.append(e.text.as_str());
                message.append("'");
                Err(ParseError { message, offset: e.offset })
            },
        }
    }

    /// The token at the read position.
    pub fn peek(&self) -> (res: Option<&Token>)
        ensures
            match res {
                Some(t) => self.peek_model() == Some(t@),
                None => self.peek_model() is None,
            },
    {
        if self.pos < self.tokens.len() {
            Some(&self.tokens[self.pos].token)
        } else {
            None
        }
    }

    /// The byte offset of the token at the read position, or the length of the source at the end.
    pub fn offset(&self) -> (res: usize)
        ensures
            res as int == self.offset_model(),
    {
        if self.pos < self.tokens.len() {
            self.tokens[self.pos].start
        } else {
            self.source_len
        }
    }

    /// Take the token at the read position and move past it.
    pub fn advance(&mut self) -> (res: Option<Token>)
        ensures
            final(self).moved(old(self)),
            match res {
                Some(t) => old(self).peek_model() == Some(t@) && final(self).pos() == old(self).pos() + 1,
                None => old(self).peek_model() is None && final(self).pos() == old(self).pos(),
            },
    {
        if self.pos < self.tokens.len() {
            let tok = copy_token(&self.tokens[self.pos].token);
            self.pos = self.pos + 1;
            Some(tok)
        } else {
            None
        }
    }

    /// Move past the token at the read position if it is `expected`; else fail there.
    pub fn expect(&mut self, expected: &Token) -> (res: Result<(), ParseError>)
        ensures
            final(self).moved(old(self)),
            res is Ok <==> old(self).peek_model() == Some(expected@),
            res is Ok ==> final(self).pos() == old(self).pos() + 1,
            res is Err ==> final(self).pos() == old(self).pos() && res->Err_0.offset == old(self).offset_model(),
            res is Err ==> res->Err_0.message@ == "expected "@ + token_text(expected@) + ", got "@ + describe_text(
                old(self).peek_model(),
            ),
    {
        let matches = match self.peek() {
            Some(tok) => same_token(tok, expected),
            None => false,
        };
        if matches {
            self.advance();
            Ok(())
        } else {
            let mut message = "expected ".to_owned();
            let name = crate::lexer::token_name(expected);
            message.append(name.as_str());
            message.append(", got ");
            let got = describe(self.peek());
            message.append(got.as_str());
            Err(self.error(message))
        }
    }

    /// Take an identifier; the read position moves past the token either way.
    pub fn expect_ident(&mut self) -> (res: Result<String, ParseError>)
        ensures
            final(self).moved(old(self)),
            match res {
                Ok(name) => old(self).peek_model() == Some(TokenModel::Ident(name@)),
                Err(e) => !(old(self).peek_model() matches Some(TokenModel::Ident(_))) && e.offset == final(self).offset_model()
                    && e.message@ == "expected identifier, got "@ + describe_text(old(self).peek_model()),
            },
            final(self).pos() == (if old(self).peek_model() is Some { old(self).pos() + 1 } else { old(self).pos() }),
    {
        match self.advance() {
            Some(Token::Ident(name)) => Ok(name),
            other => {
                let mut message = "expected identifier, got ".to_owned();
                let got = match &other {
                    Some(t) => describe(Some(t)),
                    None => describe(None),
                };
                message.append(got.as_str());
                Err(self.error(message))
            },
        }
    }

    /// Take a number; the read position moves past the token either way.
    pub fn expect_number(&mut self) -> (res: Result<u32, ParseError>)
        ensures
            final(self).moved(old(self)),
            match res {
                Ok(n) => old(self).peek_model() == Some(TokenModel::Number(n)),
                Err(e) => !(old(self).peek_model() matches Some(TokenModel::Number(_))) && e.offset == final(self).offset_model()
                    && e.message@ == "expected number, got "@ + describe_text(old(self).peek_model()),
            },
            final(self).pos() == (if old(self).peek_model() is Some { old(self).pos() + 1 } else { old(self).pos() }),
    {
        match self.advance() {
            Some(Token::Number(n)) => Ok(n),
            other => {
                let mut message = "expected number, got ".to_owned();
                let got = match &other {
                    Some(t) => describe(Some(t)),
                    None => describe(None),
                };
                message.append(got.as_str());
                Err(self.error(message))
            },
        }
    }

    /// An error with `message` at the read position.
    pub fn error(&self, message: String) -> (res: ParseError)
        ensures
            res.message@ == message@,
            res.offset == self.offset_model(),
    {
        ParseError { message, offset: self.offset() }
    }

    /// Whether every token has been read.
    pub fn at_end(&self) -> (res: bool)
        ensures
            res == (self.pos() >= self.toks().len()),
    {
        self.pos >= self.tokens.len()
    }

    /// The read position, to come back to.
    pub fn save(&self) -> (res: usize)
        ensures
            res == self.pos(),
    {
        self.pos
    }

    /// Come back to a saved read position.
    pub fn restore(&mut self, pos: usize)
        ensures
            final(self).moved(old(self)),
            final(self).pos() == pos,
    {
        self.pos = pos;
    }
}

/// Coming back: every method of a token stream keeps its tokens (`moved`),
/// so after any sequence of calls (the streams `steps`, each the one after
/// a call), restoring the saved position gives back the same token at hand,
/// the same offset and the same end-of-input answer.
pub proof fn law_restore_returns(saved: TokenStream, steps: Seq<TokenStream>, restored: TokenStream)
    requires
        steps.len() > 0,
        steps[0].moved(&saved),
        forall|k: int| 0 <= k < steps.len() - 1 ==> (#[trigger] steps[k + 1]).moved(&steps[k]),
        restored.moved(&steps.last()),
        restored.pos() == saved.pos(),
    ensures
        restored.toks() == saved.toks(),
        restored.peek_model() == saved.peek_model(),
        restored.offset_model() == saved.offset_model(),
        (restored.pos() >= restored.toks().len()) == (saved.pos() >= saved.toks().len()),
{
    lemma_moved_along(saved, steps, steps.len() - 1);
}

/// Every stream along a sequence of calls has the tokens it started with.
proof fn lemma_moved_along(saved: TokenStream, steps: Seq<TokenStream>, k: int)
    requires
        0 <= k < steps.len(),
        steps[0].moved(&saved),
        forall|j: int| 0 <= j < steps.len() - 1 ==> (#[trigger] steps[j + 1]).moved(&steps[j]),
    ensures
        steps[k].moved(&saved),
    decreases k,
{
    if k > 0 {
        lemma_moved_along(saved, steps, k - 1);
        assert(steps[(k - 1) + 1].moved(&steps[k - 1]));
    }
}

/// Reading from `a` to `c` is reading from `a` to `b`, then from `b` to `c`.
pub proof fn lemma_read_split(a: &TokenStream, b: &TokenStream, c: &TokenStream)
    requires
        b.advanced_from(a),
        c.advanced_from(b),
    ensures
        c.advanced_from(a),
        c.read_since(a) == b.read_since(a) + c.read_since(b),
{
    assert(c.read_since(a) =~= b.read_since(a) + c.read_since(b));
}

/// Moving past one token reads that token.
pub proof fn lemma_read_one(a: &TokenStream, b: &TokenStream)
    requires
        b.moved(a),
        a.peek_model() is Some,
        b.pos() == a.pos() + 1,
    ensures
        b.advanced_from(a),
        b.read_since(a) == seq![a.peek_model()->0],
{
    assert(b.read_since(a) =~= seq![a.peek_model()->0]);
}

/// Nothing is read without moving.
pub proof fn lemma_read_none(a: &TokenStream, b: &TokenStream)
    requires
        b.moved(a),
        b.pos() == a.pos(),
        0 <= a.pos() <= a.toks().len(),
    ensures
        b.advanced_from(a),
        b.read_since(a) == Seq::<TokenModel>::empty(),
{
    assert(b.read_since(a) =~= Seq::<TokenModel>::empty());
}

} // verus!
