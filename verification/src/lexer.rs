//! Tokens of the grammar language, and the tokenizer.
//!
//! Whitespace, `// line` comments and `/* block */` comments separate tokens.
//! At each position the longest token wins, and a keyword wins over an
//! identifier of the same spelling.
use vstd::prelude::*;
use vstd::string::StringSliceAdditionalSpecFns;
use vstd::utf8::{encode_scalar, encode_utf8};

verus! {

/// A token of the grammar language.
#[derive(Debug, Clone, PartialEq)]
pub enum Token {
    Let,
    Flag,
    Counter,
    Stack,
    Mode,
    Guard,
    With,
    Emit,
    When,
    DepthLimit,
    Soi,
    Eoi,
    Any,
    LineStart,
    LineEnd,
    /// A double-quoted string, its escapes resolved.
    StringLit(String),
    /// A single-quoted character.
    CharLit(char),
    Number(u32),
    Ident(String),
    Plus,
    Star,
    Question,
    Pipe,
    Amp,
    Bang,
    Eq,
    PlusEq,
    DotDot,
    Gt,
    Lt,
    Ge,
    Le,
    EqEq,
    BangEq,
    LBrace,
    RBrace,
    LParen,
    RParen,
    Comma,
    Colon,
    At,
}

/// A token with its payload strings as character sequences.
pub enum TokenModel {
    Let,
    Flag,
    Counter,
    Stack,
    Mode,
    Guard,
    With,
    Emit,
    When,
    DepthLimit,
    Soi,
    Eoi,
    Any,
    LineStart,
    LineEnd,
    StringLit(Seq<char>),
    CharLit(char),
    Number(u32),
    Ident(Seq<char>),
    Plus,
    Star,
    Question,
    Pipe,
    Amp,
    Bang,
    Eq,
    PlusEq,
    DotDot,
    Gt,
    Lt,
    Ge,
    Le,
    EqEq,
    BangEq,
    LBrace,
    RBrace,
    LParen,
    RParen,
    Comma,
    Colon,
    At,
}

pub open spec fn token_model(t: Token) -> TokenModel {
    match t {
        Token::Let => TokenModel::Let,
        Token::Flag => TokenModel::Flag,
        Token::Counter => TokenModel::Counter,
        Token::Stack => TokenModel::Stack,
        Token::Mode => TokenModel::Mode,
        Token::Guard => TokenModel::Guard,
        Token::With => TokenModel::With,
        Token::Emit => TokenModel::Emit,
        Token::When => TokenModel::When,
        Token::DepthLimit => TokenModel::DepthLimit,
        Token::Soi => TokenModel::Soi,
        Token::Eoi => TokenModel::Eoi,
        Token::Any => TokenModel::Any,
        Token::LineStart => TokenModel::LineStart,
        Token::LineEnd => TokenModel::LineEnd,
        Token::StringLit(s) => TokenModel::StringLit(s@),
        Token::CharLit(c) => TokenModel::CharLit(c),
        Token::Number(n) => TokenModel::Number(n),
        Token::Ident(s) => TokenModel::Ident(s@),
        Token::Plus => TokenModel::Plus,
        Token::Star => TokenModel::Star,
        Token::Question => TokenModel::Question,
        Token::Pipe => TokenModel::Pipe,
        Token::Amp => TokenModel::Amp,
        Token::Bang => TokenModel::Bang,
        Token::Eq => TokenModel::Eq,
        Token::PlusEq => TokenModel::PlusEq,
        Token::DotDot => TokenModel::DotDot,
        Token::Gt => TokenModel::Gt,
        Token::Lt => TokenModel::Lt,
        Token::Ge => TokenModel::Ge,
        Token::Le => TokenModel::Le,
        Token::EqEq => TokenModel::EqEq,
        Token::BangEq => TokenModel::BangEq,
        Token::LBrace => TokenModel::LBrace,
        Token::RBrace => TokenModel::RBrace,
        Token::LParen => TokenModel::LParen,
        Token::RParen => TokenModel::RParen,
        Token::Comma => TokenModel::Comma,
        Token::Colon => TokenModel::Colon,
        Token::At => TokenModel::At,
    }
}

impl View for Token {
    type V = TokenModel;

    open spec fn view(&self) -> TokenModel {
        token_model(*self)
    }
}

// ── Character classes ──

pub open spec fn is_ws(c: char) -> bool {
    c == ' ' || c == '\t' || c == '\r' || c == '\n'
}

pub open spec fn is_ident_start(c: char) -> bool {
    ('a' <= c && c <= 'z') || ('A' <= c && c <= 'Z') || c == '_'
}

pub open spec fn is_digit(c: char) -> bool {
    '0' <= c && c <= '9'
}

pub open spec fn is_ident_char(c: char) -> bool {
    is_ident_start(c) || is_digit(c)
}

/// The end of the run of identifier characters that starts at `i`.
pub open spec fn ident_end(s: Seq<char>, i: int) -> int
    decreases s.len() - i,
{
    if 0 <= i < s.len() && is_ident_char(s[i]) {
        ident_end(s, i + 1)
    } else {
        i
    }
}

/// The end of the run of digits that starts at `i`.
pub open spec fn digits_end(s: Seq<char>, i: int) -> int
    decreases s.len() - i,
{
    if 0 <= i < s.len() && is_digit(s[i]) {
        digits_end(s, i + 1)
    } else {
        i
    }
}

/// The end of the line that `i` is on: the next `\n`, or the end of the text.
pub open spec fn line_end(s: Seq<char>, i: int) -> int
    decreases s.len() - i,
{
    if 0 <= i < s.len() && s[i] != '\n' {
        line_end(s, i + 1)
    } else {
        i
    }
}

/// Just past the first `*/` at or after `i`, or -1 when there is none.
pub open spec fn block_end(s: Seq<char>, i: int) -> int
    decreases s.len() - i,
{
    if i < 0 || i + 1 >= s.len() {
        -1
    } else if s[i] == '*' && s[i + 1] == '/' {
        i + 2
    } else {
        block_end(s, i + 1)
    }
}

/// `s` holds `a` then `b` at `i`.
pub open spec fn pair_at(s: Seq<char>, i: int, a: char, b: char) -> bool {
    0 <= i && i + 1 < s.len() && s[i] == a && s[i + 1] == b
}

/// The first position at or after `i` that is not in whitespace or a comment.
pub open spec fn trivia_end(s: Seq<char>, i: int) -> int
    decreases s.len() - i,
{
    if 0 <= i < s.len() && is_ws(s[i]) {
        trivia_end(s, i + 1)
    } else if pair_at(s, i, '/', '/') {
        let e = line_end(s, i + 2);
        if i < e <= s.len() { trivia_end(s, e) } else { i }
    } else if pair_at(s, i, '/', '*') && i < block_end(s, i + 2) <= s.len() {
        trivia_end(s, block_end(s, i + 2))
    } else {
        i
    }
}

// ── Token classes ──

/// The keyword spelled `w`, if it is one.
pub open spec fn keyword(w: Seq<char>) -> Option<TokenModel> {
    if w == seq!['l', 'e', 't'] {
        Some(TokenModel::Let)
    } else if w == seq!['f', 'l', 'a', 'g'] {
        Some(TokenModel::Flag)
    } else if w == seq!['c', 'o', 'u', 'n', 't', 'e', 'r'] {
        Some(TokenModel::Counter)
    } else if w == seq!['s', 't', 'a', 'c', 'k'] {
        Some(TokenModel::Stack)
    } else if w == seq!['m', 'o', 'd', 'e'] {
        Some(TokenModel::Mode)
    } else if w == seq!['g', 'u', 'a', 'r', 'd'] {
        Some(TokenModel::Guard)
    } else if w == seq!['w', 'i', 't', 'h'] {
        Some(TokenModel::With)
    } else if w == seq!['e', 'm', 'i', 't'] {
        Some(TokenModel::Emit)
    } else if w == seq!['w', 'h', 'e', 'n'] {
        Some(TokenModel::When)
    } else if w == seq!['d', 'e', 'p', 't', 'h', '_', 'l', 'i', 'm', 'i', 't'] {
        Some(TokenModel::DepthLimit)
    } else if w == seq!['S', 'O', 'I'] {
        Some(TokenModel::Soi)
    } else if w == seq!['E', 'O', 'I'] {
        Some(TokenModel::Eoi)
    } else if w == seq!['A', 'N', 'Y'] {
        Some(TokenModel::Any)
    } else if w == seq!['L', 'I', 'N', 'E', '_', 'S', 'T', 'A', 'R', 'T'] {
        Some(TokenModel::LineStart)
    } else if w == seq!['L', 'I', 'N', 'E', '_', 'E', 'N', 'D'] {
        Some(TokenModel::LineEnd)
    } else {
        None
    }
}

/// The value of a run of decimal digits.
pub open spec fn digits_value(d: Seq<char>) -> int
    decreases d.len(),
{
    if d.len() == 0 {
        0
    } else {
        digits_value(d.drop_last()) * 10 + (d.last() as u32 - '0' as u32)
    }
}

/// The position of the quote that closes a string whose body starts at `i`
/// (a backslash escapes the character after it), or -1 if it is not closed.
pub open spec fn string_close(s: Seq<char>, i: int) -> int
    decreases s.len() - i,
{
    if i < 0 || i >= s.len() {
        -1
    } else if s[i] == '"' {
        i
    } else if s[i] == '\\' {
        if i + 2 > s.len() { -1 } else { string_close(s, i + 2) }
    } else {
        string_close(s, i + 1)
    }
}

/// The characters an escape `\c` stands for: `\n`, `\t`, `\r`, `\0`, `\\`,
/// `\"` and `\'` stand for one character; any other escape stays as written.
pub open spec fn escape_chars(c: char) -> Seq<char> {
    if c == 'n' {
        seq!['\n']
    } else if c == 't' {
        seq!['\t']
    } else if c == 'r' {
        seq!['\r']
    } else if c == '0' {
        seq!['\0']
    } else if c == '\\' || c == '"' || c == '\'' {
        seq![c]
    } else {
        seq!['\\', c]
    }
}

/// The text of a string body with its escapes resolved.
pub open spec fn unescape(b: Seq<char>) -> Seq<char>
    decreases b.len(),
{
    if b.len() == 0 {
        Seq::empty()
    } else if b[0] == '\\' && b.len() >= 2 {
        escape_chars(b[1]) + unescape(b.subrange(2, b.len() as int))
    } else {
        seq![b[0]] + unescape(b.subrange(1, b.len() as int))
    }
}

/// The operator spelled by one or two characters at `i`, longest first.
pub open spec fn operator_at(s: Seq<char>, i: int) -> Option<(TokenModel, int)> {
    if pair_at(s, i, '+', '=') {
        Some((TokenModel::PlusEq, i + 2))
    } else if pair_at(s, i, '.', '.') {
        Some((TokenModel::DotDot, i + 2))
    } else if pair_at(s, i, '>', '=') {
        Some((TokenModel::Ge, i + 2))
    } else if pair_at(s, i, '<', '=') {
        Some((TokenModel::Le, i + 2))
    } else if pair_at(s, i, '=', '=') {
        Some((TokenModel::EqEq, i + 2))
    } else if pair_at(s, i, '!', '=') {
        Some((TokenModel::BangEq, i + 2))
    } else if !(0 <= i < s.len()) {
        None
    } else {
        let c = s[i];
        if c == '+' {
            Some((TokenModel::Plus, i + 1))
        } else if c == '*' {
            Some((TokenModel::Star, i + 1))
        } else if c == '?' {
            Some((TokenModel::Question, i + 1))
        } else if c == '|' {
            Some((TokenModel::Pipe, i + 1))
        } else if c == '&' {
            Some((TokenModel::Amp, i + 1))
        } else if c == '!' {
            Some((TokenModel::Bang, i + 1))
        } else if c == '=' {
            Some((TokenModel::Eq, i + 1))
        } else if c == '>' {
            Some((TokenModel::Gt, i + 1))
        } else if c == '<' {
            Some((TokenModel::Lt, i + 1))
        } else if c == '{' {
            Some((TokenModel::LBrace, i + 1))
        } else if c == '}' {
            Some((TokenModel::RBrace, i + 1))
        } else if c == '(' {
            Some((TokenModel::LParen, i + 1))
        } else if c == ')' {
            Some((TokenModel::RParen, i + 1))
        } else if c == ',' {
            Some((TokenModel::Comma, i + 1))
        } else if c == ':' {
            Some((TokenModel::Colon, i + 1))
        } else if c == '@' {
            Some((TokenModel::At, i + 1))
        } else {
            None
        }
    }
}

/// The token that starts at `i` and where it ends; `None` when no token starts there.
pub open spec fn token_at(s: Seq<char>, i: int) -> Option<(TokenModel, int)> {
    if !(0 <= i < s.len()) {
        None
    } else if is_ident_start(s[i]) {
        let e = ident_end(s, i);
        let w = s.subrange(i, e);
        match keyword(w) {
            Some(k) => Some((k, e)),
            None => Some((TokenModel::Ident(w), e)),
        }
    } else if is_digit(s[i]) {
        let e = digits_end(s, i);
        let v = digits_value(s.subrange(i, e));
        if v <= u32::MAX {
            Some((TokenModel::Number(v as u32), e))
        } else {
            None
        }
    } else if s[i] == '"' {
        let c = string_close(s, i + 1);
        if c > i {
            Some((TokenModel::StringLit(unescape(s.subrange(i + 1, c))), c + 1))
        } else {
            None
        }
    } else if s[i] == '\'' {
        if i + 2 < s.len() && s[i + 1] != '\'' && s[i + 2] == '\'' {
            Some((TokenModel::CharLit(s[i + 1]), i + 3))
        } else {
            None
        }
    } else {
        operator_at(s, i)
    }
}

/// The tokens of `s` from `i` on, each with the positions where it starts and
/// ends; or the position where no token starts.
pub open spec fn lex_from(s: Seq<char>, i: int) -> Result<Seq<(TokenModel, int, int)>, int>
    decreases s.len() - i,
{
    let j = trivia_end(s, i);
    if !(i <= j) || j >= s.len() {
        Ok(Seq::empty())
    } else {
        match token_at(s, j) {
            None => Err(j),
            Some((t, e)) => if e <= j || e > s.len() {
                Err(j)
            } else {
                match lex_from(s, e) {
                    Ok(rest) => Ok(seq![(t, j, e)] + rest),
                    Err(p) => Err(p),
                }
            },
        }
    }
}

/// The byte offset of character position `i`: the length of the UTF-8
/// encoding of the characters before it.
pub open spec fn byte_offset(s: Seq<char>, i: int) -> int {
    encode_utf8(s.take(i)).len() as int
}


// ── The tokenizer ──

/// A token with the byte offsets where it starts and ends.
#[derive(Debug, Clone, PartialEq)]
pub struct Spanned {
    pub token: Token,
    pub start: usize,
    pub end: usize,
}

/// Where tokenizing failed: the byte offset, and the characters that start no token.
#[derive(Debug, Clone, PartialEq)]
pub struct LexError {
    pub offset: usize,
    pub text: String,
}

/// The characters reported when no token starts at `j`: a run of digits too
/// large for a number, a string that is never closed up to the end, or the
/// single character.
pub open spec fn error_end(s: Seq<char>, j: int) -> int {
    if 0 <= j < s.len() && is_digit(s[j]) {
        digits_end(s, j)
    } else if 0 <= j < s.len() && s[j] == '"' {
        s.len() as int
    } else {
        j + 1
    }
}

/// The tokens with their char positions turned into byte offsets.
pub open spec fn byte_spans(s: Seq<char>, toks: Seq<(TokenModel, int, int)>) -> Seq<(TokenModel, int, int)> {
    toks.map_values(|t: (TokenModel, int, int)| (t.0, byte_offset(s, t.1), byte_offset(s, t.2)))
}

pub open spec fn spanned_model(t: Spanned) -> (TokenModel, int, int) {
    (t.token@, t.start as int, t.end as int)
}

pub open spec fn spanned_models(v: Seq<Spanned>) -> Seq<(TokenModel, int, int)> {
    v.map_values(|t: Spanned| spanned_model(t))
}

/// What tokenizing `s` gives: the tokens with byte spans, or the byte offset
/// and the characters where no token starts.
pub open spec fn lex_result(s: Seq<char>, r: Result<Vec<Spanned>, LexError>) -> bool {
    match r {
        Ok(v) => lex_from(s, 0) is Ok && spanned_models(v@) == byte_spans(s, lex_from(s, 0)->Ok_0),
        Err(e) => lex_from(s, 0) is Err && e.offset == byte_offset(s, lex_from(s, 0)->Err_0)
            && e.text@ == s.subrange(lex_from(s, 0)->Err_0, error_end(s, lex_from(s, 0)->Err_0)),
    }
}

/// Calls `String::push`, which appends `c` to the end of `s`.
#[verifier::external_body]
pub(crate) fn push_char(s: &mut String, c: char)
    ensures
        final(s)@ == old(s)@.push(c),
{
    s.push(c)
}

/// The string made of `s[i..e]`.
fn string_of(s: &Vec<char>, i: usize, e: usize) -> (res: String)
    requires
        i <= e <= s@.len(),
    ensures
        res@ == s@.subrange(i as int, e as int),
{
    let mut out = String::new();
    let mut k = i;
    while k < e
        invariant
            i <= k <= e <= s@.len(),
            out@ == s@.subrange(i as int, k as int),
        decreases e - k,
    {
        push_char(&mut out, s[k]);
        proof {
            assert(s@.subrange(i as int, k + 1) =~= s@.subrange(i as int, k as int).push(s@[k as int]));
        }
        k = k + 1;
    }
    out
}

/// The characters of `source`.
fn chars_of(source: &str) -> (res: Vec<char>)
    ensures
        res@ == source@,
{
    let n = source.unicode_len();
    let mut v: Vec<char> = Vec::new();
    let mut i: usize = 0;
    while i < n
        invariant
            i <= n,
            n == source@.len(),
            v@ == source@.take(i as int),
        decreases n - i,
    {
        v.push(source.get_char(i));
        proof {
            assert(source@.take(i + 1) =~= source@.take(i as int).push(source@[i as int]));
        }
        i = i + 1;
    }
    proof {
        assert(source@.take(n as int) =~= source@);
    }
    v
}

proof fn lemma_encode_push(a: Seq<char>, c: char)
    ensures
        encode_utf8(a.push(c)) == encode_utf8(a) + encode_scalar(c as u32),
    decreases a.len(),
{
    if a.len() == 0 {
        assert(a.push(c).drop_first() =~= Seq::<char>::empty());
        assert(encode_utf8(Seq::<char>::empty()) =~= Seq::<u8>::empty());
        assert(encode_utf8(a) =~= Seq::<u8>::empty());
        assert(encode_scalar(c as u32) + Seq::<u8>::empty() =~= encode_scalar(c as u32));
        assert(Seq::<u8>::empty() + encode_scalar(c as u32) =~= encode_scalar(c as u32));
    } else {
        assert(a.push(c).drop_first() =~= a.drop_first().push(c));
        lemma_encode_push(a.drop_first(), c);
        assert(encode_scalar(a[0] as u32) + (encode_utf8(a.drop_first()) + encode_scalar(c as u32)) =~= (encode_scalar(a[0] as u32) + encode_utf8(a.drop_first())) + encode_scalar(c as u32));
    }
}

/// The byte offset grows by the width of each character.
proof fn lemma_byte_offset_step(s: Seq<char>, i: int)
    requires
        0 <= i < s.len(),
    ensures
        byte_offset(s, i + 1) == byte_offset(s, i) + encode_scalar(s[i] as u32).len(),
{
    assert(s.take(i + 1) =~= s.take(i).push(s[i]));
    lemma_encode_push(s.take(i), s[i]);
}

/// Byte offsets never exceed the length of the whole encoding.
proof fn lemma_byte_offset_bound(s: Seq<char>, i: int, j: int)
    requires
        0 <= i <= j <= s.len(),
    ensures
        byte_offset(s, i) <= byte_offset(s, j),
    decreases j - i,
{
    if i < j {
        lemma_byte_offset_bound(s, i, j - 1);
        lemma_byte_offset_step(s, j - 1);
    }
}

/// The number of bytes in the UTF-8 encoding of `c`.
fn utf8_width(c: char) -> (res: usize)
    ensures
        res == encode_scalar(c as u32).len(),
{
    let v = c as u32;
    if v <= 0x7F {
        1
    } else if v <= 0x7FF {
        2
    } else if v <= 0xFFFF {
        3
    } else {
        4
    }
}

/// The byte offset of `to`, given the byte offset `b` of `from`.
fn advance_bytes(s: &Vec<char>, from: usize, to: usize, b: usize, total: Ghost<int>) -> (res: usize)
    requires
        from <= to <= s@.len(),
        b == byte_offset(s@, from as int),
        byte_offset(s@, s@.len() as int) == total@,
        total@ <= usize::MAX,
    ensures
        res == byte_offset(s@, to as int),
{
    let mut k = from;
    let mut acc = b;
    while k < to
        invariant
            from <= k <= to <= s@.len(),
            acc == byte_offset(s@, k as int),
            byte_offset(s@, s@.len() as int) == total@,
            total@ <= usize::MAX,
        decreases to - k,
    {
        proof {
            lemma_byte_offset_step(s@, k as int);
            lemma_byte_offset_bound(s@, k + 1, s@.len() as int);
        }
        acc = acc + utf8_width(s[k]);
        k = k + 1;
    }
    acc
}

/// The end of the run of characters from `i` on that satisfy the class
/// (0: identifier characters, 1: digits, 2: anything but a newline).
fn run_end(s: &Vec<char>, i: usize, class: u8) -> (res: usize)
    requires
        i <= s@.len(),
        class <= 2,
    ensures
        i <= res <= s@.len(),
        class == 0 ==> res == ident_end(s@, i as int),
        class == 1 ==> res == digits_end(s@, i as int),
        class == 2 ==> res == line_end(s@, i as int),
{
    let mut k = i;
    while k < s.len()
        invariant
            i <= k <= s@.len(),
            class <= 2,
            class == 0 ==> ident_end(s@, i as int) == ident_end(s@, k as int),
            class == 1 ==> digits_end(s@, i as int) == digits_end(s@, k as int),
            class == 2 ==> line_end(s@, i as int) == line_end(s@, k as int),
        decreases s@.len() - k,
    {
        let c = s[k];
        let inside = if class == 0 {
            ('a' <= c && c <= 'z') || ('A' <= c && c <= 'Z') || c == '_' || ('0' <= c && c <= '9')
        } else if class == 1 {
            '0' <= c && c <= '9'
        } else {
            c != '\n'
        };
        if !inside {
            return k;
        }
        k = k + 1;
    }
    k
}

/// Just past the first `*/` at or after `i`, if there is one.
fn find_block_end(s: &Vec<char>, i: usize) -> (res: Option<usize>)
    requires
        i <= s@.len(),
    ensures
        match res {
            Some(e) => e as int == block_end(s@, i as int) && i + 2 <= e <= s@.len(),
            None => block_end(s@, i as int) == -1,
        },
{
    let mut k = i;
    while k < s.len() && s.len() - k >= 2
        invariant
            i <= k <= s@.len(),
            block_end(s@, i as int) == block_end(s@, k as int),
        decreases s@.len() - k,
    {
        if s[k] == '*' && s[k + 1] == '/' {
            return Some(k + 2);
        }
        k = k + 1;
    }
    None
}

/// The first position at or after `i` that is not in whitespace or a comment.
fn skip_trivia(s: &Vec<char>, i: usize) -> (res: usize)
    requires
        i <= s@.len(),
    ensures
        i <= res <= s@.len(),
        res == trivia_end(s@, i as int),
{
    let mut k = i;
    while k < s.len()
        invariant
            i <= k <= s@.len(),
            trivia_end(s@, i as int) == trivia_end(s@, k as int),
        decreases s@.len() - k,
    {
        let c = s[k];
        if c == ' ' || c == '\t' || c == '\r' || c == '\n' {
            k = k + 1;
        } else if c == '/' && k + 1 < s.len() && s[k + 1] == '/' {
            let e = run_end(s, k + 2, 2);
            k = e;
        } else if c == '/' && k + 1 < s.len() && s[k + 1] == '*' {
            match find_block_end(s, k + 2) {
                Some(e) => {
                    k = e;
                },
                None => {
                    return k;
                },
            }
        } else {
            return k;
        }
    }
    k
}

/// The keyword spelled by `s[i..e]`, if it is one.
fn keyword_exec(s: &Vec<char>, i: usize, e: usize) -> (res: Option<Token>)
    requires
        i <= e <= s@.len(),
    ensures
        match res {
            Some(t) => keyword(s@.subrange(i as int, e as int)) == Some(t@),
            None => keyword(s@.subrange(i as int, e as int)) is None,
        },
{
    let ghost w = s@.subrange(i as int, e as int);
    let n = e - i;
    if n == 3 && s[i + 0] == 'l' && s[i + 1] == 'e' && s[i + 2] == 't' {
        proof {
            assert(w =~= seq!['l', 'e', 't']);
        }
        return Some(Token::Let);
    }
    assert(w != seq!['l', 'e', 't']) by {
        if w == seq!['l', 'e', 't'] {
            assert(w.len() == 3);
            assert(w[0] == 'l');
            assert(w[1] == 'e');
            assert(w[2] == 't');
        }
    }
    if n == 4 && s[i + 0] == 'f' && s[i + 1] == 'l' && s[i + 2] == 'a' && s[i + 3] == 'g' {
        proof {
            assert(w =~= seq!['f', 'l', 'a', 'g']);
        }
        return Some(Token::Flag);
    }
    assert(w != seq!['f', 'l', 'a', 'g']) by {
        if w == seq!['f', 'l', 'a', 'g'] {
            assert(w.len() == 4);
            assert(w[0] == 'f');
            assert(w[1] == 'l');
            assert(w[2] == 'a');
            assert(w[3] == 'g');
        }
    }
    if n == 7 && s[i + 0] == 'c' && s[i + 1] == 'o' && s[i + 2] == 'u' && s[i + 3] == 'n' && s[i + 4] == 't' && s[i + 5] == 'e' && s[i + 6] == 'r' {
        proof {
            assert(w =~= seq!['c', 'o', 'u', 'n', 't', 'e', 'r']);
        }
        return Some(Token::Counter);
    }
    assert(w != seq!['c', 'o', 'u', 'n', 't', 'e', 'r']) by {
        if w == seq!['c', 'o', 'u', 'n', 't', 'e', 'r'] {
            assert(w.len() == 7);
            assert(w[0] == 'c');
            assert(w[1] == 'o');
            assert(w[2] == 'u');
            assert(w[3] == 'n');
            assert(w[4] == 't');
            assert(w[5] == 'e');
            assert(w[6] == 'r');
        }
    }
    if n == 5 && s[i + 0] == 's' && s[i + 1] == 't' && s[i + 2] == 'a' && s[i + 3] == 'c' && s[i + 4] == 'k' {
        proof {
            assert(w =~= seq!['s', 't', 'a', 'c', 'k']);
        }
        return Some(Token::Stack);
    }
    assert(w != seq!['s', 't', 'a', 'c', 'k']) by {
        if w == seq!['s', 't', 'a', 'c', 'k'] {
            assert(w.len() == 5);
            assert(w[0] == 's');
            assert(w[1] == 't');
            assert(w[2] == 'a');
            assert(w[3] == 'c');
            assert(w[4] == 'k');
        }
    }
    if n == 4 && s[i + 0] == 'm' && s[i + 1] == 'o' && s[i + 2] == 'd' && s[i + 3] == 'e' {
        proof {
            assert(w =~= seq!['m', 'o', 'd', 'e']);
        }
        return Some(Token::Mode);
    }
    assert(w != seq!['m', 'o', 'd', 'e']) by {
        if w == seq!['m', 'o', 'd', 'e'] {
            assert(w.len() == 4);
            assert(w[0] == 'm');
            assert(w[1] == 'o');
            assert(w[2] == 'd');
            assert(w[3] == 'e');
        }
    }
    if n == 5 && s[i + 0] == 'g' && s[i + 1] == 'u' && s[i + 2] == 'a' && s[i + 3] == 'r' && s[i + 4] == 'd' {
        proof {
            assert(w =~= seq!['g', 'u', 'a', 'r', 'd']);
        }
        return Some(Token::Guard);
    }
    assert(w != seq!['g', 'u', 'a', 'r', 'd']) by {
        if w == seq!['g', 'u', 'a', 'r', 'd'] {
            assert(w.len() == 5);
            assert(w[0] == 'g');
            assert(w[1] == 'u');
            assert(w[2] == 'a');
            assert(w[3] == 'r');
            assert(w[4] == 'd');
        }
    }
    if n == 4 && s[i + 0] == 'w' && s[i + 1] == 'i' && s[i + 2] == 't' && s[i + 3] == 'h' {
        proof {
            assert(w =~= seq!['w', 'i', 't', 'h']);
        }
        return Some(Token::With);
    }
    assert(w != seq!['w', 'i', 't', 'h']) by {
        if w == seq!['w', 'i', 't', 'h'] {
            assert(w.len() == 4);
            assert(w[0] == 'w');
            assert(w[1] == 'i');
            assert(w[2] == 't');
            assert(w[3] == 'h');
        }
    }
    if n == 4 && s[i + 0] == 'e' && s[i + 1] == 'm' && s[i + 2] == 'i' && s[i + 3] == 't' {
        proof {
            assert(w =~= seq!['e', 'm', 'i', 't']);
        }
        return Some(Token::Emit);
    }
    assert(w != seq!['e', 'm', 'i', 't']) by {
        if w == seq!['e', 'm', 'i', 't'] {
            assert(w.len() == 4);
            assert(w[0] == 'e');
            assert(w[1] == 'm');
            assert(w[2] == 'i');
            assert(w[3] == 't');
        }
    }
    if n == 4 && s[i + 0] == 'w' && s[i + 1] == 'h' && s[i + 2] == 'e' && s[i + 3] == 'n' {
        proof {
            assert(w =~= seq!['w', 'h', 'e', 'n']);
        }
        return Some(Token::When);
    }
    assert(w != seq!['w', 'h', 'e', 'n']) by {
        if w == seq!['w', 'h', 'e', 'n'] {
            assert(w.len() == 4);
            assert(w[0] == 'w');
            assert(w[1] == 'h');
            assert(w[2] == 'e');
            assert(w[3] == 'n');
        }
    }
    if n == 11 && s[i + 0] == 'd' && s[i + 1] == 'e' && s[i + 2] == 'p' && s[i + 3] == 't' && s[i + 4] == 'h' && s[i + 5] == '_' && s[i + 6] == 'l' && s[i + 7] == 'i' && s[i + 8] == 'm' && s[i + 9] == 'i' && s[i + 10] == 't' {
        proof {
            assert(w =~= seq!['d', 'e', 'p', 't', 'h', '_', 'l', 'i', 'm', 'i', 't']);
        }
        return Some(Token::DepthLimit);
    }
    assert(w != seq!['d', 'e', 'p', 't', 'h', '_', 'l', 'i', 'm', 'i', 't']) by {
        if w == seq!['d', 'e', 'p', 't', 'h', '_', 'l', 'i', 'm', 'i', 't'] {
            assert(w.len() == 11);
            assert(w[0] == 'd');
            assert(w[1] == 'e');
            assert(w[2] == 'p');
            assert(w[3] == 't');
            assert(w[4] == 'h');
            assert(w[5] == '_');
            assert(w[6] == 'l');
            assert(w[7] == 'i');
            assert(w[8] == 'm');
            assert(w[9] == 'i');
            assert(w[10] == 't');
        }
    }
    if n == 3 && s[i + 0] == 'S' && s[i + 1] == 'O' && s[i + 2] == 'I' {
        proof {
            assert(w =~= seq!['S', 'O', 'I']);
        }
        return Some(Token::Soi);
    }
    assert(w != seq!['S', 'O', 'I']) by {
        if w == seq!['S', 'O', 'I'] {
            assert(w.len() == 3);
            assert(w[0] == 'S');
            assert(w[1] == 'O');
            assert(w[2] == 'I');
        }
    }
    if n == 3 && s[i + 0] == 'E' && s[i + 1] == 'O' && s[i + 2] == 'I' {
        proof {
            assert(w =~= seq!['E', 'O', 'I']);
        }
        return Some(Token::Eoi);
    }
    assert(w != seq!['E', 'O', 'I']) by {
        if w == seq!['E', 'O', 'I'] {
            assert(w.len() == 3);
            assert(w[0] == 'E');
            assert(w[1] == 'O');
            assert(w[2] == 'I');
        }
    }
    if n == 3 && s[i + 0] == 'A' && s[i + 1] == 'N' && s[i + 2] == 'Y' {
        proof {
            assert(w =~= seq!['A', 'N', 'Y']);
        }
        return Some(Token::Any);
    }
    assert(w != seq!['A', 'N', 'Y']) by {
        if w == seq!['A', 'N', 'Y'] {
            assert(w.len() == 3);
            assert(w[0] == 'A');
            assert(w[1] == 'N');
            assert(w[2] == 'Y');
        }
    }
    if n == 10 && s[i + 0] == 'L' && s[i + 1] == 'I' && s[i + 2] == 'N' && s[i + 3] == 'E' && s[i + 4] == '_' && s[i + 5] == 'S' && s[i + 6] == 'T' && s[i + 7] == 'A' && s[i + 8] == 'R' && s[i + 9] == 'T' {
        proof {
            assert(w =~= seq!['L', 'I', 'N', 'E', '_', 'S', 'T', 'A', 'R', 'T']);
        }
        return Some(Token::LineStart);
    }
    assert(w != seq!['L', 'I', 'N', 'E', '_', 'S', 'T', 'A', 'R', 'T']) by {
        if w == seq!['L', 'I', 'N', 'E', '_', 'S', 'T', 'A', 'R', 'T'] {
            assert(w.len() == 10);
            assert(w[0] == 'L');
            assert(w[1] == 'I');
            assert(w[2] == 'N');
            assert(w[3] == 'E');
            assert(w[4] == '_');
            assert(w[5] == 'S');
            assert(w[6] == 'T');
            assert(w[7] == 'A');
            assert(w[8] == 'R');
            assert(w[9] == 'T');
        }
    }
    if n == 8 && s[i + 0] == 'L' && s[i + 1] == 'I' && s[i + 2] == 'N' && s[i + 3] == 'E' && s[i + 4] == '_' && s[i + 5] == 'E' && s[i + 6] == 'N' && s[i + 7] == 'D' {
        proof {
            assert(w =~= seq!['L', 'I', 'N', 'E', '_', 'E', 'N', 'D']);
        }
        return Some(Token::LineEnd);
    }
    assert(w != seq!['L', 'I', 'N', 'E', '_', 'E', 'N', 'D']) by {
        if w == seq!['L', 'I', 'N', 'E', '_', 'E', 'N', 'D'] {
            assert(w.len() == 8);
            assert(w[0] == 'L');
            assert(w[1] == 'I');
            assert(w[2] == 'N');
            assert(w[3] == 'E');
            assert(w[4] == '_');
            assert(w[5] == 'E');
            assert(w[6] == 'N');
            assert(w[7] == 'D');
        }
    }
    None
}

proof fn lemma_digits_value_nonneg(d: Seq<char>)
    requires
        forall|k: int| 0 <= k < d.len() ==> is_digit(#[trigger] d[k]),
    ensures
        digits_value(d) >= 0,
    decreases d.len(),
{
    if d.len() > 0 {
        lemma_digits_value_nonneg(d.drop_last());
    }
}

/// A longer run of digits is worth at least as much.
proof fn lemma_digits_value_prefix(d: Seq<char>, k: int)
    requires
        0 <= k <= d.len(),
        forall|m: int| 0 <= m < d.len() ==> is_digit(#[trigger] d[m]),
    ensures
        digits_value(d.take(k)) <= digits_value(d),
    decreases d.len(),
{
    if k < d.len() {
        assert(d.drop_last().take(k) =~= d.take(k));
        lemma_digits_value_prefix(d.drop_last(), k);
        lemma_digits_value_nonneg(d.drop_last());
    } else {
        assert(d.take(k) =~= d);
    }
}

proof fn lemma_digits_run(s: Seq<char>, i: int, e: int)
    requires
        0 <= i <= s.len(),
        e == digits_end(s, i),
    ensures
        i <= e <= s.len(),
        forall|m: int| i <= m < e ==> is_digit(#[trigger] s[m]),
    decreases s.len() - i,
{
    if 0 <= i < s.len() && is_digit(s[i]) {
        lemma_digits_run(s, i + 1, e);
    }
}

proof fn lemma_ident_run(s: Seq<char>, i: int, e: int)
    requires
        0 <= i <= s.len(),
        e == ident_end(s, i),
    ensures
        i <= e <= s.len(),
    decreases s.len() - i,
{
    if 0 <= i < s.len() && is_ident_char(s[i]) {
        lemma_ident_run(s, i + 1, e);
    }
}

/// The value of the digits `s[i..e]`, if it fits in a `u32`.
fn number_value(s: &Vec<char>, i: usize, e: usize) -> (res: Option<u32>)
    requires
        i <= e <= s@.len(),
        forall|m: int| i <= m < e ==> is_digit(#[trigger] s@[m]),
    ensures
        match res {
            Some(v) => digits_value(s@.subrange(i as int, e as int)) == v,
            None => digits_value(s@.subrange(i as int, e as int)) > u32::MAX,
        },
{
    let ghost d = s@.subrange(i as int, e as int);
    let mut v: u64 = 0;
    let mut k = i;
    proof {
        assert(d.take(0) =~= Seq::<char>::empty());
    }
    while k < e
        invariant
            i <= k <= e <= s@.len(),
            d == s@.subrange(i as int, e as int),
            forall|m: int| i <= m < e ==> is_digit(#[trigger] s@[m]),
            v as int == digits_value(d.take(k - i)),
            v <= u32::MAX,
        decreases e - k,
    {
        proof {
            assert(d.take(k - i + 1).drop_last() =~= d.take(k - i));
            assert(d.take(k - i + 1).last() == s@[k as int]);
            assert(is_digit(s@[k as int]));
        }
        let digit = (s[k] as u32 - '0' as u32) as u64;
        let nv = v * 10 + digit;
        if nv > 0xFFFF_FFFF {
            proof {
                assert(forall|m: int| 0 <= m < d.len() ==> is_digit(#[trigger] d[m])) by {
                    assert forall|m: int| 0 <= m < d.len() implies is_digit(#[trigger] d[m]) by {
                        assert(d[m] == s@[i + m]);
                    }
                }
                lemma_digits_value_prefix(d, k - i + 1);
            }
            return None;
        }
        v = nv;
        k = k + 1;
    }
    proof {
        assert(d.take(e - i) =~= d);
    }
    Some(v as u32)
}

/// The position of the quote that closes a string whose body starts at `i`.
fn find_string_close(s: &Vec<char>, i: usize) -> (res: Option<usize>)
    requires
        i <= s@.len(),
    ensures
        match res {
            Some(c) => c as int == string_close(s@, i as int) && i <= c < s@.len(),
            None => string_close(s@, i as int) == -1,
        },
{
    let mut k = i;
    while k < s.len()
        invariant
            i <= k <= s@.len(),
            string_close(s@, i as int) == string_close(s@, k as int),
        decreases s@.len() - k,
    {
        if s[k] == '"' {
            return Some(k);
        }
        if s[k] == '\\' {
            if s.len() - k < 2 {
                return None;
            }
            k = k + 2;
        } else {
            k = k + 1;
        }
    }
    None
}

/// Append the characters the escape `\c` stands for.
fn push_escape(out: &mut String, c: char)
    ensures
        final(out)@ == old(out)@ + escape_chars(c),
{
    let ghost before = out@;
    if c == 'n' {
        push_char(out, '\n');
    } else if c == 't' {
        push_char(out, '\t');
    } else if c == 'r' {
        push_char(out, '\r');
    } else if c == '0' {
        push_char(out, '\0');
    } else if c == '\\' || c == '"' || c == '\'' {
        push_char(out, c);
    } else {
        push_char(out, '\\');
        push_char(out, c);
    }
    proof {
        assert(out@ =~= before + escape_chars(c));
    }
}

/// The text of the string body `s[i..c]` with its escapes resolved.
fn unescape_range(s: &Vec<char>, i: usize, c: usize) -> (res: String)
    requires
        i <= c <= s@.len(),
    ensures
        res@ == unescape(s@.subrange(i as int, c as int)),
{
    let mut out = String::new();
    let mut k = i;
    proof {
        assert(out@ + unescape(s@.subrange(i as int, c as int)) =~= unescape(s@.subrange(i as int, c as int)));
    }
    while k < c
        invariant
            i <= k <= c <= s@.len(),
            out@ + unescape(s@.subrange(k as int, c as int)) == unescape(s@.subrange(i as int, c as int)),
        decreases c - k,
    {
        let ghost before = out@;
        let ghost b = s@.subrange(k as int, c as int);
        if s[k] == '\\' && k + 1 < c {
            push_escape(&mut out, s[k + 1]);
            proof {
                assert(b.subrange(2, b.len() as int) =~= s@.subrange(k + 2, c as int));
                assert(before + (escape_chars(s@[k + 1]) + unescape(s@.subrange(k + 2, c as int))) =~= out@ + unescape(s@.subrange(k + 2, c as int)));
            }
            k = k + 2;
        } else {
            push_char(&mut out, s[k]);
            proof {
                assert(b.subrange(1, b.len() as int) =~= s@.subrange(k + 1, c as int));
                assert(before + (seq![s@[k as int]] + unescape(s@.subrange(k + 1, c as int))) =~= out@ + unescape(s@.subrange(k + 1, c as int)));
            }
            k = k + 1;
        }
    }
    proof {
        assert(s@.subrange(c as int, c as int) =~= Seq::<char>::empty());
        assert(out@ + Seq::<char>::empty() =~= out@);
    }
    out
}

/// The operator at `i`, longest first, and where it ends.
fn operator_exec(s: &Vec<char>, i: usize) -> (res: Option<(Token, usize)>)
    requires
        i < s@.len(),
    ensures
        match res {
            Some((t, e)) => operator_at(s@, i as int) == Some((t@, e as int)),
            None => operator_at(s@, i as int) is None,
        },
{
    let len = s.len();
    let c = s[i];
    let two = i < len - 1;
    let next = if two { s[i + 1] } else { ' ' };
    if two && c == '+' && next == '=' {
        return Some((Token::PlusEq, i + 2));
    }
    if two && c == '.' && next == '.' {
        return Some((Token::DotDot, i + 2));
    }
    if two && c == '>' && next == '=' {
        return Some((Token::Ge, i + 2));
    }
    if two && c == '<' && next == '=' {
        return Some((Token::Le, i + 2));
    }
    if two && c == '=' && next == '=' {
        return Some((Token::EqEq, i + 2));
    }
    if two && c == '!' && next == '=' {
        return Some((Token::BangEq, i + 2));
    }
    let t = if c == '+' {
        Token::Plus
    } else if c == '*' {
        Token::Star
    } else if c == '?' {
        Token::Question
    } else if c == '|' {
        Token::Pipe
    } else if c == '&' {
        Token::Amp
    } else if c == '!' {
        Token::Bang
    } else if c == '=' {
        Token::Eq
    } else if c == '>' {
        Token::Gt
    } else if c == '<' {
        Token::Lt
    } else if c == '{' {
        Token::LBrace
    } else if c == '}' {
        Token::RBrace
    } else if c == '(' {
        Token::LParen
    } else if c == ')' {
        Token::RParen
    } else if c == ',' {
        Token::Comma
    } else if c == ':' {
        Token::Colon
    } else if c == '@' {
        Token::At
    } else {
        return None;
    };
    Some((t, i + 1))
}

/// The token that starts at `i`, and where it ends.
fn scan_token(s: &Vec<char>, i: usize) -> (res: Option<(Token, usize)>)
    requires
        i < s@.len(),
    ensures
        match res {
            Some((t, e)) => token_at(s@, i as int) == Some((t@, e as int)),
            None => token_at(s@, i as int) is None,
        },
{
    let len = s.len();
    let c = s[i];
    if ('a' <= c && c <= 'z') || ('A' <= c && c <= 'Z') || c == '_' {
        let e = run_end(s, i, 0);
        proof {
            lemma_ident_run(s@, i as int, e as int);
        }
        match keyword_exec(s, i, e) {
            Some(k) => Some((k, e)),
            None => Some((Token::Ident(string_of(s, i, e)), e)),
        }
    } else if '0' <= c && c <= '9' {
        let e = run_end(s, i, 1);
        proof {
            lemma_digits_run(s@, i as int, e as int);
        }
        match number_value(s, i, e) {
            Some(v) => Some((Token::Number(v), e)),
            None => None,
        }
    } else if c == '"' {
        match find_string_close(s, i + 1) {
            Some(close) => {
                proof {
                    lemma_string_close_bound(s@, i + 1);
                }
                Some((Token::StringLit(unescape_range(s, i + 1, close)), close + 1))
            },
            None => None,
        }
    } else if c == '\'' {
        if len - i > 2 && s[i + 1] != '\'' && s[i + 2] == '\'' {
            Some((Token::CharLit(s[i + 1]), i + 3))
        } else {
            None
        }
    } else {
        operator_exec(s, i)
    }
}

/// The end of the characters reported when no token starts at `j`.
fn error_end_exec(s: &Vec<char>, j: usize) -> (res: usize)
    requires
        j < s@.len(),
    ensures
        res as int == error_end(s@, j as int),
        j < res <= s@.len(),
{
    let len = s.len();
    let c = s[j];
    if '0' <= c && c <= '9' {
        let e = run_end(s, j, 1);
        proof {
            assert(is_digit(s@[j as int]));
            assert(digits_end(s@, j as int) == digits_end(s@, j + 1));
            lemma_digits_run(s@, j + 1, e as int);
        }
        e
    } else if c == '"' {
        s.len()
    } else {
        j + 1
    }
}

/// Split `source` into tokens with their byte spans.
pub fn lex(source: &str) -> (res: Result<Vec<Spanned>, LexError>)
    ensures
        lex_result(source@, res),
{
    let s = chars_of(source);
    let byte_len = source.as_bytes().len();
    let ghost total = byte_offset(s@, s@.len() as int);
    proof {
        assert(s@.take(s@.len() as int) =~= s@);
        assert(total == source.spec_bytes().len());
    }
    let mut toks: Vec<Spanned> = Vec::new();
    let ghost mut found: Seq<(TokenModel, int, int)> = Seq::empty();
    let mut i: usize = 0;
    let mut b: usize = 0;
    proof {
        assert(s@.take(0) =~= Seq::<char>::empty());
        assert(encode_utf8(Seq::<char>::empty()) =~= Seq::<u8>::empty());
        assert(found + Seq::<(TokenModel, int, int)>::empty() =~= found);
        match lex_from(s@, 0) {
            Ok(rest) => assert(found + rest =~= rest),
            Err(_) => {},
        }
    }
    while i < s.len()
        invariant
            i <= s@.len(),
            s@ == source@,
            total == byte_offset(s@, s@.len() as int),
            total <= usize::MAX,
            b == byte_offset(s@, i as int),
            spanned_models(toks@) == byte_spans(s@, found),
            lex_from(s@, 0) == (match lex_from(s@, i as int) {
                Ok(rest) => Ok(found + rest),
                Err(p) => Err(p),
            }),
        decreases s@.len() - i,
    {
        let j = skip_trivia(&s, i);
        let bj = advance_bytes(&s, i, j, b, Ghost(total));
        if j >= s.len() {
            proof {
                assert(lex_from(s@, i as int) == Ok::<Seq<(TokenModel, int, int)>, int>(Seq::<(TokenModel, int, int)>::empty()));
                assert(found + Seq::<(TokenModel, int, int)>::empty() =~= found);
            }
            return Ok(toks);
        }
        match scan_token(&s, j) {
            None => {
                let e = error_end_exec(&s, j);
                return Err(LexError { offset: bj, text: string_of(&s, j, e) });
            },
            Some((t, e)) => {
                proof {
                    assert(j < e <= s@.len()) by {
                        lemma_token_end(s@, j as int);
                    }
                }
                let be = advance_bytes(&s, j, e, bj, Ghost(total));
                let ghost entry = (t@, j as int, e as int);
                let ghost before = toks@;
                toks.push(Spanned { token: t, start: bj, end: be });
                proof {
                    assert(spanned_model(toks@[toks@.len() - 1]) == (entry.0, byte_offset(s@, entry.1), byte_offset(s@, entry.2)));
                    assert(spanned_models(before).len() == before.len());
                    assert(byte_spans(s@, found).len() == found.len());
                    assert(toks@.len() == found.push(entry).len());
                    assert forall|k: int| 0 <= k < toks@.len() implies #[trigger] spanned_models(toks@)[k] == byte_spans(s@, found.push(entry))[k] by {
                        if k < before.len() {
                            assert(toks@[k] == before[k]);
                            assert(spanned_models(before)[k] == byte_spans(s@, found)[k]);
                            assert(found.push(entry)[k] == found[k]);
                        }
                    }
                    assert(spanned_models(toks@) =~= byte_spans(s@, found.push(entry)));
                    match lex_from(s@, e as int) {
                        Ok(rest) => {
                            assert(seq![entry] + rest =~= seq![entry] + rest);
                            assert(found + (seq![entry] + rest) =~= found.push(entry) + rest);
                        },
                        Err(_) => {},
                    }
                    found = found.push(entry);
                }
                i = e;
                b = be;
            },
        }
    }
    proof {
        assert(lex_from(s@, i as int) == Ok::<Seq<(TokenModel, int, int)>, int>(Seq::<(TokenModel, int, int)>::empty()));
        assert(found + Seq::<(TokenModel, int, int)>::empty() =~= found);
    }
    Ok(toks)
}

/// A token ends after it starts and within the text.
proof fn lemma_token_end(s: Seq<char>, i: int)
    requires
        0 <= i < s.len(),
        token_at(s, i) is Some,
    ensures
        i < (token_at(s, i)->0).1 <= s.len(),
{
    if is_ident_start(s[i]) {
        assert(is_ident_char(s[i]));
        assert(ident_end(s, i) == ident_end(s, i + 1));
        lemma_ident_run(s, i + 1, ident_end(s, i));
    } else if is_digit(s[i]) {
        assert(digits_end(s, i) == digits_end(s, i + 1));
        lemma_digits_run(s, i + 1, digits_end(s, i));
    } else if s[i] == '"' {
        lemma_string_close_bound(s, i + 1);
    }
}

proof fn lemma_string_close_bound(s: Seq<char>, i: int)
    ensures
        string_close(s, i) == -1 || (i <= string_close(s, i) < s.len()),
    decreases s.len() - i,
{
    if 0 <= i < s.len() && s[i] != '"' {
        if s[i] == '\\' {
            if i + 2 <= s.len() {
                lemma_string_close_bound(s, i + 2);
            }
        } else {
            lemma_string_close_bound(s, i + 1);
        }
    }
}

/// Whether two tokens are the same token.
pub fn same_token(a: &Token, b: &Token) -> (res: bool)
    ensures
        res == (a@ == b@),
{
    match (a, b) {
        (Token::Let, Token::Let) => true,
        (Token::Flag, Token::Flag) => true,
        (Token::Counter, Token::Counter) => true,
        (Token::Stack, Token::Stack) => true,
        (Token::Mode, Token::Mode) => true,
        (Token::Guard, Token::Guard) => true,
        (Token::With, Token::With) => true,
        (Token::Emit, Token::Emit) => true,
        (Token::When, Token::When) => true,
        (Token::DepthLimit, Token::DepthLimit) => true,
        (Token::Soi, Token::Soi) => true,
        (Token::Eoi, Token::Eoi) => true,
        (Token::Any, Token::Any) => true,
        (Token::LineStart, Token::LineStart) => true,
        (Token::LineEnd, Token::LineEnd) => true,
        (Token::Plus, Token::Plus) => true,
        (Token::Star, Token::Star) => true,
        (Token::Question, Token::Question) => true,
        (Token::Pipe, Token::Pipe) => true,
        (Token::Amp, Token::Amp) => true,
        (Token::Bang, Token::Bang) => true,
        (Token::Eq, Token::Eq) => true,
        (Token::PlusEq, Token::PlusEq) => true,
        (Token::DotDot, Token::DotDot) => true,
        (Token::Gt, Token::Gt) => true,
        (Token::Lt, Token::Lt) => true,
        (Token::Ge, Token::Ge) => true,
        (Token::Le, Token::Le) => true,
        (Token::EqEq, Token::EqEq) => true,
        (Token::BangEq, Token::BangEq) => true,
        (Token::LBrace, Token::LBrace) => true,
        (Token::RBrace, Token::RBrace) => true,
        (Token::LParen, Token::LParen) => true,
        (Token::RParen, Token::RParen) => true,
        (Token::Comma, Token::Comma) => true,
        (Token::Colon, Token::Colon) => true,
        (Token::At, Token::At) => true,
        (Token::StringLit(x), Token::StringLit(y)) => *x == *y,
        (Token::CharLit(x), Token::CharLit(y)) => *x == *y,
        (Token::Number(x), Token::Number(y)) => *x == *y,
        (Token::Ident(x), Token::Ident(y)) => *x == *y,
        _ => false,
    }
}

/// A copy of `t`.
pub fn copy_token(t: &Token) -> (res: Token)
    ensures
        res@ == t@,
{
    match t {
        Token::Let => Token::Let,
        Token::Flag => Token::Flag,
        Token::Counter => Token::Counter,
        Token::Stack => Token::Stack,
        Token::Mode => Token::Mode,
        Token::Guard => Token::Guard,
        Token::With => Token::With,
        Token::Emit => Token::Emit,
        Token::When => Token::When,
        Token::DepthLimit => Token::DepthLimit,
        Token::Soi => Token::Soi,
        Token::Eoi => Token::Eoi,
        Token::Any => Token::Any,
        Token::LineStart => Token::LineStart,
        Token::LineEnd => Token::LineEnd,
        Token::Plus => Token::Plus,
        Token::Star => Token::Star,
        Token::Question => Token::Question,
        Token::Pipe => Token::Pipe,
        Token::Amp => Token::Amp,
        Token::Bang => Token::Bang,
        Token::Eq => Token::Eq,
        Token::PlusEq => Token::PlusEq,
        Token::DotDot => Token::DotDot,
        Token::Gt => Token::Gt,
        Token::Lt => Token::Lt,
        Token::Ge => Token::Ge,
        Token::Le => Token::Le,
        Token::EqEq => Token::EqEq,
        Token::BangEq => Token::BangEq,
        Token::LBrace => Token::LBrace,
        Token::RBrace => Token::RBrace,
        Token::LParen => Token::LParen,
        Token::RParen => Token::RParen,
        Token::Comma => Token::Comma,
        Token::Colon => Token::Colon,
        Token::At => Token::At,
        Token::StringLit(s) => Token::StringLit(s.clone()),
        Token::CharLit(c) => Token::CharLit(*c),
        Token::Number(n) => Token::Number(*n),
        Token::Ident(s) => Token::Ident(s.clone()),
    }
}

/// The digit character of `d`, for `d` below ten.
pub open spec fn digit_char(d: nat) -> char {
    if d == 0 {
        '0'
    } else if d == 1 {
        '1'
    } else if d == 2 {
        '2'
    } else if d == 3 {
        '3'
    } else if d == 4 {
        '4'
    } else if d == 5 {
        '5'
    } else if d == 6 {
        '6'
    } else if d == 7 {
        '7'
    } else if d == 8 {
        '8'
    } else {
        '9'
    }
}

/// The decimal digits of `n`, most significant first, without leading zeros.
pub open spec fn decimal_digits(n: nat) -> Seq<char>
    decreases n,
{
    if n < 10 {
        seq![digit_char(n)]
    } else {
        decimal_digits(n / 10).push(digit_char(n % 10))
    }
}

/// What `format!("{:?}", s)` gives for a string `s`.
pub uninterp spec fn str_debug_text(s: Seq<char>) -> Seq<char>;

/// What `format!("{:?}", c)` gives for a character `c`.
pub uninterp spec fn char_debug_text(c: char) -> Seq<char>;

/// How `char::escape_debug` writes `c` inside quotes `quote`, for the
/// characters whose escape is short: a newline, tab or carriage return as
/// `\n`, `\t`, `\r`; a backslash and the quote itself behind a backslash;
/// printable ASCII as itself. `None` for every other character.
pub open spec fn short_escape(c: char, quote: char) -> Option<Seq<char>> {
    if c == '\n' {
        Some(seq!['\\', 'n'])
    } else if c == '\t' {
        Some(seq!['\\', 't'])
    } else if c == '\r' {
        Some(seq!['\\', 'r'])
    } else if c == '\\' {
        Some(seq!['\\', '\\'])
    } else if c == quote {
        Some(seq!['\\', quote])
    } else if ' ' <= c && c <= '~' {
        Some(seq![c])
    } else {
        None
    }
}

/// The short escapes of every character of `s`, one after another, when
/// each has one.
pub open spec fn short_escapes(s: Seq<char>, quote: char) -> Option<Seq<char>>
    decreases s.len(),
{
    if s.len() == 0 {
        Some(Seq::empty())
    } else {
        match (short_escapes(s.drop_last(), quote), short_escape(s.last(), quote)) {
            (Some(a), Some(b)) => Some(a + b),
            _ => None,
        }
    }
}

/// Calls `<str as Debug>::fmt` through `format!("{:?}", ..)`: the string
/// between double quotes, each character escaped as `char::escape_debug`
/// does, with a double quote escaped and a single quote not. Stated here
/// for strings of printable ASCII, newlines, tabs and carriage returns; for
/// other characters the result is named, not stated.
#[verifier::external_body]
fn debug_str(s: &str) -> (res: String)
    ensures
        res@ == str_debug_text(s@),
        short_escapes(s@, '"') matches Some(e) ==> res@ == seq!['"'] + e + seq!['"'],
{
    format!("{:?}", s)
}

/// Calls `<char as Debug>::fmt` through `format!("{:?}", ..)`: the
/// character between single quotes, escaped as `char::escape_debug` does,
/// with a single quote escaped and a double quote not. Stated here for
/// printable ASCII, newline, tab and carriage return; for other characters
/// the result is named, not stated.
#[verifier::external_body]
fn debug_char(c: char) -> (res: String)
    ensures
        res@ == char_debug_text(c),
        short_escape(c, '\'') matches Some(e) ==> res@ == seq!['\''] + e + seq!['\''],
{
    format!("{:?}", c)
}

/// How a token is written in messages: the name of its kind, with its
/// contents for strings, characters, numbers and identifiers written as
/// `Debug` writes them (quoted and escaped).
pub open spec fn token_text(t: TokenModel) -> Seq<char> {
    match t {
        TokenModel::Let => "Let"@,
        TokenModel::Flag => "Flag"@,
        TokenModel::Counter => "Counter"@,
        TokenModel::Stack => "Stack"@,
        TokenModel::Mode => "Mode"@,
        TokenModel::Guard => "Guard"@,
        TokenModel::With => "With"@,
        TokenModel::Emit => "Emit"@,
        TokenModel::When => "When"@,
        TokenModel::DepthLimit => "DepthLimit"@,
        TokenModel::Soi => "Soi"@,
        TokenModel::Eoi => "Eoi"@,
        TokenModel::Any => "Any"@,
        TokenModel::LineStart => "LineStart"@,
        TokenModel::LineEnd => "LineEnd"@,
        TokenModel::Plus => "Plus"@,
        TokenModel::Star => "Star"@,
        TokenModel::Question => "Question"@,
        TokenModel::Pipe => "Pipe"@,
        TokenModel::Amp => "Amp"@,
        TokenModel::Bang => "Bang"@,
        TokenModel::Eq => "Eq"@,
        TokenModel::PlusEq => "PlusEq"@,
        TokenModel::DotDot => "DotDot"@,
        TokenModel::Gt => "Gt"@,
        TokenModel::Lt => "Lt"@,
        TokenModel::Ge => "Ge"@,
        TokenModel::Le => "Le"@,
        TokenModel::EqEq => "EqEq"@,
        TokenModel::BangEq => "BangEq"@,
        TokenModel::LBrace => "LBrace"@,
        TokenModel::RBrace => "RBrace"@,
        TokenModel::LParen => "LParen"@,
        TokenModel::RParen => "RParen"@,
        TokenModel::Comma => "Comma"@,
        TokenModel::Colon => "Colon"@,
        TokenModel::At => "At"@,
        TokenModel::StringLit(s) => "StringLit("@ + str_debug_text(s) + ")"@,
        TokenModel::CharLit(c) => "CharLit("@ + char_debug_text(c) + ")"@,
        TokenModel::Number(n) => "Number("@ + decimal_digits(n as nat) + ")"@,
        TokenModel::Ident(s) => "Ident("@ + str_debug_text(s) + ")"@,
    }
}

/// How the token at hand, or its absence, is written in messages.
pub open spec fn describe_text(t: Option<TokenModel>) -> Seq<char> {
    match t {
        Some(t) => "Some("@ + token_text(t) + ")"@,
        None => "None"@,
    }
}

/// The decimal digits of `n`.
pub fn decimal(n: u32) -> (res: String)
    ensures
        res@ == decimal_digits(n as nat),
    decreases n,
{
    let d = n % 10;
    let c = if d == 0 {
        '0'
    } else if d == 1 {
        '1'
    } else if d == 2 {
        '2'
    } else if d == 3 {
        '3'
    } else if d == 4 {
        '4'
    } else if d == 5 {
        '5'
    } else if d == 6 {
        '6'
    } else if d == 7 {
        '7'
    } else if d == 8 {
        '8'
    } else {
        '9'
    };
    if n < 10 {
        let mut out = String::new();
        push_char(&mut out, c);
        proof {
            assert(out@ =~= seq![digit_char(n as nat)]);
        }
        out
    } else {
        let mut out = decimal(n / 10);
        push_char(&mut out, c);
        out
    }
}

/// How a token is written in messages.
pub fn token_name(t: &Token) -> (res: String)
    ensures
        res@ == token_text(t@),
{
    match t {
        Token::Let => "Let".to_owned(),
        Token::Flag => "Flag".to_owned(),
        Token::Counter => "Counter".to_owned(),
        Token::Stack => "Stack".to_owned(),
        Token::Mode => "Mode".to_owned(),
        Token::Guard => "Guard".to_owned(),
        Token::With => "With".to_owned(),
        Token::Emit => "Emit".to_owned(),
        Token::When => "When".to_owned(),
        Token::DepthLimit => "DepthLimit".to_owned(),
        Token::Soi => "Soi".to_owned(),
        Token::Eoi => "Eoi".to_owned(),
        Token::Any => "Any".to_owned(),
        Token::LineStart => "LineStart".to_owned(),
        Token::LineEnd => "LineEnd".to_owned(),
        Token::Plus => "Plus".to_owned(),
        Token::Star => "Star".to_owned(),
        Token::Question => "Question".to_owned(),
        Token::Pipe => "Pipe".to_owned(),
        Token::Amp => "Amp".to_owned(),
        Token::Bang => "Bang".to_owned(),
        Token::Eq => "Eq".to_owned(),
        Token::PlusEq => "PlusEq".to_owned(),
        Token::DotDot => "DotDot".to_owned(),
        Token::Gt => "Gt".to_owned(),
        Token::Lt => "Lt".to_owned(),
        Token::Ge => "Ge".to_owned(),
        Token::Le => "Le".to_owned(),
        Token::EqEq => "EqEq".to_owned(),
        Token::BangEq => "BangEq".to_owned(),
        Token::LBrace => "LBrace".to_owned(),
        Token::RBrace => "RBrace".to_owned(),
        Token::LParen => "LParen".to_owned(),
        Token::RParen => "RParen".to_owned(),
        Token::Comma => "Comma".to_owned(),
        Token::Colon => "Colon".to_owned(),
        Token::At => "At".to_owned(),
        Token::StringLit(s) => {
            let mut m = "StringLit(".to_owned();
            let q = debug_str(s.as_str());
            m.append(q.as_str());
            m.append(")");
            m
        },
        Token::CharLit(c) => {
            let mut m = "CharLit(".to_owned();
            let q = debug_char(*c);
            m.append(q.as_str());
            m.append(")");
            m
        },
        Token::Number(n) => {
            let mut m = "Number(".to_owned();
            let d = decimal(*n);
            m.append(d.as_str());
            m.append(")");
            m
        },
        Token::Ident(s) => {
            let mut m = "Ident(".to_owned();
            let q = debug_str(s.as_str());
            m.append(q.as_str());
            m.append(")");
            m
        },
    }
}

/// How the token at hand, or its absence, is written in messages.
pub fn describe(t: Option<&Token>) -> (res: String)
    ensures
        res@ == describe_text(
            match t {
                Some(t) => Some(t@),
                None => None,
            },
        ),
{
    match t {
        Some(t) => {
            let mut m = "Some(".to_owned();
            let name = token_name(t);
            m.append(name.as_str());
            m.append(")");
            m
        },
        None => "None".to_owned(),
    }
}

} // verus!
