use faputa::ast::{Expr, Item, RepeatKind};
use faputa::lexer::{lex, Token};
use faputa::naming::to_snake_case;
use faputa::parser::{parse, TokenStream};
use faputa::CompileError;

#[test]
fn lex_tokens_with_byte_spans() {
    let toks = lex("a = { \"x\" }").unwrap();
    let kinds: Vec<Token> = toks.iter().map(|t| t.token.clone()).collect();
    assert_eq!(
        kinds,
        vec![
            Token::Ident("a".to_string()),
            Token::Eq,
            Token::LBrace,
            Token::StringLit("x".to_string()),
            Token::RBrace
        ]
    );
    assert_eq!((toks[3].start, toks[3].end), (6, 9));
}

#[test]
fn lex_keywords_win_over_identifiers() {
    let toks = lex("let letter SOI depth_limit").unwrap();
    assert_eq!(toks[0].token, Token::Let);
    assert_eq!(toks[1].token, Token::Ident("letter".to_string()));
    assert_eq!(toks[2].token, Token::Soi);
    assert_eq!(toks[3].token, Token::DepthLimit);
}

#[test]
fn lex_longest_operator_wins() {
    let toks = lex("+= + .. >= > == = != !").unwrap();
    let kinds: Vec<Token> = toks.iter().map(|t| t.token.clone()).collect();
    assert_eq!(
        kinds,
        vec![Token::PlusEq, Token::Plus, Token::DotDot, Token::Ge, Token::Gt, Token::EqEq, Token::Eq, Token::BangEq, Token::Bang]
    );
}

#[test]
fn lex_skips_comments() {
    let toks = lex("// line\n a /* block * still */ b").unwrap();
    assert_eq!(toks.len(), 2);
    assert_eq!(toks[1].token, Token::Ident("b".to_string()));
    assert_eq!(toks[1].start, 31);
}

#[test]
fn lex_resolves_string_escapes() {
    let toks = lex(r#""a\"b\\c\n\q""#).unwrap();
    assert_eq!(toks[0].token, Token::StringLit("a\"b\\c\n\\q".to_string()));
}

#[test]
fn lex_rejects_unknown_character() {
    let err = lex("a # b").unwrap_err();
    assert_eq!(err.offset, 2);
    assert_eq!(err.text, "#");
}

#[test]
fn lex_rejects_number_too_large() {
    let err = lex("x 4294967296").unwrap_err();
    assert_eq!(err.offset, 2);
    assert_eq!(err.text, "4294967296");
    assert_eq!(lex("4294967295").unwrap()[0].token, Token::Number(4294967295));
}

#[test]
fn lex_offsets_count_bytes() {
    let err = lex("\"한\" %").unwrap_err();
    assert_eq!(err.offset, 6);
}

#[test]
fn token_stream_reads_in_order() {
    let mut ts = TokenStream::new("a = 3").unwrap();
    assert_eq!(ts.peek(), Some(&Token::Ident("a".to_string())));
    assert_eq!(ts.offset(), 0);
    let saved = ts.save();
    assert_eq!(ts.expect_ident().unwrap(), "a");
    assert!(ts.expect(&Token::Eq).is_ok());
    assert_eq!(ts.offset(), 4);
    assert_eq!(ts.expect_number().unwrap(), 3);
    assert!(ts.at_end());
    assert_eq!(ts.offset(), 5);
    assert_eq!(ts.advance(), None);
    ts.restore(saved);
    assert_eq!(ts.advance(), Some(Token::Ident("a".to_string())));
}

#[test]
fn token_stream_expect_fails_in_place() {
    let mut ts = TokenStream::new("a b").unwrap();
    let err = ts.expect(&Token::Eq).unwrap_err();
    assert_eq!(err.offset, 0);
    assert_eq!(ts.save(), 0);
    assert_eq!(ts.error("m".to_string()).offset, 0);
    let err = ts.expect_number().unwrap_err();
    assert_eq!(err.offset, 2);
}

#[test]
fn token_stream_new_reports_lex_error() {
    let err = TokenStream::new("r = { $ }").err().unwrap();
    assert_eq!(err.offset, 6);
    assert_eq!(err.message, "unexpected character '$'");
}

#[test]
fn parse_builds_rules_and_states() {
    let g = parse("let flag on\nr = @ \"lbl\" { guard !on emit n \"x\"{2,} }").unwrap();
    assert_eq!(g.items.len(), 2);
    match &g.items[1] {
        Item::RuleDef(r) => {
            assert_eq!(r.name, "r");
            assert_eq!(r.error_label, Some("lbl".to_string()));
            assert_eq!(r.body.statements.len(), 2);
            assert_eq!(
                r.body.expr,
                Expr::Repeat { expr: Box::new(Expr::StringLit("x".to_string())), kind: RepeatKind::AtLeast(2) }
            );
        }
        _ => panic!("expected a rule"),
    }
}

#[test]
fn parse_postfix_label() {
    let g = parse("r = { \"x\" @ \"an x\" }").unwrap();
    match &g.items[0] {
        Item::RuleDef(r) => assert_eq!(
            r.body.expr,
            Expr::Labeled { expr: Box::new(Expr::StringLit("x".to_string())), label: "an x".to_string() }
        ),
        _ => panic!("expected a rule"),
    }
}

#[test]
fn parse_brace_without_bounds_is_not_a_repeat() {
    let err = parse("r = { \"x\"{a} }").unwrap_err();
    assert_eq!(err.offset, 9);
}

#[test]
fn parse_error_at_end_reports_source_length() {
    let err = parse("r = { \"x\"").unwrap_err();
    assert_eq!(err.offset, 9);
}

#[test]
fn compile_rejects_undefined_rule() {
    match faputa::compile("a = { b }") {
        Err(CompileError::Validation(errors)) => assert_eq!(errors.len(), 1),
        other => panic!("expected validation error, got {other:?}"),
    }
}

#[test]
fn compile_rejects_duplicate_rule() {
    match faputa::compile("a = { \"x\" }\na = { \"y\" }") {
        Err(CompileError::Validation(errors)) => assert_eq!(errors[0].message, "duplicate rule 'a'"),
        other => panic!("expected validation error, got {other:?}"),
    }
}

#[test]
fn compile_reports_parse_error() {
    match faputa::compile("a = ") {
        Err(CompileError::Parse(e)) => assert_eq!(e.offset, 4),
        other => panic!("expected parse error, got {other:?}"),
    }
}

#[test]
fn snake_case_of_camel_case() {
    assert_eq!(to_snake_case("MyParser"), "my_parser");
    assert_eq!(to_snake_case("JSON"), "j_s_o_n");
    assert_eq!(to_snake_case("already_snake"), "already_snake");
    assert_eq!(to_snake_case("Ärger"), "Ärger");
}

#[test]
fn decimal_writes_digits() {
    assert_eq!(faputa::lexer::decimal(0), "0");
    assert_eq!(faputa::lexer::decimal(7), "7");
    assert_eq!(faputa::lexer::decimal(1203), "1203");
    assert_eq!(faputa::lexer::decimal(u32::MAX), "4294967295");
}

#[test]
fn describe_writes_tokens() {
    assert_eq!(faputa::lexer::describe(Some(&Token::Ident("x".to_string()))), "Some(Ident(\"x\"))");
    assert_eq!(faputa::lexer::describe(None), "None");
    assert_eq!(faputa::lexer::token_name(&Token::Number(42)), "Number(42)");
    assert_eq!(faputa::lexer::token_name(&Token::CharLit('q')), "CharLit('q')");
    assert_eq!(faputa::lexer::token_name(&Token::DotDot), "DotDot");
}

#[test]
fn token_stream_error_messages() {
    let mut ts = TokenStream::new("a 7").unwrap();
    let e = ts.expect(&Token::LBrace).unwrap_err();
    assert_eq!(e.message, "expected LBrace, got Some(Ident(\"a\"))");
    assert_eq!(e.offset, 0);
    let e = ts.expect_number().unwrap_err();
    assert_eq!(e.message, "expected number, got Some(Ident(\"a\"))");
    assert_eq!(e.offset, 2);
    let e = ts.expect_ident().unwrap_err();
    assert_eq!(e.message, "expected identifier, got Some(Number(7))");
    assert_eq!(e.offset, 3);
    let e = ts.expect_ident().unwrap_err();
    assert_eq!(e.message, "expected identifier, got None");
}

#[test]
fn validation_reports_each_problem() {
    let g = parse("a = { b c }\nb = { a }\nb = { \"x\" }\nd = { (zz | a) }").unwrap();
    let errors = faputa::validator::validate(&g).unwrap_err();
    let messages: Vec<&str> = errors.iter().map(|e| e.message.as_str()).collect();
    assert_eq!(messages, vec!["duplicate rule 'b'", "undefined rule 'c'", "undefined rule 'zz'"]);
    assert!(faputa::validator::validate(&parse("a = { b }\nb = { \"x\" }").unwrap()).is_ok());
}

#[test]
fn restore_returns_to_the_saved_position() {
    let mut ts = TokenStream::new("a = { b }").unwrap();
    let saved = ts.save();
    let offset = ts.offset();
    ts.advance();
    let _ = ts.expect(&Token::Eq);
    let _ = ts.expect_ident();
    ts.restore(saved);
    assert_eq!(ts.save(), saved);
    assert_eq!(ts.offset(), offset);
    assert_eq!(ts.peek(), Some(&Token::Ident("a".to_string())));
    assert!(!ts.at_end());
}

#[test]
fn broken_repeat_bounds_are_an_error() {
    assert!(parse("r = { \"a\"{1,2 \"b\" }").is_err());
    assert!(parse("r = { \"a\"{, \"b\" }").is_err());
    assert!(parse("r = { \"a\"{1,2} }").is_ok());
}

#[test]
fn char_range_without_dots_is_an_error_at_the_second_literal() {
    let e = parse("r = { 'a' 'b' }").unwrap_err();
    assert_eq!(e.message, "expected DotDot, got Some(CharLit('b'))");
    assert_eq!(e.offset, 10);
    let e = parse("r = { 'a' .. \"b\" }").unwrap_err();
    assert_eq!(e.message, "expected char literal after '..'");
    let e = parse("r = { = }").unwrap_err();
    assert_eq!(e.message, "expected expression, got Some(Eq)");
    assert_eq!(e.offset, 6);
}

#[test]
fn token_names_escape_as_debug_does() {
    assert_eq!(faputa::lexer::token_name(&Token::StringLit("\n".to_string())), "StringLit(\"\\n\")");
    assert_eq!(faputa::lexer::token_name(&Token::StringLit("a\"b\\".to_string())), "StringLit(\"a\\\"b\\\\\")");
    assert_eq!(faputa::lexer::token_name(&Token::CharLit('\'')), "CharLit('\\'')");
    assert_eq!(faputa::lexer::token_name(&Token::CharLit('"')), "CharLit('\"')");
    assert_eq!(faputa::lexer::token_name(&Token::CharLit('\t')), format!("CharLit({:?})", '\t'));
    assert_eq!(faputa::lexer::token_name(&Token::StringLit("é\u{7}".to_string())), format!("StringLit({:?})", "é\u{7}"));
    let mut ts = TokenStream::new("").unwrap();
    let e = ts.expect(&Token::StringLit("\n".to_string())).unwrap_err();
    assert_eq!(e.message, "expected StringLit(\"\\n\"), got None");
    assert_eq!(e.message, format!("expected {:?}, got {:?}", Token::StringLit("\n".to_string()), None::<Token>));
}
