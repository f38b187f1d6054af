use faputa::ast::{BuiltinPredicate, CompareOp, GuardCondition};
use faputa::codegen::code::{CharTest, Code, Span};
use faputa::codegen::expr::{plan_alt, plan_sequence, plan_span, plan_test};
use faputa::codegen::module::{plan_checks, ModulePlan, RulePlan};
use faputa::codegen::plan_grammar;
use faputa::ir::{Boundary, CharRange};

fn plan(source: &str) -> ModulePlan {
    let grammar = faputa::compile(source).expect("compile failed");
    plan_grammar(&grammar)
}

fn rule<'a>(plan: &'a ModulePlan, name: &str) -> &'a RulePlan {
    plan.rules.iter().find(|r| r.name == name).unwrap()
}

fn lit(s: &str) -> Code {
    Code::Literal(s.to_string())
}

fn leaves(code: &Code, out: &mut Vec<String>) {
    match code {
        Code::Alt(items) => {
            for item in items {
                leaves(item, out);
            }
        }
        Code::Void(inner) => match &**inner {
            Code::Literal(s) => out.push(s.clone()),
            other => panic!("unexpected alternative {other:?}"),
        },
        other => panic!("unexpected alternative {other:?}"),
    }
}

#[test]
fn plans_empty_state_for_no_declarations() {
    let p = plan("greeting = { \"hello\" \"world\" }");
    assert!(p.state.flags.is_empty());
    assert!(p.state.counters.is_empty());
    assert_eq!(p.rules.len(), 1);
    assert_eq!(p.rules[0].name, "greeting");
    assert_eq!(p.rules[0].body, lit("helloworld"));
}

#[test]
fn plans_flag_and_counter_fields_in_order() {
    let p = plan(
        r#"
        let flag inside_bold
        let counter depth
        let flag inside_italic
        let counter section_counter
        bold = { "**" "text" "**" }
    "#,
    );
    assert_eq!(p.state.flags, vec!["inside_bold".to_string(), "inside_italic".to_string()]);
    assert_eq!(p.state.counters, vec!["depth".to_string(), "section_counter".to_string()]);
}

#[test]
fn plans_string_literal_and_entry_label() {
    let p = plan(r#"hello = { "hello" }"#);
    let r = &p.rules[0];
    assert_eq!(r.body, lit("hello"));
    assert!(r.entry);
    assert_eq!(r.label, "hello");
    assert!(!r.with_statements);
}

#[test]
fn plans_rule_level_error_label() {
    let p = plan(r#"value = @ "JSON value" { "x" }"#);
    assert_eq!(p.rules[0].label, "JSON value");
    assert_eq!(p.rules[0].name, "value");
}

#[test]
fn plans_char_range_as_one_of() {
    let p = plan("alpha = { 'a'..'z' }");
    assert_eq!(p.rules[0].body, Code::OneOf(CharTest::Range('a', 'z')));
}

#[test]
fn plans_single_char_choice_as_one_set() {
    let p = plan(r#"ab = { "a" | "b" }"#);
    assert_eq!(p.rules[0].body, Code::OneOf(CharTest::Range('a', 'b')));
}

#[test]
fn plans_repetition_variants() {
    let p = plan(r#"r = { "a"+ "b"* "c"? "d"{3} "e"{1,5} }"#);
    let expected = Code::Tuple(vec![
        Code::Repeat(Span::AtLeast(1), Box::new(lit("a"))),
        Code::TrackPos,
        Code::Repeat(Span::AtLeast(0), Box::new(lit("b"))),
        Code::TrackPos,
        Code::Opt(Box::new(lit("c"))),
        Code::TrackPos,
        Code::Repeat(Span::Exactly(3), Box::new(lit("d"))),
        Code::TrackPos,
        Code::Repeat(Span::Between(1, 5), Box::new(lit("e"))),
    ]);
    assert_eq!(p.rules[0].body, expected);
}

#[test]
fn plans_lookahead() {
    let p = plan(r#"la = { &"ab" !"cd" }"#);
    let expected = Code::Tuple(vec![
        Code::Peek(Box::new(lit("ab"))),
        Code::TrackPos,
        Code::Not(Box::new(lit("cd"))),
    ]);
    assert_eq!(p.rules[0].body, expected);
}

#[test]
fn plans_guards_and_emits() {
    let p = plan(
        r##"
        let flag inside_bold
        let counter section_counter
        header = {
            guard !inside_bold
            emit section_counter
            "#" "text"
        }
    "##,
    );
    let r = &p.rules[0];
    assert!(r.with_statements);
    assert_eq!(r.checks, vec![GuardCondition::NotFlag("inside_bold".to_string())]);
    assert_eq!(r.emits, vec!["section_counter".to_string()]);
}

#[test]
fn plans_no_check_for_any_guard() {
    let guards = vec![
        GuardCondition::Builtin(BuiltinPredicate::Any),
        GuardCondition::Builtin(BuiltinPredicate::LineStart),
        GuardCondition::Builtin(BuiltinPredicate::Any),
        GuardCondition::IsFlag("bold".to_string()),
    ];
    assert_eq!(
        plan_checks(&guards),
        vec![GuardCondition::Builtin(BuiltinPredicate::LineStart), GuardCondition::IsFlag("bold".to_string())]
    );
}

#[test]
fn plans_with_flag_and_counter() {
    let p = plan(
        r#"
        let flag inside_bold
        let counter depth
        bold = { with inside_bold { "**" } }
        nested = { with depth += 2 { "(" ")" } }
    "#,
    );
    assert_eq!(
        rule(&p, "bold").body,
        Code::WithFlag("inside_bold".to_string(), Box::new(lit("**")))
    );
    assert_eq!(
        rule(&p, "nested").body,
        Code::WithCounter("depth".to_string(), 2, Box::new(lit("()")))
    );
}

#[test]
fn plans_when_and_depth_limit() {
    let p = plan(
        r#"
        let counter depth
        conditional = { when depth > 0 { "nested" } }
        block = { depth_limit(64) { "(" ")" } }
    "#,
    );
    assert_eq!(
        rule(&p, "conditional").body,
        Code::When(
            GuardCondition::Compare { name: "depth".to_string(), op: CompareOp::Gt, value: 0 },
            Box::new(lit("nested"))
        )
    );
    assert_eq!(rule(&p, "block").body, Code::DepthLimit(64, Box::new(lit("()"))));
}

#[test]
fn plans_builtins() {
    let p = plan(
        r#"
        start = { SOI "begin" }
        finish = { "end" EOI }
        anything = { ANY }
    "#,
    );
    assert_eq!(
        rule(&p, "start").body,
        Code::Tuple(vec![Code::Boundary(Boundary::Soi), Code::TrackPos, lit("begin")])
    );
    assert_eq!(
        rule(&p, "finish").body,
        Code::Tuple(vec![lit("end"), Code::TrackPos, Code::Boundary(Boundary::Eoi)])
    );
    assert_eq!(rule(&p, "anything").body, Code::Any);
}

#[test]
fn plans_one_function_per_rule_in_order() {
    let p = plan(
        r#"
        alpha = { 'a'..'z' }
        ident = { alpha alpha* }
    "#,
    );
    let names: Vec<&str> = p.rules.iter().map(|r| r.name.as_str()).collect();
    assert_eq!(names, vec!["alpha", "ident"]);
    assert!(rule(&p, "ident").entry);
}

#[test]
fn plans_calls_for_referenced_rules() {
    let p = plan(
        r#"
        item = { "(" item ")" | "x" }
        list = { item item }
    "#,
    );
    assert_eq!(
        rule(&p, "list").body,
        Code::Tuple(vec![Code::Call("item".to_string()), Code::TrackPos, Code::Call("item".to_string())])
    );
}

#[test]
fn plans_nested_alt_for_large_choice() {
    let branches: Vec<String> = (0..25).map(|i| format!(r#""x{i}""#)).collect();
    let source = format!("big = {{ {} }}", branches.join(" | "));
    let p = plan(&source);
    match &p.rules[0].body {
        Code::Alt(chunks) => {
            assert_eq!(chunks.len(), 2);
            match (&chunks[0], &chunks[1]) {
                (Code::Alt(a), Code::Alt(b)) => {
                    assert_eq!(a.len(), 21);
                    assert_eq!(b.len(), 4);
                }
                other => panic!("expected two alt chunks, got {other:?}"),
            }
        }
        other => panic!("expected an alt, got {other:?}"),
    }
    let mut order = Vec::new();
    leaves(&p.rules[0].body, &mut order);
    let expected: Vec<String> = (0..25).map(|i| format!("x{i}")).collect();
    assert_eq!(order, expected);
}

#[test]
fn plans_steps_for_long_sequence() {
    let parts: Vec<String> = (0..12).map(|i| {
        let c = char::from(b'a' + i as u8);
        format!("'{c}'..'{c}'")
    }).collect();
    let source = format!("long = {{ {} }}", parts.join(" "));
    let p = plan(&source);
    match &p.rules[0].body {
        Code::Steps(items) => {
            assert_eq!(items.len(), 23);
            assert_eq!(items[0], Code::OneOf(CharTest::Char('a')));
            assert_eq!(items[1], Code::TrackPos);
            assert_eq!(items[22], Code::OneOf(CharTest::Char('l')));
        }
        other => panic!("expected steps, got {other:?}"),
    }
}

#[test]
fn plans_take_while_for_repeated_set() {
    let p = plan("word = { 'a'..'z'+ }");
    assert_eq!(p.rules[0].body, Code::TakeWhile(Span::AtLeast(1), CharTest::Range('a', 'z')));
}

#[test]
fn char_test_forms() {
    let r = |a: char, b: char| CharRange { start: a, end: b };
    assert_eq!(plan_test(&vec![r('x', 'x')]), CharTest::Char('x'));
    assert_eq!(plan_test(&vec![r('a', 'f')]), CharTest::Range('a', 'f'));
    let two = vec![r('a', 'f'), r('x', 'x')];
    assert_eq!(plan_test(&two), CharTest::Tuple(two.clone()));
    let eleven: Vec<CharRange> = (0..11u8).map(|i| r(char::from(b'a' + 2 * i), char::from(b'a' + 2 * i))).collect();
    assert_eq!(plan_test(&eleven), CharTest::Closure(eleven.clone()));
    let ten = eleven[..10].to_vec();
    assert_eq!(plan_test(&ten), CharTest::Tuple(ten.clone()));
}

#[test]
fn span_forms() {
    assert_eq!(plan_span(2, None), Span::AtLeast(2));
    assert_eq!(plan_span(3, Some(3)), Span::Exactly(3));
    assert_eq!(plan_span(1, Some(5)), Span::Between(1, 5));
}

#[test]
fn alt_keeps_small_choice_flat() {
    let items: Vec<Code> = (0..21).map(|i| lit(&i.to_string())).collect();
    let again: Vec<Code> = (0..21).map(|i| lit(&i.to_string())).collect();
    assert_eq!(plan_alt(items), Code::Alt(again));
}

#[test]
fn alt_nests_twice_for_very_large_choice() {
    let items: Vec<Code> = (0..500).map(|i| lit(&i.to_string())).collect();
    match plan_alt(items) {
        Code::Alt(outer) => {
            assert_eq!(outer.len(), 2);
            match &outer[0] {
                Code::Alt(mid) => {
                    assert_eq!(mid.len(), 21);
                    assert!(matches!(&mid[0], Code::Alt(leaf) if leaf.len() == 21));
                }
                other => panic!("expected an alt, got {other:?}"),
            }
        }
        other => panic!("expected an alt, got {other:?}"),
    }
}

#[test]
fn sequence_of_one_stays_alone() {
    assert_eq!(plan_sequence(vec![lit("a")]), Code::Tuple(vec![lit("a")]));
    assert_eq!(plan_sequence(vec![]), Code::Tuple(vec![]));
}
