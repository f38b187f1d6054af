use faputa::hir::optimize::optimize;
use faputa::ir::{lower, CharRange, IrExpr, IrProgram};

fn optimized(source: &str) -> IrProgram {
    let grammar = faputa::compile(source).expect("compile failed");
    let ir = lower(&grammar);
    optimize(ir)
}

#[test]
fn inline_trivial_rule_inlined() {
    let ir = optimized(
        r#"
        digit = { '0'..'9' }
        number = { digit+ }
    "#,
    );
    let number = ir.rules.iter().find(|r| r.name == "number").unwrap();
    assert!(
        matches!(
            &number.expr,
            IrExpr::Repeat {
                expr,
                min: 1,
                max: None,
            } if matches!(&**expr, IrExpr::CharSet(_))
        ),
        "expected Repeat(CharSet), got {:?}",
        &number.expr
    );
}

#[test]
fn inline_inlined_rules_kept_with_inline_flag() {
    let ir = optimized(
        r#"
        digit = { '0'..'9' }
        number = { digit+ }
    "#,
    );
    assert_eq!(ir.rules.len(), 2);
    let digit = ir.rules.iter().find(|r| r.name == "digit").unwrap();
    assert!(digit.inline);
    let number = ir.rules.iter().find(|r| r.name == "number").unwrap();
    assert!(!number.inline);
}

#[test]
fn inline_non_trivial_rule_not_inlined() {
    let ir = optimized(
        r#"
        alpha = { 'a'..'z' | 'A'..'Z' }
        digit = { '0'..'9' }
        ident = { alpha (alpha | digit)* }
    "#,
    );
    let ident = ir.rules.iter().find(|r| r.name == "ident").unwrap();
    match &ident.expr {
        IrExpr::Sequence(items) => {
            assert!(matches!(&items[0], IrExpr::CharSet(_)));
            assert!(
                matches!(
                    &items[1],
                    IrExpr::Repeat { expr, min: 0, max: None } if matches!(&**expr, IrExpr::CharSet(_))
                ),
                "expected Repeat(CharSet), got {:?}",
                &items[1]
            );
        }
        other => panic!("expected Seq, got {other:?}"),
    }
}

#[test]
fn inline_stateful_rule_not_inlined() {
    let ir = optimized(
        r#"
        let flag active
        special = {
            guard active
            "x"
        }
        main = { special }
    "#,
    );
    assert!(ir.rules.iter().any(|r| r.name == "special"));
    let main = ir.rules.iter().find(|r| r.name == "main").unwrap();
    assert!(matches!(&main.expr, IrExpr::RuleRef(_)));
}

#[test]
fn inline_ref_count_entry_point() {
    let ir = optimized(
        r#"
        main = { "hello" }
    "#,
    );
    assert_eq!(ir.rules[0].ref_count, 0);
}

#[test]
fn inline_ref_count_internal_rule() {
    let ir = optimized(
        r#"
        let flag active
        special = {
            guard active
            "x"
        }
        a = { special }
        b = { special }
    "#,
    );
    let special = ir.rules.iter().find(|r| r.name == "special").unwrap();
    assert_eq!(special.ref_count, 2);
}

#[test]
fn small_single_use_helper_rule_inlined() {
    let ir = optimized(
        r#"
        ws = { (" " | "\n")* }
        digit = { '0'..'9' }
        comma_value = { ws "," ws digit+ }
        items = { digit+ comma_value* }
    "#,
    );
    let helper = ir.rules.iter().find(|r| r.name == "comma_value").unwrap();
    assert!(helper.inline);
}

#[test]
fn normalize_charset_merge_in_choice() {
    let ir = optimized(r#"alpha = { 'a'..'z' | 'A'..'Z' | "_" }"#);
    match &ir.rules[0].expr {
        IrExpr::CharSet(ranges) => assert_eq!(ranges.len(), 3),
        other => panic!("expected CharSet, got {other:?}"),
    }
}

#[test]
fn normalize_charset_merge_all_ranges() {
    let ir = optimized("alpha = { 'a'..'z' | 'A'..'Z' }");
    match &ir.rules[0].expr {
        IrExpr::CharSet(ranges) => assert_eq!(ranges.len(), 2),
        other => panic!("expected CharSet, got {other:?}"),
    }
}

#[test]
fn normalize_adjacent_ranges_coalesced() {
    let ir = optimized("az = { 'a'..'m' | 'n'..'z' }");
    match &ir.rules[0].expr {
        IrExpr::CharSet(ranges) => {
            assert_eq!(ranges.len(), 1);
            assert_eq!(ranges[0], CharRange::new('a', 'z'));
        }
        other => panic!("expected CharSet, got {other:?}"),
    }
}

#[test]
fn normalize_literal_fusion() {
    let ir = optimized(r#"kw = { "h" "e" "l" "l" "o" }"#);
    assert_eq!(ir.rules[0].expr, IrExpr::Literal("hello".into()));
}

#[test]
fn normalize_flatten_nested_seq() {
    let ir = optimized(r#"r = { "a" ("b" "c") }"#);
    match &ir.rules[0].expr {
        IrExpr::Literal(s) => assert_eq!(s, "abc"),
        other => panic!("expected fused Literal, got {other:?}"),
    }
}

#[test]
fn normalize_single_char_literal_to_charset_in_choice() {
    let ir = optimized(r#"ws = { " " | "\t" | "\n" | "\r" }"#);
    match &ir.rules[0].expr {
        IrExpr::CharSet(ranges) => assert_eq!(ranges.len(), 3),
        other => panic!("expected CharSet, got {other:?}"),
    }
}
