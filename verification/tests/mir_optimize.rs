use faputa::ir;
use faputa::mir::{lower, optimize, MirExpr, MirProgram};

fn optimized(source: &str) -> MirProgram {
    let grammar = faputa::compile(source).expect("compile failed");
    let ir = ir::lower(&grammar);
    let ir = ir::optimize(ir);
    let mir = lower(&ir);
    optimize(mir)
}

#[test]
fn dispatch_dispatch_recognized_for_disjoint_choice() {
    let ir = optimized(r#"value = { "true" | "false" | "null" }"#);
    assert!(matches!(&ir.rules[0].expr, MirExpr::Dispatch(_)));
}

#[test]
fn dispatch_dispatch_skips_overlapping_choice() {
    let ir = optimized(r#"value = { "true" | "trick" }"#);
    assert!(matches!(&ir.rules[0].expr, MirExpr::Choice(_)));
}

#[test]
fn dispatch_dispatch_works_through_rule_refs() {
    let ir = optimized(
        r#"
        number = { "-"? '0'..'9'+ }
        array = { "[" "]"? }
        value = { number | array }
    "#,
    );
    let value = ir.rules.iter().find(|r| r.name == "value").unwrap();
    assert!(matches!(&value.expr, MirExpr::Dispatch(_)));
}

#[test]
fn dispatch_recognizes_neg_lookahead_any_plain_branch() {
    let ir = optimized(
        r#"
        hex = { '0'..'9' | 'a'..'f' | 'A'..'F' }
        uni_escape = { "\\u" hex hex hex hex }
        escape = { "\\" ("\"" | "\\" | "/" | "b" | "f" | "n" | "r" | "t") }
        string_char = { uni_escape | escape | (!("\"" | "\\") ANY) }
    "#,
    );
    let string_char = ir.rules.iter().find(|r| r.name == "string_char").unwrap();
    assert!(matches!(&string_char.expr, MirExpr::Dispatch(_)));
}

#[test]
fn separated_list_recognized_for_item_tail_repeat() {
    let ir = optimized(
        r#"
        ws = { (" " | "\n")* }
        digit = { '0'..'9'+ }
        comma_value = { ws "," ws digit }
        items = { digit comma_value* }
    "#,
    );
    let items = ir.rules.iter().find(|r| r.name == "items").unwrap();
    assert!(matches!(&items.expr, MirExpr::SeparatedList { .. }));
}

#[test]
fn patterns_take_while_recognized() {
    let ir = optimized("d = { '0'..'9'* }");
    assert!(matches!(
        &ir.rules[0].expr,
        MirExpr::TakeWhile {
            min: 0,
            max: None,
            ..
        }
    ));
}

#[test]
fn patterns_take_while_from_choice_repeat() {
    let ir = optimized(r#"ws = { (" " | "\t" | "\n" | "\r")* }"#);
    assert!(matches!(
        &ir.rules[0].expr,
        MirExpr::TakeWhile {
            min: 0,
            max: None,
            ..
        }
    ));
}

#[test]
fn patterns_take_while_bounded() {
    let ir = optimized("d = { '0'..'9'{3} }");
    match &ir.rules[0].expr {
        MirExpr::TakeWhile { min, max, .. } => {
            assert_eq!(*min, 3);
            assert_eq!(*max, Some(3));
        }
        other => panic!("expected TakeWhile, got {other:?}"),
    }
}

#[test]
fn scan_recognized_for_chunkable_dispatch_repeat() {
    let ir = optimized(
        r#"
        body = { ("\\" ("n" | "\\") | (!("\"" | "\\") ANY))* }
    "#,
    );
    assert!(matches!(&ir.rules[0].expr, MirExpr::Scan { min: 0, .. }));
}

#[test]
fn scan_skips_plain_only_repeat() {
    let ir = optimized(r#"body = { ('a'..'z')* }"#);
    assert!(matches!(
        &ir.rules[0].expr,
        MirExpr::TakeWhile {
            min: 0,
            max: None,
            ..
        }
    ));
}

#[test]
fn recognizes_delimited_string_shape() {
    let ir = optimized(
        r#"
        hex         = { '0'..'9' | 'a'..'f' | 'A'..'F' }
        uni_escape  = { "\\u" hex hex hex hex }
        escape      = { "\\" ("\"" | "\\" | "/" | "b" | "f" | "n" | "r" | "t") }
        string_char = { uni_escape | escape | (!("\"" | "\\") ANY) }
        string      = { "\"" string_char* "\"" }
    "#,
    );
    let string = ir.rules.iter().find(|r| r.name == "string").unwrap();
    assert!(matches!(&string.expr, MirExpr::Delimited { .. }));
}

#[test]
fn delimited_keeps_literals_and_body() {
    let ir = optimized(r#"quoted = { "<" 'a'..'z'* ">" }"#);
    match &ir.rules[0].expr {
        MirExpr::Delimited { open, body, close } => {
            assert_eq!(open, "<");
            assert_eq!(close, ">");
            assert!(matches!(&**body, MirExpr::TakeWhile { min: 0, max: None, .. }));
        }
        other => panic!("expected Delimited, got {other:?}"),
    }
}

#[test]
fn ignores_plain_sequence_without_delimiters() {
    let ir = optimized(
        r#"
        prefix = { "a"+ }
        triple = { prefix "b" "c" }
    "#,
    );
    let triple = ir.rules.iter().find(|r| r.name == "triple").unwrap();
    assert!(matches!(&triple.expr, MirExpr::Sequence(_)));
}
