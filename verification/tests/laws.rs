use faputa::ir::{lower, optimize, IrExpr};
use faputa::mir;

fn ranges_of_arms(e: &IrExpr) -> Vec<Vec<faputa::ir::CharRange>> {
    match e {
        IrExpr::Dispatch(arms) => arms.iter().map(|a| a.ranges.clone()).collect(),
        other => panic!("expected Dispatch, got {other:?}"),
    }
}

#[test]
fn dispatch_arms_are_disjoint() {
    let g = faputa::compile(r#"v = { "true" | "false" | "null" | "nope" }"#).unwrap();
    let p = mir::optimize(mir::lower(&optimize(lower(&g))));
    let arms = ranges_of_arms(&p.rules[0].expr);
    assert_eq!(arms.len(), 3);
    for i in 0..arms.len() {
        for j in 0..arms.len() {
            if i != j {
                assert!(!faputa::ranges::ranges_overlap_any(&arms[i], &arms[j]));
            }
        }
    }
}

#[test]
fn optimizing_keeps_rules_in_place() {
    let g = faputa::compile("a = { b c }\nb = { \"x\" }\nc = { 'a'..'z'+ }").unwrap();
    let lowered = lower(&g);
    let names: Vec<String> = lowered.rules.iter().map(|r| r.name.clone()).collect();
    let p = optimize(lowered);
    let after: Vec<String> = p.rules.iter().map(|r| r.name.clone()).collect();
    assert_eq!(names, after);
    assert!(p.rules[1].inline);
}

#[test]
fn lowering_resolves_references_to_rule_indices() {
    let g = faputa::compile("a = { b | c }\nb = { \"x\" }\nc = { a }").unwrap();
    let p = lower(&g);
    assert_eq!(p.rules.len(), 3);
    assert_eq!(p.rules[0].expr, IrExpr::Choice(vec![IrExpr::RuleRef(1), IrExpr::RuleRef(2)]));
    assert_eq!(p.rules[2].expr, IrExpr::RuleRef(0));
    assert!(p.rules.iter().all(|r| !r.inline && r.ref_count == 0));
    assert_eq!(p.rule_index("c"), Some(2));
    assert_eq!(p.rule_index("z"), None);
    assert!(p.rule(3).is_none());
    assert_eq!(p.rule(1).map(|r| r.name.as_str()), Some("b"));
}

#[test]
fn ref_counts_count_call_sites_outside_inlined_rules() {
    let g = faputa::compile("let flag f\ns = { guard f \"x\" }\na = { s s }\nb = { s }").unwrap();
    let p = optimize(lower(&g));
    let s = p.rules.iter().find(|r| r.name == "s").unwrap();
    assert_eq!(s.ref_count, 3);
}

#[test]
fn cost_keeps_stateful_rules_out_of_line() {
    let g = faputa::compile("let flag f\nw = { with f { \"x\" } }\nmain = { w }").unwrap();
    let p = optimize(lower(&g));
    assert!(!p.rules[0].inline);
    assert_eq!(p.rules[1].expr, IrExpr::RuleRef(0));
}

fn refs_below(e: &IrExpr, n: usize) -> bool {
    match e {
        IrExpr::RuleRef(i) => *i < n,
        IrExpr::Sequence(items) | IrExpr::Choice(items) => items.iter().all(|x| refs_below(x, n)),
        IrExpr::Dispatch(arms) => arms.iter().all(|a| refs_below(&a.expr, n)),
        IrExpr::Scan { specials, .. } => specials.iter().all(|a| refs_below(&a.expr, n)),
        IrExpr::Repeat { expr, .. }
        | IrExpr::PosLookahead(expr)
        | IrExpr::NegLookahead(expr)
        | IrExpr::Labeled { expr, .. } => refs_below(expr, n),
        IrExpr::WithFlag { body, .. }
        | IrExpr::WithCounter { body, .. }
        | IrExpr::When { body, .. }
        | IrExpr::DepthLimit { body, .. } => refs_below(body, n),
        IrExpr::SeparatedList { first, rest } => refs_below(first, n) && refs_below(rest, n),
        _ => true,
    }
}

#[test]
fn optimizing_keeps_references_resolvable() {
    let source = r#"
        ws = { " " }
        digit = { '0'..'9' }
        number = { "-"? digit+ }
        item = { number | "[" list? "]" }
        list = { item ("," ws* item)* }
        doc = { SOI list EOI }
    "#;
    let g = faputa::compile(source).unwrap();
    let ir = optimize(lower(&g));
    let n = ir.rules.len();
    assert!(ir.rules.iter().all(|r| refs_below(&r.expr, n)));
    let m = mir::optimize(mir::lower(&ir));
    assert_eq!(m.rules.len(), n);
    assert!(m.rules.iter().all(|r| refs_below(&r.expr, n)));
}

#[test]
fn parsing_reads_back_every_construct() {
    let source = r#"
        let flag f
        let counter c
        r = @ "label" {
            guard !f
            guard c >= 2
            emit c
            ("a" | 'b'..'c')+ x{2,} y{,3} z{1,4} w{5} !"q" &ANY
            with f { "k" @ "kk" } | with c += 3 { LINE_START } | when f { EOI } | depth_limit(8) { SOI? }
        }
        x = { "x" }
        y = { "y" }
        z = { "z" }
        w = { "w" }
    "#;
    let g = faputa::parser::parse(source).expect("parse failed");
    assert_eq!(g.items.len(), 7);
    assert!(faputa::compile(source).is_ok());
}

#[test]
fn one_spelling_gives_one_grammar() {
    let spaced = "r = @ \"lbl\" {\n    guard c > 1\n    a b* | (c | d)?\n}\nlet flag f\n";
    let packed = "r=@\"lbl\"{guard c>1 a b*|(c|d)?}/* flags */let flag f // end";
    let a = faputa::parser::parse(spaced).expect("parse failed");
    let b = faputa::parser::parse(packed).expect("parse failed");
    assert_eq!(a, b);
    assert_eq!(a.items.len(), 2);
}

fn labels(e: &IrExpr, out: &mut Vec<String>) {
    match e {
        IrExpr::Labeled { expr, label } => {
            out.push(label.clone());
            labels(expr, out);
        }
        IrExpr::Sequence(items) | IrExpr::Choice(items) => items.iter().for_each(|x| labels(x, out)),
        IrExpr::Dispatch(arms) => arms.iter().for_each(|a| labels(&a.expr, out)),
        IrExpr::Scan { specials, .. } => specials.iter().for_each(|a| labels(&a.expr, out)),
        IrExpr::Repeat { expr, .. } | IrExpr::PosLookahead(expr) | IrExpr::NegLookahead(expr) => labels(expr, out),
        IrExpr::WithFlag { body, .. }
        | IrExpr::WithCounter { body, .. }
        | IrExpr::When { body, .. }
        | IrExpr::DepthLimit { body, .. } => labels(body, out),
        IrExpr::SeparatedList { first, rest } => {
            labels(first, out);
            labels(rest, out);
        }
        _ => {}
    }
}

#[test]
fn optimizing_keeps_labels() {
    let g = faputa::compile(r#"r = { ("x" @ "ex" | "y") 'a'..'c' @ "abc" "z" @ "zed" "w" }"#).unwrap();
    let p = optimize(lower(&g));
    let mut found = Vec::new();
    labels(&p.rules[0].expr, &mut found);
    found.sort();
    assert_eq!(found, vec!["abc".to_string(), "ex".to_string(), "zed".to_string()]);
}

#[test]
fn scanning_absorbs_a_labeled_plain_arm() {
    let g = faputa::compile(r#"s = { ("a" @ "letter" | "\\" ANY)* }"#).unwrap();
    let m = mir::optimize(mir::lower(&optimize(lower(&g))));
    assert!(matches!(&m.rules[0].expr, IrExpr::Scan { .. }));
    let mut found = Vec::new();
    labels(&m.rules[0].expr, &mut found);
    assert!(found.is_empty());
}

#[test]
fn lowering_keeps_definitions_in_order() {
    let g = faputa::compile(
        "let flag f\na = { guard f emit c \"x\"+ }\nlet counter c\nb = @ \"bee\" { a{2,3} }",
    )
    .unwrap();
    let p = lower(&g);
    assert_eq!(p.state_decls.len(), 2);
    assert_eq!(p.state_decls[0].name, "f");
    assert_eq!(p.state_decls[1].name, "c");
    assert_eq!(p.rules.len(), 2);
    assert_eq!(p.rules[0].name, "a");
    assert_eq!(p.rules[0].guards, vec![faputa::ast::GuardCondition::IsFlag("f".to_string())]);
    assert_eq!(p.rules[0].emits, vec!["c".to_string()]);
    assert_eq!(p.rules[1].error_label.as_deref(), Some("bee"));
    assert!(p.rules.iter().all(|r| !r.inline && r.ref_count == 0));
    assert!(matches!(&p.rules[1].expr, IrExpr::Repeat { min: 2, max: Some(3), .. }));
}

fn count_ref(e: &IrExpr, i: usize) -> usize {
    match e {
        IrExpr::RuleRef(j) => usize::from(*j == i),
        IrExpr::Sequence(items) | IrExpr::Choice(items) => items.iter().map(|x| count_ref(x, i)).sum(),
        IrExpr::Dispatch(arms) => arms.iter().map(|a| count_ref(&a.expr, i)).sum(),
        IrExpr::Scan { specials, .. } => specials.iter().map(|a| count_ref(&a.expr, i)).sum(),
        IrExpr::Repeat { expr, .. }
        | IrExpr::PosLookahead(expr)
        | IrExpr::NegLookahead(expr)
        | IrExpr::Labeled { expr, .. } => count_ref(expr, i),
        IrExpr::WithFlag { body, .. }
        | IrExpr::WithCounter { body, .. }
        | IrExpr::When { body, .. }
        | IrExpr::DepthLimit { body, .. } => count_ref(body, i),
        _ => 0,
    }
}

#[test]
fn reference_counts_count_references_of_the_optimized_program() {
    let g = faputa::compile(
        "digit = { '0'..'9' }\nnum = { digit+ }\npair = { num \",\" num | \"(\" pair \")\" }\ntop = { pair pair }",
    )
    .unwrap();
    let p = optimize(lower(&g));
    for i in 0..p.rules.len() {
        let n: usize = p.rules.iter().filter(|r| !r.inline).map(|r| count_ref(&r.expr, i)).sum();
        assert_eq!(p.rules[i].ref_count, n, "rule {}", p.rules[i].name);
    }
}

#[test]
fn only_rules_without_guards_or_emits_are_inlined() {
    let g = faputa::compile(
        "let flag active\nlet counter n\nspecial = { guard active \"x\" }\nbumped = { emit n \"y\" }\nplain = { \"z\" }\ntop = { special bumped plain }",
    )
    .unwrap();
    let p = optimize(lower(&g));
    for r in &p.rules {
        if r.inline {
            assert!(r.guards.is_empty() && r.emits.is_empty(), "rule {}", r.name);
        }
    }
    assert!(p.rules.iter().find(|r| r.name == "plain").unwrap().inline);
    assert!(!p.rules.iter().find(|r| r.name == "special").unwrap().inline);
}
