//! Lowering of the grammar syntax tree to the intermediate representation:
//! rule references are resolved to indices, groups are unwrapped, repetitions
//! get explicit bounds, and statements become guards and emits.
use crate::ast::{
    copy_condition, copy_option_string, copy_state_decl, copy_string, expr_models, lemma_expr_models_index,
    option_string_model, BuiltinPredicate, CondModel, Expr, ExprModel, Grammar, GuardCondition, Item, ItemModel,
    RepeatKind, RuleDef, RuleModel as AstRule, Statement, StatementModel, StateDecl, StateDeclModel,
};
use crate::hir::expr::{ir_models, lemma_models_index, Boundary, IrExpr, IrModel};
use crate::hir::program::{refs_below, refs_below_all, rule_model, rule_models, rules_closed, IrProgram, IrRule, ProgramModel, RuleModel};
use crate::ranges::CharRange;
use vstd::prelude::*;

verus! {

/// The names of the rule definitions, in order.
pub open spec fn rule_names(items: Seq<ItemModel>) -> Seq<Seq<char>>
    decreases items.len(),
{
    if items.len() == 0 {
        Seq::empty()
    } else {
        let prev = rule_names(items.drop_last());
        match items.last() {
            ItemModel::RuleDef(r) => prev.push(r.name),
            _ => prev,
        }
    }
}

/// The state declarations, in order.
pub open spec fn state_decls_of(items: Seq<ItemModel>) -> Seq<StateDeclModel>
    decreases items.len(),
{
    if items.len() == 0 {
        Seq::empty()
    } else {
        let prev = state_decls_of(items.drop_last());
        match items.last() {
            ItemModel::StateDecl(d) => prev.push(d),
            _ => prev,
        }
    }
}

/// The index of the last name equal to `n`, or -1: a later rule of the same
/// name takes the name over.
pub open spec fn last_index_of(names: Seq<Seq<char>>, n: Seq<char>) -> int
    decreases names.len(),
{
    if names.len() == 0 {
        -1
    } else if names.last() == n {
        names.len() - 1
    } else {
        last_index_of(names.drop_last(), n)
    }
}

/// Every rule reference in `e` names one of `names`.
pub open spec fn resolves(e: ExprModel, names: Seq<Seq<char>>) -> bool
    decreases e,
{
    match e {
        ExprModel::Ident(n) => names.contains(n),
        ExprModel::Sequence(items) => resolves_all(items, names),
        ExprModel::Choice(items) => resolves_all(items, names),
        ExprModel::Repeat { expr, .. } => resolves(*expr, names),
        ExprModel::PosLookahead(inner) => resolves(*inner, names),
        ExprModel::NegLookahead(inner) => resolves(*inner, names),
        ExprModel::Group(inner) => resolves(*inner, names),
        ExprModel::With { body, .. } => resolves(*body, names),
        ExprModel::WithIncrement { body, .. } => resolves(*body, names),
        ExprModel::When { body, .. } => resolves(*body, names),
        ExprModel::DepthLimit { body, .. } => resolves(*body, names),
        ExprModel::Labeled { expr, .. } => resolves(*expr, names),
        _ => true,
    }
}

pub open spec fn resolves_all(items: Seq<ExprModel>, names: Seq<Seq<char>>) -> bool
    decreases items,
{
    forall|i: int| 0 <= i < items.len() ==> resolves(#[trigger] items[i], names)
}

/// Every rule reference of every rule names a rule of the grammar.
pub open spec fn grammar_resolves(items: Seq<ItemModel>) -> bool {
    forall|i: int|
        0 <= i < items.len() ==> match #[trigger] items[i] {
            ItemModel::RuleDef(r) => resolves(r.expr, rule_names(items)),
            _ => true,
        }
}

pub open spec fn repeat_min(kind: RepeatKind) -> u32 {
    match kind {
        RepeatKind::ZeroOrMore => 0,
        RepeatKind::OneOrMore => 1,
        RepeatKind::Optional => 0,
        RepeatKind::Exact(n) => n,
        RepeatKind::AtLeast(n) => n,
        RepeatKind::AtMost(_) => 0,
        RepeatKind::Range(n, _) => n,
    }
}

pub open spec fn repeat_max(kind: RepeatKind) -> Option<u32> {
    match kind {
        RepeatKind::ZeroOrMore => None,
        RepeatKind::OneOrMore => None,
        RepeatKind::Optional => Some(1),
        RepeatKind::Exact(n) => Some(n),
        RepeatKind::AtLeast(_) => None,
        RepeatKind::AtMost(m) => Some(m),
        RepeatKind::Range(_, m) => Some(m),
    }
}

pub open spec fn builtin_model(b: BuiltinPredicate) -> IrModel {
    match b {
        BuiltinPredicate::Soi => IrModel::Boundary(Boundary::Soi),
        BuiltinPredicate::Eoi => IrModel::Boundary(Boundary::Eoi),
        BuiltinPredicate::Any => IrModel::Any,
        BuiltinPredicate::LineStart => IrModel::Boundary(Boundary::LineStart),
        BuiltinPredicate::LineEnd => IrModel::Boundary(Boundary::LineEnd),
    }
}

/// A lowered sequence or choice: a single item stands alone.
pub open spec fn unwrap_single(items: Seq<IrModel>, choice: bool) -> IrModel {
    if items.len() == 1 {
        items[0]
    } else if choice {
        IrModel::Choice(items)
    } else {
        IrModel::Sequence(items)
    }
}

/// The lowering of a syntax-tree expression, with rule names resolved through `names`.
pub open spec fn lower_expr_model(e: ExprModel, names: Seq<Seq<char>>) -> IrModel
    decreases e,
{
    match e {
        ExprModel::StringLit(s) => IrModel::Literal(s),
        ExprModel::CharRange(a, b) => IrModel::CharSet(seq![CharRange { start: a, end: b }]),
        ExprModel::Ident(n) => IrModel::RuleRef(last_index_of(names, n) as usize),
        ExprModel::Builtin(b) => builtin_model(b),
        ExprModel::Sequence(items) => unwrap_single(lower_all(items, names), false),
        ExprModel::Choice(items) => unwrap_single(lower_all(items, names), true),
        ExprModel::Repeat { expr, kind } => IrModel::Repeat {
            expr: Box::new(lower_expr_model(*expr, names)),
            min: repeat_min(kind),
            max: repeat_max(kind),
        },
        ExprModel::PosLookahead(inner) => IrModel::PosLookahead(Box::new(lower_expr_model(*inner, names))),
        ExprModel::NegLookahead(inner) => IrModel::NegLookahead(Box::new(lower_expr_model(*inner, names))),
        ExprModel::Group(inner) => lower_expr_model(*inner, names),
        ExprModel::With { flag, body } => IrModel::WithFlag { flag, body: Box::new(lower_expr_model(*body, names)) },
        ExprModel::WithIncrement { counter, amount, body } => IrModel::WithCounter {
            counter,
            amount,
            body: Box::new(lower_expr_model(*body, names)),
        },
        ExprModel::When { condition, body } => IrModel::When { condition, body: Box::new(lower_expr_model(*body, names)) },
        ExprModel::DepthLimit { limit, body } => IrModel::DepthLimit { limit, body: Box::new(lower_expr_model(*body, names)) },
        ExprModel::Labeled { expr, label } => IrModel::Labeled { expr: Box::new(lower_expr_model(*expr, names)), label },
    }
}

pub open spec fn lower_all(items: Seq<ExprModel>, names: Seq<Seq<char>>) -> Seq<IrModel>
    decreases items,
{
    Seq::new(items.len(), |i: int| if 0 <= i < items.len() { lower_expr_model(items[i], names) } else { IrModel::Any })
}

/// The conditions of the guard statements, in order.
pub open spec fn guards_of(stmts: Seq<StatementModel>) -> Seq<CondModel>
    decreases stmts.len(),
{
    if stmts.len() == 0 {
        Seq::empty()
    } else {
        let prev = guards_of(stmts.drop_last());
        match stmts.last() {
            StatementModel::Guard(c) => prev.push(c),
            _ => prev,
        }
    }
}

/// The counters of the emit statements, in order.
pub open spec fn emits_of(stmts: Seq<StatementModel>) -> Seq<Seq<char>>
    decreases stmts.len(),
{
    if stmts.len() == 0 {
        Seq::empty()
    } else {
        let prev = emits_of(stmts.drop_last());
        match stmts.last() {
            StatementModel::Emit(c) => prev.push(c),
            _ => prev,
        }
    }
}

/// A rule definition lowered: not inlined, no references counted yet.
pub open spec fn lower_rule_model(r: AstRule, names: Seq<Seq<char>>) -> RuleModel {
    RuleModel {
        name: r.name,
        inline: false,
        error_label: r.error_label,
        guards: guards_of(r.statements),
        emits: emits_of(r.statements),
        expr: lower_expr_model(r.expr, names),
        ref_count: 0,
    }
}

/// The lowered rule definitions, in order.
pub open spec fn lowered_rules(items: Seq<ItemModel>, names: Seq<Seq<char>>) -> Seq<RuleModel>
    decreases items.len(),
{
    if items.len() == 0 {
        Seq::empty()
    } else {
        let prev = lowered_rules(items.drop_last(), names);
        match items.last() {
            ItemModel::RuleDef(r) => prev.push(lower_rule_model(r, names)),
            _ => prev,
        }
    }
}

/// The program a grammar lowers to.
pub open spec fn lower_model(items: Seq<ItemModel>) -> ProgramModel {
    ProgramModel { state_decls: state_decls_of(items), rules: lowered_rules(items, rule_names(items)) }
}

pub open spec fn names_model(names: Seq<String>) -> Seq<Seq<char>> {
    names.map_values(|s: String| s@)
}

/// The index of the last of `names` equal to `name`.
fn resolve_name(names: &Vec<String>, name: &String) -> (res: usize)
    requires
        names_model(names@).contains(name@),
    ensures
        res as int == last_index_of(names_model(names@), name@),
{
    let ghost nm = names_model(names@);
    let mut i: usize = names.len();
    proof {
        assert(nm.take(i as int) =~= nm);
    }
    while i > 0
        invariant
            i <= names@.len(),
            nm == names_model(names@),
            nm.len() == names@.len(),
            last_index_of(nm, name@) == last_index_of(nm.take(i as int), name@),
            nm.take(i as int).contains(name@),
        decreases i,
    {
        proof {
            assert(nm.take(i as int).drop_last() =~= nm.take(i - 1));
            assert(nm.take(i as int).last() == names@[i - 1]@);
        }
        if names[i - 1] == *name {
            return i - 1;
        }
        proof {
            let k = choose|k: int| 0 <= k < nm.take(i as int).len() && nm.take(i as int)[k] == name@;
            assert(k != i - 1);
            assert(nm.take(i - 1)[k] == name@);
        }
        i = i - 1;
    }
    proof {
        let k = choose|k: int| 0 <= k < nm.take(0).len() && nm.take(0)[k] == name@;
        assert(false);
    }
    0
}

fn lower_builtin(b: BuiltinPredicate) -> (res: IrExpr)
    ensures
        res@ == builtin_model(b),
{
    match b {
        BuiltinPredicate::Soi => IrExpr::Boundary(Boundary::Soi),
        BuiltinPredicate::Eoi => IrExpr::Boundary(Boundary::Eoi),
        BuiltinPredicate::Any => IrExpr::Any,
        BuiltinPredicate::LineStart => IrExpr::Boundary(Boundary::LineStart),
        BuiltinPredicate::LineEnd => IrExpr::Boundary(Boundary::LineEnd),
    }
}

fn repeat_bounds(kind: RepeatKind) -> (res: (u32, Option<u32>))
    ensures
        res.0 == repeat_min(kind),
        res.1 == repeat_max(kind),
{
    match kind {
        RepeatKind::ZeroOrMore => (0, None),
        RepeatKind::OneOrMore => (1, None),
        RepeatKind::Optional => (0, Some(1)),
        RepeatKind::Exact(n) => (n, Some(n)),
        RepeatKind::AtLeast(n) => (n, None),
        RepeatKind::AtMost(m) => (0, Some(m)),
        RepeatKind::Range(n, m) => (n, Some(m)),
    }
}

/// A lowered sequence or choice, a single item standing alone.
fn unwrap_single_exec(items: Vec<IrExpr>, choice: bool) -> (res: IrExpr)
    ensures
        res@ == unwrap_single(ir_models(items@), choice),
{
    proof {
        lemma_models_index(items@);
    }
    if items.len() == 1 {
        let mut items = items;
        let ghost before = items@;
        let item = items.pop();
        match item {
            Some(x) => {
                assert(x == before[0]);
                x
            },
            None => IrExpr::Any,
        }
    } else if choice {
        IrExpr::Choice(items)
    } else {
        IrExpr::Sequence(items)
    }
}

/// Lower a syntax-tree expression, resolving rule names through `names`.
fn lower_expr(e: &Expr, names: &Vec<String>) -> (res: IrExpr)
    requires
        resolves(e@, names_model(names@)),
    ensures
        res@ == lower_expr_model(e@, names_model(names@)),
    decreases e,
{
    match e {
        Expr::StringLit(s) => IrExpr::Literal(copy_string(s)),
        Expr::CharRange(a, b) => {
            let mut v: Vec<CharRange> = Vec::new();
            v.push(CharRange::new(*a, *b));
            proof {
                assert(v@ =~= seq![CharRange { start: *a, end: *b }]);
            }
            IrExpr::CharSet(v)
        },
        Expr::Ident(name) => IrExpr::RuleRef(resolve_name(names, name)),
        Expr::Builtin(b) => lower_builtin(*b),
        Expr::Sequence(items) => {
            let r = lower_list(items, names);
            proof {
                lemma_models_index(r@);
                lemma_expr_models_index(items@);
                assert(ir_models(r@) =~= lower_all(expr_models(items@), names_model(names@)));
            }
            unwrap_single_exec(r, false)
        },
        Expr::Choice(items) => {
            let r = lower_list(items, names);
            proof {
                lemma_models_index(r@);
                lemma_expr_models_index(items@);
                assert(ir_models(r@) =~= lower_all(expr_models(items@), names_model(names@)));
            }
            unwrap_single_exec(r, true)
        },
        Expr::Repeat { expr, kind } => {
            let (min, max) = repeat_bounds(*kind);
            IrExpr::Repeat { expr: Box::new(lower_expr(expr, names)), min, max }
        },
        Expr::PosLookahead(inner) => IrExpr::PosLookahead(Box::new(lower_expr(inner, names))),
        Expr::NegLookahead(inner) => IrExpr::NegLookahead(Box::new(lower_expr(inner, names))),
        Expr::Group(inner) => lower_expr(inner, names),
        Expr::With(w) => IrExpr::WithFlag { flag: copy_string(&w.flag), body: Box::new(lower_expr(&w.body, names)) },
        Expr::WithIncrement(w) => IrExpr::WithCounter {
            counter: copy_string(&w.counter),
            amount: w.amount,
            body: Box::new(lower_expr(&w.body, names)),
        },
        Expr::When(w) => IrExpr::When { condition: copy_condition(&w.condition), body: Box::new(lower_expr(&w.body, names)) },
        Expr::DepthLimit(d) => IrExpr::DepthLimit { limit: d.limit, body: Box::new(lower_expr(&d.body, names)) },
        Expr::Labeled { expr, label } => IrExpr::Labeled { expr: Box::new(lower_expr(expr, names)), label: copy_string(label) },
    }
}

fn lower_list(items: &Vec<Expr>, names: &Vec<String>) -> (res: Vec<IrExpr>)
    requires
        resolves_all(expr_models(items@), names_model(names@)),
    ensures
        res@.len() == items@.len(),
        forall|k: int| 0 <= k < items@.len() ==> (#[trigger] res@[k])@ == lower_expr_model(items@[k]@, names_model(names@)),
    decreases items,
{
    proof {
        lemma_expr_models_index(items@);
    }
    let mut res: Vec<IrExpr> = Vec::new();
    let mut i: usize = 0;
    while i < items.len()
        invariant
            i <= items@.len(),
            res@.len() == i,
            resolves_all(expr_models(items@), names_model(names@)),
            expr_models(items@).len() == items@.len(),
            forall|k: int| 0 <= k < items@.len() ==> #[trigger] expr_models(items@)[k] == items@[k]@,
            forall|k: int| 0 <= k < i ==> (#[trigger] res@[k])@ == lower_expr_model(items@[k]@, names_model(names@)),
        decreases items@.len() - i,
    {
        proof {
            assert(decreases_to!(items => items@[i as int]));
            assert(resolves(expr_models(items@)[i as int], names_model(names@)));
        }
        res.push(lower_expr(&items[i], names));
        i = i + 1;
    }
    res
}

/// Lower one rule definition.
fn lower_rule(rule: &RuleDef, names: &Vec<String>) -> (res: IrRule)
    requires
        resolves(rule@.expr, names_model(names@)),
    ensures
        res@ == lower_rule_model(rule@, names_model(names@)),
{
    let ghost stmts = rule@.statements;
    let mut guards: Vec<GuardCondition> = Vec::new();
    let mut emits: Vec<String> = Vec::new();
    let mut i: usize = 0;
    proof {
        assert(stmts.take(0) =~= Seq::<StatementModel>::empty());
        assert(guards@.map_values(|g: GuardCondition| g@) =~= Seq::<CondModel>::empty());
        assert(emits@.map_values(|s: String| s@) =~= Seq::<Seq<char>>::empty());
    }
    while i < rule.body.statements.len()
        invariant
            i <= rule.body.statements@.len(),
            stmts == rule@.statements,
            stmts.len() == rule.body.statements@.len(),
            guards@.map_values(|g: GuardCondition| g@) == guards_of(stmts.take(i as int)),
            emits@.map_values(|s: String| s@) == emits_of(stmts.take(i as int)),
        decreases rule.body.statements@.len() - i,
    {
        proof {
            assert(stmts.take(i + 1).drop_last() =~= stmts.take(i as int));
            assert(stmts.take(i + 1).last() == rule.body.statements@[i as int]@);
        }
        let ghost g0 = guards@;
        let ghost e0 = emits@;
        match &rule.body.statements[i] {
            Statement::Guard(g) => {
                guards.push(copy_condition(&g.condition));
                proof {
                    assert(guards@.map_values(|g: GuardCondition| g@) =~= g0.map_values(|g: GuardCondition| g@).push(g.condition@));
                }
            },
            Statement::Emit(em) => {
                emits.push(copy_string(&em.counter));
                proof {
                    assert(emits@.map_values(|s: String| s@) =~= e0.map_values(|s: String| s@).push(em.counter@));
                }
            },
        }
        i = i + 1;
    }
    proof {
        assert(stmts.take(stmts.len() as int) =~= stmts);
    }
    IrRule {
        name: copy_string(&rule.name),
        inline: false,
        error_label: copy_option_string(&rule.error_label),
        guards,
        emits,
        expr: lower_expr(&rule.body.expr, names),
        ref_count: 0,
    }
}

/// Lower a grammar whose rule references all name rules of the grammar.
pub fn lower(grammar: &Grammar) -> (res: IrProgram)
    requires
        grammar_resolves(grammar@),
    ensures
        res@ == lower_model(grammar@),
{
    let ghost g = grammar@;
    let mut names: Vec<String> = Vec::new();
    let mut decls: Vec<StateDecl> = Vec::new();
    let mut i: usize = 0;
    proof {
        assert(g.take(0) =~= Seq::<ItemModel>::empty());
        assert(names_model(names@) =~= Seq::<Seq<char>>::empty());
        assert(decls@.map_values(|d: StateDecl| d@) =~= Seq::<StateDeclModel>::empty());
    }
    while i < grammar.items.len()
        invariant
            i <= grammar.items@.len(),
            g == grammar@,
            g.len() == grammar.items@.len(),
            names_model(names@) == rule_names(g.take(i as int)),
            decls@.map_values(|d: StateDecl| d@) == state_decls_of(g.take(i as int)),
        decreases grammar.items@.len() - i,
    {
        proof {
            assert(g.take(i + 1).drop_last() =~= g.take(i as int));
            assert(g.take(i + 1).last() == grammar.items@[i as int]@);
        }
        let ghost n0 = names@;
        let ghost d0 = decls@;
        match &grammar.items[i] {
            Item::RuleDef(r) => {
                names.push(copy_string(&r.name));
                proof {
                    assert(names_model(names@) =~= names_model(n0).push(r.name@));
                }
            },
            Item::StateDecl(d) => {
                decls.push(copy_state_decl(d));
                proof {
                    assert(decls@.map_values(|d: StateDecl| d@) =~= d0.map_values(|d: StateDecl| d@).push(d@));
                }
            },
        }
        i = i + 1;
    }
    proof {
        assert(g.take(g.len() as int) =~= g);
    }
    let ghost nm = names_model(names@);
    let mut rules: Vec<IrRule> = Vec::new();
    let mut j: usize = 0;
    proof {
        assert(rule_models(rules@) =~= Seq::<RuleModel>::empty());
    }
    while j < grammar.items.len()
        invariant
            j <= grammar.items@.len(),
            g == grammar@,
            g.len() == grammar.items@.len(),
            nm == names_model(names@),
            nm == rule_names(g),
            grammar_resolves(g),
            rule_models(rules@) == lowered_rules(g.take(j as int), nm),
        decreases grammar.items@.len() - j,
    {
        proof {
            assert(g.take(j + 1).drop_last() =~= g.take(j as int));
            assert(g.take(j + 1).last() == grammar.items@[j as int]@);
        }
        let ghost r0 = rules@;
        match &grammar.items[j] {
            Item::RuleDef(r) => {
                proof {
                    assert(g[j as int] == grammar.items@[j as int]@);
                }
                let lowered = lower_rule(r, &names);
                rules.push(lowered);
                proof {
                    assert(rule_models(rules@) =~= rule_models(r0).push(lower_rule_model(r@, nm)));
                }
            },
            Item::StateDecl(_) => {},
        }
        j = j + 1;
    }
    let res = IrProgram { state_decls: decls, rules };
    proof {
        assert(g.take(g.len() as int) =~= g);
        assert(res@ =~= lower_model(g));
    }
    res
}

// ── Laws ──

proof fn lemma_last_index_in(names: Seq<Seq<char>>, n: Seq<char>)
    requires
        names.contains(n),
    ensures
        0 <= last_index_of(names, n) < names.len(),
        names[last_index_of(names, n)] == n,
    decreases names.len(),
{
    if names.last() != n {
        let k = choose|k: int| 0 <= k < names.len() && names[k] == n;
        assert(names.drop_last()[k] == n);
        lemma_last_index_in(names.drop_last(), n);
    }
}

proof fn lemma_lower_expr_closed(e: ExprModel, names: Seq<Seq<char>>)
    requires
        resolves(e, names),
    ensures
        refs_below(lower_expr_model(e, names), names.len()),
    decreases e,
{
    match e {
        ExprModel::Ident(n) => {
            lemma_last_index_in(names, n);
        },
        ExprModel::Sequence(items) => {
            lemma_lower_all_closed(items, names);
        },
        ExprModel::Choice(items) => {
            lemma_lower_all_closed(items, names);
        },
        ExprModel::Repeat { expr, .. } => lemma_lower_expr_closed(*expr, names),
        ExprModel::PosLookahead(inner) => lemma_lower_expr_closed(*inner, names),
        ExprModel::NegLookahead(inner) => lemma_lower_expr_closed(*inner, names),
        ExprModel::Group(inner) => lemma_lower_expr_closed(*inner, names),
        ExprModel::With { body, .. } => lemma_lower_expr_closed(*body, names),
        ExprModel::WithIncrement { body, .. } => lemma_lower_expr_closed(*body, names),
        ExprModel::When { body, .. } => lemma_lower_expr_closed(*body, names),
        ExprModel::DepthLimit { body, .. } => lemma_lower_expr_closed(*body, names),
        ExprModel::Labeled { expr, .. } => lemma_lower_expr_closed(*expr, names),
        _ => {},
    }
}

proof fn lemma_lower_all_closed(items: Seq<ExprModel>, names: Seq<Seq<char>>)
    requires
        resolves_all(items, names),
    ensures
        refs_below_all(lower_all(items, names), names.len()),
        lower_all(items, names).len() == 1 ==> refs_below(lower_all(items, names)[0], names.len()),
    decreases items,
{
    assert forall|i: int| 0 <= i < items.len() implies refs_below(#[trigger] lower_all(items, names)[i], names.len()) by {
        assert(resolves(items[i], names));
        lemma_lower_expr_closed(items[i], names);
    }
}

proof fn lemma_lowered_rules(items: Seq<ItemModel>, all: Seq<ItemModel>, names: Seq<Seq<char>>)
    requires
        names == rule_names(all),
        grammar_resolves(all),
        forall|k: int| 0 <= k < items.len() ==> #[trigger] items[k] == all[k],
        items.len() <= all.len(),
    ensures
        lowered_rules(items, names).len() == rule_names(items).len(),
        forall|i: int| 0 <= i < lowered_rules(items, names).len() ==> {
            &&& refs_below((#[trigger] lowered_rules(items, names)[i]).expr, names.len())
            &&& !lowered_rules(items, names)[i].inline
            &&& lowered_rules(items, names)[i].ref_count == 0
        },
    decreases items.len(),
{
    if items.len() > 0 {
        lemma_lowered_rules(items.drop_last(), all, names);
        match items.last() {
            ItemModel::RuleDef(r) => {
                assert(all[items.len() - 1] == items.last());
                assert(resolves(r.expr, rule_names(all)));
                lemma_lower_expr_closed(r.expr, names);
            },
            _ => {},
        }
    }
}

/// The rule definitions of `items`, in order.
pub open spec fn rule_defs(items: Seq<ItemModel>) -> Seq<AstRule>
    decreases items.len(),
{
    if items.len() == 0 {
        Seq::empty()
    } else {
        let prev = rule_defs(items.drop_last());
        match items.last() {
            ItemModel::RuleDef(r) => prev.push(r),
            _ => prev,
        }
    }
}

/// Lowering keeps the state declarations in order, and gives one rule per
/// rule definition, in order, with its name, error label, guard conditions
/// and emitted counters, not inlined and with no call site counted.
pub proof fn law_lower_keeps_definitions(items: Seq<ItemModel>)
    ensures
        lower_model(items).state_decls == state_decls_of(items),
        lower_model(items).rules.len() == rule_defs(items).len(),
        rule_names(items).len() == rule_defs(items).len(),
        forall|i: int|
            0 <= i < rule_defs(items).len() ==> {
                let r = #[trigger] lower_model(items).rules[i];
                let d = rule_defs(items)[i];
                &&& r.name == d.name
                &&& rule_names(items)[i] == d.name
                &&& r.error_label == d.error_label
                &&& !r.inline
                &&& r.ref_count == 0
                &&& r.guards == guards_of(d.statements)
                &&& r.emits == emits_of(d.statements)
            },
{
    lemma_lowered_rules_defs(items, rule_names(items));
}

proof fn lemma_lowered_rules_defs(items: Seq<ItemModel>, names: Seq<Seq<char>>)
    ensures
        lowered_rules(items, names).len() == rule_defs(items).len(),
        rule_names(items).len() == rule_defs(items).len(),
        forall|i: int|
            0 <= i < rule_defs(items).len() ==> #[trigger] lowered_rules(items, names)[i] == lower_rule_model(
                rule_defs(items)[i],
                names,
            ) && rule_names(items)[i] == rule_defs(items)[i].name,
    decreases items.len(),
{
    if items.len() > 0 {
        let d = items.drop_last();
        lemma_lowered_rules_defs(d, names);
        match items.last() {
            ItemModel::RuleDef(r) => {
                assert(rule_defs(items) == rule_defs(d).push(r));
                assert(lowered_rules(items, names) == lowered_rules(d, names).push(lower_rule_model(r, names)));
                assert(rule_names(items) == rule_names(d).push(r.name));
                assert forall|i: int| 0 <= i < rule_defs(items).len() implies #[trigger] lowered_rules(items, names)[i]
                    == lower_rule_model(rule_defs(items)[i], names) && rule_names(items)[i] == rule_defs(items)[i].name by {
                    if i < rule_defs(d).len() {
                        assert(lowered_rules(d, names)[i] == lower_rule_model(rule_defs(d)[i], names));
                    }
                }
            },
            _ => {
                assert(rule_defs(items) == rule_defs(d));
                assert(lowered_rules(items, names) == lowered_rules(d, names));
                assert(rule_names(items) == rule_names(d));
            },
        }
    }
}

/// A repetition lowers to a repetition of the lowered expression, with the
/// bounds `*` (0, none), `+` (1, none), `?` (0, 1), `{n}` (n, n), `{n,}`
/// (n, none), `{,m}` (0, m) and `{n,m}` (n, m).
pub proof fn law_lower_repeat_bounds(e: ExprModel, kind: RepeatKind, names: Seq<Seq<char>>)
    ensures
        lower_expr_model(ExprModel::Repeat { expr: Box::new(e), kind }, names) == (match kind {
            RepeatKind::ZeroOrMore => IrModel::Repeat { expr: Box::new(lower_expr_model(e, names)), min: 0, max: None },
            RepeatKind::OneOrMore => IrModel::Repeat { expr: Box::new(lower_expr_model(e, names)), min: 1, max: None },
            RepeatKind::Optional => IrModel::Repeat { expr: Box::new(lower_expr_model(e, names)), min: 0, max: Some(1) },
            RepeatKind::Exact(n) => IrModel::Repeat { expr: Box::new(lower_expr_model(e, names)), min: n, max: Some(n) },
            RepeatKind::AtLeast(n) => IrModel::Repeat { expr: Box::new(lower_expr_model(e, names)), min: n, max: None },
            RepeatKind::AtMost(m) => IrModel::Repeat { expr: Box::new(lower_expr_model(e, names)), min: 0, max: Some(m) },
            RepeatKind::Range(n, m) => IrModel::Repeat { expr: Box::new(lower_expr_model(e, names)), min: n, max: Some(m) },
        }),
{
}

/// Lowering a grammar whose references all resolve gives a program whose rule
/// references all index its rules; no rule is inlined yet and no call site is
/// counted yet.
pub proof fn law_lower_closed(items: Seq<ItemModel>)
    requires
        grammar_resolves(items),
    ensures
        rules_closed(lower_model(items).rules),
        forall|i: int| 0 <= i < lower_model(items).rules.len() ==> !(#[trigger] lower_model(items).rules[i]).inline
            && lower_model(items).rules[i].ref_count == 0,
{
    lemma_lowered_rules(items, items, rule_names(items));
}


/// Each builtin lowers to the boundary of the same name, and `ANY` to
/// matching any character: `SOI`, `EOI`, `LINE_START` and `LINE_END` to the
/// start of input, end of input, start of a line and end of a line.
pub proof fn law_lower_builtins(names: Seq<Seq<char>>)
    ensures
        lower_expr_model(ExprModel::Builtin(BuiltinPredicate::Soi), names) == IrModel::Boundary(Boundary::Soi),
        lower_expr_model(ExprModel::Builtin(BuiltinPredicate::Eoi), names) == IrModel::Boundary(Boundary::Eoi),
        lower_expr_model(ExprModel::Builtin(BuiltinPredicate::Any), names) == IrModel::Any,
        lower_expr_model(ExprModel::Builtin(BuiltinPredicate::LineStart), names) == IrModel::Boundary(Boundary::LineStart),
        lower_expr_model(ExprModel::Builtin(BuiltinPredicate::LineEnd), names) == IrModel::Boundary(Boundary::LineEnd),
{
}


/// A reference to a rule name lowers to the index of a rule of that name,
/// the last one when several share it.
pub proof fn law_lower_reference_names_the_rule(n: Seq<char>, names: Seq<Seq<char>>)
    requires
        names.contains(n),
        names.len() <= usize::MAX,
    ensures
        lower_expr_model(ExprModel::Ident(n), names) is RuleRef,
        0 <= lower_expr_model(ExprModel::Ident(n), names)->RuleRef_0 < names.len(),
        names[lower_expr_model(ExprModel::Ident(n), names)->RuleRef_0 as int] == n,
        forall|j: int|
            lower_expr_model(ExprModel::Ident(n), names)->RuleRef_0 < j < names.len() ==> names[j] != n,
{
    lemma_last_index_in(names, n);
    lemma_last_index_is_last(names, n);
}

proof fn lemma_last_index_is_last(names: Seq<Seq<char>>, n: Seq<char>)
    ensures
        forall|j: int| 0 <= j && last_index_of(names, n) < j < names.len() ==> names[j] != n,
    decreases names.len(),
{
    if names.len() > 0 && names.last() != n {
        let d = names.drop_last();
        lemma_last_index_is_last(d, n);
        assert(last_index_of(names, n) == last_index_of(d, n));
        assert forall|j: int| 0 <= j && last_index_of(names, n) < j < names.len() implies names[j] != n by {
            if j < names.len() - 1 {
                assert(d[j] == names[j]);
                assert(last_index_of(d, n) < j < d.len());
            }
        }
    }
}


/// Lowering keeps what each construct says: a string is matched as the same
/// literal, a character range as the set of that one range, a group as its
/// contents, and `with`, `with +=`, `when`, `depth_limit`, lookaheads and
/// labels keep their flag, counter and amount, condition, limit, polarity
/// and label around the lowered body.
pub proof fn law_lower_keeps_constructs(
    e: ExprModel,
    names: Seq<Seq<char>>,
    s: Seq<char>,
    a: char,
    b: char,
    name: Seq<char>,
    amount: u32,
    condition: CondModel,
)
    ensures
        lower_expr_model(ExprModel::StringLit(s), names) == IrModel::Literal(s),
        lower_expr_model(ExprModel::CharRange(a, b), names) == IrModel::CharSet(seq![CharRange { start: a, end: b }]),
        lower_expr_model(ExprModel::Group(Box::new(e)), names) == lower_expr_model(e, names),
        lower_expr_model(ExprModel::PosLookahead(Box::new(e)), names) == IrModel::PosLookahead(
            Box::new(lower_expr_model(e, names)),
        ),
        lower_expr_model(ExprModel::NegLookahead(Box::new(e)), names) == IrModel::NegLookahead(
            Box::new(lower_expr_model(e, names)),
        ),
        lower_expr_model((ExprModel::With { flag: name, body: Box::new(e) }), names) == (IrModel::WithFlag {
            flag: name,
            body: Box::new(lower_expr_model(e, names)),
        }),
        lower_expr_model((ExprModel::WithIncrement { counter: name, amount, body: Box::new(e) }), names) == (
        IrModel::WithCounter { counter: name, amount, body: Box::new(lower_expr_model(e, names)) }),
        lower_expr_model((ExprModel::When { condition, body: Box::new(e) }), names) == (IrModel::When {
            condition,
            body: Box::new(lower_expr_model(e, names)),
        }),
        lower_expr_model((ExprModel::DepthLimit { limit: amount, body: Box::new(e) }), names) == (IrModel::DepthLimit {
            limit: amount,
            body: Box::new(lower_expr_model(e, names)),
        }),
        lower_expr_model((ExprModel::Labeled { expr: Box::new(e), label: name }), names) == (IrModel::Labeled {
            expr: Box::new(lower_expr_model(e, names)),
            label: name,
        }),
{
}

/// Lowering a sequence or choice of two or more items keeps the items in
/// order, each lowered; one item stands alone.
pub proof fn law_lower_keeps_item_order(items: Seq<ExprModel>, names: Seq<Seq<char>>)
    ensures
        items.len() >= 2 ==> lower_expr_model(ExprModel::Sequence(items), names) is Sequence,
        items.len() >= 2 ==> lower_expr_model(ExprModel::Choice(items), names) is Choice,
        items.len() >= 2 ==> lower_expr_model(ExprModel::Sequence(items), names)->Sequence_0.len() == items.len(),
        items.len() >= 2 ==> lower_expr_model(ExprModel::Choice(items), names)->Choice_0.len() == items.len(),
        items.len() >= 2 ==> forall|k: int|
            0 <= k < items.len() ==> lower_expr_model(ExprModel::Sequence(items), names)->Sequence_0[k]
                == lower_expr_model(#[trigger] items[k], names),
        items.len() >= 2 ==> forall|k: int|
            0 <= k < items.len() ==> lower_expr_model(ExprModel::Choice(items), names)->Choice_0[k] == lower_expr_model(
                #[trigger] items[k],
                names,
            ),
        items.len() == 1 ==> lower_expr_model(ExprModel::Sequence(items), names) == lower_expr_model(items[0], names),
        items.len() == 1 ==> lower_expr_model(ExprModel::Choice(items), names) == lower_expr_model(items[0], names),
{
    let l = lower_all(items, names);
    assert(l.len() == items.len());
    assert forall|k: int| 0 <= k < items.len() implies l[k] == lower_expr_model(#[trigger] items[k], names) by {}
    if items.len() == 1 {
        assert(l[0] == lower_expr_model(items[0], names));
    }
}

} // verus!
