//! What the generated module holds: the parse state's fields, and one
//! function per rule.
use super::code::{Code, CodeModel};
use super::expr::{expr_code, name_models, plan_expr};
use crate::ast::{copy_condition, copy_string, BuiltinPredicate, CondModel, GuardCondition, StateDecl, StateDeclModel, StateKind};
use crate::hir::program::{rules_closed, IrProgram, IrRule, ProgramModel, RuleModel};
use vstd::prelude::*;

verus! {

/// The function generated for one rule.
#[derive(Debug)]
pub struct RulePlan {
    /// The function's name: the rule's name.
    pub name: String,
    /// The label of its error context: the rule's own label, else its name.
    pub label: String,
    /// No rule refers to it, so it also gets a trace span under the label.
    pub entry: bool,
    /// It has statements, which run in a closure before its expression.
    pub with_statements: bool,
    /// The guards that check something, in order (a guard on `ANY` always
    /// holds).
    pub checks: Vec<GuardCondition>,
    /// The counters incremented by one before the expression, in order.
    pub emits: Vec<String>,
    /// The code of the rule's expression.
    pub body: Code,
}

/// The fields of the generated parse state.
#[derive(Debug)]
pub struct StatePlan {
    /// The declared flags, in declaration order.
    pub flags: Vec<String>,
    /// The declared counters, in declaration order.
    pub counters: Vec<String>,
}

/// Everything the generated module is made from.
#[derive(Debug)]
pub struct ModulePlan {
    pub state: StatePlan,
    /// One function per rule, in the program's order.
    pub rules: Vec<RulePlan>,
}

// ── Mathematical model ──

pub struct RulePlanModel {
    pub name: Seq<char>,
    pub label: Seq<char>,
    pub entry: bool,
    pub with_statements: bool,
    pub checks: Seq<CondModel>,
    pub emits: Seq<Seq<char>>,
    pub body: CodeModel,
}

pub struct StatePlanModel {
    pub flags: Seq<Seq<char>>,
    pub counters: Seq<Seq<char>>,
}

pub struct ModulePlanModel {
    pub state: StatePlanModel,
    pub rules: Seq<RulePlanModel>,
}

/// The models of a list of conditions.
pub open spec fn cond_models(s: Seq<GuardCondition>) -> Seq<CondModel> {
    Seq::new(s.len(), |i: int| s[i]@)
}

impl View for RulePlan {
    type V = RulePlanModel;

    open spec fn view(&self) -> RulePlanModel {
        RulePlanModel {
            name: self.name@,
            label: self.label@,
            entry: self.entry,
            with_statements: self.with_statements,
            checks: cond_models(self.checks@),
            emits: name_models(self.emits@),
            body: self.body@,
        }
    }
}

impl View for StatePlan {
    type V = StatePlanModel;

    open spec fn view(&self) -> StatePlanModel {
        StatePlanModel { flags: name_models(self.flags@), counters: name_models(self.counters@) }
    }
}

/// The models of a list of rule plans.
pub open spec fn rule_plan_models(s: Seq<RulePlan>) -> Seq<RulePlanModel> {
    Seq::new(s.len(), |i: int| s[i]@)
}

impl View for ModulePlan {
    type V = ModulePlanModel;

    open spec fn view(&self) -> ModulePlanModel {
        ModulePlanModel { state: self.state@, rules: rule_plan_models(self.rules@) }
    }
}

// ── What is generated ──

/// A guard on `ANY` holds everywhere and checks nothing.
pub open spec fn checks_nothing(g: CondModel) -> bool {
    g matches CondModel::Builtin(BuiltinPredicate::Any)
}

/// The guards that check something, in order.
pub open spec fn guard_checks(s: Seq<CondModel>) -> Seq<CondModel>
    decreases s.len(),
{
    if s.len() == 0 {
        s
    } else if checks_nothing(s.last()) {
        guard_checks(s.drop_last())
    } else {
        guard_checks(s.drop_last()).push(s.last())
    }
}

/// The names of the declarations of one kind, in order.
pub open spec fn names_of_kind(s: Seq<StateDeclModel>, kind: StateKind) -> Seq<Seq<char>>
    decreases s.len(),
{
    if s.len() == 0 {
        Seq::empty()
    } else if s.last().kind == kind {
        names_of_kind(s.drop_last(), kind).push(s.last().name)
    } else {
        names_of_kind(s.drop_last(), kind)
    }
}

/// The names of the rules, in order.
pub open spec fn rule_names(rules: Seq<RuleModel>) -> Seq<Seq<char>> {
    Seq::new(rules.len(), |i: int| rules[i].name)
}

/// The function generated for a rule, calling rule `i` by `names[i]`.
pub open spec fn rule_plan(r: RuleModel, names: Seq<Seq<char>>) -> RulePlanModel {
    RulePlanModel {
        name: r.name,
        label: match r.error_label {
            Some(l) => l,
            None => r.name,
        },
        entry: r.ref_count == 0,
        with_statements: r.guards.len() > 0 || r.emits.len() > 0,
        checks: guard_checks(r.guards),
        emits: r.emits,
        body: expr_code(r.expr, names),
    }
}

/// The fields of the parse state: flags and counters, each in order.
pub open spec fn state_plan(decls: Seq<StateDeclModel>) -> StatePlanModel {
    StatePlanModel { flags: names_of_kind(decls, StateKind::Flag), counters: names_of_kind(decls, StateKind::Counter) }
}

/// The plan of the module generated for a program.
pub open spec fn module_plan(p: ProgramModel) -> ModulePlanModel {
    ModulePlanModel {
        state: state_plan(p.state_decls),
        rules: Seq::new(p.rules.len(), |i: int| rule_plan(p.rules[i], rule_names(p.rules))),
    }
}

proof fn lemma_name_models_push(s: Seq<String>, x: String)
    ensures
        name_models(s.push(x)) == name_models(s).push(x@),
{
    assert(name_models(s.push(x)) =~= name_models(s).push(x@));
}

/// The guard conditions that check something, in order.
pub fn plan_checks(guards: &Vec<GuardCondition>) -> (res: Vec<GuardCondition>)
    ensures
        cond_models(res@) == guard_checks(cond_models(guards@)),
{
    let ghost all = cond_models(guards@);
    let mut res: Vec<GuardCondition> = Vec::new();
    let mut i: usize = 0;
    while i < guards.len()
        invariant
            i <= guards@.len(),
            all == cond_models(guards@),
            cond_models(res@) == guard_checks(all.take(i as int)),
        decreases guards@.len() - i,
    {
        proof {
            assert(all.take(i + 1).drop_last() =~= all.take(i as int));
            assert(all.take(i + 1).last() == guards@[i as int]@);
        }
        let any = match &guards[i] {
            GuardCondition::Builtin(BuiltinPredicate::Any) => true,
            _ => false,
        };
        if !any {
            let ghost before = res@;
            res.push(copy_condition(&guards[i]));
            proof {
                assert(cond_models(res@) =~= cond_models(before).push(guards@[i as int]@));
            }
        }
        i = i + 1;
    }
    proof {
        assert(all.take(guards@.len() as int) =~= all);
    }
    res
}

/// The names of the declarations of one kind, in order.
pub fn plan_names_of_kind(decls: &Vec<StateDecl>, kind: StateKind) -> (res: Vec<String>)
    ensures
        name_models(res@) == names_of_kind(decls@.map_values(|d: StateDecl| d@), kind),
{
    let ghost all = decls@.map_values(|d: StateDecl| d@);
    let mut res: Vec<String> = Vec::new();
    let mut i: usize = 0;
    while i < decls.len()
        invariant
            i <= decls@.len(),
            all == decls@.map_values(|d: StateDecl| d@),
            name_models(res@) == names_of_kind(all.take(i as int), kind),
        decreases decls@.len() - i,
    {
        proof {
            assert(all.take(i + 1).drop_last() =~= all.take(i as int));
            assert(all.take(i + 1).last() == decls@[i as int]@);
        }
        if decls[i].kind == kind {
            let ghost before = res@;
            res.push(copy_string(&decls[i].name));
            proof {
                assert(name_models(res@) =~= name_models(before).push(decls@[i as int].name@));
            }
        }
        i = i + 1;
    }
    proof {
        assert(all.take(decls@.len() as int) =~= all);
    }
    res
}

/// The function generated for a rule; rule `i` is called by `names[i]`.
pub fn plan_rule(rule: &IrRule, names: &Vec<String>) -> (res: RulePlan)
    requires
        crate::hir::program::refs_below(rule.expr@, names@.len()),
    ensures
        res@ == rule_plan(rule@, name_models(names@)),
{
    let label = match &rule.error_label {
        Some(l) => copy_string(l),
        None => copy_string(&rule.name),
    };
    let checks = plan_checks(&rule.guards);
    let mut emits: Vec<String> = Vec::new();
    let mut i: usize = 0;
    while i < rule.emits.len()
        invariant
            i <= rule.emits@.len(),
            name_models(emits@) == name_models(rule.emits@).take(i as int),
        decreases rule.emits@.len() - i,
    {
        let ghost before = emits@;
        let e = copy_string(&rule.emits[i]);
        emits.push(e);
        proof {
            lemma_name_models_push(before, e);
            assert(name_models(emits@) =~= name_models(rule.emits@).take(i + 1));
        }
        i = i + 1;
    }
    let body = plan_expr(&rule.expr, names);
    let res = RulePlan {
        name: copy_string(&rule.name),
        label,
        entry: rule.ref_count == 0,
        with_statements: rule.guards.len() > 0 || rule.emits.len() > 0,
        checks,
        emits,
        body,
    };
    proof {
        assert(name_models(rule.emits@).take(rule.emits@.len() as int) =~= name_models(rule.emits@));
        assert(cond_models(rule.guards@) =~= rule@.guards);
        assert(name_models(rule.emits@) =~= rule@.emits);
        assert(res@.label == rule_plan(rule@, name_models(names@)).label);
    }
    res
}

/// The state fields of a program's parse state.
pub fn plan_state(program: &IrProgram) -> (res: StatePlan)
    ensures
        res@ == state_plan(program@.state_decls),
{
    let flags = plan_names_of_kind(&program.state_decls, StateKind::Flag);
    let counters = plan_names_of_kind(&program.state_decls, StateKind::Counter);
    StatePlan { flags, counters }
}

/// The plan of the module generated for a program whose rule references
/// all name rules of the program.
pub fn plan_module(program: &IrProgram) -> (res: ModulePlan)
    requires
        program.wf(),
    ensures
        res@ == module_plan(program@),
{
    let mut names: Vec<String> = Vec::new();
    let mut i: usize = 0;
    while i < program.rules.len()
        invariant
            i <= program.rules@.len(),
            name_models(names@) == rule_names(program@.rules).take(i as int),
        decreases program.rules@.len() - i,
    {
        let ghost before = names@;
        let n = copy_string(&program.rules[i].name);
        names.push(n);
        proof {
            lemma_name_models_push(before, n);
            assert(rule_names(program@.rules)[i as int] == program.rules@[i as int].name@);
            assert(name_models(names@) =~= rule_names(program@.rules).take(i + 1));
        }
        i = i + 1;
    }
    proof {
        assert(rule_names(program@.rules).take(program.rules@.len() as int) =~= rule_names(program@.rules));
    }
    let mut rules: Vec<RulePlan> = Vec::new();
    let mut k: usize = 0;
    while k < program.rules.len()
        invariant
            k <= program.rules@.len(),
            names@.len() == program.rules@.len(),
            name_models(names@) == rule_names(program@.rules),
            rules_closed(program@.rules),
            rules@.len() == k,
            forall|j: int|
                0 <= j < k ==> (#[trigger] rules@[j])@ == rule_plan(program@.rules[j], rule_names(program@.rules)),
        decreases program.rules@.len() - k,
    {
        proof {
            assert(program@.rules[k as int] == program.rules@[k as int]@);
            assert(crate::hir::program::refs_below(program@.rules[k as int].expr, program@.rules.len()));
        }
        rules.push(plan_rule(&program.rules[k], &names));
        k = k + 1;
    }
    let state = plan_state(program);
    let res = ModulePlan { state, rules };
    proof {
        assert(rule_plan_models(res.rules@) =~= module_plan(program@).rules);
    }
    res
}

} // verus!
