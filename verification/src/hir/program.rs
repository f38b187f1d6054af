use super::expr::{ArmModel, IrExpr, IrModel};
use super::expr::copy_expr;
use crate::ast::{copy_condition, copy_option_string, copy_state_decl, copy_string, option_string_model, CondModel, GuardCondition, StateDecl, StateDeclModel};
use vstd::prelude::*;

verus! {

/// A complete IR program ready for optimization and code generation.
#[derive(Debug, PartialEq)]
pub struct IrProgram {
    pub state_decls: Vec<StateDecl>,
    pub rules: Vec<IrRule>,
}

/// A single named rule in the IR.
#[derive(Debug, PartialEq)]
pub struct IrRule {
    pub name: String,
    /// Whether the optimizer has decided to inline this rule at call sites.
    pub inline: bool,
    /// Optional custom error label from `rule = @ "label" { ... }`.
    pub error_label: Option<String>,
    /// Pre-expression guards (fail-fast before attempting the match).
    pub guards: Vec<GuardCondition>,
    /// Pre-expression side effects (e.g., emit counter).
    pub emits: Vec<String>,
    /// The matching expression.
    pub expr: IrExpr,
    /// Number of call sites referencing this rule; 0 marks an entry point.
    pub ref_count: usize,
}

#[verifier::ext_equal]
pub struct RuleModel {
    pub name: Seq<char>,
    pub inline: bool,
    pub error_label: Option<Seq<char>>,
    pub guards: Seq<CondModel>,
    pub emits: Seq<Seq<char>>,
    pub expr: IrModel,
    pub ref_count: usize,
}

#[verifier::ext_equal]
pub struct ProgramModel {
    pub state_decls: Seq<StateDeclModel>,
    pub rules: Seq<RuleModel>,
}

pub open spec fn rule_model(r: IrRule) -> RuleModel {
    RuleModel {
        name: r.name@,
        inline: r.inline,
        error_label: option_string_model(r.error_label),
        guards: r.guards@.map_values(|g: GuardCondition| g@),
        emits: r.emits@.map_values(|s: String| s@),
        expr: r.expr@,
        ref_count: r.ref_count,
    }
}

impl View for IrRule {
    type V = RuleModel;

    open spec fn view(&self) -> RuleModel {
        rule_model(*self)
    }
}

pub open spec fn rule_models(s: Seq<IrRule>) -> Seq<RuleModel> {
    s.map_values(|r: IrRule| rule_model(r))
}

impl View for IrProgram {
    type V = ProgramModel;

    open spec fn view(&self) -> ProgramModel {
        ProgramModel {
            state_decls: self.state_decls@.map_values(|d: StateDecl| d@),
            rules: rule_models(self.rules@),
        }
    }
}

/// The rule with its expression replaced.
pub open spec fn with_expr(r: RuleModel, e: IrModel) -> RuleModel {
    RuleModel {
        name: r.name,
        inline: r.inline,
        error_label: r.error_label,
        guards: r.guards,
        emits: r.emits,
        expr: e,
        ref_count: r.ref_count,
    }
}

/// The rule with its inline flag replaced.
pub open spec fn with_inline(r: RuleModel, inline: bool) -> RuleModel {
    RuleModel {
        name: r.name,
        inline,
        error_label: r.error_label,
        guards: r.guards,
        emits: r.emits,
        expr: r.expr,
        ref_count: r.ref_count,
    }
}

/// The rule with its reference count replaced.
pub open spec fn with_ref_count(r: RuleModel, ref_count: usize) -> RuleModel {
    RuleModel {
        name: r.name,
        inline: r.inline,
        error_label: r.error_label,
        guards: r.guards,
        emits: r.emits,
        expr: r.expr,
        ref_count,
    }
}

/// The program with `f` applied to the expression of every rule.
pub open spec fn with_exprs(p: ProgramModel, f: spec_fn(IrModel) -> IrModel) -> ProgramModel {
    ProgramModel {
        state_decls: p.state_decls,
        rules: p.rules.map_values(|r: RuleModel| with_expr(r, f(r.expr))),
    }
}

/// Every rule reference inside `m` names one of `n` rules.
pub open spec fn refs_below(m: IrModel, n: nat) -> bool
    decreases m,
{
    match m {
        IrModel::RuleRef(i) => i < n,
        IrModel::Sequence(items) => refs_below_all(items, n),
        IrModel::Choice(items) => refs_below_all(items, n),
        IrModel::Dispatch(arms) => refs_below_arms(arms, n),
        IrModel::Scan { specials, .. } => refs_below_arms(specials, n),
        IrModel::Repeat { expr, .. } => refs_below(*expr, n),
        IrModel::PosLookahead(e) => refs_below(*e, n),
        IrModel::NegLookahead(e) => refs_below(*e, n),
        IrModel::WithFlag { body, .. } => refs_below(*body, n),
        IrModel::WithCounter { body, .. } => refs_below(*body, n),
        IrModel::When { body, .. } => refs_below(*body, n),
        IrModel::DepthLimit { body, .. } => refs_below(*body, n),
        IrModel::Labeled { expr, .. } => refs_below(*expr, n),
        IrModel::SeparatedList { first, rest } => refs_below(*first, n) && refs_below(*rest, n),
        IrModel::Delimited { body, .. } => refs_below(*body, n),
        _ => true,
    }
}

/// Every expression of `s` refers only to rules below `n`.
pub open spec fn refs_below_all(s: Seq<IrModel>, n: nat) -> bool
    decreases s,
{
    forall|i: int| 0 <= i < s.len() ==> refs_below(#[trigger] s[i], n)
}

/// Every arm of `s` refers only to rules below `n`.
pub open spec fn refs_below_arms(s: Seq<ArmModel>, n: nat) -> bool
    decreases s,
{
    forall|i: int| 0 <= i < s.len() ==> refs_below(*(#[trigger] s[i]).expr, n)
}

/// Every rule reference of every rule names a rule of the program.
pub open spec fn rules_closed(rules: Seq<RuleModel>) -> bool {
    forall|i: int| 0 <= i < rules.len() ==> refs_below(#[trigger] rules[i].expr, rules.len())
}

impl IrProgram {
    /// Every rule reference names a rule of the program.
    pub open spec fn wf(&self) -> bool {
        rules_closed(self@.rules)
    }

    /// Look up a rule index by name: the first rule with that name.
    pub fn rule_index(&self, name: &str) -> (res: Option<usize>)
        ensures
            match res {
                Some(i) => i < self.rules@.len() && self.rules@[i as int].name@ == name@ && forall|j: int|
                    0 <= j < i ==> (#[trigger] self.rules@[j]).name@ != name@,
                None => forall|j: int| 0 <= j < self.rules@.len() ==> (#[trigger] self.rules@[j]).name@ != name@,
            },
    {
        let target = name.to_owned();
        let mut i: usize = 0;
        while i < self.rules.len()
            invariant
                i <= self.rules@.len(),
                target@ == name@,
                forall|j: int| 0 <= j < i ==> (#[trigger] self.rules@[j]).name@ != name@,
            decreases self.rules@.len() - i,
        {
            if self.rules[i].name == target {
                return Some(i);
            }
            i = i + 1;
        }
        None
    }

    /// Look up a rule by index.
    pub fn rule(&self, index: usize) -> (res: Option<&IrRule>)
        ensures
            match res {
                Some(r) => index < self.rules@.len() && *r == self.rules@[index as int],
                None => index >= self.rules@.len(),
            },
    {
        if index < self.rules.len() {
            Some(&self.rules[index])
        } else {
            None
        }
    }
}

/// A copy of `r`.
pub fn copy_rule(r: &IrRule) -> (res: IrRule)
    ensures
        res@ == r@,
{
    let mut guards: Vec<GuardCondition> = Vec::new();
    let mut i: usize = 0;
    while i < r.guards.len()
        invariant
            i <= r.guards@.len(),
            guards@.len() == i,
            forall|k: int| 0 <= k < i ==> (#[trigger] guards@[k])@ == r.guards@[k]@,
        decreases r.guards@.len() - i,
    {
        guards.push(copy_condition(&r.guards[i]));
        i = i + 1;
    }
    let mut emits: Vec<String> = Vec::new();
    let mut j: usize = 0;
    while j < r.emits.len()
        invariant
            j <= r.emits@.len(),
            emits@.len() == j,
            forall|k: int| 0 <= k < j ==> (#[trigger] emits@[k])@ == r.emits@[k]@,
        decreases r.emits@.len() - j,
    {
        emits.push(copy_string(&r.emits[j]));
        j = j + 1;
    }
    let res = IrRule {
        name: copy_string(&r.name),
        inline: r.inline,
        error_label: copy_option_string(&r.error_label),
        guards,
        emits,
        expr: copy_expr(&r.expr),
        ref_count: r.ref_count,
    };
    proof {
        assert(res.guards@.map_values(|g: GuardCondition| g@) =~= r.guards@.map_values(|g: GuardCondition| g@));
        assert(res.emits@.map_values(|s: String| s@) =~= r.emits@.map_values(|s: String| s@));
    }
    res
}

/// A copy of `p`.
pub fn copy_program(p: &IrProgram) -> (res: IrProgram)
    ensures
        res@ == p@,
{
    let mut state_decls: Vec<StateDecl> = Vec::new();
    let mut i: usize = 0;
    while i < p.state_decls.len()
        invariant
            i <= p.state_decls@.len(),
            state_decls@.len() == i,
            forall|k: int| 0 <= k < i ==> (#[trigger] state_decls@[k])@ == p.state_decls@[k]@,
        decreases p.state_decls@.len() - i,
    {
        state_decls.push(copy_state_decl(&p.state_decls[i]));
        i = i + 1;
    }
    let mut rules: Vec<IrRule> = Vec::new();
    let mut j: usize = 0;
    while j < p.rules.len()
        invariant
            j <= p.rules@.len(),
            rules@.len() == j,
            forall|k: int| 0 <= k < j ==> (#[trigger] rules@[k])@ == p.rules@[k]@,
        decreases p.rules@.len() - j,
    {
        rules.push(copy_rule(&p.rules[j]));
        j = j + 1;
    }
    let res = IrProgram { state_decls, rules };
    proof {
        assert(res@.state_decls =~= p@.state_decls);
        assert(res@.rules =~= p@.rules);
    }
    res
}

} // verus!
