//! Inlining of small rules and reference counting.
use crate::ast::{copy_condition, copy_string};
use crate::hir::expr::{arm_models, copy_expr, copy_ranges, ir_model, ir_models, lemma_arm_models_index, lemma_models_index, ArmModel, DispatchArm, IrExpr, IrModel};
use crate::hir::program::{refs_below, rule_model, rule_models, rules_closed, with_expr, with_inline, with_ref_count, IrProgram, IrRule, ProgramModel, RuleModel};
use vstd::prelude::*;

verus! {

// ── Queries over expressions ──

/// `m` refers to rule `idx` somewhere (a separated list is not searched).
pub open spec fn mentions(m: IrModel, idx: usize) -> bool
    decreases m,
{
    match m {
        IrModel::RuleRef(i) => i == idx,
        IrModel::Sequence(items) => mentions_any(items, idx),
        IrModel::Choice(items) => mentions_any(items, idx),
        IrModel::Dispatch(arms) => mentions_any_arm(arms, idx),
        IrModel::Scan { specials, .. } => mentions_any_arm(specials, idx),
        IrModel::Repeat { expr, .. } => mentions(*expr, idx),
        IrModel::PosLookahead(e) => mentions(*e, idx),
        IrModel::NegLookahead(e) => mentions(*e, idx),
        IrModel::WithFlag { body, .. } => mentions(*body, idx),
        IrModel::WithCounter { body, .. } => mentions(*body, idx),
        IrModel::When { body, .. } => mentions(*body, idx),
        IrModel::DepthLimit { body, .. } => mentions(*body, idx),
        IrModel::Labeled { expr, .. } => mentions(*expr, idx),
        _ => false,
    }
}

/// Some expression of `s` refers to rule `idx`.
pub open spec fn mentions_any(s: Seq<IrModel>, idx: usize) -> bool
    decreases s,
{
    exists|i: int| 0 <= i < s.len() && mentions(#[trigger] s[i], idx)
}

/// Some arm of `s` refers to rule `idx`.
pub open spec fn mentions_any_arm(s: Seq<ArmModel>, idx: usize) -> bool
    decreases s,
{
    exists|i: int| 0 <= i < s.len() && mentions(*(#[trigger] s[i]).expr, idx)
}

/// How many times `m` refers to rule `idx`.
pub open spec fn occurrences(m: IrModel, idx: usize) -> nat
    decreases m,
{
    match m {
        IrModel::RuleRef(i) => if i == idx { 1 } else { 0 },
        IrModel::Sequence(items) => occurrences_list(items, idx),
        IrModel::Choice(items) => occurrences_list(items, idx),
        IrModel::Dispatch(arms) => occurrences_arms(arms, idx),
        IrModel::Scan { specials, .. } => occurrences_arms(specials, idx),
        IrModel::Repeat { expr, .. } => occurrences(*expr, idx),
        IrModel::PosLookahead(inner) => occurrences(*inner, idx),
        IrModel::NegLookahead(inner) => occurrences(*inner, idx),
        IrModel::WithFlag { body, .. } => occurrences(*body, idx),
        IrModel::WithCounter { body, .. } => occurrences(*body, idx),
        IrModel::When { body, .. } => occurrences(*body, idx),
        IrModel::DepthLimit { body, .. } => occurrences(*body, idx),
        IrModel::Labeled { expr, .. } => occurrences(*expr, idx),
        _ => 0,
    }
}

pub open spec fn occurrences_list(s: Seq<IrModel>, idx: usize) -> nat
    decreases s,
{
    if s.len() == 0 {
        0
    } else {
        occurrences_list(s.drop_last(), idx) + occurrences(s[s.len() - 1], idx)
    }
}

pub open spec fn occurrences_arms(s: Seq<ArmModel>, idx: usize) -> nat
    decreases s,
{
    if s.len() == 0 {
        0
    } else {
        occurrences_arms(s.drop_last(), idx) + occurrences(*s[s.len() - 1].expr, idx)
    }
}

/// The cost budget charged for a stateful construct, which keeps it from being inlined.
pub open spec fn stateful_cost() -> int {
    (usize::MAX / 4) as int
}

/// Size estimate of an expression used to decide inlining.
pub open spec fn cost(m: IrModel) -> int
    decreases m,
{
    match m {
        IrModel::Literal(_) => 1,
        IrModel::CharSet(_) => 1,
        IrModel::Any => 1,
        IrModel::Boundary(_) => 1,
        IrModel::RuleRef(_) => 1,
        IrModel::TakeWhile { .. } => 1,
        IrModel::WithFlag { .. } => stateful_cost(),
        IrModel::WithCounter { .. } => stateful_cost(),
        IrModel::When { .. } => stateful_cost(),
        IrModel::DepthLimit { .. } => stateful_cost(),
        IrModel::Sequence(items) => 1 + cost_list(items),
        IrModel::Choice(items) => 1 + cost_list(items),
        IrModel::Dispatch(arms) => 1 + cost_arms(arms),
        IrModel::Scan { specials, .. } => 1 + cost_arms(specials),
        IrModel::Repeat { expr, .. } => 1 + cost(*expr),
        IrModel::PosLookahead(inner) => 1 + cost(*inner),
        IrModel::NegLookahead(inner) => 1 + cost(*inner),
        IrModel::Labeled { expr, .. } => 1 + cost(*expr),
        IrModel::SeparatedList { first, rest } => 1 + cost(*first) + cost(*rest),
        IrModel::Delimited { body, .. } => 3 + cost(*body),
    }
}

pub open spec fn cost_list(s: Seq<IrModel>) -> int
    decreases s,
{
    if s.len() == 0 {
        0
    } else {
        cost_list(s.drop_last()) + cost(s[s.len() - 1])
    }
}

pub open spec fn cost_arms(s: Seq<ArmModel>) -> int
    decreases s,
{
    if s.len() == 0 {
        0
    } else {
        cost_arms(s.drop_last()) + cost(*s[s.len() - 1].expr)
    }
}

/// `a + b`, capped at `usize::MAX`.
pub open spec fn sat_add(a: int, b: int) -> int {
    if a + b > usize::MAX {
        usize::MAX as int
    } else {
        a + b
    }
}

/// Whether `e` refers to rule `needle`.
pub(crate) fn contains_rule_ref(e: &IrExpr, needle: usize) -> (res: bool)
    ensures
        res == mentions(e@, needle),
    decreases e,
{
    match e {
        IrExpr::RuleRef(idx) => {
            let found = *idx == needle;
            proof {
                assert(e@ == IrModel::RuleRef(*idx));
                assert(found == mentions(e@, needle));
            }
            found
        },
        IrExpr::Sequence(items) => {
            proof {
                lemma_models_index(items@);
            }
            list_contains_rule_ref(items, needle)
        },
        IrExpr::Choice(items) => {
            proof {
                lemma_models_index(items@);
            }
            list_contains_rule_ref(items, needle)
        },
        IrExpr::Dispatch(arms) => {
            proof {
                lemma_arm_models_index(arms@);
            }
            arms_contain_rule_ref(arms, needle)
        },
        IrExpr::Scan { specials, .. } => {
            proof {
                lemma_arm_models_index(specials@);
            }
            arms_contain_rule_ref(specials, needle)
        },
        IrExpr::Repeat { expr, .. } => contains_rule_ref(expr, needle),
        IrExpr::PosLookahead(expr) => contains_rule_ref(expr, needle),
        IrExpr::NegLookahead(expr) => contains_rule_ref(expr, needle),
        IrExpr::WithFlag { body, .. } => contains_rule_ref(body, needle),
        IrExpr::WithCounter { body, .. } => contains_rule_ref(body, needle),
        IrExpr::When { body, .. } => contains_rule_ref(body, needle),
        IrExpr::DepthLimit { body, .. } => contains_rule_ref(body, needle),
        IrExpr::Labeled { expr, .. } => contains_rule_ref(expr, needle),
        _ => false,
    }
}

fn list_contains_rule_ref(items: &Vec<IrExpr>, needle: usize) -> (res: bool)
    ensures
        res == mentions_any(ir_models(items@), needle),
    decreases items,
{
    proof {
        lemma_models_index(items@);
    }
    let mut i: usize = 0;
    while i < items.len()
        invariant
            i <= items@.len(),
            ir_models(items@).len() == items@.len(),
            forall|k: int| 0 <= k < items@.len() ==> #[trigger] ir_models(items@)[k] == items@[k]@,
            forall|k: int| 0 <= k < i ==> !mentions(#[trigger] ir_models(items@)[k], needle),
        decreases items@.len() - i,
    {
        proof {
            assert(decreases_to!(items => items@[i as int]));
        }
        if contains_rule_ref(&items[i], needle) {
            assert(mentions(ir_models(items@)[i as int], needle));
            return true;
        }
        assert(!mentions(ir_models(items@)[i as int], needle));
        i = i + 1;
    }
    false
}

fn arms_contain_rule_ref(arms: &Vec<DispatchArm>, needle: usize) -> (res: bool)
    ensures
        res == mentions_any_arm(arm_models(arms@), needle),
    decreases arms,
{
    proof {
        lemma_arm_models_index(arms@);
    }
    let mut i: usize = 0;
    while i < arms.len()
        invariant
            i <= arms@.len(),
            arm_models(arms@).len() == arms@.len(),
            forall|k: int| 0 <= k < arms@.len() ==> #[trigger] arm_models(arms@)[k] == arms@[k]@,
            forall|k: int| 0 <= k < i ==> !mentions(*(#[trigger] arm_models(arms@)[k]).expr, needle),
        decreases arms@.len() - i,
    {
        proof {
            assert(decreases_to!(arms => arms@[i as int]));
        }
        if contains_rule_ref(&arms[i].expr, needle) {
            assert(mentions(*arm_models(arms@)[i as int].expr, needle));
            return true;
        }
        assert(!mentions(*arm_models(arms@)[i as int].expr, needle));
        i = i + 1;
    }
    false
}

/// Mark in `refs` every rule that `e` refers to.
pub(crate) fn collect_refs(e: &IrExpr, refs: &mut Vec<bool>)
    ensures
        final(refs)@.len() == old(refs)@.len(),
        forall|j: int| 0 <= j < old(refs)@.len() ==> (#[trigger] final(refs)@[j]) == (old(refs)@[j] || mentions(e@, j as usize)),
    decreases e,
{
    match e {
        IrExpr::RuleRef(idx) => {
            if *idx < refs.len() {
                refs.set(*idx, true);
            }
        },
        IrExpr::Sequence(items) => {
            proof {
                lemma_models_index(items@);
            }
            collect_refs_list(items, refs);
        },
        IrExpr::Choice(items) => {
            proof {
                lemma_models_index(items@);
            }
            collect_refs_list(items, refs);
        },
        IrExpr::Dispatch(arms) => {
            proof {
                lemma_arm_models_index(arms@);
            }
            collect_refs_arms(arms, refs);
        },
        IrExpr::Scan { specials, .. } => {
            proof {
                lemma_arm_models_index(specials@);
            }
            collect_refs_arms(specials, refs);
        },
        IrExpr::Repeat { expr, .. } => collect_refs(expr, refs),
        IrExpr::PosLookahead(expr) => collect_refs(expr, refs),
        IrExpr::NegLookahead(expr) => collect_refs(expr, refs),
        IrExpr::WithFlag { body, .. } => collect_refs(body, refs),
        IrExpr::WithCounter { body, .. } => collect_refs(body, refs),
        IrExpr::When { body, .. } => collect_refs(body, refs),
        IrExpr::DepthLimit { body, .. } => collect_refs(body, refs),
        IrExpr::Labeled { expr, .. } => collect_refs(expr, refs),
        _ => {},
    }
}

fn collect_refs_list(items: &Vec<IrExpr>, refs: &mut Vec<bool>)
    ensures
        final(refs)@.len() == old(refs)@.len(),
        forall|j: int| 0 <= j < old(refs)@.len() ==> (#[trigger] final(refs)@[j]) == (old(refs)@[j] || mentions_any(ir_models(items@), j as usize)),
    decreases items,
{
    proof {
        lemma_models_index(items@);
    }
    let ghost start = refs@;
    let mut i: usize = 0;
    while i < items.len()
        invariant
            i <= items@.len(),
            refs@.len() == start.len(),
            ir_models(items@).len() == items@.len(),
            forall|k: int| 0 <= k < items@.len() ==> #[trigger] ir_models(items@)[k] == items@[k]@,
            forall|j: int| 0 <= j < start.len() ==> (#[trigger] refs@[j]) == (start[j] || exists|k: int| 0 <= k < i && mentions(#[trigger] ir_models(items@)[k], j as usize)),
        decreases items@.len() - i,
    {
        proof {
            assert(decreases_to!(items => items@[i as int]));
        }
        let ghost before = refs@;
        collect_refs(&items[i], refs);
        proof {
            assert forall|j: int| 0 <= j < start.len() implies (#[trigger] refs@[j]) == (start[j] || exists|k: int| 0 <= k < i + 1 && mentions(#[trigger] ir_models(items@)[k], j as usize)) by {
                if mentions(ir_models(items@)[i as int], j as usize) {
                    assert(refs@[j]);
                } else {
                    if exists|k: int| 0 <= k < i + 1 && mentions(#[trigger] ir_models(items@)[k], j as usize) {
                        let k = choose|k: int| 0 <= k < i + 1 && mentions(#[trigger] ir_models(items@)[k], j as usize);
                        assert(k < i);
                    }
                }
            }
        }
        i = i + 1;
    }
}

fn collect_refs_arms(arms: &Vec<DispatchArm>, refs: &mut Vec<bool>)
    ensures
        final(refs)@.len() == old(refs)@.len(),
        forall|j: int| 0 <= j < old(refs)@.len() ==> (#[trigger] final(refs)@[j]) == (old(refs)@[j] || mentions_any_arm(arm_models(arms@), j as usize)),
    decreases arms,
{
    proof {
        lemma_arm_models_index(arms@);
    }
    let ghost start = refs@;
    let mut i: usize = 0;
    while i < arms.len()
        invariant
            i <= arms@.len(),
            refs@.len() == start.len(),
            arm_models(arms@).len() == arms@.len(),
            forall|k: int| 0 <= k < arms@.len() ==> #[trigger] arm_models(arms@)[k] == arms@[k]@,
            forall|j: int| 0 <= j < start.len() ==> (#[trigger] refs@[j]) == (start[j] || exists|k: int| 0 <= k < i && mentions(*(#[trigger] arm_models(arms@)[k]).expr, j as usize)),
        decreases arms@.len() - i,
    {
        proof {
            assert(decreases_to!(arms => arms@[i as int]));
        }
        let ghost before = refs@;
        collect_refs(&arms[i].expr, refs);
        proof {
            assert forall|j: int| 0 <= j < start.len() implies (#[trigger] refs@[j]) == (start[j] || exists|k: int| 0 <= k < i + 1 && mentions(*(#[trigger] arm_models(arms@)[k]).expr, j as usize)) by {
                if mentions(*arm_models(arms@)[i as int].expr, j as usize) {
                    assert(refs@[j]);
                } else {
                    if exists|k: int| 0 <= k < i + 1 && mentions(*(#[trigger] arm_models(arms@)[k]).expr, j as usize) {
                        let k = choose|k: int| 0 <= k < i + 1 && mentions(*(#[trigger] arm_models(arms@)[k]).expr, j as usize);
                        assert(k < i);
                    }
                }
            }
        }
        i = i + 1;
    }
}


/// A capped sum never falls behind adding the parts one at a time.
pub proof fn lemma_sat_add_assoc(a: int, b: int, c: int)
    requires
        0 <= a <= usize::MAX,
        0 <= b,
        0 <= c,
    ensures
        sat_add(sat_add(a, b), c) == sat_add(a, b + c),
{
}

/// Add to `counts[j]` how many times `e` refers to rule `j`, capping at `usize::MAX`.
/// References to rules outside `counts` are not counted.
pub(crate) fn count_refs(e: &IrExpr, counts: &mut Vec<usize>)
    ensures
        final(counts)@.len() == old(counts)@.len(),
        forall|j: int| 0 <= j < old(counts)@.len() ==> (#[trigger] final(counts)@[j]) as int == sat_add(old(counts)@[j] as int, occurrences(e@, j as usize) as int),
    decreases e,
{
    match e {
        IrExpr::RuleRef(idx) => {
            if *idx < counts.len() {
                let c = counts[*idx];
                counts.set(*idx, c.saturating_add(1));
            }
        },
        IrExpr::Sequence(items) => count_refs_list(items, counts),
        IrExpr::Choice(items) => count_refs_list(items, counts),
        IrExpr::Dispatch(arms) => count_refs_arms(arms, counts),
        IrExpr::Scan { specials, .. } => count_refs_arms(specials, counts),
        IrExpr::Repeat { expr, .. } => count_refs(expr, counts),
        IrExpr::PosLookahead(expr) => count_refs(expr, counts),
        IrExpr::NegLookahead(expr) => count_refs(expr, counts),
        IrExpr::WithFlag { body, .. } => count_refs(body, counts),
        IrExpr::WithCounter { body, .. } => count_refs(body, counts),
        IrExpr::When { body, .. } => count_refs(body, counts),
        IrExpr::DepthLimit { body, .. } => count_refs(body, counts),
        IrExpr::Labeled { expr, .. } => count_refs(expr, counts),
        _ => {},
    }
}

fn count_refs_list(items: &Vec<IrExpr>, counts: &mut Vec<usize>)
    ensures
        final(counts)@.len() == old(counts)@.len(),
        forall|j: int| 0 <= j < old(counts)@.len() ==> (#[trigger] final(counts)@[j]) as int == sat_add(old(counts)@[j] as int, occurrences_list(ir_models(items@), j as usize) as int),
    decreases items,
{
    proof {
        lemma_models_index(items@);
    }
    let ghost start = counts@;
    let ghost ms = ir_models(items@);
    let mut i: usize = 0;
    while i < items.len()
        invariant
            i <= items@.len(),
            counts@.len() == start.len(),
            ms == ir_models(items@),
            ms.len() == items@.len(),
            forall|k: int| 0 <= k < items@.len() ==> #[trigger] ms[k] == items@[k]@,
            forall|j: int| 0 <= j < start.len() ==> (#[trigger] counts@[j]) as int == sat_add(start[j] as int, occurrences_list(ms.take(i as int), j as usize) as int),
        decreases items@.len() - i,
    {
        proof {
            assert(decreases_to!(items => items@[i as int]));
        }
        let ghost before = counts@;
        count_refs(&items[i], counts);
        proof {
            assert(ms.take(i + 1).drop_last() =~= ms.take(i as int));
            assert forall|j: int| 0 <= j < start.len() implies (#[trigger] counts@[j]) as int == sat_add(start[j] as int, occurrences_list(ms.take(i + 1), j as usize) as int) by {
                assert(ms.take(i + 1)[i as int] == items@[i as int]@);
                lemma_sat_add_assoc(start[j] as int, occurrences_list(ms.take(i as int), j as usize) as int, occurrences(items@[i as int]@, j as usize) as int);
            }
        }
        i = i + 1;
    }
    proof {
        assert(ms.take(items@.len() as int) =~= ms);
    }
}

fn count_refs_arms(arms: &Vec<DispatchArm>, counts: &mut Vec<usize>)
    ensures
        final(counts)@.len() == old(counts)@.len(),
        forall|j: int| 0 <= j < old(counts)@.len() ==> (#[trigger] final(counts)@[j]) as int == sat_add(old(counts)@[j] as int, occurrences_arms(arm_models(arms@), j as usize) as int),
    decreases arms,
{
    proof {
        lemma_arm_models_index(arms@);
    }
    let ghost start = counts@;
    let ghost ms = arm_models(arms@);
    let mut i: usize = 0;
    while i < arms.len()
        invariant
            i <= arms@.len(),
            counts@.len() == start.len(),
            ms == arm_models(arms@),
            ms.len() == arms@.len(),
            forall|k: int| 0 <= k < arms@.len() ==> #[trigger] ms[k] == arms@[k]@,
            forall|j: int| 0 <= j < start.len() ==> (#[trigger] counts@[j]) as int == sat_add(start[j] as int, occurrences_arms(ms.take(i as int), j as usize) as int),
        decreases arms@.len() - i,
    {
        proof {
            assert(decreases_to!(arms => arms@[i as int]));
        }
        count_refs(&arms[i].expr, counts);
        proof {
            assert(ms.take(i + 1).drop_last() =~= ms.take(i as int));
            assert forall|j: int| 0 <= j < start.len() implies (#[trigger] counts@[j]) as int == sat_add(start[j] as int, occurrences_arms(ms.take(i + 1), j as usize) as int) by {
                assert(ms.take(i + 1)[i as int] == arms@[i as int]@);
                lemma_sat_add_assoc(start[j] as int, occurrences_arms(ms.take(i as int), j as usize) as int, occurrences((*arms@[i as int].expr)@, j as usize) as int);
            }
        }
        i = i + 1;
    }
    proof {
        assert(ms.take(arms@.len() as int) =~= ms);
    }
}

/// `cost(m)`, capped at `usize::MAX`.
pub open spec fn capped_cost(m: IrModel) -> int {
    if cost(m) > usize::MAX { usize::MAX as int } else { cost(m) }
}

pub proof fn lemma_cost_positive(m: IrModel)
    ensures
        cost(m) >= 1,
    decreases m,
{
    match m {
        IrModel::Sequence(items) => lemma_cost_list_nonneg(items),
        IrModel::Choice(items) => lemma_cost_list_nonneg(items),
        IrModel::Dispatch(arms) => lemma_cost_arms_nonneg(arms),
        IrModel::Scan { specials, .. } => lemma_cost_arms_nonneg(specials),
        IrModel::Repeat { expr, .. } => lemma_cost_positive(*expr),
        IrModel::PosLookahead(inner) => lemma_cost_positive(*inner),
        IrModel::NegLookahead(inner) => lemma_cost_positive(*inner),
        IrModel::Labeled { expr, .. } => lemma_cost_positive(*expr),
        IrModel::SeparatedList { first, rest } => {
            lemma_cost_positive(*first);
            lemma_cost_positive(*rest);
        },
        IrModel::Delimited { body, .. } => lemma_cost_positive(*body),
        _ => {},
    }
}

pub proof fn lemma_cost_list_nonneg(s: Seq<IrModel>)
    ensures
        cost_list(s) >= 0,
    decreases s,
{
    if s.len() > 0 {
        lemma_cost_list_nonneg(s.drop_last());
        lemma_cost_positive(s[s.len() - 1]);
    }
}

pub proof fn lemma_cost_arms_nonneg(s: Seq<ArmModel>)
    ensures
        cost_arms(s) >= 0,
    decreases s,
{
    if s.len() > 0 {
        lemma_cost_arms_nonneg(s.drop_last());
        lemma_cost_positive(*s[s.len() - 1].expr);
    }
}

/// Size estimate of `e`, capped at `usize::MAX`.
pub(crate) fn estimate_cost(e: &IrExpr) -> (res: usize)
    ensures
        res as int == capped_cost(e@),
    decreases e,
{
    proof {
        lemma_cost_positive(e@);
    }
    match e {
        IrExpr::WithFlag { .. } => usize::MAX / 4,
        IrExpr::WithCounter { .. } => usize::MAX / 4,
        IrExpr::When { .. } => usize::MAX / 4,
        IrExpr::DepthLimit { .. } => usize::MAX / 4,
        IrExpr::Sequence(items) => 1usize.saturating_add(cost_list_exec(items)),
        IrExpr::Choice(items) => 1usize.saturating_add(cost_list_exec(items)),
        IrExpr::Dispatch(arms) => 1usize.saturating_add(cost_arms_exec(arms)),
        IrExpr::Scan { specials, .. } => 1usize.saturating_add(cost_arms_exec(specials)),
        IrExpr::Repeat { expr, .. } => 1usize.saturating_add(estimate_cost(expr)),
        IrExpr::PosLookahead(expr) => 1usize.saturating_add(estimate_cost(expr)),
        IrExpr::NegLookahead(expr) => 1usize.saturating_add(estimate_cost(expr)),
        IrExpr::Labeled { expr, .. } => 1usize.saturating_add(estimate_cost(expr)),
        IrExpr::SeparatedList { first, rest } => {
            proof {
                lemma_cost_positive(first@);
                lemma_cost_positive(rest@);
            }
            1usize.saturating_add(estimate_cost(first)).saturating_add(estimate_cost(rest))
        },
        IrExpr::Delimited { body, .. } => 3usize.saturating_add(estimate_cost(body)),
        _ => 1,
    }
}

fn cost_list_exec(items: &Vec<IrExpr>) -> (res: usize)
    ensures
        res as int == (if cost_list(ir_models(items@)) > usize::MAX { usize::MAX as int } else { cost_list(ir_models(items@)) }),
    decreases items,
{
    proof {
        lemma_models_index(items@);
    }
    let ghost ms = ir_models(items@);
    let mut total: usize = 0;
    let mut i: usize = 0;
    while i < items.len()
        invariant
            i <= items@.len(),
            ms == ir_models(items@),
            ms.len() == items@.len(),
            forall|k: int| 0 <= k < items@.len() ==> #[trigger] ms[k] == items@[k]@,
            total as int == sat_add(0, cost_list(ms.take(i as int))),
        decreases items@.len() - i,
    {
        proof {
            assert(decreases_to!(items => items@[i as int]));
            assert(ms.take(i + 1).drop_last() =~= ms.take(i as int));
            assert(ms.take(i + 1)[i as int] == items@[i as int]@);
            lemma_cost_list_nonneg(ms.take(i as int));
            lemma_cost_positive(items@[i as int]@);
        }
        let c = estimate_cost(&items[i]);
        total = total.saturating_add(c);
        i = i + 1;
    }
    proof {
        assert(ms.take(items@.len() as int) =~= ms);
    }
    total
}

fn cost_arms_exec(arms: &Vec<DispatchArm>) -> (res: usize)
    ensures
        res as int == (if cost_arms(arm_models(arms@)) > usize::MAX { usize::MAX as int } else { cost_arms(arm_models(arms@)) }),
    decreases arms,
{
    proof {
        lemma_arm_models_index(arms@);
    }
    let ghost ms = arm_models(arms@);
    let mut total: usize = 0;
    let mut i: usize = 0;
    while i < arms.len()
        invariant
            i <= arms@.len(),
            ms == arm_models(arms@),
            ms.len() == arms@.len(),
            forall|k: int| 0 <= k < arms@.len() ==> #[trigger] ms[k] == arms@[k]@,
            total as int == sat_add(0, cost_arms(ms.take(i as int))),
        decreases arms@.len() - i,
    {
        proof {
            assert(decreases_to!(arms => arms@[i as int]));
            assert(ms.take(i + 1).drop_last() =~= ms.take(i as int));
            assert(ms.take(i + 1)[i as int] == arms@[i as int]@);
            lemma_cost_arms_nonneg(ms.take(i as int));
            lemma_cost_positive((*arms@[i as int].expr)@);
        }
        let c = estimate_cost(&arms[i].expr);
        total = total.saturating_add(c);
        i = i + 1;
    }
    proof {
        assert(ms.take(arms@.len() as int) =~= ms);
    }
    total
}

/// The models of an inlining table.
pub open spec fn table_model(t: Seq<Option<IrExpr>>) -> Seq<Option<IrModel>> {
    Seq::new(t.len(), |i: int| match t[i] {
        Some(e) => Some(e@),
        None => None,
    })
}

/// References to rules that have an entry in `table` are replaced by that entry.
pub open spec fn inline_model(m: IrModel, table: Seq<Option<IrModel>>) -> IrModel
    decreases m,
{
    match m {
        IrModel::RuleRef(idx) => if idx < table.len() && table[idx as int] is Some { table[idx as int]->0 } else { IrModel::RuleRef(idx) },
        IrModel::Sequence(items) => IrModel::Sequence(Seq::new(items.len(), |i: int| if 0 <= i < items.len() { inline_model(items[i], table) } else { IrModel::Any })),
        IrModel::Choice(items) => IrModel::Choice(Seq::new(items.len(), |i: int| if 0 <= i < items.len() { inline_model(items[i], table) } else { IrModel::Any })),
        IrModel::Dispatch(arms) => IrModel::Dispatch(Seq::new(arms.len(), |i: int| if 0 <= i < arms.len() { ArmModel { ranges: arms[i].ranges, expr: Box::new(inline_model(*arms[i].expr, table)) } } else { ArmModel { ranges: Seq::empty(), expr: Box::new(IrModel::Any) } })),
        IrModel::Repeat { expr, min, max } => IrModel::Repeat { expr: Box::new(inline_model(*expr, table)), min, max },
        IrModel::PosLookahead(inner) => IrModel::PosLookahead(Box::new(inline_model(*inner, table))),
        IrModel::NegLookahead(inner) => IrModel::NegLookahead(Box::new(inline_model(*inner, table))),
        IrModel::WithFlag { flag, body } => IrModel::WithFlag { flag, body: Box::new(inline_model(*body, table)) },
        IrModel::WithCounter { counter, amount, body } => IrModel::WithCounter { counter, amount, body: Box::new(inline_model(*body, table)) },
        IrModel::When { condition, body } => IrModel::When { condition, body: Box::new(inline_model(*body, table)) },
        IrModel::DepthLimit { limit, body } => IrModel::DepthLimit { limit, body: Box::new(inline_model(*body, table)) },
        IrModel::Scan { plain_ranges, specials, min } => IrModel::Scan { plain_ranges, specials: Seq::new(specials.len(), |i: int| if 0 <= i < specials.len() { ArmModel { ranges: specials[i].ranges, expr: Box::new(inline_model(*specials[i].expr, table)) } } else { ArmModel { ranges: Seq::empty(), expr: Box::new(IrModel::Any) } }), min },
        IrModel::Labeled { expr, label } => IrModel::Labeled { expr: Box::new(inline_model(*expr, table)), label },
        other => other,
    }
}

pub(crate) fn inline_refs(e: &IrExpr, table: &Vec<Option<IrExpr>>) -> (res: IrExpr)
    ensures
        res@ == inline_model(e@, table_model(table@)),
    decreases e,
{
    match e {
        IrExpr::RuleRef(idx) => {
            if *idx < table.len() {
                match &table[*idx] {
                    Some(inlined) => copy_expr(inlined),
                    None => IrExpr::RuleRef(*idx),
                }
            } else {
                IrExpr::RuleRef(*idx)
            }
        },
        IrExpr::Sequence(items) => {
            let r = inline_refs_list(items, table);
            let res = IrExpr::Sequence(r);
            proof {
                lemma_models_index(r@);
                lemma_models_index(items@);
                assert(ir_models(r@) =~= inline_model(e@, table_model(table@))->Sequence_0);
            }
            res
        },
        IrExpr::Choice(items) => {
            let r = inline_refs_list(items, table);
            let res = IrExpr::Choice(r);
            proof {
                lemma_models_index(r@);
                lemma_models_index(items@);
                assert(ir_models(r@) =~= inline_model(e@, table_model(table@))->Choice_0);
            }
            res
        },
        IrExpr::Dispatch(arms) => {
            let r = inline_refs_arms(arms, table);
            let res = IrExpr::Dispatch(r);
            proof {
                lemma_arm_models_index(r@);
                lemma_arm_models_index(arms@);
                assert(arm_models(r@) =~= inline_model(e@, table_model(table@))->Dispatch_0);
            }
            res
        },
        IrExpr::Repeat { expr, min, max } => IrExpr::Repeat { expr: Box::new(inline_refs(expr, table)), min: *min, max: *max },
        IrExpr::PosLookahead(inner) => IrExpr::PosLookahead(Box::new(inline_refs(inner, table))),
        IrExpr::NegLookahead(inner) => IrExpr::NegLookahead(Box::new(inline_refs(inner, table))),
        IrExpr::WithFlag { flag, body } => IrExpr::WithFlag { flag: copy_string(flag), body: Box::new(inline_refs(body, table)) },
        IrExpr::WithCounter { counter, amount, body } => IrExpr::WithCounter { counter: copy_string(counter), amount: *amount, body: Box::new(inline_refs(body, table)) },
        IrExpr::When { condition, body } => IrExpr::When { condition: copy_condition(condition), body: Box::new(inline_refs(body, table)) },
        IrExpr::DepthLimit { limit, body } => IrExpr::DepthLimit { limit: *limit, body: Box::new(inline_refs(body, table)) },
        IrExpr::Scan { plain_ranges, specials, min } => {
            let r = inline_refs_arms(specials, table);
            let res = IrExpr::Scan { plain_ranges: copy_ranges(plain_ranges), specials: r, min: *min };
            proof {
                lemma_arm_models_index(r@);
                lemma_arm_models_index(specials@);
                assert(arm_models(r@) =~= inline_model(e@, table_model(table@))->specials);
            }
            res
        },
        IrExpr::Labeled { expr, label } => IrExpr::Labeled { expr: Box::new(inline_refs(expr, table)), label: copy_string(label) },
        _ => copy_expr(e),
    }
}

fn inline_refs_list(items: &Vec<IrExpr>, table: &Vec<Option<IrExpr>>) -> (res: Vec<IrExpr>)
    ensures
        res@.len() == items@.len(),
        forall|k: int| 0 <= k < items@.len() ==> (#[trigger] res@[k])@ == inline_model(items@[k]@, table_model(table@)),
    decreases items,
{
    let mut res: Vec<IrExpr> = Vec::new();
    let mut i: usize = 0;
    while i < items.len()
        invariant
            i <= items@.len(),
            res@.len() == i,
            forall|k: int| 0 <= k < i ==> (#[trigger] res@[k])@ == inline_model(items@[k]@, table_model(table@)),
        decreases items@.len() - i,
    {
        proof {
            assert(decreases_to!(items => items@[i as int]));
        }
        res.push(inline_refs(&items[i], table));
        i = i + 1;
    }
    res
}

fn inline_refs_arms(arms: &Vec<DispatchArm>, table: &Vec<Option<IrExpr>>) -> (res: Vec<DispatchArm>)
    ensures
        res@.len() == arms@.len(),
        forall|k: int| 0 <= k < arms@.len() ==> (#[trigger] res@[k]).ranges@ == arms@[k].ranges@ && (*res@[k].expr)@ == inline_model((*arms@[k].expr)@, table_model(table@)),
    decreases arms,
{
    let mut res: Vec<DispatchArm> = Vec::new();
    let mut i: usize = 0;
    while i < arms.len()
        invariant
            i <= arms@.len(),
            res@.len() == i,
            forall|k: int| 0 <= k < i ==> (#[trigger] res@[k]).ranges@ == arms@[k].ranges@ && (*res@[k].expr)@ == inline_model((*arms@[k].expr)@, table_model(table@)),
        decreases arms@.len() - i,
    {
        proof {
            assert(decreases_to!(arms => arms@[i as int]));
        }
        let arm = &arms[i];
        let expr = inline_refs(&arm.expr, table);
        res.push(DispatchArm { ranges: copy_ranges(&arm.ranges), expr: Box::new(expr) });
        i = i + 1;
    }
    res
}


// ── Rule-level inlining ──

/// The expressions of the rules, in order.
pub open spec fn rule_exprs(rules: Seq<RuleModel>) -> Seq<IrModel> {
    rules.map_values(|r: RuleModel| r.expr)
}

/// The expressions that are counted as call sites: with `skip_inline`, an
/// inlined rule contributes nothing (it stands as `Any`, which refers to no rule).
pub open spec fn counted_exprs(rules: Seq<RuleModel>, skip_inline: bool) -> Seq<IrModel> {
    Seq::new(rules.len(), |k: int| if skip_inline && rules[k].inline { IrModel::Any } else { rules[k].expr })
}

/// A rule without guards or side effects whose body is a single terminal.
pub open spec fn is_trivial_model(r: RuleModel) -> bool {
    &&& r.guards.len() == 0
    &&& r.emits.len() == 0
    &&& (r.expr is Literal || r.expr is CharSet || r.expr is Any || r.expr is Boundary || r.expr is TakeWhile
        || r.expr is Scan)
}

/// A rule without guards, side effects or error label whose body costs at most 14.
pub open spec fn is_small_model(r: RuleModel) -> bool {
    &&& r.guards.len() == 0
    &&& r.emits.len() == 0
    &&& r.error_label is None
    &&& cost(r.expr) <= 14
}

/// The inlining table: the expression of every marked rule.
pub open spec fn inline_table(rules: Seq<RuleModel>, marks: Seq<bool>) -> Seq<Option<IrModel>> {
    Seq::new(rules.len(), |i: int| if marks[i] { Some(rules[i].expr) } else { None })
}

/// Set the inline flag of each rule to its mark, then replace every reference
/// to a marked rule by that rule's expression.
pub open spec fn apply_inlining(p: ProgramModel, marks: Seq<bool>) -> ProgramModel {
    ProgramModel {
        state_decls: p.state_decls,
        rules: Seq::new(
            p.rules.len(),
            |i: int|
                with_expr(with_inline(p.rules[i], marks[i]), inline_model(p.rules[i].expr, inline_table(p.rules, marks))),
        ),
    }
}

/// Rules already inlined stay inlined; a trivial rule that some rule refers to is inlined.
pub open spec fn trivial_marks(rules: Seq<RuleModel>) -> Seq<bool> {
    Seq::new(
        rules.len(),
        |i: int| rules[i].inline || (is_trivial_model(rules[i]) && mentions_any(rule_exprs(rules), i as usize)),
    )
}

/// A small rule referred to exactly once, and not by itself.
pub open spec fn small_selected(rules: Seq<RuleModel>, i: int) -> bool {
    &&& occurrences_list(rule_exprs(rules), i as usize) == 1
    &&& is_small_model(rules[i])
    &&& !mentions(rules[i].expr, i as usize)
}

pub open spec fn small_marks(rules: Seq<RuleModel>) -> Seq<bool> {
    Seq::new(rules.len(), |i: int| rules[i].inline || small_selected(rules, i))
}

/// The program after inlining its trivial rules.
pub open spec fn trivial_inlining(p: ProgramModel) -> ProgramModel {
    apply_inlining(p, trivial_marks(p.rules))
}

/// The program after inlining its small single-use rules; unchanged when there are none.
pub open spec fn small_inlining(p: ProgramModel) -> ProgramModel {
    if exists|i: int| 0 <= i < p.rules.len() && small_selected(p.rules, i) {
        apply_inlining(p, small_marks(p.rules))
    } else {
        p
    }
}

/// The program with each rule's reference count set to its number of call
/// sites outside inlined rules, capped at `usize::MAX`.
pub open spec fn with_ref_counts(p: ProgramModel) -> ProgramModel {
    ProgramModel {
        state_decls: p.state_decls,
        rules: Seq::new(
            p.rules.len(),
            |i: int| with_ref_count(p.rules[i], sat_add(0, occurrences_list(counted_exprs(p.rules, true), i as usize) as int) as usize),
        ),
    }
}

/// Whether `rule` is trivial enough to inline wherever it is referenced.
pub(crate) fn is_trivial(rule: &IrRule) -> (res: bool)
    ensures
        res == is_trivial_model(rule@),
{
    if rule.guards.len() != 0 || rule.emits.len() != 0 {
        return false;
    }
    match &rule.expr {
        IrExpr::Literal(_) => true,
        IrExpr::CharSet(_) => true,
        IrExpr::Any => true,
        IrExpr::Boundary(_) => true,
        IrExpr::TakeWhile { .. } => true,
        IrExpr::Scan { .. } => true,
        _ => false,
    }
}

/// Whether `rule` is small enough to inline at its single call site.
pub(crate) fn is_small_inline_candidate(rule: &IrRule) -> (res: bool)
    ensures
        res == is_small_model(rule@),
{
    if rule.guards.len() != 0 || rule.emits.len() != 0 || rule.error_label.is_some() {
        return false;
    }
    estimate_cost(&rule.expr) <= 14
}

/// For each rule, whether some rule refers to it.
fn referenced_rules(rules: &Vec<IrRule>) -> (res: Vec<bool>)
    ensures
        res@.len() == rules@.len(),
        forall|j: int| 0 <= j < rules@.len() ==> (#[trigger] res@[j]) == mentions_any(rule_exprs(rule_models(rules@)), j as usize),
{
    let ghost ms = rule_exprs(rule_models(rules@));
    let mut refs: Vec<bool> = Vec::new();
    let mut j: usize = 0;
    while j < rules.len()
        invariant
            j <= rules@.len(),
            refs@.len() == j,
            forall|k: int| 0 <= k < j ==> !(#[trigger] refs@[k]),
        decreases rules@.len() - j,
    {
        refs.push(false);
        j = j + 1;
    }
    let mut i: usize = 0;
    while i < rules.len()
        invariant
            i <= rules@.len(),
            refs@.len() == rules@.len(),
            ms == rule_exprs(rule_models(rules@)),
            ms.len() == rules@.len(),
            forall|j: int| 0 <= j < rules@.len() ==> (#[trigger] refs@[j]) == exists|k: int| 0 <= k < i && mentions(#[trigger] ms[k], j as usize),
        decreases rules@.len() - i,
    {
        collect_refs(&rules[i].expr, &mut refs);
        proof {
            assert(ms[i as int] == rules@[i as int].expr@);
            assert forall|j: int| 0 <= j < rules@.len() implies (#[trigger] refs@[j]) == exists|k: int| 0 <= k < i + 1 && mentions(#[trigger] ms[k], j as usize) by {
                if !mentions(ms[i as int], j as usize) {
                    if exists|k: int| 0 <= k < i + 1 && mentions(#[trigger] ms[k], j as usize) {
                        let k = choose|k: int| 0 <= k < i + 1 && mentions(#[trigger] ms[k], j as usize);
                        assert(k < i);
                    }
                }
            }
        }
        i = i + 1;
    }
    refs
}

/// For each rule, how many call sites refer to it (capped at `usize::MAX`);
/// with `skip_inline`, call sites inside inlined rules are not counted.
fn count_all_refs(rules: &Vec<IrRule>, skip_inline: bool) -> (res: Vec<usize>)
    ensures
        res@.len() == rules@.len(),
        forall|j: int| 0 <= j < rules@.len() ==> (#[trigger] res@[j]) as int == sat_add(0, occurrences_list(counted_exprs(rule_models(rules@), skip_inline), j as usize) as int),
{
    let ghost ms = counted_exprs(rule_models(rules@), skip_inline);
    let mut counts: Vec<usize> = Vec::new();
    let mut j: usize = 0;
    while j < rules.len()
        invariant
            j <= rules@.len(),
            counts@.len() == j,
            forall|k: int| 0 <= k < j ==> (#[trigger] counts@[k]) == 0,
        decreases rules@.len() - j,
    {
        counts.push(0);
        j = j + 1;
    }
    let mut i: usize = 0;
    while i < rules.len()
        invariant
            i <= rules@.len(),
            counts@.len() == rules@.len(),
            ms == counted_exprs(rule_models(rules@), skip_inline),
            ms.len() == rules@.len(),
            forall|j: int| 0 <= j < rules@.len() ==> (#[trigger] counts@[j]) as int == sat_add(0, occurrences_list(ms.take(i as int), j as usize) as int),
        decreases rules@.len() - i,
    {
        let ghost before = counts@;
        if !(skip_inline && rules[i].inline) {
            count_refs(&rules[i].expr, &mut counts);
        }
        proof {
            assert(ms.take(i + 1).drop_last() =~= ms.take(i as int));
            assert forall|j: int| 0 <= j < rules@.len() implies (#[trigger] counts@[j]) as int == sat_add(0, occurrences_list(ms.take(i + 1), j as usize) as int) by {
                assert(ms.take(i + 1)[i as int] == ms[i as int]);
                lemma_sat_add_assoc(0, occurrences_list(ms.take(i as int), j as usize) as int, occurrences(ms[i as int], j as usize) as int);
            }
        }
        i = i + 1;
    }
    proof {
        assert(ms.take(rules@.len() as int) =~= ms);
    }
    counts
}

/// Set every rule's inline flag to its mark and inline the marked rules everywhere.
fn apply_marks(program: IrProgram, marks: &Vec<bool>) -> (res: IrProgram)
    requires
        marks@.len() == program.rules@.len(),
    ensures
        res@ == apply_inlining(program@, marks@),
{
    let mut program = program;
    let ghost old_model = program@;
    let n = program.rules.len();
    let mut i: usize = 0;
    while i < n
        invariant
            i <= n,
            n == program.rules@.len(),
            program.rules@.len() == old_model.rules.len(),
            marks@.len() == n,
            program@.state_decls == old_model.state_decls,
            forall|k: int| 0 <= k < n ==> (#[trigger] rule_model(program.rules@[k])) == with_inline(old_model.rules[k], if k < i { marks@[k] } else { old_model.rules[k].inline }),
        decreases n - i,
    {
        let ghost before = program.rules@;
        program.rules[i].inline = marks[i];
        proof {
            assert(program.rules@[i as int].inline == marks@[i as int]);
            assert(program.rules@[i as int].name == before[i as int].name);
            assert(program.rules@[i as int].guards == before[i as int].guards);
            assert(program.rules@[i as int].expr == before[i as int].expr);
            assert(rule_model(before[i as int]) == with_inline(old_model.rules[i as int], old_model.rules[i as int].inline));
            assert(rule_model(program.rules@[i as int]) == with_inline(rule_model(before[i as int]), marks@[i as int]));
            assert forall|k: int| 0 <= k < n && k != i implies program.rules@[k] == before[k] by {}
        }
        i = i + 1;
    }
    let ghost flagged = program@;
    let ghost table_spec = inline_table(old_model.rules, marks@);
    let mut table: Vec<Option<IrExpr>> = Vec::new();
    let mut t: usize = 0;
    while t < n
        invariant
            t <= n,
            n == program.rules@.len(),
            marks@.len() == n,
            program@ == flagged,
            flagged.rules.len() == n,
            old_model.rules.len() == n,
            forall|k: int| 0 <= k < n ==> (#[trigger] flagged.rules[k]) == with_inline(old_model.rules[k], marks@[k]),
            table@.len() == t,
            table_spec == inline_table(old_model.rules, marks@),
            forall|k: int| 0 <= k < t ==> (#[trigger] table_model(table@)[k]) == table_spec[k],
        decreases n - t,
    {
        let ghost old_table = table@;
        if program.rules[t].inline {
            table.push(Some(copy_expr(&program.rules[t].expr)));
        } else {
            table.push(None);
        }
        proof {
            assert(program.rules@[t as int]@ == flagged.rules[t as int]);
            assert forall|k: int| 0 <= k < t + 1 implies (#[trigger] table_model(table@)[k]) == table_spec[k] by {
                if k < t {
                    assert(table@[k] == old_table[k]);
                    assert(table_model(old_table)[k] == table_spec[k]);
                } else {
                    assert(flagged.rules[k] == program.rules@[k]@);
                    assert(flagged.rules[k].inline == marks@[k]);
                    assert(flagged.rules[k].expr == old_model.rules[k].expr);
                }
            }
        }
        t = t + 1;
    }
    proof {
        assert(table_model(table@) =~= table_spec);
    }
    let mut i: usize = 0;
    while i < n
        invariant
            i <= n,
            n == program.rules@.len(),
            program@.state_decls == old_model.state_decls,
            table_model(table@) == table_spec,
            table_spec == inline_table(old_model.rules, marks@),
            marks@.len() == n,
            old_model.rules.len() == n,
            forall|k: int| 0 <= k < i ==> (#[trigger] rule_model(program.rules@[k])) == apply_inlining(old_model, marks@).rules[k],
            forall|k: int| i <= k < n ==> (#[trigger] rule_model(program.rules@[k])) == flagged.rules[k],
            forall|k: int| 0 <= k < n ==> (#[trigger] flagged.rules[k]) == with_inline(old_model.rules[k], marks@[k]),
        decreases n - i,
    {
        let new_expr = inline_refs(&program.rules[i].expr, &table);
        let ghost before = program.rules@;
        proof {
            assert(rule_model(before[i as int]) == flagged.rules[i as int]);
            assert(new_expr@ == inline_model(old_model.rules[i as int].expr, inline_table(old_model.rules, marks@)));
        }
        program.rules[i].expr = new_expr;
        proof {
            let target = apply_inlining(old_model, marks@).rules[i as int];
            assert(target.expr == new_expr@);
            assert(target.inline == marks@[i as int]);
            assert(rule_model(program.rules@[i as int]) =~= target);
            assert forall|k: int| 0 <= k < n && k != i implies program.rules@[k] == before[k] by {}
        }
        i = i + 1;
    }
    proof {
        assert(program@.rules =~= apply_inlining(old_model, marks@).rules);
        assert(program@ =~= apply_inlining(old_model, marks@));
    }
    program
}

/// Inline every trivial rule (a lone terminal without guards or side effects)
/// that some rule refers to.
pub(crate) fn inline_trivial_rules(program: IrProgram) -> (res: IrProgram)
    ensures
        res@ == trivial_inlining(program@),
{
    let refs = referenced_rules(&program.rules);
    let ghost rules = program@.rules;
    let mut marks: Vec<bool> = Vec::new();
    let mut i: usize = 0;
    while i < program.rules.len()
        invariant
            i <= program.rules@.len(),
            rules == program@.rules,
            refs@.len() == program.rules@.len(),
            forall|j: int| 0 <= j < program.rules@.len() ==> (#[trigger] refs@[j]) == mentions_any(rule_exprs(rules), j as usize),
            marks@.len() == i,
            forall|k: int| 0 <= k < i ==> (#[trigger] marks@[k]) == trivial_marks(rules)[k],
        decreases program.rules@.len() - i,
    {
        let rule = &program.rules[i];
        let m = rule.inline || (is_trivial(rule) && refs[i]);
        marks.push(m);
        i = i + 1;
    }
    proof {
        assert(marks@ =~= trivial_marks(rules));
    }
    apply_marks(program, &marks)
}

/// Inline every small rule that is referred to exactly once, and not by itself.
/// When no rule qualifies the program is returned unchanged.
pub(crate) fn inline_small_single_use_rules(program: IrProgram) -> (res: IrProgram)
    ensures
        res@ == small_inlining(program@),
{
    let counts = count_all_refs(&program.rules, false);
    let ghost rules = program@.rules;
    proof {
        assert(counted_exprs(rules, false) =~= rule_exprs(rules));
    }
    let mut marks: Vec<bool> = Vec::new();
    let mut any = false;
    let mut i: usize = 0;
    while i < program.rules.len()
        invariant
            i <= program.rules@.len(),
            rules == program@.rules,
            counted_exprs(rules, false) == rule_exprs(rules),
            counts@.len() == program.rules@.len(),
            forall|j: int| 0 <= j < program.rules@.len() ==> (#[trigger] counts@[j]) as int == sat_add(0, occurrences_list(rule_exprs(rules), j as usize) as int),
            marks@.len() == i,
            forall|k: int| 0 <= k < i ==> (#[trigger] marks@[k]) == small_marks(rules)[k],
            any == exists|k: int| 0 <= k < i && small_selected(rules, k),
        decreases program.rules@.len() - i,
    {
        let rule = &program.rules[i];
        let selected = counts[i] == 1 && is_small_inline_candidate(rule) && !contains_rule_ref(&rule.expr, i);
        proof {
            assert(rules[i as int] == rule@);
            assert(selected == small_selected(rules, i as int));
        }
        marks.push(rule.inline || selected);
        any = any || selected;
        i = i + 1;
    }
    if !any {
        return program;
    }
    proof {
        assert(marks@ =~= small_marks(rules));
    }
    apply_marks(program, &marks)
}

/// Set each rule's reference count to the number of call sites outside inlined
/// rules (capped at `usize::MAX`); 0 marks an entry point.
pub(crate) fn compute_ref_counts(program: IrProgram) -> (res: IrProgram)
    ensures
        res@ == with_ref_counts(program@),
{
    let counts = count_all_refs(&program.rules, true);
    let mut program = program;
    let ghost old_model = program@;
    let n = program.rules.len();
    let mut i: usize = 0;
    while i < n
        invariant
            i <= n,
            n == program.rules@.len(),
            counts@.len() == n,
            old_model.rules.len() == n,
            program@.state_decls == old_model.state_decls,
            forall|j: int| 0 <= j < n ==> (#[trigger] counts@[j]) as int == sat_add(0, occurrences_list(counted_exprs(old_model.rules, true), j as usize) as int),
            forall|k: int| 0 <= k < n ==> (#[trigger] rule_model(program.rules@[k])) == with_ref_count(old_model.rules[k], if k < i { counts@[k] } else { old_model.rules[k].ref_count }),
        decreases n - i,
    {
        let ghost before = program.rules@;
        program.rules[i].ref_count = counts[i];
        proof {
            assert(program.rules@[i as int].ref_count == counts@[i as int]);
            assert(program.rules@[i as int].name == before[i as int].name);
            assert(program.rules@[i as int].guards == before[i as int].guards);
            assert(program.rules@[i as int].expr == before[i as int].expr);
            assert(rule_model(before[i as int]) == old_model.rules[i as int]);
            assert(rule_model(program.rules@[i as int]) == with_ref_count(rule_model(before[i as int]), counts@[i as int]));
            assert forall|k: int| 0 <= k < n && k != i implies program.rules@[k] == before[k] by {}
        }
        i = i + 1;
    }
    proof {
        assert(program@.rules =~= with_ref_counts(old_model).rules);
    }
    program
}

/// Rules no longer referenced are kept: each stays callable as an entry point.
pub(crate) fn eliminate_dead_rules(program: IrProgram) -> (res: IrProgram)
    ensures
        res@ == program@,
{
    program
}


// ── Laws of inlining ──

/// A reference to a rule with an entry in the table is replaced by that
/// entry; a reference to any other rule stays.
pub proof fn law_inline_replaces_reference(i: usize, table: Seq<Option<IrModel>>)
    ensures
        i < table.len() && table[i as int] is Some ==> inline_model(IrModel::RuleRef(i), table) == table[i as int]->0,
        !(i < table.len() && table[i as int] is Some) ==> inline_model(IrModel::RuleRef(i), table) == IrModel::RuleRef(i),
{
}

} // verus!
