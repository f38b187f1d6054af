//! Checks on a parsed grammar: every rule reference names a rule, and no two
//! rules share a name.
use crate::ast::{expr_models, lemma_expr_models_index, Expr, ExprModel, Grammar, Item, ItemModel};
use crate::ir::lower::{grammar_resolves, names_model, resolves, resolves_all, rule_names};
use vstd::prelude::*;

verus! {

/// A problem found in a grammar.
#[derive(Debug, Clone, PartialEq)]
pub struct ValidationError {
    pub message: String,
}

/// No two rules share a name.
pub open spec fn names_unique(names: Seq<Seq<char>>) -> bool {
    forall|i: int, j: int| 0 <= i < j < names.len() ==> #[trigger] names[i] != #[trigger] names[j]
}

/// A grammar the rest of the pipeline accepts.
pub open spec fn valid(items: Seq<ItemModel>) -> bool {
    grammar_resolves(items) && names_unique(rule_names(items))
}

/// The message that a rule is defined twice.
pub open spec fn duplicate_message(n: Seq<char>) -> Seq<char> {
    "duplicate rule '"@ + n + "'"@
}

/// The message that a rule reference names no rule.
pub open spec fn undefined_message(n: Seq<char>) -> Seq<char> {
    "undefined rule '"@ + n + "'"@
}

/// `message` reports a reference inside `e` to a name that is not among
/// `names`.
pub open spec fn reports_undefined(e: ExprModel, names: Seq<Seq<char>>, message: Seq<char>) -> bool
    decreases e,
{
    match e {
        ExprModel::Ident(n) => !names.contains(n) && message == undefined_message(n),
        ExprModel::Sequence(items) => any_reports_undefined(items, names, message),
        ExprModel::Choice(items) => any_reports_undefined(items, names, message),
        ExprModel::Repeat { expr, .. } => reports_undefined(*expr, names, message),
        ExprModel::PosLookahead(inner) => reports_undefined(*inner, names, message),
        ExprModel::NegLookahead(inner) => reports_undefined(*inner, names, message),
        ExprModel::Group(inner) => reports_undefined(*inner, names, message),
        ExprModel::With { body, .. } => reports_undefined(*body, names, message),
        ExprModel::WithIncrement { body, .. } => reports_undefined(*body, names, message),
        ExprModel::When { body, .. } => reports_undefined(*body, names, message),
        ExprModel::DepthLimit { body, .. } => reports_undefined(*body, names, message),
        ExprModel::Labeled { expr, .. } => reports_undefined(*expr, names, message),
        _ => false,
    }
}

/// `message` reports a reference inside some element of `items` to a name
/// that is not among `names`.
pub open spec fn any_reports_undefined(items: Seq<ExprModel>, names: Seq<Seq<char>>, message: Seq<char>) -> bool
    decreases items,
{
    exists|i: int| 0 <= i < items.len() && reports_undefined(#[trigger] items[i], names, message)
}

/// `n` is the name of two rules.
pub open spec fn defined_twice(names: Seq<Seq<char>>, n: Seq<char>) -> bool {
    exists|a: int, b: int| 0 <= a < b < names.len() && #[trigger] names[a] == n && #[trigger] names[b] == n
}

/// `message` reports a name that two of `names` share.
pub open spec fn reports_duplicate(names: Seq<Seq<char>>, message: Seq<char>) -> bool {
    exists|n: Seq<char>| message == #[trigger] duplicate_message(n) && defined_twice(names, n)
}

/// `message` reports a problem of `items`: a rule defined twice, or a
/// reference in a rule to a name that no rule has.
pub open spec fn reports_problem(items: Seq<ItemModel>, message: Seq<char>) -> bool {
    ||| reports_duplicate(rule_names(items), message)
    ||| exists|j: int|
        0 <= j < items.len() && (#[trigger] items[j] matches ItemModel::RuleDef(r) && reports_undefined(
            r.expr,
            rule_names(items),
            message,
        ))
}

/// The messages of `errors`, in order.
pub open spec fn messages(errors: Seq<ValidationError>) -> Seq<Seq<char>> {
    errors.map_values(|e: ValidationError| e.message@)
}

/// The message for each reference inside `e` to a name not among `names`,
/// in the order the references are written.
pub open spec fn undefined_list(e: ExprModel, names: Seq<Seq<char>>) -> Seq<Seq<char>>
    decreases e, 1nat,
{
    match e {
        ExprModel::Ident(n) => if names.contains(n) {
            Seq::empty()
        } else {
            seq![undefined_message(n)]
        },
        ExprModel::Sequence(items) => undefined_lists(items, names),
        ExprModel::Choice(items) => undefined_lists(items, names),
        ExprModel::Repeat { expr, .. } => undefined_list(*expr, names),
        ExprModel::PosLookahead(inner) => undefined_list(*inner, names),
        ExprModel::NegLookahead(inner) => undefined_list(*inner, names),
        ExprModel::Group(inner) => undefined_list(*inner, names),
        ExprModel::With { body, .. } => undefined_list(*body, names),
        ExprModel::WithIncrement { body, .. } => undefined_list(*body, names),
        ExprModel::When { body, .. } => undefined_list(*body, names),
        ExprModel::DepthLimit { body, .. } => undefined_list(*body, names),
        ExprModel::Labeled { expr, .. } => undefined_list(*expr, names),
        _ => Seq::empty(),
    }
}

/// The messages of `undefined_list` for each of `items`, one after another.
pub open spec fn undefined_lists(items: Seq<ExprModel>, names: Seq<Seq<char>>) -> Seq<Seq<char>>
    decreases items, 0nat,
{
    if items.len() == 0 {
        Seq::empty()
    } else {
        proof {
            assert(decreases_to!(items => items.drop_last()));
        }
        undefined_lists(items.drop_last(), names) + undefined_list(items.last(), names)
    }
}

/// A message for each rule definition whose name an earlier one already
/// has, in order.
pub open spec fn duplicate_list(items: Seq<ItemModel>) -> Seq<Seq<char>>
    decreases items.len(),
{
    if items.len() == 0 {
        Seq::empty()
    } else {
        duplicate_list(items.drop_last()) + match items.last() {
            ItemModel::RuleDef(r) => if rule_names(items.drop_last()).contains(r.name) {
                seq![duplicate_message(r.name)]
            } else {
                Seq::empty()
            },
            _ => Seq::empty(),
        }
    }
}

/// The undefined-reference messages of each rule of `items` in turn.
pub open spec fn rules_undefined_list(items: Seq<ItemModel>, names: Seq<Seq<char>>) -> Seq<Seq<char>>
    decreases items.len(),
{
    if items.len() == 0 {
        Seq::empty()
    } else {
        rules_undefined_list(items.drop_last(), names) + match items.last() {
            ItemModel::RuleDef(r) => undefined_list(r.expr, names),
            _ => Seq::empty(),
        }
    }
}

/// Every problem of `items`, as validation reports it: first each rule
/// defined again, then each reference to a name no rule has, rule by rule.
pub open spec fn validation_messages(items: Seq<ItemModel>) -> Seq<Seq<char>> {
    duplicate_list(items) + rules_undefined_list(items, rule_names(items))
}

/// `message` reports a reference in the rule `i` to a name not among `names`.
pub open spec fn item_reports_undefined(i: ItemModel, names: Seq<Seq<char>>, message: Seq<char>) -> bool {
    i matches ItemModel::RuleDef(r) && reports_undefined(r.expr, names, message)
}

/// Some error in `errors` carries `message`.
pub open spec fn reported(errors: Seq<ValidationError>, message: Seq<char>) -> bool {
    exists|k: int| 0 <= k < errors.len() && (#[trigger] errors[k]).message@ == message
}

/// A message reported among errors is still reported once more errors
/// follow them.
proof fn lemma_still_reported(old_errors: Seq<ValidationError>, errors: Seq<ValidationError>)
    requires
        errors.len() >= old_errors.len(),
        forall|k: int| 0 <= k < old_errors.len() ==> errors[k] == old_errors[k],
    ensures
        forall|m: Seq<char>| #[trigger] reported(old_errors, m) ==> reported(errors, m),
{
    assert forall|m: Seq<char>| #[trigger] reported(old_errors, m) implies reported(errors, m) by {
        let k = choose|k: int| 0 <= k < old_errors.len() && (#[trigger] old_errors[k]).message@ == m;
        assert(errors[k] == old_errors[k]);
    }
}

fn contains_name(names: &Vec<String>, name: &String) -> (res: bool)
    ensures
        res == names_model(names@).contains(name@),
{
    let ghost nm = names_model(names@);
    let mut i: usize = 0;
    while i < names.len()
        invariant
            i <= names@.len(),
            nm == names_model(names@),
            forall|k: int| 0 <= k < i ==> nm[k] != name@,
        decreases names@.len() - i,
    {
        if names[i] == *name {
            assert(nm[i as int] == name@);
            return true;
        }
        i = i + 1;
    }
    false
}

fn error(text: &str, name: &String) -> (res: ValidationError)
    ensures
        res.message@ == text@ + name@ + "'"@,
{
    let mut message = text.to_owned();
    message.append(name.as_str());
    message.append("'");
    ValidationError { message }
}

/// Report, in `errors`, every rule reference of `e` that names no rule.
fn check_refs(e: &Expr, names: &Vec<String>, errors: &mut Vec<ValidationError>)
    ensures
        final(errors)@.len() >= old(errors)@.len(),
        (final(errors)@.len() == old(errors)@.len()) == resolves(e@, names_model(names@)),
        forall|k: int| 0 <= k < old(errors)@.len() ==> final(errors)@[k] == old(errors)@[k],
        forall|k: int|
            old(errors)@.len() <= k < final(errors)@.len() ==> reports_undefined(
                e@,
                names_model(names@),
                (#[trigger] final(errors)@[k]).message@,
            ),
        forall|m: Seq<char>| #[trigger] reports_undefined(e@, names_model(names@), m) ==> reported(final(errors)@, m),
        messages(final(errors)@) == messages(old(errors)@) + undefined_list(e@, names_model(names@)),
    decreases e,
{
    match e {
        Expr::Ident(name) => {
            proof {
                assert(e@ == ExprModel::Ident(name@));
            }
            let known = contains_name(names, name);
            if known {
                proof {
                    assert(undefined_list(e@, names_model(names@)) =~= Seq::<Seq<char>>::empty());
                    assert(messages(errors@) =~= messages(errors@) + Seq::<Seq<char>>::empty());
                    assert forall|m: Seq<char>| #[trigger] reports_undefined(e@, names_model(names@), m) implies reported(
                        errors@,
                        m,
                    ) by {
                        assert(names_model(names@).contains(name@));
                    }
                }
            } else {
                let ghost before = errors@;
                errors.push(error("undefined rule '", name));
                proof {
                    let k = before.len() as int;
                    assert(errors@[k].message@ == undefined_message(name@));
                    assert(messages(errors@) =~= messages(before) + undefined_list(e@, names_model(names@)));
                    assert forall|m: Seq<char>| #[trigger] reports_undefined(e@, names_model(names@), m) implies reported(
                        errors@,
                        m,
                    ) by {
                        assert(errors@[k].message@ == m);
                    }
                }
            }
        },
        Expr::Sequence(items) => {
            check_refs_all(items, names, errors);
            proof {
                assert(undefined_list(e@, names_model(names@)) == undefined_lists(expr_models(items@), names_model(names@)));
                assert forall|m: Seq<char>| #[trigger] reports_undefined(e@, names_model(names@), m) implies reported(errors@, m) by {
                    assert(any_reports_undefined(expr_models(items@), names_model(names@), m));
                }
            }
        },
        Expr::Choice(items) => {
            check_refs_all(items, names, errors);
            proof {
                assert(undefined_list(e@, names_model(names@)) == undefined_lists(expr_models(items@), names_model(names@)));
                assert forall|m: Seq<char>| #[trigger] reports_undefined(e@, names_model(names@), m) implies reported(errors@, m) by {
                    assert(any_reports_undefined(expr_models(items@), names_model(names@), m));
                }
            }
        },
        Expr::Repeat { expr, .. } => {
            check_refs(expr, names, errors);
            proof {
                assert(undefined_list(e@, names_model(names@)) == undefined_list((**expr)@, names_model(names@)));
                assert forall|m: Seq<char>| #[trigger] reports_undefined(e@, names_model(names@), m) implies reported(errors@, m) by {
                    assert(reports_undefined((**expr)@, names_model(names@), m));
                }
            }
        },
        Expr::PosLookahead(inner) => {
            check_refs(inner, names, errors);
            proof {
                assert(undefined_list(e@, names_model(names@)) == undefined_list((**inner)@, names_model(names@)));
                assert forall|m: Seq<char>| #[trigger] reports_undefined(e@, names_model(names@), m) implies reported(errors@, m) by {
                    assert(reports_undefined((**inner)@, names_model(names@), m));
                }
            }
        },
        Expr::NegLookahead(inner) => {
            check_refs(inner, names, errors);
            proof {
                assert(undefined_list(e@, names_model(names@)) == undefined_list((**inner)@, names_model(names@)));
                assert forall|m: Seq<char>| #[trigger] reports_undefined(e@, names_model(names@), m) implies reported(errors@, m) by {
                    assert(reports_undefined((**inner)@, names_model(names@), m));
                }
            }
        },
        Expr::Group(inner) => {
            check_refs(inner, names, errors);
            proof {
                assert(undefined_list(e@, names_model(names@)) == undefined_list((**inner)@, names_model(names@)));
                assert forall|m: Seq<char>| #[trigger] reports_undefined(e@, names_model(names@), m) implies reported(errors@, m) by {
                    assert(reports_undefined((**inner)@, names_model(names@), m));
                }
            }
        },
        Expr::With(w) => {
            check_refs(&w.body, names, errors);
            proof {
                assert(undefined_list(e@, names_model(names@)) == undefined_list((*w.body)@, names_model(names@)));
                assert forall|m: Seq<char>| #[trigger] reports_undefined(e@, names_model(names@), m) implies reported(errors@, m) by {
                    assert(reports_undefined((*w.body)@, names_model(names@), m));
                }
            }
        },
        Expr::WithIncrement(w) => {
            check_refs(&w.body, names, errors);
            proof {
                assert(undefined_list(e@, names_model(names@)) == undefined_list((*w.body)@, names_model(names@)));
                assert forall|m: Seq<char>| #[trigger] reports_undefined(e@, names_model(names@), m) implies reported(errors@, m) by {
                    assert(reports_undefined((*w.body)@, names_model(names@), m));
                }
            }
        },
        Expr::When(w) => {
            check_refs(&w.body, names, errors);
            proof {
                assert(undefined_list(e@, names_model(names@)) == undefined_list((*w.body)@, names_model(names@)));
                assert forall|m: Seq<char>| #[trigger] reports_undefined(e@, names_model(names@), m) implies reported(errors@, m) by {
                    assert(reports_undefined((*w.body)@, names_model(names@), m));
                }
            }
        },
        Expr::DepthLimit(d) => {
            check_refs(&d.body, names, errors);
            proof {
                assert(undefined_list(e@, names_model(names@)) == undefined_list((*d.body)@, names_model(names@)));
                assert forall|m: Seq<char>| #[trigger] reports_undefined(e@, names_model(names@), m) implies reported(errors@, m) by {
                    assert(reports_undefined((*d.body)@, names_model(names@), m));
                }
            }
        },
        Expr::Labeled { expr, .. } => {
            check_refs(expr, names, errors);
            proof {
                assert(undefined_list(e@, names_model(names@)) == undefined_list((**expr)@, names_model(names@)));
                assert forall|m: Seq<char>| #[trigger] reports_undefined(e@, names_model(names@), m) implies reported(errors@, m) by {
                    assert(reports_undefined((**expr)@, names_model(names@), m));
                }
            }
        },
        _ => {},
    }
}

fn check_refs_all(items: &Vec<Expr>, names: &Vec<String>, errors: &mut Vec<ValidationError>)
    ensures
        final(errors)@.len() >= old(errors)@.len(),
        (final(errors)@.len() == old(errors)@.len()) == resolves_all(expr_models(items@), names_model(names@)),
        forall|k: int| 0 <= k < old(errors)@.len() ==> final(errors)@[k] == old(errors)@[k],
        forall|k: int|
            old(errors)@.len() <= k < final(errors)@.len() ==> any_reports_undefined(
                expr_models(items@),
                names_model(names@),
                (#[trigger] final(errors)@[k]).message@,
            ),
        forall|m: Seq<char>|
            #[trigger] any_reports_undefined(expr_models(items@), names_model(names@), m) ==> reported(final(errors)@, m),
        messages(final(errors)@) == messages(old(errors)@) + undefined_lists(expr_models(items@), names_model(names@)),
    decreases items,
{
    proof {
        lemma_expr_models_index(items@);
    }
    let ghost start = errors@.len();
    let ghost ms = expr_models(items@);
    let mut i: usize = 0;
    proof {
        assert(ms.take(0) =~= Seq::<ExprModel>::empty());
        assert(messages(errors@) =~= messages(old(errors)@) + undefined_lists(ms.take(0), names_model(names@)));
    }
    while i < items.len()
        invariant
            i <= items@.len(),
            ms == expr_models(items@),
            ms.len() == items@.len(),
            forall|k: int| 0 <= k < items@.len() ==> #[trigger] ms[k] == items@[k]@,
            errors@.len() >= start,
            start == old(errors)@.len(),
            (errors@.len() == start) == (forall|k: int| 0 <= k < i ==> resolves(#[trigger] ms[k], names_model(names@))),
            forall|k: int| 0 <= k < old(errors)@.len() ==> errors@[k] == old(errors)@[k],
            forall|k: int|
                old(errors)@.len() <= k < errors@.len() ==> any_reports_undefined(
                    ms,
                    names_model(names@),
                    (#[trigger] errors@[k]).message@,
                ),
            forall|m: Seq<char>, k: int|
                0 <= k < i && #[trigger] reports_undefined(ms[k], names_model(names@), m) ==> reported(errors@, m),
            messages(errors@) == messages(old(errors)@) + undefined_lists(ms.take(i as int), names_model(names@)),
        decreases items@.len() - i,
    {
        proof {
            assert(decreases_to!(items => items@[i as int]));
        }
        let ghost before = errors@.len();
        let ghost before_errors = errors@;
        check_refs(&items[i], names, errors);
        proof {
            assert(ms.take(i + 1).drop_last() =~= ms.take(i as int));
            assert(ms.take(i + 1).last() == ms[i as int]);
            assert(messages(errors@) =~= messages(old(errors)@) + undefined_lists(ms.take(i + 1), names_model(names@)));
            lemma_still_reported(before_errors, errors@);
            assert(ms[i as int] == items@[i as int]@);
            assert forall|m: Seq<char>, k: int|
                0 <= k < i + 1 && #[trigger] reports_undefined(ms[k], names_model(names@), m) implies reported(errors@, m) by {
                if k < i {
                    assert(reported(before_errors, m));
                }
            }
            assert forall|k: int| old(errors)@.len() <= k < errors@.len() implies any_reports_undefined(
                ms,
                names_model(names@),
                (#[trigger] errors@[k]).message@,
            ) by {
                if k < before {
                    assert(errors@[k] == before_errors[k]);
                } else {
                    assert(ms[i as int] == items@[i as int]@);
                    assert(reports_undefined(ms[i as int], names_model(names@), errors@[k].message@));
                }
            }
            if errors@.len() == start {
                assert forall|k: int| 0 <= k < i + 1 implies resolves(#[trigger] ms[k], names_model(names@)) by {
                    if k == i {
                        assert(ms[k] == items@[i as int]@);
                    }
                }
            } else if before == start {
                assert(!resolves(ms[i as int], names_model(names@)));
            } else {
                let k = choose|k: int| 0 <= k < i && !resolves(#[trigger] ms[k], names_model(names@));
            }
        }
        i = i + 1;
    }
    proof {
        assert(ms.take(ms.len() as int) =~= ms);
        assert forall|m: Seq<char>| #[trigger] any_reports_undefined(ms, names_model(names@), m) implies reported(
            errors@,
            m,
        ) by {
            let k = choose|k: int| 0 <= k < ms.len() && reports_undefined(#[trigger] ms[k], names_model(names@), m);
        }
    }
}

/// Check `grammar`: `Ok` exactly when it is valid; otherwise the problems
/// found, each one a rule defined twice or a reference to a name that no rule
/// has, and every such problem reported.
pub fn validate(grammar: &Grammar) -> (res: Result<(), Vec<ValidationError>>)
    ensures
        res is Ok <==> valid(grammar@),
        res matches Err(errors) ==> errors@.len() > 0,
        res matches Err(errors) ==> forall|k: int| 0 <= k < errors@.len() ==> reports_problem(grammar@, (#[trigger] errors@[k]).message@),
        res matches Err(errors) ==> forall|m: Seq<char>| #[trigger] reports_problem(grammar@, m) ==> reported(errors@, m),
        res matches Err(errors) ==> messages(errors@) == validation_messages(grammar@),
        res is Ok <==> validation_messages(grammar@).len() == 0,
{
    let ghost g = grammar@;
    let mut names: Vec<String> = Vec::new();
    let mut errors: Vec<ValidationError> = Vec::new();
    let mut i: usize = 0;
    proof {
        assert(g.take(0) =~= Seq::<ItemModel>::empty());
        assert(names_model(names@) =~= Seq::<Seq<char>>::empty());
        assert(messages(errors@) =~= duplicate_list(g.take(0)));
    }
    while i < grammar.items.len()
        invariant
            i <= grammar.items@.len(),
            g == grammar@,
            g.len() == grammar.items@.len(),
            names_model(names@) == rule_names(g.take(i as int)),
            (errors@.len() == 0) == names_unique(names_model(names@)),
            forall|k: int| 0 <= k < errors@.len() ==> reports_duplicate(names_model(names@), (#[trigger] errors@[k]).message@),
            forall|n: Seq<char>| #[trigger] defined_twice(names_model(names@), n) ==> reported(errors@, duplicate_message(n)),
            messages(errors@) == duplicate_list(g.take(i as int)),
        decreases grammar.items@.len() - i,
    {
        proof {
            assert(g.take(i + 1).drop_last() =~= g.take(i as int));
            assert(g.take(i + 1).last() == grammar.items@[i as int]@);
        }
        let ghost n0 = names@;
        let ghost e0 = errors@.len();
        match &grammar.items[i] {
            Item::RuleDef(r) => {
                let dup = contains_name(&names, &r.name);
                let ghost errors0 = errors@;
                if dup {
                    errors.push(error("duplicate rule '", &r.name));
                }
                proof {
                    assert(g[i as int] == grammar.items@[i as int]@);
                    if dup {
                        assert(messages(errors@) =~= messages(errors0).push(duplicate_message(r.name@)));
                    } else {
                        assert(messages(errors@) =~= messages(errors0));
                    }
                    assert(messages(errors@) =~= duplicate_list(g.take(i + 1)));
                }
                names.push(r.name.clone());
                proof {
                    let nm0 = names_model(n0);
                    assert(names_model(names@) =~= nm0.push(r.name@));
                    lemma_still_reported(errors0, errors@);
                    assert forall|n: Seq<char>| #[trigger] defined_twice(names_model(names@), n) implies reported(
                        errors@,
                        duplicate_message(n),
                    ) by {
                        let (a, b) = choose|a: int, b: int|
                            0 <= a < b < names_model(names@).len() && #[trigger] names_model(names@)[a] == n
                                && #[trigger] names_model(names@)[b] == n;
                        if b < nm0.len() {
                            assert(nm0[a] == n && nm0[b] == n);
                            assert(defined_twice(nm0, n));
                            assert(reported(errors0, duplicate_message(n)));
                        } else {
                            assert(nm0[a] == r.name@);
                            assert(dup);
                            let k = errors0.len() as int;
                            assert(errors@[k].message@ == duplicate_message(n));
                        }
                    }
                    assert forall|k: int| 0 <= k < errors@.len() implies reports_duplicate(names_model(names@), (#[trigger] errors@[k]).message@) by {
                        if k < errors0.len() {
                            assert(errors@[k] == errors0[k]);
                            assert(reports_duplicate(nm0, errors0[k].message@));
                            let n = choose|n: Seq<char>| errors0[k].message@ == #[trigger] duplicate_message(n) && defined_twice(nm0, n);
                            let (a, b) = choose|a: int, b: int| 0 <= a < b < nm0.len() && #[trigger] nm0[a] == n && #[trigger] nm0[b] == n;
                            assert(names_model(names@)[a] == n && names_model(names@)[b] == n);
                            assert(defined_twice(names_model(names@), n));
                        } else {
                            let a = choose|a: int| 0 <= a < nm0.len() && nm0[a] == r.name@;
                            let b = nm0.len() as int;
                            assert(names_model(names@)[a] == r.name@ && names_model(names@)[b] == r.name@);
                            assert(defined_twice(names_model(names@), r.name@));
                            assert(errors@[k].message@ == duplicate_message(r.name@));
                        }
                    }
                    if dup {
                        let k = choose|k: int| 0 <= k < nm0.len() && nm0[k] == r.name@;
                        assert(names_model(names@)[k] == names_model(names@)[nm0.len() as int]);
                    } else if e0 == 0 {
                        assert forall|a: int, b: int| 0 <= a < b < names_model(names@).len() implies #[trigger] names_model(names@)[a] != #[trigger] names_model(names@)[b] by {
                            if b == nm0.len() {
                                assert(nm0[a] == names_model(names@)[a]);
                            } else {
                                assert(nm0[a] != nm0[b]);
                            }
                        }
                    } else {
                        let (a, b) = choose|a: int, b: int| 0 <= a < b < nm0.len() && #[trigger] nm0[a] == #[trigger] nm0[b];
                        assert(names_model(names@)[a] == names_model(names@)[b]);
                    }
                }
            },
            Item::StateDecl(_) => {
                proof {
                    assert(g[i as int] == grammar.items@[i as int]@);
                    assert(messages(errors@) =~= duplicate_list(g.take(i + 1)));
                }
            },
        }
        i = i + 1;
    }
    proof {
        assert(g.take(g.len() as int) =~= g);
    }
    proof {
        assert forall|k: int| 0 <= k < errors@.len() implies reports_problem(g, (#[trigger] errors@[k]).message@) by {
            assert(reports_duplicate(names_model(names@), errors@[k].message@));
            assert(reports_duplicate(rule_names(g), errors@[k].message@));
        }
    }
    proof {
        assert(g.take(0) =~= Seq::<ItemModel>::empty());
        assert(messages(errors@) =~= duplicate_list(g) + rules_undefined_list(g.take(0), names_model(names@)));
    }
    let ghost unique = errors@.len() == 0;
    let ghost nm = names_model(names@);
    let mut all_resolve = true;
    let mut j: usize = 0;
    while j < grammar.items.len()
        invariant
            j <= grammar.items@.len(),
            g == grammar@,
            g.len() == grammar.items@.len(),
            nm == names_model(names@),
            nm == rule_names(g),
            unique == names_unique(nm),
            (errors@.len() == 0) == (unique && all_resolve),
            all_resolve == (forall|k: int| 0 <= k < j ==> match #[trigger] g[k] {
                ItemModel::RuleDef(r) => resolves(r.expr, nm),
                _ => true,
            }),
            forall|k: int| 0 <= k < errors@.len() ==> reports_problem(g, (#[trigger] errors@[k]).message@),
            forall|n: Seq<char>| #[trigger] defined_twice(nm, n) ==> reported(errors@, duplicate_message(n)),
            forall|m: Seq<char>, k: int|
                0 <= k < j && #[trigger] item_reports_undefined(g[k], nm, m) ==> reported(errors@, m),
            messages(errors@) == duplicate_list(g) + rules_undefined_list(g.take(j as int), nm),
        decreases grammar.items@.len() - j,
    {
        let e0 = errors.len();
        let ghost a0 = all_resolve;
        match &grammar.items[j] {
            Item::RuleDef(r) => {
                let ghost errors0 = errors@;
                check_refs(&r.body.expr, &names, &mut errors);
                proof {
                    assert(g[j as int] == grammar.items@[j as int]@);
                    assert(g.take(j + 1).drop_last() =~= g.take(j as int));
                    assert(g.take(j + 1).last() == g[j as int]);
                    assert(messages(errors@) =~= duplicate_list(g) + rules_undefined_list(g.take(j + 1), nm));
                    lemma_still_reported(errors0, errors@);
                    assert forall|m: Seq<char>, k: int|
                        0 <= k < j + 1 && #[trigger] item_reports_undefined(g[k], nm, m) implies reported(errors@, m) by {
                        if k < j {
                            assert(reported(errors0, m));
                        } else {
                            assert(reports_undefined(r.body.expr@, nm, m));
                        }
                    }
                    assert forall|k: int| 0 <= k < errors@.len() implies reports_problem(g, (#[trigger] errors@[k]).message@) by {
                        if k < errors0.len() {
                            assert(errors@[k] == errors0[k]);
                        } else {
                            assert(reports_undefined(r.body.expr@, nm, errors@[k].message@));
                            assert(g[j as int] matches ItemModel::RuleDef(rr) && reports_undefined(rr.expr, rule_names(g), errors@[k].message@));
                        }
                    }
                }
                if errors.len() != e0 {
                    all_resolve = false;
                }
                proof {
                    assert(g[j as int] == grammar.items@[j as int]@);
                }
            },
            Item::StateDecl(_) => {
                proof {
                    assert(g[j as int] == grammar.items@[j as int]@);
                    assert(g.take(j + 1).drop_last() =~= g.take(j as int));
                    assert(g.take(j + 1).last() == g[j as int]);
                    assert(messages(errors@) =~= duplicate_list(g) + rules_undefined_list(g.take(j + 1), nm));
                    assert forall|m: Seq<char>, k: int|
                        0 <= k < j + 1 && #[trigger] item_reports_undefined(g[k], nm, m) implies reported(errors@, m) by {
                        if k == j {
                            assert(!item_reports_undefined(g[k], nm, m));
                        }
                    }
                }
            },
        }
        proof {
            if !a0 {
                let k = choose|k: int| 0 <= k < j && !(match #[trigger] g[k] {
                    ItemModel::RuleDef(r) => resolves(r.expr, nm),
                    _ => true,
                });
            }
        }
        j = j + 1;
    }
    proof {
        assert forall|m: Seq<char>| #[trigger] reports_problem(g, m) implies reported(errors@, m) by {
            if reports_duplicate(rule_names(g), m) {
                let n = choose|n: Seq<char>| m == #[trigger] duplicate_message(n) && defined_twice(rule_names(g), n);
                assert(defined_twice(nm, n));
            } else {
                let k = choose|k: int|
                    0 <= k < g.len() && (#[trigger] g[k] matches ItemModel::RuleDef(r) && reports_undefined(
                        r.expr,
                        rule_names(g),
                        m,
                    ));
                assert(item_reports_undefined(g[k], nm, m));
            }
        }
    }
    proof {
        assert(g.take(g.len() as int) =~= g);
        assert(messages(errors@) == validation_messages(g));
        assert(messages(errors@).len() == errors@.len());
    }
    if errors.len() == 0 {
        Ok(())
    } else {
        Err(errors)
    }
}

} // verus!
