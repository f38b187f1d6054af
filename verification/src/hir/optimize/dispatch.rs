//! Lowering of choices whose alternatives start with disjoint characters into dispatch tables.
use crate::ast::{copy_condition, copy_string};
use crate::hir::expr::{arm_models, copy_expr, copy_exprs, copy_ranges, ir_models, lemma_arm_models_index, lemma_models_index, lemma_models_push, ArmModel, DispatchArm, IrExpr, IrModel};
use crate::hir::program::{ProgramModel, rule_model, rule_models, with_expr, with_exprs, IrProgram};
use crate::hir::optimize::inline::rule_exprs;
use crate::ranges::{coalesce_model, coalesce_ranges, invert_model, invert_ranges, overlap_any, ranges_equal, ranges_overlap_any, CharRange};
use vstd::prelude::*;

verus! {

// ── First-character sets ──

/// What can start a match of an expression: the characters, and whether it
/// can match without consuming anything.
pub struct FirstModel {
    pub ranges: Seq<CharRange>,
    pub nullable: bool,
}

/// The characters that can start a match, and whether the empty match is possible.
pub struct FirstChars {
    pub ranges: Vec<CharRange>,
    pub nullable: bool,
}

impl View for FirstChars {
    type V = FirstModel;

    open spec fn view(&self) -> FirstModel {
        FirstModel { ranges: self.ranges@, nullable: self.nullable }
    }
}

pub open spec fn opt_first(o: Option<FirstChars>) -> Option<FirstModel> {
    match o {
        Some(f) => Some(f@),
        None => None,
    }
}

/// `r` put in front of the ranges of `rest`, keeping its nullability.
pub open spec fn prefix_first(r: Seq<CharRange>, rest: Option<FirstModel>) -> Option<FirstModel> {
    match rest {
        Some(f) => Some(FirstModel { ranges: r + f.ranges, nullable: f.nullable }),
        None => None,
    }
}

/// `r` put in front of the ranges of `rest`; nullable if either is.
pub open spec fn join_first(r: Seq<CharRange>, n: bool, rest: Option<FirstModel>) -> Option<FirstModel> {
    match rest {
        Some(f) => Some(FirstModel { ranges: r + f.ranges, nullable: n || f.nullable }),
        None => None,
    }
}

/// The same characters, coalesced.
pub open spec fn coalesced_first(o: Option<FirstModel>) -> Option<FirstModel> {
    match o {
        Some(f) => Some(FirstModel { ranges: coalesce_model(f.ranges), nullable: f.nullable }),
        None => None,
    }
}

/// Every character from U+0000 to U+10FFFF.
pub open spec fn all_chars() -> Seq<CharRange> {
    seq![CharRange { start: '\u{0}', end: '\u{10FFFF}' }]
}

/// The ranges of the arms, in order.
pub open spec fn arm_ranges(arms: Seq<ArmModel>) -> Seq<CharRange>
    decreases arms.len(),
{
    if arms.len() == 0 {
        Seq::empty()
    } else {
        arms[0].ranges + arm_ranges(arms.subrange(1, arms.len() as int))
    }
}

/// The first characters of `m`. Rules are followed through references;
/// `visiting` holds the rules being followed, and a reference back into one of
/// them gives `None`, as do lookahead-negations (except as below), guards and
/// separated lists. With `neg_any`, a sequence that starts with `!x ANY`,
/// where `x` matches exactly one character, starts with any character outside `x`.
pub open spec fn first_of(m: IrModel, rules: Seq<IrModel>, visiting: Seq<usize>, neg_any: bool) -> Option<FirstModel>
    decreases rules.len() - visiting.len(), m,
{
    match m {
        IrModel::Literal(s) => if s.len() > 0 {
            Some(FirstModel { ranges: seq![CharRange { start: s[0], end: s[0] }], nullable: false })
        } else {
            Some(FirstModel { ranges: Seq::empty(), nullable: true })
        },
        IrModel::CharSet(r) => Some(FirstModel { ranges: coalesce_model(r), nullable: false }),
        IrModel::Any => Some(FirstModel { ranges: all_chars(), nullable: false }),
        IrModel::Boundary(_) => Some(FirstModel { ranges: Seq::empty(), nullable: true }),
        IrModel::RuleRef(idx) => if visiting.contains(idx) || idx >= rules.len() || visiting.len() >= rules.len() {
            None
        } else {
            first_of(rules[idx as int], rules, visiting.push(idx), neg_any)
        },
        IrModel::Sequence(items) => if neg_any && items.len() >= 2 && items[0] is NegLookahead && items[1] is Any
            && single_set(*items[0]->NegLookahead_0, rules, visiting) is Some {
            Some(FirstModel {
                ranges: invert_model(coalesce_model(single_set(*items[0]->NegLookahead_0, rules, visiting)->0)),
                nullable: false,
            })
        } else {
            coalesced_first(first_seq(items, rules, visiting, neg_any))
        },
        IrModel::Choice(items) => coalesced_first(first_choice(items, rules, visiting, neg_any)),
        IrModel::Dispatch(arms) => Some(FirstModel { ranges: coalesce_model(arm_ranges(arms)), nullable: false }),
        IrModel::Scan { plain_ranges, specials, min } => Some(
            FirstModel { ranges: coalesce_model(plain_ranges + arm_ranges(specials)), nullable: min == 0 },
        ),
        IrModel::Repeat { expr, min, .. } => match first_of(*expr, rules, visiting, neg_any) {
            Some(f) => Some(FirstModel { ranges: f.ranges, nullable: min == 0 || f.nullable }),
            None => None,
        },
        IrModel::PosLookahead(inner) => match first_of(*inner, rules, visiting, neg_any) {
            Some(f) => Some(FirstModel { ranges: f.ranges, nullable: true }),
            None => None,
        },
        IrModel::WithFlag { body, .. } => first_of(*body, rules, visiting, neg_any),
        IrModel::WithCounter { body, .. } => first_of(*body, rules, visiting, neg_any),
        IrModel::DepthLimit { body, .. } => first_of(*body, rules, visiting, neg_any),
        IrModel::Labeled { expr, .. } => first_of(*expr, rules, visiting, neg_any),
        IrModel::TakeWhile { ranges, min, .. } => Some(FirstModel { ranges: coalesce_model(ranges), nullable: min == 0 }),
        _ => None,
    }
}

/// The first characters of a sequence: those of each item up to and
/// including the first item that cannot match empty.
pub open spec fn first_seq(items: Seq<IrModel>, rules: Seq<IrModel>, visiting: Seq<usize>, neg_any: bool) -> Option<FirstModel>
    decreases rules.len() - visiting.len(), items,
{
    if items.len() == 0 {
        Some(FirstModel { ranges: Seq::empty(), nullable: true })
    } else {
        match first_of(items[0], rules, visiting, neg_any) {
            None => None,
            Some(f) => if !f.nullable {
                Some(FirstModel { ranges: f.ranges, nullable: false })
            } else {
                prefix_first(f.ranges, first_seq(items.subrange(1, items.len() as int), rules, visiting, neg_any))
            },
        }
    }
}

/// The first characters of a choice: those of every alternative.
pub open spec fn first_choice(items: Seq<IrModel>, rules: Seq<IrModel>, visiting: Seq<usize>, neg_any: bool) -> Option<FirstModel>
    decreases rules.len() - visiting.len(), items,
{
    if items.len() == 0 {
        Some(FirstModel { ranges: Seq::empty(), nullable: false })
    } else {
        match first_of(items[0], rules, visiting, neg_any) {
            None => None,
            Some(f) => join_first(f.ranges, f.nullable, first_choice(items.subrange(1, items.len() as int), rules, visiting, neg_any)),
        }
    }
}

/// The characters of an expression that always matches exactly one character
/// from a fixed set, if it is one.
pub open spec fn single_set(m: IrModel, rules: Seq<IrModel>, visiting: Seq<usize>) -> Option<Seq<CharRange>>
    decreases rules.len() - visiting.len(), m,
{
    match m {
        IrModel::Literal(s) => if s.len() == 1 {
            Some(seq![CharRange { start: s[0], end: s[0] }])
        } else {
            None
        },
        IrModel::CharSet(r) => Some(r),
        IrModel::Any => Some(all_chars()),
        IrModel::RuleRef(idx) => if visiting.contains(idx) || idx >= rules.len() || visiting.len() >= rules.len() {
            None
        } else {
            single_set(rules[idx as int], rules, visiting.push(idx))
        },
        IrModel::Choice(items) => match single_set_all(items, rules, visiting) {
            Some(r) => Some(coalesce_model(r)),
            None => None,
        },
        IrModel::Labeled { expr, .. } => single_set(*expr, rules, visiting),
        _ => None,
    }
}

pub open spec fn single_set_all(items: Seq<IrModel>, rules: Seq<IrModel>, visiting: Seq<usize>) -> Option<Seq<CharRange>>
    decreases rules.len() - visiting.len(), items,
{
    if items.len() == 0 {
        Some(Seq::empty())
    } else {
        match single_set(items[0], rules, visiting) {
            None => None,
            Some(r) => match single_set_all(items.subrange(1, items.len() as int), rules, visiting) {
                Some(t) => Some(r + t),
                None => None,
            },
        }
    }
}

pub(crate) fn contains_index(v: &Vec<usize>, x: usize) -> (res: bool)
    ensures
        res == v@.contains(x),
{
    let mut i: usize = 0;
    while i < v.len()
        invariant
            i <= v@.len(),
            forall|k: int| 0 <= k < i ==> v@[k] != x,
        decreases v@.len() - i,
    {
        if v[i] == x {
            assert(v@[i as int] == x);
            return true;
        }
        i = i + 1;
    }
    false
}

/// The ranges of all arms, in order.
fn collect_arm_ranges(arms: &Vec<DispatchArm>) -> (res: Vec<CharRange>)
    ensures
        res@ == arm_ranges(arm_models(arms@)),
{
    proof {
        lemma_arm_models_index(arms@);
    }
    let ghost ms = arm_models(arms@);
    let mut res: Vec<CharRange> = Vec::new();
    let mut i: usize = 0;
    proof {
        assert(ms.subrange(0, ms.len() as int) =~= ms);
        assert(Seq::<CharRange>::empty() + arm_ranges(ms) =~= arm_ranges(ms));
    }
    while i < arms.len()
        invariant
            i <= arms@.len(),
            ms == arm_models(arms@),
            ms.len() == arms@.len(),
            forall|k: int| 0 <= k < arms@.len() ==> #[trigger] ms[k] == arms@[k]@,
            arm_ranges(ms) == res@ + arm_ranges(ms.subrange(i as int, ms.len() as int)),
        decreases arms@.len() - i,
    {
        let ghost before = res@;
        let mut more = copy_ranges(&arms[i].ranges);
        res.append(&mut more);
        proof {
            let rest = ms.subrange(i as int, ms.len() as int);
            assert(rest.subrange(1, rest.len() as int) =~= ms.subrange(i + 1, ms.len() as int));
            assert(rest[0].ranges == arms@[i as int].ranges@);
            assert(before + (rest[0].ranges + arm_ranges(ms.subrange(i + 1, ms.len() as int))) =~= res@ + arm_ranges(ms.subrange(i + 1, ms.len() as int)));
        }
        i = i + 1;
    }
    proof {
        assert(ms.subrange(arms@.len() as int, ms.len() as int) =~= Seq::<ArmModel>::empty());
        assert(res@ + Seq::<CharRange>::empty() =~= res@);
    }
    res
}

pub open spec fn opt_ranges(o: Option<Vec<CharRange>>) -> Option<Seq<CharRange>> {
    match o {
        Some(v) => Some(v@),
        None => None,
    }
}

/// `r` put in front of `rest`.
pub open spec fn prefix_ranges(r: Seq<CharRange>, rest: Option<Seq<CharRange>>) -> Option<Seq<CharRange>> {
    match rest {
        Some(t) => Some(r + t),
        None => None,
    }
}

pub(crate) fn all_chars_vec() -> (res: Vec<CharRange>)
    ensures
        res@ == all_chars(),
{
    let mut v: Vec<CharRange> = Vec::new();
    v.push(CharRange::new('\u{0}', '\u{10FFFF}'));
    proof {
        assert(v@ =~= all_chars());
    }
    v
}

/// The characters of `e` if it always matches exactly one character from a fixed set.
pub(crate) fn single_char_set(e: &IrExpr, rules: &Vec<IrExpr>, visiting: &mut Vec<usize>) -> (res: Option<Vec<CharRange>>)
    ensures
        final(visiting)@ == old(visiting)@,
        opt_ranges(res) == single_set(e@, ir_models(rules@), old(visiting)@),
    decreases rules@.len() - old(visiting)@.len(), e,
{
    proof {
        lemma_models_index(rules@);
    }
    match e {
        IrExpr::Literal(s) => {
            let n = s.as_str().unicode_len();
            if n == 1 {
                let ch = s.as_str().get_char(0);
                let mut v: Vec<CharRange> = Vec::new();
                v.push(CharRange::single(ch));
                proof {
                    assert(v@ =~= seq![CharRange { start: s@[0], end: s@[0] }]);
                }
                Some(v)
            } else {
                None
            }
        },
        IrExpr::CharSet(r) => Some(copy_ranges(r)),
        IrExpr::Any => Some(all_chars_vec()),
        IrExpr::RuleRef(idx) => {
            let idx = *idx;
            if contains_index(visiting, idx) || idx >= rules.len() || visiting.len() >= rules.len() {
                return None;
            }
            let ghost v0 = visiting@;
            visiting.push(idx);
            let r = single_char_set(&rules[idx], rules, visiting);
            visiting.pop();
            proof {
                assert(visiting@ =~= v0);
            }
            r
        },
        IrExpr::Choice(items) => {
            proof {
                lemma_models_index(items@);
            }
            let ghost ms = ir_models(items@);
            let ghost rs = ir_models(rules@);
            let ghost vis = visiting@;
            let mut acc: Vec<CharRange> = Vec::new();
            let mut i: usize = 0;
            proof {
                assert(ms.subrange(0, ms.len() as int) =~= ms);
                assert(Seq::<CharRange>::empty() + Seq::<CharRange>::empty() =~= Seq::<CharRange>::empty());
                match single_set_all(ms, rs, vis) {
                    Some(t) => assert(Seq::<CharRange>::empty() + t =~= t),
                    None => {},
                }
            }
            while i < items.len()
                invariant
                    i <= items@.len(),
                    ms == ir_models(items@),
                    rs == ir_models(rules@),
                    ms.len() == items@.len(),
                    forall|k: int| 0 <= k < items@.len() ==> #[trigger] ms[k] == items@[k]@,
                    visiting@ == vis,
                    vis == old(visiting)@,
                    e is Choice && e->Choice_0 == *items,
                    single_set_all(ms, rs, vis) == prefix_ranges(acc@, single_set_all(ms.subrange(i as int, ms.len() as int), rs, vis)),
                decreases items@.len() - i,
            {
                proof {
                    assert(decreases_to!(e => items@[i as int]));
                }
                let r = single_char_set(&items[i], rules, visiting);
                let ghost rest = ms.subrange(i as int, ms.len() as int);
                proof {
                    assert(rest[0] == items@[i as int]@);
                    assert(rest.subrange(1, rest.len() as int) =~= ms.subrange(i + 1, ms.len() as int));
                }
                match r {
                    None => {
                        return None;
                    },
                    Some(v) => {
                        let ghost before = acc@;
                        let mut v = v;
                        acc.append(&mut v);
                        proof {
                            match single_set_all(ms.subrange(i + 1, ms.len() as int), rs, vis) {
                                Some(t) => {
                                    assert(before + (r->0@ + t) =~= acc@ + t);
                                },
                                None => {},
                            }
                        }
                    },
                }
                i = i + 1;
            }
            proof {
                assert(ms.subrange(items@.len() as int, ms.len() as int) =~= Seq::<IrModel>::empty());
                assert(acc@ + Seq::<CharRange>::empty() =~= acc@);
            }
            Some(coalesce_ranges(acc))
        },
        IrExpr::Labeled { expr, .. } => single_char_set(expr, rules, visiting),
        _ => None,
    }
}

/// What can start a match of `e`, following rule references through `rules`.
fn first_chars(e: &IrExpr, rules: &Vec<IrExpr>, visiting: &mut Vec<usize>, neg_any: bool) -> (res: Option<FirstChars>)
    ensures
        final(visiting)@ == old(visiting)@,
        opt_first(res) == first_of(e@, ir_models(rules@), old(visiting)@, neg_any),
    decreases rules@.len() - old(visiting)@.len(), e,
{
    proof {
        lemma_models_index(rules@);
    }
    match e {
        IrExpr::Literal(s) => {
            let n = s.as_str().unicode_len();
            if n > 0 {
                let ch = s.as_str().get_char(0);
                let mut v: Vec<CharRange> = Vec::new();
                v.push(CharRange::single(ch));
                proof {
                    assert(v@ =~= seq![CharRange { start: s@[0], end: s@[0] }]);
                }
                Some(FirstChars { ranges: v, nullable: false })
            } else {
                Some(FirstChars { ranges: Vec::new(), nullable: true })
            }
        },
        IrExpr::CharSet(r) => Some(FirstChars { ranges: coalesce_ranges(copy_ranges(r)), nullable: false }),
        IrExpr::Any => Some(FirstChars { ranges: all_chars_vec(), nullable: false }),
        IrExpr::Boundary(_) => Some(FirstChars { ranges: Vec::new(), nullable: true }),
        IrExpr::RuleRef(idx) => {
            let idx = *idx;
            if contains_index(visiting, idx) || idx >= rules.len() || visiting.len() >= rules.len() {
                return None;
            }
            let ghost v0 = visiting@;
            visiting.push(idx);
            let r = first_chars(&rules[idx], rules, visiting, neg_any);
            visiting.pop();
            proof {
                assert(visiting@ =~= v0);
            }
            r
        },
        IrExpr::Sequence(items) => {
            proof {
                lemma_models_index(items@);
            }
            if neg_any && items.len() >= 2 {
                if let IrExpr::NegLookahead(inner) = &items[0] {
                    if let IrExpr::Any = &items[1] {
                        proof {
                            assert(decreases_to!(e => items@[0]));
                        }
                        let disallowed = single_char_set(inner, rules, visiting);
                        if let Some(d) = disallowed {
                            let ranges = invert_ranges(&coalesce_ranges(d));
                            return Some(FirstChars { ranges, nullable: false });
                        }
                    }
                }
            }
            let r = first_seq_exec(e, items, rules, visiting, neg_any);
            match r {
                Some(f) => Some(FirstChars { ranges: coalesce_ranges(f.ranges), nullable: f.nullable }),
                None => None,
            }
        },
        IrExpr::Choice(items) => {
            proof {
                lemma_models_index(items@);
            }
            let r = first_choice_exec(e, items, rules, visiting, neg_any);
            match r {
                Some(f) => Some(FirstChars { ranges: coalesce_ranges(f.ranges), nullable: f.nullable }),
                None => None,
            }
        },
        IrExpr::Dispatch(arms) => Some(FirstChars { ranges: coalesce_ranges(collect_arm_ranges(arms)), nullable: false }),
        IrExpr::Scan { plain_ranges, specials, min } => {
            let mut all = copy_ranges(plain_ranges);
            let mut more = collect_arm_ranges(specials);
            all.append(&mut more);
            Some(FirstChars { ranges: coalesce_ranges(all), nullable: *min == 0 })
        },
        IrExpr::Repeat { expr, min, .. } => {
            let r = first_chars(expr, rules, visiting, neg_any);
            match r {
                Some(f) => Some(FirstChars { ranges: f.ranges, nullable: *min == 0 || f.nullable }),
                None => None,
            }
        },
        IrExpr::PosLookahead(inner) => {
            let r = first_chars(inner, rules, visiting, neg_any);
            match r {
                Some(f) => Some(FirstChars { ranges: f.ranges, nullable: true }),
                None => None,
            }
        },
        IrExpr::WithFlag { body, .. } => first_chars(body, rules, visiting, neg_any),
        IrExpr::WithCounter { body, .. } => first_chars(body, rules, visiting, neg_any),
        IrExpr::DepthLimit { body, .. } => first_chars(body, rules, visiting, neg_any),
        IrExpr::Labeled { expr, .. } => first_chars(expr, rules, visiting, neg_any),
        IrExpr::TakeWhile { ranges, min, .. } => Some(FirstChars { ranges: coalesce_ranges(copy_ranges(ranges)), nullable: *min == 0 }),
        _ => None,
    }
}

/// The first characters of the items of a sequence, not yet coalesced.
fn first_seq_exec(e: &IrExpr, items: &Vec<IrExpr>, rules: &Vec<IrExpr>, visiting: &mut Vec<usize>, neg_any: bool) -> (res: Option<FirstChars>)
    requires
        e@ == IrModel::Sequence(ir_models(items@)),
        e is Sequence && e->Sequence_0 == *items,
    ensures
        final(visiting)@ == old(visiting)@,
        opt_first(res) == first_seq(ir_models(items@), ir_models(rules@), old(visiting)@, neg_any),
    decreases rules@.len() - old(visiting)@.len(), e, 0nat,
{
    proof {
        lemma_models_index(items@);
    }
    let ghost ms = ir_models(items@);
    let ghost rs = ir_models(rules@);
    let ghost vis = visiting@;
    let mut ranges: Vec<CharRange> = Vec::new();
    let mut i: usize = 0;
    proof {
        assert(ms.subrange(0, ms.len() as int) =~= ms);
        match first_seq(ms, rs, vis, neg_any) {
            Some(f) => assert(Seq::<CharRange>::empty() + f.ranges =~= f.ranges),
            None => {},
        }
    }
    while i < items.len()
        invariant
            i <= items@.len(),
            ms == ir_models(items@),
            rs == ir_models(rules@),
            ms.len() == items@.len(),
            forall|k: int| 0 <= k < items@.len() ==> #[trigger] ms[k] == items@[k]@,
            visiting@ == vis,
            vis == old(visiting)@,
            e is Sequence && e->Sequence_0 == *items,
            first_seq(ms, rs, vis, neg_any) == prefix_first(ranges@, first_seq(ms.subrange(i as int, ms.len() as int), rs, vis, neg_any)),
        decreases items@.len() - i,
    {
        proof {
            assert(decreases_to!(e => items@[i as int]));
        }
        let r = first_chars(&items[i], rules, visiting, neg_any);
        let ghost rest = ms.subrange(i as int, ms.len() as int);
        proof {
            assert(rest[0] == items@[i as int]@);
            assert(rest.subrange(1, rest.len() as int) =~= ms.subrange(i + 1, ms.len() as int));
        }
        match r {
            None => {
                return None;
            },
            Some(f) => {
                let ghost before = ranges@;
                let ghost fr = f.ranges@;
                let nullable = f.nullable;
                let mut fr_vec = f.ranges;
                ranges.append(&mut fr_vec);
                if !nullable {
                    return Some(FirstChars { ranges, nullable: false });
                }
                proof {
                    match first_seq(ms.subrange(i + 1, ms.len() as int), rs, vis, neg_any) {
                        Some(g) => {
                            assert(before + (fr + g.ranges) =~= ranges@ + g.ranges);
                        },
                        None => {},
                    }
                }
            },
        }
        i = i + 1;
    }
    proof {
        assert(ms.subrange(items@.len() as int, ms.len() as int) =~= Seq::<IrModel>::empty());
        assert(ranges@ + Seq::<CharRange>::empty() =~= ranges@);
    }
    Some(FirstChars { ranges, nullable: true })
}

/// The first characters of the alternatives of a choice, not yet coalesced.
fn first_choice_exec(e: &IrExpr, items: &Vec<IrExpr>, rules: &Vec<IrExpr>, visiting: &mut Vec<usize>, neg_any: bool) -> (res: Option<FirstChars>)
    requires
        e is Choice && e->Choice_0 == *items,
    ensures
        final(visiting)@ == old(visiting)@,
        opt_first(res) == first_choice(ir_models(items@), ir_models(rules@), old(visiting)@, neg_any),
    decreases rules@.len() - old(visiting)@.len(), e, 0nat,
{
    proof {
        lemma_models_index(items@);
    }
    let ghost ms = ir_models(items@);
    let ghost rs = ir_models(rules@);
    let ghost vis = visiting@;
    let mut ranges: Vec<CharRange> = Vec::new();
    let mut nullable = false;
    let mut i: usize = 0;
    proof {
        assert(ms.subrange(0, ms.len() as int) =~= ms);
        match first_choice(ms, rs, vis, neg_any) {
            Some(f) => assert(Seq::<CharRange>::empty() + f.ranges =~= f.ranges),
            None => {},
        }
    }
    while i < items.len()
        invariant
            i <= items@.len(),
            ms == ir_models(items@),
            rs == ir_models(rules@),
            ms.len() == items@.len(),
            forall|k: int| 0 <= k < items@.len() ==> #[trigger] ms[k] == items@[k]@,
            visiting@ == vis,
            vis == old(visiting)@,
            e is Choice && e->Choice_0 == *items,
            first_choice(ms, rs, vis, neg_any) == join_first(ranges@, nullable, first_choice(ms.subrange(i as int, ms.len() as int), rs, vis, neg_any)),
        decreases items@.len() - i,
    {
        proof {
            assert(decreases_to!(e => items@[i as int]));
        }
        let r = first_chars(&items[i], rules, visiting, neg_any);
        let ghost rest = ms.subrange(i as int, ms.len() as int);
        proof {
            assert(rest[0] == items@[i as int]@);
            assert(rest.subrange(1, rest.len() as int) =~= ms.subrange(i + 1, ms.len() as int));
        }
        match r {
            None => {
                return None;
            },
            Some(f) => {
                let ghost before = ranges@;
                let ghost n0 = nullable;
                let ghost fr = f.ranges@;
                let fnull = f.nullable;
                let mut fr_vec = f.ranges;
                ranges.append(&mut fr_vec);
                nullable = nullable || fnull;
                proof {
                    match first_choice(ms.subrange(i + 1, ms.len() as int), rs, vis, neg_any) {
                        Some(g) => {
                            assert(before + (fr + g.ranges) =~= ranges@ + g.ranges);
                        },
                        None => {},
                    }
                }
            },
        }
        i = i + 1;
    }
    proof {
        assert(ms.subrange(items@.len() as int, ms.len() as int) =~= Seq::<IrModel>::empty());
        assert(ranges@ + Seq::<CharRange>::empty() =~= ranges@);
    }
    Some(FirstChars { ranges, nullable })
}


// ── Building dispatch tables ──

/// Index of the first group whose ranges are exactly `r`, or -1 if none.
pub open spec fn find_group(gs: Seq<(Seq<CharRange>, Seq<IrModel>)>, r: Seq<CharRange>) -> int
    decreases gs.len(),
{
    if gs.len() == 0 {
        -1
    } else {
        let k = find_group(gs.drop_last(), r);
        if k >= 0 {
            k
        } else if gs.last().0 == r {
            gs.len() - 1
        } else {
            -1
        }
    }
}

/// Some group's ranges share a character with `r`.
pub open spec fn overlaps_group(gs: Seq<(Seq<CharRange>, Seq<IrModel>)>, r: Seq<CharRange>) -> bool {
    exists|k: int| 0 <= k < gs.len() && overlap_any(r, #[trigger] gs[k].0)
}

/// Add one alternative to the groups: it must start with at least one
/// character and cannot match empty. With `grouped`, an alternative whose
/// first characters equal those of a group joins it; otherwise its first
/// characters must not overlap any group's, and it starts a new group.
pub open spec fn add_to_groups(
    gs: Option<Seq<(Seq<CharRange>, Seq<IrModel>)>>,
    item: IrModel,
    rules: Seq<IrModel>,
    grouped: bool,
) -> Option<Seq<(Seq<CharRange>, Seq<IrModel>)>> {
    match gs {
        None => None,
        Some(gs) => match first_of(item, rules, Seq::empty(), grouped) {
            None => None,
            Some(f) => if f.nullable || f.ranges.len() == 0 {
                None
            } else {
                let r = coalesce_model(f.ranges);
                let k = find_group(gs, r);
                if grouped && k >= 0 {
                    Some(gs.update(k, (gs[k].0, gs[k].1.push(item))))
                } else if overlaps_group(gs, r) {
                    None
                } else {
                    Some(gs.push((r, seq![item])))
                }
            },
        },
    }
}

/// The alternatives grouped by first characters, in order of first appearance.
pub open spec fn group_items(items: Seq<IrModel>, rules: Seq<IrModel>, grouped: bool) -> Option<Seq<(Seq<CharRange>, Seq<IrModel>)>>
    decreases items.len(),
{
    if items.len() == 0 {
        Some(Seq::empty())
    } else {
        add_to_groups(group_items(items.drop_last(), rules, grouped), items.last(), rules, grouped)
    }
}

/// The arm of a group: one alternative stands alone, several stay a choice.
pub open spec fn group_arm(g: (Seq<CharRange>, Seq<IrModel>)) -> ArmModel {
    ArmModel { ranges: g.0, expr: Box::new(if g.1.len() == 1 { g.1[0] } else { IrModel::Choice(g.1) }) }
}

/// The dispatch table for a choice among `items`, if there is one; with
/// `grouped`, a table needs at least two arms.
pub open spec fn build_model(items: Seq<IrModel>, rules: Seq<IrModel>, grouped: bool) -> Option<Seq<ArmModel>> {
    match group_items(items, rules, grouped) {
        None => None,
        Some(gs) => if grouped && gs.len() <= 1 {
            None
        } else {
            Some(gs.map_values(|g: (Seq<CharRange>, Seq<IrModel>)| group_arm(g)))
        },
    }
}

pub open spec fn opt_arms(o: Option<Vec<DispatchArm>>) -> Option<Seq<ArmModel>> {
    match o {
        Some(v) => Some(arm_models(v@)),
        None => None,
    }
}

proof fn lemma_groups_stopped(items: Seq<IrModel>, rules: Seq<IrModel>, grouped: bool, k: int)
    requires
        0 <= k <= items.len(),
        group_items(items.take(k), rules, grouped) is None,
    ensures
        group_items(items, rules, grouped) is None,
    decreases items.len(),
{
    if k < items.len() {
        assert(items.drop_last().take(k) =~= items.take(k));
        lemma_groups_stopped(items.drop_last(), rules, grouped, k);
    } else {
        assert(items.take(k) =~= items);
    }
}

/// The groups held as two parallel vectors.
pub open spec fn groups_model(ranges: Seq<Vec<CharRange>>, members: Seq<Vec<IrExpr>>) -> Seq<(Seq<CharRange>, Seq<IrModel>)> {
    Seq::new(ranges.len(), |k: int| (ranges[k]@, ir_models(members[k]@)))
}

/// The dispatch table for a choice among `items`, grouping alternatives by
/// their first characters; `None` when the alternatives cannot be told apart
/// by one character.
fn build_dispatch_arms(items: &Vec<IrExpr>, rules: &Vec<IrExpr>, grouped: bool) -> (res: Option<Vec<DispatchArm>>)
    ensures
        opt_arms(res) == build_model(ir_models(items@), ir_models(rules@), grouped),
{
    proof {
        lemma_models_index(items@);
    }
    let ghost ms = ir_models(items@);
    let ghost rs = ir_models(rules@);
    let mut granges: Vec<Vec<CharRange>> = Vec::new();
    let mut gitems: Vec<Vec<IrExpr>> = Vec::new();
    let mut i: usize = 0;
    proof {
        assert(ms.take(0) =~= Seq::<IrModel>::empty());
        assert(groups_model(granges@, gitems@) =~= Seq::<(Seq<CharRange>, Seq<IrModel>)>::empty());
    }
    while i < items.len()
        invariant
            i <= items@.len(),
            ms == ir_models(items@),
            rs == ir_models(rules@),
            ms.len() == items@.len(),
            forall|k: int| 0 <= k < items@.len() ==> #[trigger] ms[k] == items@[k]@,
            granges@.len() == gitems@.len(),
            group_items(ms.take(i as int), rs, grouped) == Some(groups_model(granges@, gitems@)),
        decreases items@.len() - i,
    {
        let ghost gs = groups_model(granges@, gitems@);
        proof {
            assert(ms.take(i + 1).drop_last() =~= ms.take(i as int));
            assert(ms.take(i + 1).last() == items@[i as int]@);
        }
        let mut vis: Vec<usize> = Vec::new();
        let first = first_chars(&items[i], rules, &mut vis, grouped);
        proof {
            assert(vis@ =~= Seq::<usize>::empty());
        }
        let f = match first {
            None => {
                proof {
                    lemma_groups_stopped(ms, rs, grouped, i + 1);
                }
                return None;
            },
            Some(f) => f,
        };
        if f.nullable || f.ranges.len() == 0 {
            proof {
                lemma_groups_stopped(ms, rs, grouped, i + 1);
            }
            return None;
        }
        let r = coalesce_ranges(f.ranges);
        let found = find_ranges(&granges, &gitems, &r);
        if grouped && found < granges.len() {
            let copied = copy_exprs(&gitems[found]);
            let added = copy_expr(&items[i]);
            let ghost c = copied@;
            let ghost x = added;
            let mut members = copied;
            members.push(added);
            gitems.set(found, members);
            proof {
                lemma_models_push(c, x);
                assert(groups_model(granges@, gitems@) =~= gs.update(found as int, (gs[found as int].0, gs[found as int].1.push(items@[i as int]@))));
            }
        } else {
            if overlaps_any_group(&granges, &gitems, &r) {
                proof {
                    lemma_groups_stopped(ms, rs, grouped, i + 1);
                }
                return None;
            }
            let mut one: Vec<IrExpr> = Vec::new();
            one.push(copy_expr(&items[i]));
            let ghost r_model = r@;
            granges.push(r);
            gitems.push(one);
            proof {
                assert(ir_models(one@) =~= seq![items@[i as int]@]);
                assert(groups_model(granges@, gitems@) =~= gs.push((r_model, seq![items@[i as int]@])));
            }
        }
        i = i + 1;
    }
    proof {
        assert(ms.take(items@.len() as int) =~= ms);
    }
    if grouped && granges.len() <= 1 {
        return None;
    }
    let ghost gs = groups_model(granges@, gitems@);
    let mut arms: Vec<DispatchArm> = Vec::new();
    let mut k: usize = 0;
    while k < granges.len()
        invariant
            k <= granges@.len(),
            granges@.len() == gitems@.len(),
            gs == groups_model(granges@, gitems@),
            arms@.len() == k,
            forall|m: int| 0 <= m < k ==> #[trigger] arms@[m]@ == group_arm(gs[m]),
        decreases granges@.len() - k,
    {
        let expr = if gitems[k].len() == 1 {
            proof {
                lemma_models_index(gitems@[k as int]@);
            }
            copy_expr(&gitems[k][0])
        } else {
            IrExpr::Choice(copy_exprs(&gitems[k]))
        };
        proof {
            lemma_models_index(gitems@[k as int]@);
        }
        arms.push(DispatchArm { ranges: copy_ranges(&granges[k]), expr: Box::new(expr) });
        k = k + 1;
    }
    proof {
        lemma_arm_models_index(arms@);
        assert forall|m: int| 0 <= m < arms@.len() implies #[trigger] arm_models(arms@)[m] == gs.map_values(|g: (Seq<CharRange>, Seq<IrModel>)| group_arm(g))[m] by {
            assert(arms@[m]@ == group_arm(gs[m]));
        }
        assert(arm_models(arms@) =~= gs.map_values(|g: (Seq<CharRange>, Seq<IrModel>)| group_arm(g)));
    }
    Some(arms)
}

/// The index of the first group whose ranges are exactly `r`, or the number of groups.
fn find_ranges(granges: &Vec<Vec<CharRange>>, gitems: &Vec<Vec<IrExpr>>, r: &Vec<CharRange>) -> (res: usize)
    requires
        granges@.len() == gitems@.len(),
    ensures
        res <= granges@.len(),
        find_group(groups_model(granges@, gitems@), r@) == (if res < granges@.len() { res as int } else { -1 }),
{
    let ghost gs = groups_model(granges@, gitems@);
    let n = granges.len();
    let mut k: usize = 0;
    while k < n
        invariant
            k <= n,
            n == granges@.len(),
            gs == groups_model(granges@, gitems@),
            forall|j: int| 0 <= j < k ==> #[trigger] gs[j].0 != r@,
        decreases n - k,
    {
        if ranges_equal(&granges[k], r) {
            proof {
                lemma_find_group_prefix(gs, r@, k as int);
            }
            return k;
        }
        assert(gs[k as int].0 != r@);
        k = k + 1;
    }
    proof {
        lemma_find_group_prefix(gs, r@, n as int);
    }
    n
}

/// Whether `r` shares a character with the ranges of some group.
fn overlaps_any_group(granges: &Vec<Vec<CharRange>>, gitems: &Vec<Vec<IrExpr>>, r: &Vec<CharRange>) -> (res: bool)
    requires
        granges@.len() == gitems@.len(),
    ensures
        res == overlaps_group(groups_model(granges@, gitems@), r@),
{
    let ghost gs = groups_model(granges@, gitems@);
    let mut j: usize = 0;
    while j < granges.len()
        invariant
            j <= granges@.len(),
            gs == groups_model(granges@, gitems@),
            forall|m: int| 0 <= m < j ==> !overlap_any(r@, #[trigger] gs[m].0),
        decreases granges@.len() - j,
    {
        if ranges_overlap_any(r, &granges[j]) {
            assert(gs[j as int].0 == granges@[j as int]@);
            assert(overlap_any(r@, gs[j as int].0));
            return true;
        }
        assert(gs[j as int].0 == granges@[j as int]@);
        j = j + 1;
    }
    false
}

proof fn lemma_find_group_prefix(gs: Seq<(Seq<CharRange>, Seq<IrModel>)>, r: Seq<CharRange>, k: int)
    requires
        0 <= k <= gs.len(),
        forall|j: int| 0 <= j < k ==> #[trigger] gs[j].0 != r,
        k < gs.len() ==> gs[k].0 == r,
    ensures
        find_group(gs, r) == (if k < gs.len() { k } else { -1 }),
    decreases gs.len(),
{
    if gs.len() > 0 {
        if k < gs.len() - 1 {
            lemma_find_group_prefix(gs.drop_last(), r, k);
        } else if k == gs.len() - 1 {
            lemma_find_group_prefix(gs.drop_last(), r, k);
        } else {
            lemma_find_group_prefix(gs.drop_last(), r, k - 1);
        }
    }
}

/// Every item of `items`, rewritten.
pub open spec fn dispatch_all(items: Seq<IrModel>, rules: Seq<IrModel>, grouped: bool) -> Seq<IrModel>
    decreases items,
{
    Seq::new(items.len(), |i: int| if 0 <= i < items.len() { dispatch_model(items[i], rules, grouped) } else { IrModel::Any })
}

/// A dispatch table for a choice among `items` if one can be built, else the choice.
pub open spec fn choice_or_dispatch(items: Seq<IrModel>, rules: Seq<IrModel>, grouped: bool) -> IrModel {
    match build_model(items, rules, grouped) {
        Some(arms) => IrModel::Dispatch(arms),
        None => IrModel::Choice(items),
    }
}

/// Every choice, after its alternatives are rewritten, becomes a dispatch table when one can be built.
pub open spec fn dispatch_model(m: IrModel, rules: Seq<IrModel>, grouped: bool) -> IrModel
    decreases m,
{
    match m {
        IrModel::Sequence(items) => IrModel::Sequence(Seq::new(items.len(), |i: int| if 0 <= i < items.len() { dispatch_model(items[i], rules, grouped) } else { IrModel::Any })),
        IrModel::Choice(items) => choice_or_dispatch(dispatch_all(items, rules, grouped), rules, grouped),
        IrModel::Dispatch(arms) => IrModel::Dispatch(Seq::new(arms.len(), |i: int| if 0 <= i < arms.len() { ArmModel { ranges: arms[i].ranges, expr: Box::new(dispatch_model(*arms[i].expr, rules, grouped)) } } else { ArmModel { ranges: Seq::empty(), expr: Box::new(IrModel::Any) } })),
        IrModel::Repeat { expr, min, max } => IrModel::Repeat { expr: Box::new(dispatch_model(*expr, rules, grouped)), min, max },
        IrModel::PosLookahead(inner) => IrModel::PosLookahead(Box::new(dispatch_model(*inner, rules, grouped))),
        IrModel::NegLookahead(inner) => IrModel::NegLookahead(Box::new(dispatch_model(*inner, rules, grouped))),
        IrModel::WithFlag { flag, body } => IrModel::WithFlag { flag, body: Box::new(dispatch_model(*body, rules, grouped)) },
        IrModel::WithCounter { counter, amount, body } => IrModel::WithCounter { counter, amount, body: Box::new(dispatch_model(*body, rules, grouped)) },
        IrModel::When { condition, body } => IrModel::When { condition, body: Box::new(dispatch_model(*body, rules, grouped)) },
        IrModel::DepthLimit { limit, body } => IrModel::DepthLimit { limit, body: Box::new(dispatch_model(*body, rules, grouped)) },
        IrModel::Scan { plain_ranges, specials, min } => IrModel::Scan { plain_ranges, specials: Seq::new(specials.len(), |i: int| if 0 <= i < specials.len() { ArmModel { ranges: specials[i].ranges, expr: Box::new(dispatch_model(*specials[i].expr, rules, grouped)) } } else { ArmModel { ranges: Seq::empty(), expr: Box::new(IrModel::Any) } }), min },
        IrModel::Labeled { expr, label } => IrModel::Labeled { expr: Box::new(dispatch_model(*expr, rules, grouped)), label },
        other => other,
    }
}

pub(crate) fn recognize_dispatch_expr(e: &IrExpr, rules: &Vec<IrExpr>, grouped: bool) -> (res: IrExpr)
    ensures
        res@ == dispatch_model(e@, ir_models(rules@), grouped),
    decreases e,
{
    match e {
        IrExpr::Sequence(items) => {
            let r = recognize_dispatch_expr_list(items, rules, grouped);
            let res = IrExpr::Sequence(r);
            proof {
                lemma_models_index(r@);
                lemma_models_index(items@);
                assert(ir_models(r@) =~= dispatch_model(e@, ir_models(rules@), grouped)->Sequence_0);
            }
            res
        },
        IrExpr::Choice(items) => {
            let r = recognize_dispatch_expr_list(items, rules, grouped);
            proof {
                lemma_models_index(r@);
                lemma_models_index(items@);
                let ms = ir_models(items@);
                let rs = ir_models(rules@);
                assert(ir_models(r@) =~= dispatch_all(ms, rs, grouped));
            }
            choose_dispatch(r, rules, grouped)
        },
        IrExpr::Dispatch(arms) => {
            let r = recognize_dispatch_expr_arms(arms, rules, grouped);
            let res = IrExpr::Dispatch(r);
            proof {
                lemma_arm_models_index(r@);
                lemma_arm_models_index(arms@);
                assert(arm_models(r@) =~= dispatch_model(e@, ir_models(rules@), grouped)->Dispatch_0);
            }
            res
        },
        IrExpr::Repeat { expr, min, max } => IrExpr::Repeat { expr: Box::new(recognize_dispatch_expr(expr, rules, grouped)), min: *min, max: *max },
        IrExpr::PosLookahead(inner) => IrExpr::PosLookahead(Box::new(recognize_dispatch_expr(inner, rules, grouped))),
        IrExpr::NegLookahead(inner) => IrExpr::NegLookahead(Box::new(recognize_dispatch_expr(inner, rules, grouped))),
        IrExpr::WithFlag { flag, body } => IrExpr::WithFlag { flag: copy_string(flag), body: Box::new(recognize_dispatch_expr(body, rules, grouped)) },
        IrExpr::WithCounter { counter, amount, body } => IrExpr::WithCounter { counter: copy_string(counter), amount: *amount, body: Box::new(recognize_dispatch_expr(body, rules, grouped)) },
        IrExpr::When { condition, body } => IrExpr::When { condition: copy_condition(condition), body: Box::new(recognize_dispatch_expr(body, rules, grouped)) },
        IrExpr::DepthLimit { limit, body } => IrExpr::DepthLimit { limit: *limit, body: Box::new(recognize_dispatch_expr(body, rules, grouped)) },
        IrExpr::Scan { plain_ranges, specials, min } => {
            let r = recognize_dispatch_expr_arms(specials, rules, grouped);
            let res = IrExpr::Scan { plain_ranges: copy_ranges(plain_ranges), specials: r, min: *min };
            proof {
                lemma_arm_models_index(r@);
                lemma_arm_models_index(specials@);
                assert(arm_models(r@) =~= dispatch_model(e@, ir_models(rules@), grouped)->specials);
            }
            res
        },
        IrExpr::Labeled { expr, label } => IrExpr::Labeled { expr: Box::new(recognize_dispatch_expr(expr, rules, grouped)), label: copy_string(label) },
        _ => copy_expr(e),
    }
}

fn choose_dispatch(items: Vec<IrExpr>, rules: &Vec<IrExpr>, grouped: bool) -> (res: IrExpr)
    ensures
        res@ == choice_or_dispatch(ir_models(items@), ir_models(rules@), grouped),
{
    match build_dispatch_arms(&items, rules, grouped) {
        Some(arms) => IrExpr::Dispatch(arms),
        None => IrExpr::Choice(items),
    }
}

fn recognize_dispatch_expr_list(items: &Vec<IrExpr>, rules: &Vec<IrExpr>, grouped: bool) -> (res: Vec<IrExpr>)
    ensures
        res@.len() == items@.len(),
        forall|k: int| 0 <= k < items@.len() ==> (#[trigger] res@[k])@ == dispatch_model(items@[k]@, ir_models(rules@), grouped),
    decreases items,
{
    let mut res: Vec<IrExpr> = Vec::new();
    let mut i: usize = 0;
    while i < items.len()
        invariant
            i <= items@.len(),
            res@.len() == i,
            forall|k: int| 0 <= k < i ==> (#[trigger] res@[k])@ == dispatch_model(items@[k]@, ir_models(rules@), grouped),
        decreases items@.len() - i,
    {
        proof {
            assert(decreases_to!(items => items@[i as int]));
        }
        res.push(recognize_dispatch_expr(&items[i], rules, grouped));
        i = i + 1;
    }
    res
}

fn recognize_dispatch_expr_arms(arms: &Vec<DispatchArm>, rules: &Vec<IrExpr>, grouped: bool) -> (res: Vec<DispatchArm>)
    ensures
        res@.len() == arms@.len(),
        forall|k: int| 0 <= k < arms@.len() ==> (#[trigger] res@[k]).ranges@ == arms@[k].ranges@ && (*res@[k].expr)@ == dispatch_model((*arms@[k].expr)@, ir_models(rules@), grouped),
    decreases arms,
{
    let mut res: Vec<DispatchArm> = Vec::new();
    let mut i: usize = 0;
    while i < arms.len()
        invariant
            i <= arms@.len(),
            res@.len() == i,
            forall|k: int| 0 <= k < i ==> (#[trigger] res@[k]).ranges@ == arms@[k].ranges@ && (*res@[k].expr)@ == dispatch_model((*arms@[k].expr)@, ir_models(rules@), grouped),
        decreases arms@.len() - i,
    {
        proof {
            assert(decreases_to!(arms => arms@[i as int]));
        }
        let arm = &arms[i];
        let expr = recognize_dispatch_expr(&arm.expr, rules, grouped);
        res.push(DispatchArm { ranges: copy_ranges(&arm.ranges), expr: Box::new(expr) });
        i = i + 1;
    }
    res
}


/// Every rule with dispatch tables, looking through rule references as the rules stand.
pub open spec fn dispatch_program(p: ProgramModel, grouped: bool) -> ProgramModel {
    with_exprs(p, |m: IrModel| dispatch_model(m, rule_exprs(p.rules), grouped))
}

/// Lower to dispatch tables every choice whose alternatives can be told apart by
/// their first character, looking through rule references as the rules stand
/// before the pass. With `grouped`, alternatives with the same first
/// characters share an arm, and `!x ANY` counts as any character outside `x`.
pub(crate) fn recognize_dispatch(program: IrProgram, grouped: bool) -> (res: IrProgram)
    ensures
        res@ == dispatch_program(program@, grouped),
{
    let mut snapshot: Vec<IrExpr> = Vec::new();
    let mut s: usize = 0;
    while s < program.rules.len()
        invariant
            s <= program.rules@.len(),
            snapshot@.len() == s,
            forall|k: int| 0 <= k < s ==> (#[trigger] snapshot@[k])@ == program.rules@[k].expr@,
        decreases program.rules@.len() - s,
    {
        snapshot.push(copy_expr(&program.rules[s].expr));
        s = s + 1;
    }
    proof {
        lemma_models_index(snapshot@);
        assert(ir_models(snapshot@) =~= rule_exprs(program@.rules));
    }
    pass_dispatch(program, &snapshot, grouped)
}

/// Rewrite every rule with the dispatch tables that `rules` allow.
fn pass_dispatch(program: IrProgram, rules: &Vec<IrExpr>, grouped: bool) -> (res: IrProgram)
    ensures
        res@ == with_exprs(program@, |m: IrModel| dispatch_model(m, ir_models(rules@), grouped)),
{
    let mut program = program;
    let ghost old_model = program@;
    let mut i: usize = 0;
    while i < program.rules.len()
        invariant
            i <= program.rules@.len(),
            program.rules@.len() == old_model.rules.len(),
            program@.state_decls == old_model.state_decls,
            forall|k: int| 0 <= k < i ==> rule_model(#[trigger] program.rules@[k]) == with_expr(old_model.rules[k], dispatch_model(old_model.rules[k].expr, ir_models(rules@), grouped)),
            forall|k: int| i <= k < program.rules@.len() ==> rule_model(#[trigger] program.rules@[k]) == old_model.rules[k],
        decreases program.rules@.len() - i,
    {
        let new_expr = recognize_dispatch_expr(&program.rules[i].expr, rules, grouped);
        let ghost before = program.rules@;
        program.rules[i].expr = new_expr;
        proof {
            assert(rule_model(program.rules@[i as int]) =~= with_expr(old_model.rules[i as int], dispatch_model(old_model.rules[i as int].expr, ir_models(rules@), grouped)));
            assert forall|k: int| 0 <= k < program.rules@.len() && k != i implies program.rules@[k] == before[k] by {}
        }
        i = i + 1;
    }
    proof {
        assert(rule_models(program.rules@) =~= with_exprs(old_model, |m: IrModel| dispatch_model(m, ir_models(rules@), grouped)).rules);
        assert(program@ =~= with_exprs(old_model, |m: IrModel| dispatch_model(m, ir_models(rules@), grouped)));
    }
    program
}

// ── Laws ──

/// No two groups share a character.
pub open spec fn groups_disjoint(gs: Seq<(Seq<CharRange>, Seq<IrModel>)>) -> bool {
    forall|i: int, j: int| 0 <= i < gs.len() && 0 <= j < gs.len() && i != j ==> !overlap_any(#[trigger] gs[i].0, #[trigger] gs[j].0)
}

proof fn lemma_overlap_symmetric(a: Seq<CharRange>, b: Seq<CharRange>)
    ensures
        overlap_any(a, b) == overlap_any(b, a),
{
    if overlap_any(a, b) {
        let (i, j) = choose|i: int, j: int| 0 <= i < a.len() && 0 <= j < b.len() && crate::ranges::spec_ranges_overlap(#[trigger] a[i], #[trigger] b[j]);
        assert(crate::ranges::spec_ranges_overlap(b[j], a[i]));
    }
    if overlap_any(b, a) {
        let (i, j) = choose|i: int, j: int| 0 <= i < b.len() && 0 <= j < a.len() && crate::ranges::spec_ranges_overlap(#[trigger] b[i], #[trigger] a[j]);
        assert(crate::ranges::spec_ranges_overlap(a[j], b[i]));
    }
}

proof fn lemma_groups_disjoint(items: Seq<IrModel>, rules: Seq<IrModel>, grouped: bool)
    requires
        group_items(items, rules, grouped) is Some,
    ensures
        groups_disjoint(group_items(items, rules, grouped)->0),
    decreases items.len(),
{
    if items.len() > 0 {
        let prev = group_items(items.drop_last(), rules, grouped);
        lemma_groups_disjoint(items.drop_last(), rules, grouped);
        let gs = prev->0;
        let f = first_of(items.last(), rules, Seq::empty(), grouped)->0;
        let r = coalesce_model(f.ranges);
        let k = find_group(gs, r);
        if !(grouped && k >= 0) {
            let ng = gs.push((r, seq![items.last()]));
            assert forall|i: int, j: int| 0 <= i < ng.len() && 0 <= j < ng.len() && i != j implies !overlap_any(#[trigger] ng[i].0, #[trigger] ng[j].0) by {
                if i == gs.len() {
                    assert(!overlap_any(r, gs[j].0));
                } else if j == gs.len() {
                    assert(!overlap_any(r, gs[i].0));
                    lemma_overlap_symmetric(r, gs[i].0);
                } else {
                    assert(ng[i] == gs[i] && ng[j] == gs[j]);
                }
            }
        } else {
            lemma_find_group_bound(gs, r);
            let ng = gs.update(k, (gs[k].0, gs[k].1.push(items.last())));
            assert forall|i: int, j: int| 0 <= i < ng.len() && 0 <= j < ng.len() && i != j implies !overlap_any(#[trigger] ng[i].0, #[trigger] ng[j].0) by {
                assert(ng[i].0 == gs[i].0 && ng[j].0 == gs[j].0);
            }
        }
    }
}

proof fn lemma_find_group_bound(gs: Seq<(Seq<CharRange>, Seq<IrModel>)>, r: Seq<CharRange>)
    ensures
        -1 <= find_group(gs, r) < gs.len(),
    decreases gs.len(),
{
    if gs.len() > 0 {
        lemma_find_group_bound(gs.drop_last(), r);
    }
}

/// A dispatch table tells its arms apart by one character: no two arms share a
/// character they are dispatched on.
pub proof fn law_dispatch_arms_disjoint(items: Seq<IrModel>, rules: Seq<IrModel>, grouped: bool)
    requires
        build_model(items, rules, grouped) is Some,
    ensures
        forall|i: int, j: int|
            0 <= i < build_model(items, rules, grouped)->0.len() && 0 <= j < build_model(items, rules, grouped)->0.len() && i != j
                ==> !overlap_any(
                #[trigger] build_model(items, rules, grouped)->0[i].ranges,
                #[trigger] build_model(items, rules, grouped)->0[j].ranges,
            ),
{
    lemma_groups_disjoint(items, rules, grouped);
    let gs = group_items(items, rules, grouped)->0;
    let arms = build_model(items, rules, grouped)->0;
    assert forall|i: int, j: int| 0 <= i < arms.len() && 0 <= j < arms.len() && i != j implies !overlap_any(#[trigger] arms[i].ranges, #[trigger] arms[j].ranges) by {
        assert(arms[i].ranges == gs[i].0);
        assert(arms[j].ranges == gs[j].0);
    }
}


// ── Laws of first characters ──

/// A repetition starts with the characters its body starts with; it can
/// match empty when its body can, and always when it may repeat zero times.
pub proof fn law_first_of_repetition(e: IrModel, min: u32, max: Option<u32>, rules: Seq<IrModel>, visiting: Seq<usize>, neg_any: bool)
    ensures
        first_of(IrModel::Repeat { expr: Box::new(e), min, max }, rules, visiting, neg_any) is Some <==> first_of(
            e,
            rules,
            visiting,
            neg_any,
        ) is Some,
        first_of(e, rules, visiting, neg_any) is Some ==> first_of(
            IrModel::Repeat { expr: Box::new(e), min, max },
            rules,
            visiting,
            neg_any,
        )->0.ranges == first_of(e, rules, visiting, neg_any)->0.ranges,
        first_of(e, rules, visiting, neg_any) is Some ==> (first_of(
            IrModel::Repeat { expr: Box::new(e), min, max },
            rules,
            visiting,
            neg_any,
        )->0.nullable <==> (min == 0 || first_of(e, rules, visiting, neg_any)->0.nullable)),
{
}

/// A lookahead starts with the characters of what it looks at, and always
/// matches empty.
pub proof fn law_first_of_lookahead(e: IrModel, rules: Seq<IrModel>, visiting: Seq<usize>, neg_any: bool)
    ensures
        first_of(e, rules, visiting, neg_any) is Some ==> first_of(IrModel::PosLookahead(Box::new(e)), rules, visiting, neg_any)
            == Some(FirstModel { ranges: first_of(e, rules, visiting, neg_any)->0.ranges, nullable: true }),
{
}

/// A sequence whose first item cannot match empty starts with that item's
/// characters (coalesced) and cannot match empty.
pub proof fn law_first_of_sequence_head(items: Seq<IrModel>, rules: Seq<IrModel>, visiting: Seq<usize>)
    requires
        items.len() > 0,
        first_of(items[0], rules, visiting, false) is Some,
        !first_of(items[0], rules, visiting, false)->0.nullable,
    ensures
        first_of(IrModel::Sequence(items), rules, visiting, false) == Some(
            FirstModel { ranges: coalesce_model(first_of(items[0], rules, visiting, false)->0.ranges), nullable: false },
        ),
{
    let f = first_of(items[0], rules, visiting, false)->0;
    assert(first_seq(items, rules, visiting, false) == Some(FirstModel { ranges: f.ranges, nullable: false }));
}

/// Alternative `k` of a choice, for its dispatch arm: it cannot match empty,
/// it starts with at least one character, and the arm is entered on exactly
/// its (coalesced) first characters.
pub open spec fn arm_fits(arm: ArmModel, item: IrModel, rules: Seq<IrModel>) -> bool {
    &&& *arm.expr == item
    &&& first_of(item, rules, Seq::empty(), false) is Some
    &&& !first_of(item, rules, Seq::empty(), false)->0.nullable
    &&& first_of(item, rules, Seq::empty(), false)->0.ranges.len() > 0
    &&& arm.ranges == coalesce_model(first_of(item, rules, Seq::empty(), false)->0.ranges)
}

/// Without grouping, a dispatch table has one arm per alternative, in
/// order: arm `k` holds alternative `k`, which cannot match empty, and is
/// entered on exactly the first characters of that alternative.
pub proof fn law_dispatch_arms_follow_first_chars(items: Seq<IrModel>, rules: Seq<IrModel>)
    ensures
        build_model(items, rules, false) is Some ==> build_model(items, rules, false)->0.len() == items.len(),
        build_model(items, rules, false) is Some ==> forall|k: int|
            0 <= k < items.len() ==> arm_fits(#[trigger] build_model(items, rules, false)->0[k], items[k], rules),
{
    lemma_groups_follow_first_chars(items, rules);
    if build_model(items, rules, false) is Some {
        let arms = build_model(items, rules, false)->0;
        let gs = group_items(items, rules, false)->0;
        assert forall|k: int| 0 <= k < items.len() implies arm_fits(#[trigger] arms[k], items[k], rules) by {
            assert(arms[k] == group_arm(gs[k]));
        }
    }
}

/// Group `k` of ungrouped alternatives holds alternative `k` alone, under
/// its first characters.
pub open spec fn group_fits(g: (Seq<CharRange>, Seq<IrModel>), item: IrModel, rules: Seq<IrModel>) -> bool {
    &&& g.1 == seq![item]
    &&& first_of(item, rules, Seq::empty(), false) is Some
    &&& !first_of(item, rules, Seq::empty(), false)->0.nullable
    &&& first_of(item, rules, Seq::empty(), false)->0.ranges.len() > 0
    &&& g.0 == coalesce_model(first_of(item, rules, Seq::empty(), false)->0.ranges)
}

proof fn lemma_groups_follow_first_chars(items: Seq<IrModel>, rules: Seq<IrModel>)
    ensures
        group_items(items, rules, false) is Some ==> group_items(items, rules, false)->0.len() == items.len(),
        group_items(items, rules, false) is Some ==> forall|k: int|
            0 <= k < items.len() ==> group_fits(#[trigger] group_items(items, rules, false)->0[k], items[k], rules),
    decreases items.len(),
{
    if items.len() > 0 {
        lemma_groups_follow_first_chars(items.drop_last(), rules);
        if group_items(items, rules, false) is Some {
            let gs = group_items(items, rules, false)->0;
            let prev = group_items(items.drop_last(), rules, false)->0;
            assert forall|k: int| 0 <= k < items.len() implies group_fits(#[trigger] gs[k], items[k], rules) by {
                if k < prev.len() {
                    assert(gs[k] == prev[k]);
                    assert(items.drop_last()[k] == items[k]);
                }
            }
        }
    }
}


/// A literal starts with its first character and can match empty only when
/// it is empty; a character set starts with its (coalesced) characters, and
/// `ANY` with every character; neither matches empty.
pub proof fn law_first_of_terminals(s: Seq<char>, r: Seq<CharRange>, rules: Seq<IrModel>, visiting: Seq<usize>, neg_any: bool)
    ensures
        s.len() > 0 ==> first_of(IrModel::Literal(s), rules, visiting, neg_any) == Some(
            FirstModel { ranges: seq![CharRange { start: s[0], end: s[0] }], nullable: false },
        ),
        s.len() == 0 ==> first_of(IrModel::Literal(s), rules, visiting, neg_any) == Some(
            FirstModel { ranges: Seq::<CharRange>::empty(), nullable: true },
        ),
        first_of(IrModel::CharSet(r), rules, visiting, neg_any) == Some(FirstModel { ranges: coalesce_model(r), nullable: false }),
        first_of(IrModel::Any, rules, visiting, neg_any) == Some(FirstModel { ranges: all_chars(), nullable: false }),
{
}

/// A choice of two alternatives starts with the characters of either
/// (coalesced), and can match empty when either can.
pub proof fn law_first_of_two_alternatives(a: IrModel, b: IrModel, rules: Seq<IrModel>, visiting: Seq<usize>, neg_any: bool)
    requires
        first_of(a, rules, visiting, neg_any) is Some,
        first_of(b, rules, visiting, neg_any) is Some,
    ensures
        first_of(IrModel::Choice(seq![a, b]), rules, visiting, neg_any) == Some(
            FirstModel {
                ranges: coalesce_model(first_of(a, rules, visiting, neg_any)->0.ranges + first_of(b, rules, visiting, neg_any)->0.ranges),
                nullable: first_of(a, rules, visiting, neg_any)->0.nullable || first_of(b, rules, visiting, neg_any)->0.nullable,
            },
        ),
{
    let items = seq![a, b];
    let fa = first_of(a, rules, visiting, neg_any)->0;
    let fb = first_of(b, rules, visiting, neg_any)->0;
    let rest = items.subrange(1, 2);
    assert(rest =~= seq![b]);
    assert(rest.subrange(1, 1) =~= Seq::<IrModel>::empty());
    assert(first_choice(rest.subrange(1, 1), rules, visiting, neg_any) == Some(FirstModel { ranges: Seq::<CharRange>::empty(), nullable: false }));
    assert(fb.ranges + Seq::<CharRange>::empty() =~= fb.ranges);
    assert(first_choice(rest, rules, visiting, neg_any) == Some(FirstModel { ranges: fb.ranges, nullable: fb.nullable }));
    assert(first_choice(items, rules, visiting, neg_any) == Some(FirstModel { ranges: fa.ranges + fb.ranges, nullable: fa.nullable || fb.nullable }));
}

} // verus!
