//! Optimizing never merges a label away: the intermediate representation's
//! passes keep every label of a rule somewhere in that rule.
use crate::hir::expr::{ArmModel, IrModel};
use crate::hir::optimize::dispatch::{build_model, choice_or_dispatch, dispatch_all, dispatch_model, dispatch_program, find_group, first_of, group_arm, group_items};
use crate::hir::optimize::inline::{apply_inlining, inline_model, inline_table, small_inlining, trivial_inlining, with_ref_counts};
use crate::hir::optimize::normalize::{
    charset_ranges, flatten_choice_items, flatten_model, flatten_program, flatten_seq_items, fuse_items, fuse_literals_items,
    fuse_literals_model, fuse_program, merge_charsets_items, merge_charsets_model, merge_choice, merge_program,
    non_charsets, single_char_charset, single_char_program, single_char_to_charset_model, splice_choice,
    splice_sequence, unwrap_choice, unwrap_sequence,
};
use crate::hir::optimize::normalize_program;
use crate::hir::optimize::list::{list_all, list_model, list_program};
use crate::hir::optimize::delimited::{delimited_all, delimited_model, delimited_program};
use crate::hir::optimize::patterns::{take_while_model, take_while_program};
use crate::hir::program::ProgramModel;
use crate::ir::optimize::ir_optimized_model;
use crate::ranges::{coalesce_model, CharRange};
use vstd::prelude::*;

verus! {

/// `m` carries the label `l` somewhere.
pub open spec fn has_label(m: IrModel, l: Seq<char>) -> bool
    decreases m,
{
    match m {
        IrModel::Labeled { expr, label } => label == l || has_label(*expr, l),
        IrModel::Sequence(items) => any_has_label(items, l),
        IrModel::Choice(items) => any_has_label(items, l),
        IrModel::Dispatch(arms) => arms_have_label(arms, l),
        IrModel::Scan { specials, .. } => arms_have_label(specials, l),
        IrModel::Repeat { expr, .. } => has_label(*expr, l),
        IrModel::PosLookahead(e) => has_label(*e, l),
        IrModel::NegLookahead(e) => has_label(*e, l),
        IrModel::WithFlag { body, .. } => has_label(*body, l),
        IrModel::WithCounter { body, .. } => has_label(*body, l),
        IrModel::When { body, .. } => has_label(*body, l),
        IrModel::DepthLimit { body, .. } => has_label(*body, l),
        IrModel::SeparatedList { first, rest } => has_label(*first, l) || has_label(*rest, l),
        IrModel::Delimited { body, .. } => has_label(*body, l),
        _ => false,
    }
}

/// Some element of `s` carries the label `l`.
pub open spec fn any_has_label(s: Seq<IrModel>, l: Seq<char>) -> bool
    decreases s,
{
    exists|i: int| 0 <= i < s.len() && has_label(#[trigger] s[i], l)
}

/// Some arm of `s` carries the label `l`.
pub open spec fn arms_have_label(s: Seq<ArmModel>, l: Seq<char>) -> bool
    decreases s,
{
    exists|i: int| 0 <= i < s.len() && has_label(*(#[trigger] s[i]).expr, l)
}

/// Every rule of `p` that carries `l` still carries it in `q`.
pub open spec fn keeps_label(p: ProgramModel, q: ProgramModel, l: Seq<char>) -> bool {
    &&& q.rules.len() == p.rules.len()
    &&& forall|i: int| 0 <= i < p.rules.len() && has_label(#[trigger] p.rules[i].expr, l) ==> has_label(q.rules[i].expr, l)
}

proof fn lemma_any_concat(a: Seq<IrModel>, b: Seq<IrModel>, l: Seq<char>)
    requires
        any_has_label(a, l) || any_has_label(b, l),
    ensures
        any_has_label(a + b, l),
{
    if any_has_label(a, l) {
        let i = choose|i: int| 0 <= i < a.len() && has_label(#[trigger] a[i], l);
        assert((a + b)[i] == a[i]);
    } else {
        let i = choose|i: int| 0 <= i < b.len() && has_label(#[trigger] b[i], l);
        assert((a + b)[a.len() + i] == b[i]);
    }
}

proof fn lemma_any_init(s: Seq<IrModel>, l: Seq<char>)
    requires
        any_has_label(s, l),
    ensures
        any_has_label(s.drop_last(), l) || has_label(s[s.len() - 1], l),
{
    let i = choose|i: int| 0 <= i < s.len() && has_label(#[trigger] s[i], l);
    if i < s.len() - 1 {
        assert(s.drop_last()[i] == s[i]);
    }
}

proof fn lemma_unwrap_sequence_labels(s: Seq<IrModel>, l: Seq<char>)
    requires
        any_has_label(s, l),
    ensures
        has_label(unwrap_sequence(s), l),
{
    if s.len() == 1 {
        let i = choose|i: int| 0 <= i < s.len() && has_label(#[trigger] s[i], l);
        assert(i == 0);
    }
}

proof fn lemma_unwrap_choice_labels(s: Seq<IrModel>, l: Seq<char>)
    requires
        any_has_label(s, l),
    ensures
        has_label(unwrap_choice(s), l),
{
    if s.len() == 1 {
        let i = choose|i: int| 0 <= i < s.len() && has_label(#[trigger] s[i], l);
        assert(i == 0);
    }
}

proof fn lemma_flatten_seq_items_labels(s: Seq<IrModel>, l: Seq<char>)
    requires
        any_has_label(s, l),
    ensures
        any_has_label(flatten_seq_items(s), l),
    decreases s,
{
    reveal_with_fuel(has_label, 2);
    lemma_any_init(s, l);
    let last = s[s.len() - 1];
    if any_has_label(s.drop_last(), l) {
        lemma_flatten_seq_items_labels(s.drop_last(), l);
        lemma_any_concat(flatten_seq_items(s.drop_last()), splice_sequence(flatten_model(last)), l);
    } else {
        lemma_flatten_labels(last, l);
        let sp = splice_sequence(flatten_model(last));
        if !(flatten_model(last) is Sequence) {
            assert(sp[0] == flatten_model(last));
        }
        assert(any_has_label(sp, l));
        lemma_any_concat(flatten_seq_items(s.drop_last()), sp, l);
    }
}

proof fn lemma_flatten_choice_items_labels(s: Seq<IrModel>, l: Seq<char>)
    requires
        any_has_label(s, l),
    ensures
        any_has_label(flatten_choice_items(s), l),
    decreases s,
{
    reveal_with_fuel(has_label, 2);
    lemma_any_init(s, l);
    let last = s[s.len() - 1];
    if any_has_label(s.drop_last(), l) {
        lemma_flatten_choice_items_labels(s.drop_last(), l);
        lemma_any_concat(flatten_choice_items(s.drop_last()), splice_choice(flatten_model(last)), l);
    } else {
        lemma_flatten_labels(last, l);
        let sp = splice_choice(flatten_model(last));
        if !(flatten_model(last) is Choice) {
            assert(sp[0] == flatten_model(last));
        }
        assert(any_has_label(sp, l));
        lemma_any_concat(flatten_choice_items(s.drop_last()), sp, l);
    }
}

proof fn lemma_non_charsets_labels(s: Seq<IrModel>, i: int, l: Seq<char>)
    requires
        0 <= i < s.len(),
        has_label(s[i], l),
    ensures
        any_has_label(non_charsets(s), l),
    decreases s.len(),
{
    let last = s.last();
    let tail = match last {
        IrModel::CharSet(_) => Seq::<IrModel>::empty(),
        other => seq![other],
    };
    if i < s.len() - 1 {
        assert(s.drop_last()[i] == s[i]);
        lemma_non_charsets_labels(s.drop_last(), i, l);
        lemma_any_concat(non_charsets(s.drop_last()), tail, l);
    } else {
        assert(!(last is CharSet));
        assert(tail[0] == last);
        assert(any_has_label(tail, l));
        lemma_any_concat(non_charsets(s.drop_last()), tail, l);
    }
}

proof fn lemma_merge_choice_labels(s: Seq<IrModel>, i: int, l: Seq<char>)
    requires
        0 <= i < s.len(),
        has_label(s[i], l),
    ensures
        has_label(merge_choice(s), l),
{
    reveal_with_fuel(has_label, 2);
    lemma_non_charsets_labels(s, i, l);
    let others = non_charsets(s);
    let head = seq![IrModel::CharSet(coalesce_model(charset_ranges(s)))];
    lemma_any_concat(head, others, l);
    let result = head + others;
    if result.len() == 1 {
        let k = choose|k: int| 0 <= k < result.len() && has_label(#[trigger] result[k], l);
        assert(k == 0);
    }
    if others.len() == 1 {
        let k = choose|k: int| 0 <= k < others.len() && has_label(#[trigger] others[k], l);
        assert(k == 0);
    }
}

proof fn lemma_fuse_items_labels(s: Seq<IrModel>, i: int, l: Seq<char>)
    requires
        0 <= i < s.len(),
        has_label(s[i], l),
    ensures
        any_has_label(fuse_items(s), l),
    decreases s.len(),
{
    let prev = fuse_items(s.drop_last());
    let x = s.last();
    if i < s.len() - 1 {
        assert(s.drop_last()[i] == s[i]);
        lemma_fuse_items_labels(s.drop_last(), i, l);
        let k = choose|k: int| 0 <= k < prev.len() && has_label(#[trigger] prev[k], l);
        if prev.len() > 0 && prev.last() is Literal && x is Literal {
            let u = prev.update(prev.len() - 1, IrModel::Literal(prev.last()->Literal_0 + x->Literal_0));
            assert(k != prev.len() - 1);
            assert(u[k] == prev[k]);
            assert(has_label(u[k], l));
        } else {
            assert(prev.push(x)[k] == prev[k]);
            assert(has_label(prev.push(x)[k], l));
        }
    } else {
        assert(!(x is Literal));
        assert(prev.push(x)[prev.len() as int] == x);
        assert(has_label(prev.push(x)[prev.len() as int], l));
    }
}

proof fn lemma_find_group_range(gs: Seq<(Seq<CharRange>, Seq<IrModel>)>, r: Seq<CharRange>)
    ensures
        find_group(gs, r) < gs.len(),
    decreases gs.len(),
{
    if gs.len() > 0 {
        lemma_find_group_range(gs.drop_last(), r);
    }
}

/// Every item of `items` is a member of some group.
proof fn lemma_groups_cover(items: Seq<IrModel>, rules: Seq<IrModel>, grouped: bool, i: int)
    requires
        0 <= i < items.len(),
        group_items(items, rules, grouped) is Some,
    ensures
        ({
            let gs = group_items(items, rules, grouped)->0;
            exists|k: int, j: int| 0 <= k < gs.len() && 0 <= j < gs[k].1.len() && #[trigger] gs[k].1[j] == items[i]
        }),
    decreases items.len(),
{
    let gs = group_items(items, rules, grouped)->0;
    let item = items.last();
    let prev = group_items(items.drop_last(), rules, grouped)->0;
    let f = first_of(item, rules, Seq::empty(), grouped)->0;
    let r = coalesce_model(f.ranges);
    let k0 = find_group(prev, r);
    lemma_find_group_range(prev, r);
    if i < items.len() - 1 {
        assert(items.drop_last()[i] == items[i]);
        lemma_groups_cover(items.drop_last(), rules, grouped, i);
        let (k, j) = choose|k: int, j: int| 0 <= k < prev.len() && 0 <= j < prev[k].1.len() && #[trigger] prev[k].1[j] == items[i];
        if grouped && k0 >= 0 {
            assert(gs == prev.update(k0, (prev[k0].0, prev[k0].1.push(item))));
            if k == k0 {
                assert(gs[k].1[j] == prev[k].1[j]);
            } else {
                assert(gs[k] == prev[k]);
            }
            assert(gs[k].1[j] == items[i]);
        } else {
            assert(gs == prev.push((r, seq![item])));
            assert(gs[k] == prev[k]);
            assert(gs[k].1[j] == items[i]);
        }
    } else {
        if grouped && k0 >= 0 {
            assert(gs == prev.update(k0, (prev[k0].0, prev[k0].1.push(item))));
            let j = prev[k0].1.len() as int;
            assert(gs[k0].1[j] == item);
        } else {
            assert(gs == prev.push((r, seq![item])));
            let k = prev.len() as int;
            assert(gs[k].1[0] == item);
        }
    }
}

proof fn lemma_build_labels(items: Seq<IrModel>, i: int, rules: Seq<IrModel>, grouped: bool, l: Seq<char>)
    requires
        0 <= i < items.len(),
        has_label(items[i], l),
    ensures
        has_label(choice_or_dispatch(items, rules, grouped), l),
{
    reveal_with_fuel(has_label, 2);
    if let Some(arms) = build_model(items, rules, grouped) {
        let gs = group_items(items, rules, grouped)->0;
        lemma_groups_cover(items, rules, grouped, i);
        let (k, j) = choose|k: int, j: int| 0 <= k < gs.len() && 0 <= j < gs[k].1.len() && #[trigger] gs[k].1[j] == items[i];
        assert(arms[k] == group_arm(gs[k]));
        if gs[k].1.len() == 1 {
            assert(j == 0);
        } else {
            assert(has_label(gs[k].1[j], l));
        }
        assert(has_label(*arms[k].expr, l));
    }
}

proof fn lemma_single_char_labels(m: IrModel, l: Seq<char>)
    requires
        has_label(m, l),
    ensures
        has_label(single_char_to_charset_model(m), l),
    decreases m,
{
    reveal_with_fuel(has_label, 3);
    match m {
        IrModel::Sequence(items) => {
            let i = choose|i: int| 0 <= i < items.len() && has_label(#[trigger] items[i], l);
            lemma_single_char_labels(items[i], l);
            let s = single_char_to_charset_model(m)->Sequence_0;
            assert(s[i] == single_char_to_charset_model(items[i]));
            assert(has_label(s[i], l));
        },
        IrModel::Choice(items) => {
            let i = choose|i: int| 0 <= i < items.len() && has_label(#[trigger] items[i], l);
            lemma_single_char_labels(items[i], l);
            let s = single_char_to_charset_model(m)->Choice_0;
            assert(s[i] == single_char_charset(single_char_to_charset_model(items[i])));
            assert(has_label(s[i], l));
        },
        IrModel::Dispatch(arms) => {
            let i = choose|i: int| 0 <= i < arms.len() && has_label(*(#[trigger] arms[i]).expr, l);
            assert(decreases_to!(arms => arms[i]));
            lemma_single_char_labels(*arms[i].expr, l);
            let s = single_char_to_charset_model(m)->Dispatch_0;
            assert(*s[i].expr == single_char_to_charset_model(*arms[i].expr));
            assert(has_label(*s[i].expr, l));
        },
        IrModel::Scan { specials: arms, .. } => {
            let i = choose|i: int| 0 <= i < arms.len() && has_label(*(#[trigger] arms[i]).expr, l);
            assert(decreases_to!(arms => arms[i]));
            lemma_single_char_labels(*arms[i].expr, l);
            let s = single_char_to_charset_model(m)->Scan_specials;
            assert(*s[i].expr == single_char_to_charset_model(*arms[i].expr));
            assert(has_label(*s[i].expr, l));
        },
        IrModel::Repeat { expr: inner, .. } => {
            lemma_single_char_labels(*inner, l);
        },
        IrModel::PosLookahead(inner) => {
            lemma_single_char_labels(*inner, l);
        },
        IrModel::NegLookahead(inner) => {
            lemma_single_char_labels(*inner, l);
        },
        IrModel::WithFlag { body: inner, .. } => {
            lemma_single_char_labels(*inner, l);
        },
        IrModel::WithCounter { body: inner, .. } => {
            lemma_single_char_labels(*inner, l);
        },
        IrModel::When { body: inner, .. } => {
            lemma_single_char_labels(*inner, l);
        },
        IrModel::DepthLimit { body: inner, .. } => {
            lemma_single_char_labels(*inner, l);
        },
        IrModel::Labeled { expr: inner, label } => {
            if label != l {
                lemma_single_char_labels(*inner, l);
            }
        },
        _ => {},
    }
}

proof fn lemma_flatten_labels(m: IrModel, l: Seq<char>)
    requires
        has_label(m, l),
    ensures
        has_label(flatten_model(m), l),
    decreases m,
{
    reveal_with_fuel(has_label, 3);
    match m {
        IrModel::Sequence(items) => {
            lemma_flatten_seq_items_labels(items, l);
            lemma_unwrap_sequence_labels(flatten_seq_items(items), l);
        },
        IrModel::Choice(items) => {
            lemma_flatten_choice_items_labels(items, l);
            lemma_unwrap_choice_labels(flatten_choice_items(items), l);
        },
        IrModel::Dispatch(arms) => {
            let i = choose|i: int| 0 <= i < arms.len() && has_label(*(#[trigger] arms[i]).expr, l);
            assert(decreases_to!(arms => arms[i]));
            lemma_flatten_labels(*arms[i].expr, l);
            let s = flatten_model(m)->Dispatch_0;
            assert(*s[i].expr == flatten_model(*arms[i].expr));
            assert(has_label(*s[i].expr, l));
        },
        IrModel::Scan { specials: arms, .. } => {
            let i = choose|i: int| 0 <= i < arms.len() && has_label(*(#[trigger] arms[i]).expr, l);
            assert(decreases_to!(arms => arms[i]));
            lemma_flatten_labels(*arms[i].expr, l);
            let s = flatten_model(m)->Scan_specials;
            assert(*s[i].expr == flatten_model(*arms[i].expr));
            assert(has_label(*s[i].expr, l));
        },
        IrModel::Repeat { expr: inner, .. } => {
            lemma_flatten_labels(*inner, l);
        },
        IrModel::PosLookahead(inner) => {
            lemma_flatten_labels(*inner, l);
        },
        IrModel::NegLookahead(inner) => {
            lemma_flatten_labels(*inner, l);
        },
        IrModel::WithFlag { body: inner, .. } => {
            lemma_flatten_labels(*inner, l);
        },
        IrModel::WithCounter { body: inner, .. } => {
            lemma_flatten_labels(*inner, l);
        },
        IrModel::When { body: inner, .. } => {
            lemma_flatten_labels(*inner, l);
        },
        IrModel::DepthLimit { body: inner, .. } => {
            lemma_flatten_labels(*inner, l);
        },
        IrModel::Labeled { expr: inner, label } => {
            if label != l {
                lemma_flatten_labels(*inner, l);
            }
        },
        _ => {},
    }
}

proof fn lemma_merge_labels(m: IrModel, l: Seq<char>)
    requires
        has_label(m, l),
    ensures
        has_label(merge_charsets_model(m), l),
    decreases m,
{
    reveal_with_fuel(has_label, 3);
    match m {
        IrModel::Sequence(items) => {
            let i = choose|i: int| 0 <= i < items.len() && has_label(#[trigger] items[i], l);
            lemma_merge_labels(items[i], l);
            let s = merge_charsets_model(m)->Sequence_0;
            assert(s[i] == merge_charsets_model(items[i]));
            assert(has_label(s[i], l));
        },
        IrModel::Choice(items) => {
            let i = choose|i: int| 0 <= i < items.len() && has_label(#[trigger] items[i], l);
            lemma_merge_labels(items[i], l);
            let s = merge_charsets_items(items);
            assert(s[i] == merge_charsets_model(items[i]));
            lemma_merge_choice_labels(s, i, l);
        },
        IrModel::Dispatch(arms) => {
            let i = choose|i: int| 0 <= i < arms.len() && has_label(*(#[trigger] arms[i]).expr, l);
            assert(decreases_to!(arms => arms[i]));
            lemma_merge_labels(*arms[i].expr, l);
            let s = merge_charsets_model(m)->Dispatch_0;
            assert(*s[i].expr == merge_charsets_model(*arms[i].expr));
            assert(has_label(*s[i].expr, l));
        },
        IrModel::Scan { specials: arms, .. } => {
            let i = choose|i: int| 0 <= i < arms.len() && has_label(*(#[trigger] arms[i]).expr, l);
            assert(decreases_to!(arms => arms[i]));
            lemma_merge_labels(*arms[i].expr, l);
            let s = merge_charsets_model(m)->Scan_specials;
            assert(*s[i].expr == merge_charsets_model(*arms[i].expr));
            assert(has_label(*s[i].expr, l));
        },
        IrModel::Repeat { expr: inner, .. } => {
            lemma_merge_labels(*inner, l);
        },
        IrModel::PosLookahead(inner) => {
            lemma_merge_labels(*inner, l);
        },
        IrModel::NegLookahead(inner) => {
            lemma_merge_labels(*inner, l);
        },
        IrModel::WithFlag { body: inner, .. } => {
            lemma_merge_labels(*inner, l);
        },
        IrModel::WithCounter { body: inner, .. } => {
            lemma_merge_labels(*inner, l);
        },
        IrModel::When { body: inner, .. } => {
            lemma_merge_labels(*inner, l);
        },
        IrModel::DepthLimit { body: inner, .. } => {
            lemma_merge_labels(*inner, l);
        },
        IrModel::Labeled { expr: inner, label } => {
            if label != l {
                lemma_merge_labels(*inner, l);
            }
        },
        _ => {},
    }
}

proof fn lemma_fuse_labels(m: IrModel, l: Seq<char>)
    requires
        has_label(m, l),
    ensures
        has_label(fuse_literals_model(m), l),
    decreases m,
{
    reveal_with_fuel(has_label, 3);
    match m {
        IrModel::Sequence(items) => {
            let i = choose|i: int| 0 <= i < items.len() && has_label(#[trigger] items[i], l);
            lemma_fuse_labels(items[i], l);
            let s = fuse_literals_items(items);
            assert(s[i] == fuse_literals_model(items[i]));
            lemma_fuse_items_labels(s, i, l);
            lemma_unwrap_sequence_labels(fuse_items(s), l);
        },
        IrModel::Choice(items) => {
            let i = choose|i: int| 0 <= i < items.len() && has_label(#[trigger] items[i], l);
            lemma_fuse_labels(items[i], l);
            let s = fuse_literals_model(m)->Choice_0;
            assert(s[i] == fuse_literals_model(items[i]));
            assert(has_label(s[i], l));
        },
        IrModel::Dispatch(arms) => {
            let i = choose|i: int| 0 <= i < arms.len() && has_label(*(#[trigger] arms[i]).expr, l);
            assert(decreases_to!(arms => arms[i]));
            lemma_fuse_labels(*arms[i].expr, l);
            let s = fuse_literals_model(m)->Dispatch_0;
            assert(*s[i].expr == fuse_literals_model(*arms[i].expr));
            assert(has_label(*s[i].expr, l));
        },
        IrModel::Scan { specials: arms, .. } => {
            let i = choose|i: int| 0 <= i < arms.len() && has_label(*(#[trigger] arms[i]).expr, l);
            assert(decreases_to!(arms => arms[i]));
            lemma_fuse_labels(*arms[i].expr, l);
            let s = fuse_literals_model(m)->Scan_specials;
            assert(*s[i].expr == fuse_literals_model(*arms[i].expr));
            assert(has_label(*s[i].expr, l));
        },
        IrModel::Repeat { expr: inner, .. } => {
            lemma_fuse_labels(*inner, l);
        },
        IrModel::PosLookahead(inner) => {
            lemma_fuse_labels(*inner, l);
        },
        IrModel::NegLookahead(inner) => {
            lemma_fuse_labels(*inner, l);
        },
        IrModel::WithFlag { body: inner, .. } => {
            lemma_fuse_labels(*inner, l);
        },
        IrModel::WithCounter { body: inner, .. } => {
            lemma_fuse_labels(*inner, l);
        },
        IrModel::When { body: inner, .. } => {
            lemma_fuse_labels(*inner, l);
        },
        IrModel::DepthLimit { body: inner, .. } => {
            lemma_fuse_labels(*inner, l);
        },
        IrModel::Labeled { expr: inner, label } => {
            if label != l {
                lemma_fuse_labels(*inner, l);
            }
        },
        _ => {},
    }
}

proof fn lemma_inline_labels(m: IrModel, table: Seq<Option<IrModel>>, l: Seq<char>)
    requires
        has_label(m, l),
    ensures
        has_label(inline_model(m, table), l),
    decreases m,
{
    reveal_with_fuel(has_label, 3);
    match m {
        IrModel::Sequence(items) => {
            let i = choose|i: int| 0 <= i < items.len() && has_label(#[trigger] items[i], l);
            lemma_inline_labels(items[i], table, l);
            let s = inline_model(m, table)->Sequence_0;
            assert(s[i] == inline_model(items[i], table));
            assert(has_label(s[i], l));
        },
        IrModel::Choice(items) => {
            let i = choose|i: int| 0 <= i < items.len() && has_label(#[trigger] items[i], l);
            lemma_inline_labels(items[i], table, l);
            let s = inline_model(m, table)->Choice_0;
            assert(s[i] == inline_model(items[i], table));
            assert(has_label(s[i], l));
        },
        IrModel::Dispatch(arms) => {
            let i = choose|i: int| 0 <= i < arms.len() && has_label(*(#[trigger] arms[i]).expr, l);
            assert(decreases_to!(arms => arms[i]));
            lemma_inline_labels(*arms[i].expr, table, l);
            let s = inline_model(m, table)->Dispatch_0;
            assert(*s[i].expr == inline_model(*arms[i].expr, table));
            assert(has_label(*s[i].expr, l));
        },
        IrModel::Scan { specials: arms, .. } => {
            let i = choose|i: int| 0 <= i < arms.len() && has_label(*(#[trigger] arms[i]).expr, l);
            assert(decreases_to!(arms => arms[i]));
            lemma_inline_labels(*arms[i].expr, table, l);
            let s = inline_model(m, table)->Scan_specials;
            assert(*s[i].expr == inline_model(*arms[i].expr, table));
            assert(has_label(*s[i].expr, l));
        },
        IrModel::Repeat { expr: inner, .. } => {
            lemma_inline_labels(*inner, table, l);
        },
        IrModel::PosLookahead(inner) => {
            lemma_inline_labels(*inner, table, l);
        },
        IrModel::NegLookahead(inner) => {
            lemma_inline_labels(*inner, table, l);
        },
        IrModel::WithFlag { body: inner, .. } => {
            lemma_inline_labels(*inner, table, l);
        },
        IrModel::WithCounter { body: inner, .. } => {
            lemma_inline_labels(*inner, table, l);
        },
        IrModel::When { body: inner, .. } => {
            lemma_inline_labels(*inner, table, l);
        },
        IrModel::DepthLimit { body: inner, .. } => {
            lemma_inline_labels(*inner, table, l);
        },
        IrModel::Labeled { expr: inner, label } => {
            if label != l {
                lemma_inline_labels(*inner, table, l);
            }
        },
        _ => {},
    }
}

proof fn lemma_take_while_labels(m: IrModel, l: Seq<char>)
    requires
        has_label(m, l),
    ensures
        has_label(take_while_model(m), l),
    decreases m,
{
    reveal_with_fuel(has_label, 3);
    match m {
        IrModel::Sequence(items) => {
            let i = choose|i: int| 0 <= i < items.len() && has_label(#[trigger] items[i], l);
            lemma_take_while_labels(items[i], l);
            let s = take_while_model(m)->Sequence_0;
            assert(s[i] == take_while_model(items[i]));
            assert(has_label(s[i], l));
        },
        IrModel::Choice(items) => {
            let i = choose|i: int| 0 <= i < items.len() && has_label(#[trigger] items[i], l);
            lemma_take_while_labels(items[i], l);
            let s = take_while_model(m)->Choice_0;
            assert(s[i] == take_while_model(items[i]));
            assert(has_label(s[i], l));
        },
        IrModel::Dispatch(arms) => {
            let i = choose|i: int| 0 <= i < arms.len() && has_label(*(#[trigger] arms[i]).expr, l);
            assert(decreases_to!(arms => arms[i]));
            lemma_take_while_labels(*arms[i].expr, l);
            let s = take_while_model(m)->Dispatch_0;
            assert(*s[i].expr == take_while_model(*arms[i].expr));
            assert(has_label(*s[i].expr, l));
        },
        IrModel::Scan { specials: arms, .. } => {
            let i = choose|i: int| 0 <= i < arms.len() && has_label(*(#[trigger] arms[i]).expr, l);
            assert(decreases_to!(arms => arms[i]));
            lemma_take_while_labels(*arms[i].expr, l);
            let s = take_while_model(m)->Scan_specials;
            assert(*s[i].expr == take_while_model(*arms[i].expr));
            assert(has_label(*s[i].expr, l));
        },
        IrModel::Repeat { expr: inner, .. } => {
            lemma_take_while_labels(*inner, l);
        },
        IrModel::PosLookahead(inner) => {
            lemma_take_while_labels(*inner, l);
        },
        IrModel::NegLookahead(inner) => {
            lemma_take_while_labels(*inner, l);
        },
        IrModel::WithFlag { body: inner, .. } => {
            lemma_take_while_labels(*inner, l);
        },
        IrModel::WithCounter { body: inner, .. } => {
            lemma_take_while_labels(*inner, l);
        },
        IrModel::When { body: inner, .. } => {
            lemma_take_while_labels(*inner, l);
        },
        IrModel::DepthLimit { body: inner, .. } => {
            lemma_take_while_labels(*inner, l);
        },
        IrModel::Labeled { expr: inner, label } => {
            if label != l {
                lemma_take_while_labels(*inner, l);
            }
        },
        IrModel::SeparatedList { first, rest } => {
            if has_label(*first, l) {
                lemma_take_while_labels(*first, l);
            } else {
                lemma_take_while_labels(*rest, l);
            }
        },
        _ => {},
    }
}

proof fn lemma_dispatch_labels(m: IrModel, rules: Seq<IrModel>, grouped: bool, l: Seq<char>)
    requires
        has_label(m, l),
    ensures
        has_label(dispatch_model(m, rules, grouped), l),
    decreases m,
{
    reveal_with_fuel(has_label, 3);
    match m {
        IrModel::Sequence(items) => {
            let i = choose|i: int| 0 <= i < items.len() && has_label(#[trigger] items[i], l);
            lemma_dispatch_labels(items[i], rules, grouped, l);
            let s = dispatch_model(m, rules, grouped)->Sequence_0;
            assert(s[i] == dispatch_model(items[i], rules, grouped));
            assert(has_label(s[i], l));
        },
        IrModel::Choice(items) => {
            let i = choose|i: int| 0 <= i < items.len() && has_label(#[trigger] items[i], l);
            lemma_dispatch_labels(items[i], rules, grouped, l);
            let d = dispatch_all(items, rules, grouped);
            assert(d[i] == dispatch_model(items[i], rules, grouped));
            lemma_build_labels(d, i, rules, grouped, l);
        },
        IrModel::Dispatch(arms) => {
            let i = choose|i: int| 0 <= i < arms.len() && has_label(*(#[trigger] arms[i]).expr, l);
            assert(decreases_to!(arms => arms[i]));
            lemma_dispatch_labels(*arms[i].expr, rules, grouped, l);
            let s = dispatch_model(m, rules, grouped)->Dispatch_0;
            assert(*s[i].expr == dispatch_model(*arms[i].expr, rules, grouped));
            assert(has_label(*s[i].expr, l));
        },
        IrModel::Scan { specials: arms, .. } => {
            let i = choose|i: int| 0 <= i < arms.len() && has_label(*(#[trigger] arms[i]).expr, l);
            assert(decreases_to!(arms => arms[i]));
            lemma_dispatch_labels(*arms[i].expr, rules, grouped, l);
            let s = dispatch_model(m, rules, grouped)->Scan_specials;
            assert(*s[i].expr == dispatch_model(*arms[i].expr, rules, grouped));
            assert(has_label(*s[i].expr, l));
        },
        IrModel::Repeat { expr: inner, .. } => {
            lemma_dispatch_labels(*inner, rules, grouped, l);
        },
        IrModel::PosLookahead(inner) => {
            lemma_dispatch_labels(*inner, rules, grouped, l);
        },
        IrModel::NegLookahead(inner) => {
            lemma_dispatch_labels(*inner, rules, grouped, l);
        },
        IrModel::WithFlag { body: inner, .. } => {
            lemma_dispatch_labels(*inner, rules, grouped, l);
        },
        IrModel::WithCounter { body: inner, .. } => {
            lemma_dispatch_labels(*inner, rules, grouped, l);
        },
        IrModel::When { body: inner, .. } => {
            lemma_dispatch_labels(*inner, rules, grouped, l);
        },
        IrModel::DepthLimit { body: inner, .. } => {
            lemma_dispatch_labels(*inner, rules, grouped, l);
        },
        IrModel::Labeled { expr: inner, label } => {
            if label != l {
                lemma_dispatch_labels(*inner, rules, grouped, l);
            }
        },
        _ => {},
    }
}

proof fn lemma_list_labels(m: IrModel, l: Seq<char>)
    requires
        has_label(m, l),
    ensures
        has_label(list_model(m), l),
    decreases m,
{
    reveal_with_fuel(has_label, 3);
    match m {
        IrModel::Sequence(items) => {
            let i = choose|i: int| 0 <= i < items.len() && has_label(#[trigger] items[i], l);
            lemma_list_labels(items[i], l);
            let s = list_all(items);
            assert(s[i] == list_model(items[i]));
            assert(has_label(s[i], l));
            if s.len() == 2 {
                if i == 1 {
                    assert(has_label(s[1], l));
                } else {
                    assert(has_label(s[0], l));
                }
            }
        },
        IrModel::Choice(items) => {
            let i = choose|i: int| 0 <= i < items.len() && has_label(#[trigger] items[i], l);
            lemma_list_labels(items[i], l);
            let s = list_model(m)->Choice_0;
            assert(s[i] == list_model(items[i]));
            assert(has_label(s[i], l));
        },
        IrModel::Dispatch(arms) => {
            let i = choose|i: int| 0 <= i < arms.len() && has_label(*(#[trigger] arms[i]).expr, l);
            assert(decreases_to!(arms => arms[i]));
            lemma_list_labels(*arms[i].expr, l);
            let s = list_model(m)->Dispatch_0;
            assert(*s[i].expr == list_model(*arms[i].expr));
            assert(has_label(*s[i].expr, l));
        },
        IrModel::Scan { specials: arms, .. } => {
            let i = choose|i: int| 0 <= i < arms.len() && has_label(*(#[trigger] arms[i]).expr, l);
            assert(decreases_to!(arms => arms[i]));
            lemma_list_labels(*arms[i].expr, l);
            let s = list_model(m)->Scan_specials;
            assert(*s[i].expr == list_model(*arms[i].expr));
            assert(has_label(*s[i].expr, l));
        },
        IrModel::Repeat { expr: inner, .. } => {
            lemma_list_labels(*inner, l);
        },
        IrModel::PosLookahead(inner) => {
            lemma_list_labels(*inner, l);
        },
        IrModel::NegLookahead(inner) => {
            lemma_list_labels(*inner, l);
        },
        IrModel::WithFlag { body: inner, .. } => {
            lemma_list_labels(*inner, l);
        },
        IrModel::WithCounter { body: inner, .. } => {
            lemma_list_labels(*inner, l);
        },
        IrModel::When { body: inner, .. } => {
            lemma_list_labels(*inner, l);
        },
        IrModel::DepthLimit { body: inner, .. } => {
            lemma_list_labels(*inner, l);
        },
        IrModel::Labeled { expr: inner, label } => {
            if label != l {
                lemma_list_labels(*inner, l);
            }
        },
        IrModel::SeparatedList { first, rest } => {
            if has_label(*first, l) {
                lemma_list_labels(*first, l);
            } else {
                lemma_list_labels(*rest, l);
            }
        },
        _ => {},
    }
}

proof fn lemma_delimited_labels(m: IrModel, l: Seq<char>)
    requires
        has_label(m, l),
    ensures
        has_label(delimited_model(m), l),
    decreases m,
{
    reveal_with_fuel(has_label, 3);
    match m {
        IrModel::Sequence(items) => {
            let i = choose|i: int| 0 <= i < items.len() && has_label(#[trigger] items[i], l);
            lemma_delimited_labels(items[i], l);
            let s = delimited_all(items);
            assert(s[i] == delimited_model(items[i]));
            assert(has_label(s[i], l));
            if s.len() == 3 {
                assert(has_label(s[i], l));
            }
        },
        IrModel::Choice(items) => {
            let i = choose|i: int| 0 <= i < items.len() && has_label(#[trigger] items[i], l);
            lemma_delimited_labels(items[i], l);
            let s = delimited_model(m)->Choice_0;
            assert(s[i] == delimited_model(items[i]));
            assert(has_label(s[i], l));
        },
        IrModel::Dispatch(arms) => {
            let i = choose|i: int| 0 <= i < arms.len() && has_label(*(#[trigger] arms[i]).expr, l);
            assert(decreases_to!(arms => arms[i]));
            lemma_delimited_labels(*arms[i].expr, l);
            let s = delimited_model(m)->Dispatch_0;
            assert(*s[i].expr == delimited_model(*arms[i].expr));
            assert(has_label(*s[i].expr, l));
        },
        IrModel::Scan { specials: arms, .. } => {
            let i = choose|i: int| 0 <= i < arms.len() && has_label(*(#[trigger] arms[i]).expr, l);
            assert(decreases_to!(arms => arms[i]));
            lemma_delimited_labels(*arms[i].expr, l);
            let s = delimited_model(m)->Scan_specials;
            assert(*s[i].expr == delimited_model(*arms[i].expr));
            assert(has_label(*s[i].expr, l));
        },
        IrModel::Repeat { expr: inner, .. } => {
            lemma_delimited_labels(*inner, l);
        },
        IrModel::PosLookahead(inner) => {
            lemma_delimited_labels(*inner, l);
        },
        IrModel::NegLookahead(inner) => {
            lemma_delimited_labels(*inner, l);
        },
        IrModel::WithFlag { body: inner, .. } => {
            lemma_delimited_labels(*inner, l);
        },
        IrModel::WithCounter { body: inner, .. } => {
            lemma_delimited_labels(*inner, l);
        },
        IrModel::When { body: inner, .. } => {
            lemma_delimited_labels(*inner, l);
        },
        IrModel::DepthLimit { body: inner, .. } => {
            lemma_delimited_labels(*inner, l);
        },
        IrModel::Labeled { expr: inner, label } => {
            if label != l {
                lemma_delimited_labels(*inner, l);
            }
        },
        IrModel::SeparatedList { first, rest } => {
            if has_label(*first, l) {
                lemma_delimited_labels(*first, l);
            } else {
                lemma_delimited_labels(*rest, l);
            }
        },
        IrModel::Delimited { body, .. } => {
            lemma_delimited_labels(*body, l);
        },
        _ => {},
    }
}

proof fn lemma_single_char_program_labels(p: ProgramModel, l: Seq<char>)
    ensures
        keeps_label(p, single_char_program(p), l),
{
    let q = single_char_program(p);
    assert forall|i: int| 0 <= i < p.rules.len() && has_label(#[trigger] p.rules[i].expr, l) implies has_label(q.rules[i].expr, l) by {
        lemma_single_char_labels(p.rules[i].expr, l);
    }
}

proof fn lemma_flatten_program_labels(p: ProgramModel, l: Seq<char>)
    ensures
        keeps_label(p, flatten_program(p), l),
{
    let q = flatten_program(p);
    assert forall|i: int| 0 <= i < p.rules.len() && has_label(#[trigger] p.rules[i].expr, l) implies has_label(q.rules[i].expr, l) by {
        lemma_flatten_labels(p.rules[i].expr, l);
    }
}

proof fn lemma_merge_program_labels(p: ProgramModel, l: Seq<char>)
    ensures
        keeps_label(p, merge_program(p), l),
{
    let q = merge_program(p);
    assert forall|i: int| 0 <= i < p.rules.len() && has_label(#[trigger] p.rules[i].expr, l) implies has_label(q.rules[i].expr, l) by {
        lemma_merge_labels(p.rules[i].expr, l);
    }
}

proof fn lemma_fuse_program_labels(p: ProgramModel, l: Seq<char>)
    ensures
        keeps_label(p, fuse_program(p), l),
{
    let q = fuse_program(p);
    assert forall|i: int| 0 <= i < p.rules.len() && has_label(#[trigger] p.rules[i].expr, l) implies has_label(q.rules[i].expr, l) by {
        lemma_fuse_labels(p.rules[i].expr, l);
    }
}

proof fn lemma_take_while_program_labels(p: ProgramModel, l: Seq<char>)
    ensures
        keeps_label(p, take_while_program(p), l),
{
    let q = take_while_program(p);
    assert forall|i: int| 0 <= i < p.rules.len() && has_label(#[trigger] p.rules[i].expr, l) implies has_label(q.rules[i].expr, l) by {
        lemma_take_while_labels(p.rules[i].expr, l);
    }
}

proof fn lemma_dispatch_program_labels(p: ProgramModel, grouped: bool, l: Seq<char>)
    ensures
        keeps_label(p, dispatch_program(p, grouped), l),
{
    let q = dispatch_program(p, grouped);
    assert forall|i: int| 0 <= i < p.rules.len() && has_label(#[trigger] p.rules[i].expr, l) implies has_label(q.rules[i].expr, l) by {
        lemma_dispatch_labels(p.rules[i].expr, crate::hir::optimize::inline::rule_exprs(p.rules), grouped, l);
    }
}

proof fn lemma_inlining_labels(p: ProgramModel, marks: Seq<bool>, l: Seq<char>)
    ensures
        keeps_label(p, apply_inlining(p, marks), l),
{
    let q = apply_inlining(p, marks);
    assert forall|i: int| 0 <= i < p.rules.len() && has_label(#[trigger] p.rules[i].expr, l) implies has_label(q.rules[i].expr, l) by {
        lemma_inline_labels(p.rules[i].expr, inline_table(p.rules, marks), l);
    }
}

proof fn lemma_ref_counts_labels(p: ProgramModel, l: Seq<char>)
    ensures
        keeps_label(p, with_ref_counts(p), l),
{
    let q = with_ref_counts(p);
    assert forall|i: int| 0 <= i < p.rules.len() && has_label(#[trigger] p.rules[i].expr, l) implies has_label(q.rules[i].expr, l) by {
        assert(q.rules[i].expr == p.rules[i].expr);
    }
}

proof fn lemma_keeps_label_trans(p: ProgramModel, q: ProgramModel, r: ProgramModel, l: Seq<char>)
    requires
        keeps_label(p, q, l),
        keeps_label(q, r, l),
    ensures
        keeps_label(p, r, l),
{
    assert forall|i: int| 0 <= i < p.rules.len() && has_label(#[trigger] p.rules[i].expr, l) implies has_label(r.rules[i].expr, l) by {
        assert(has_label(q.rules[i].expr, l));
    }
}

/// Optimizing never merges a label away: a rule that carries a label, around
/// any of its parts, still carries it after the intermediate
/// representation's passes (inlining may copy it into other rules as well).
pub proof fn law_ir_optimize_keeps_labels(p: ProgramModel, l: Seq<char>)
    ensures
        keeps_label(p, ir_optimized_model(p), l),
{
    let a = single_char_program(p);
    lemma_single_char_program_labels(p, l);
    let b0 = flatten_program(a);
    lemma_flatten_program_labels(a, l);
    let b1 = merge_program(b0);
    lemma_merge_program_labels(b0, l);
    let b = fuse_program(b1);
    lemma_fuse_program_labels(b1, l);
    lemma_keeps_label_trans(p, a, b0, l);
    lemma_keeps_label_trans(p, b0, b1, l);
    lemma_keeps_label_trans(p, b1, b, l);
    assert(b == normalize_program(a));
    let c = trivial_inlining(b);
    lemma_inlining_labels(b, crate::hir::optimize::inline::trivial_marks(b.rules), l);
    lemma_keeps_label_trans(p, b, c, l);
    let d = small_inlining(c);
    lemma_inlining_labels(c, crate::hir::optimize::inline::small_marks(c.rules), l);
    lemma_keeps_label_trans(p, c, d, l);
    let e0 = flatten_program(d);
    lemma_flatten_program_labels(d, l);
    let e1 = merge_program(e0);
    lemma_merge_program_labels(e0, l);
    let e = fuse_program(e1);
    lemma_fuse_program_labels(e1, l);
    lemma_keeps_label_trans(p, d, e0, l);
    lemma_keeps_label_trans(p, e0, e1, l);
    lemma_keeps_label_trans(p, e1, e, l);
    assert(e == normalize_program(d));
    let f = take_while_program(e);
    lemma_take_while_program_labels(e, l);
    lemma_keeps_label_trans(p, e, f, l);
    let g = with_ref_counts(f);
    lemma_ref_counts_labels(f, l);
    lemma_keeps_label_trans(p, f, g, l);
    let h = dispatch_program(g, false);
    lemma_dispatch_program_labels(g, false, l);
    lemma_keeps_label_trans(p, g, h, l);
}

/// Of the machine-oriented passes, fusing repetitions of sets, building
/// dispatch tables, recognizing separated lists and recognizing delimited
/// expressions keep every label of a rule too. (Building scanners does not: a plain arm it absorbs into the
/// scanner's characters loses its label.)
pub proof fn law_mir_passes_keep_labels(p: ProgramModel, l: Seq<char>)
    ensures
        keeps_label(p, dispatch_program(take_while_program(p), true), l),
        keeps_label(p, list_program(p), l),
        keeps_label(p, delimited_program(p), l),
{
    lemma_take_while_program_labels(p, l);
    lemma_dispatch_program_labels(take_while_program(p), true, l);
    lemma_keeps_label_trans(p, take_while_program(p), dispatch_program(take_while_program(p), true), l);
    let q = list_program(p);
    assert forall|i: int| 0 <= i < p.rules.len() && has_label(#[trigger] p.rules[i].expr, l) implies has_label(q.rules[i].expr, l) by {
        lemma_list_labels(p.rules[i].expr, l);
    }
    let r = delimited_program(p);
    assert forall|i: int| 0 <= i < p.rules.len() && has_label(#[trigger] p.rules[i].expr, l) implies has_label(r.rules[i].expr, l) by {
        lemma_delimited_labels(p.rules[i].expr, l);
    }
}

} // verus!
