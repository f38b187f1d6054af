//! Every optimization pass keeps each rule reference naming a rule of the
//! program: passes rearrange expressions, and inlining puts in the place of
//! a reference a rule body that itself refers only to rules of the program.
use crate::hir::expr::{ArmModel, IrModel};
use crate::hir::optimize::dispatch::{build_model, choice_or_dispatch, find_group, first_of, dispatch_all, dispatch_model, dispatch_program, group_arm, group_items};
use crate::hir::optimize::inline::{apply_inlining, inline_model, inline_table, small_inlining, trivial_inlining, with_ref_counts};
use crate::hir::optimize::list::{list_all, list_model, list_program};
use crate::hir::optimize::delimited::{delimited_all, delimited_model, delimited_program};
use crate::hir::optimize::normalize::{
    charset_ranges, flatten_choice_items, flatten_model, flatten_program, flatten_seq_items, fuse_items, fuse_literals_items,
    fuse_literals_model, fuse_program, merge_charsets_items, merge_charsets_model, merge_choice, merge_program,
    non_charsets, single_char_charset, single_char_program, single_char_to_charset_model, splice_choice,
    splice_sequence, unwrap_choice, unwrap_sequence,
};
use crate::hir::optimize::normalize_program;
use crate::hir::optimize::patterns::{take_while_model, take_while_program};
use crate::hir::optimize::scan::{scan_expr_model, scan_program, special_arms};
use crate::ranges::{coalesce_model, CharRange};
use crate::hir::program::{refs_below, refs_below_all, refs_below_arms, rules_closed, ProgramModel};
use crate::ir::optimize::ir_optimized_model;
use crate::mir::optimize::mir_optimized_model;
use vstd::prelude::*;

verus! {

/// Every expression of the table refers only to rules below `n`.
pub open spec fn table_closed(table: Seq<Option<IrModel>>, n: nat) -> bool {
    forall|i: int| 0 <= i < table.len() && (#[trigger] table[i]) is Some ==> refs_below(table[i]->0, n)
}

proof fn lemma_all_concat(a: Seq<IrModel>, b: Seq<IrModel>, n: nat)
    requires
        refs_below_all(a, n),
        refs_below_all(b, n),
    ensures
        refs_below_all(a + b, n),
{
    assert forall|i: int| 0 <= i < (a + b).len() implies refs_below(#[trigger] (a + b)[i], n) by {
        if i < a.len() {
            assert((a + b)[i] == a[i]);
        } else {
            assert((a + b)[i] == b[i - a.len()]);
        }
    }
}

proof fn lemma_all_init(s: Seq<IrModel>, n: nat)
    requires
        refs_below_all(s, n),
        s.len() > 0,
    ensures
        refs_below_all(s.drop_last(), n),
        refs_below(s[s.len() - 1], n),
{
    assert forall|i: int| 0 <= i < s.drop_last().len() implies refs_below(#[trigger] s.drop_last()[i], n) by {
        assert(s.drop_last()[i] == s[i]);
    }
}

proof fn lemma_unwrap_sequence_closed(s: Seq<IrModel>, n: nat)
    requires
        refs_below_all(s, n),
    ensures
        refs_below(unwrap_sequence(s), n),
{
    if s.len() == 1 {
        assert(refs_below(s[0], n));
    }
}

proof fn lemma_unwrap_choice_closed(s: Seq<IrModel>, n: nat)
    requires
        refs_below_all(s, n),
    ensures
        refs_below(unwrap_choice(s), n),
{
    if s.len() == 1 {
        assert(refs_below(s[0], n));
    }
}

proof fn lemma_flatten_seq_items_closed(s: Seq<IrModel>, n: nat)
    requires
        refs_below_all(s, n),
    ensures
        refs_below_all(flatten_seq_items(s), n),
    decreases s,
{
    reveal_with_fuel(refs_below, 2);
    if s.len() > 0 {
        lemma_all_init(s, n);
        lemma_flatten_seq_items_closed(s.drop_last(), n);
        let last = s[s.len() - 1];
        lemma_flatten_closed(last, n);
        let sp = splice_sequence(flatten_model(last));
        assert(refs_below_all(sp, n)) by {
            if !(flatten_model(last) is Sequence) {
                assert(sp[0] == flatten_model(last));
            }
        }
        lemma_all_concat(flatten_seq_items(s.drop_last()), sp, n);
    }
}

proof fn lemma_flatten_choice_items_closed(s: Seq<IrModel>, n: nat)
    requires
        refs_below_all(s, n),
    ensures
        refs_below_all(flatten_choice_items(s), n),
    decreases s,
{
    reveal_with_fuel(refs_below, 2);
    if s.len() > 0 {
        lemma_all_init(s, n);
        lemma_flatten_choice_items_closed(s.drop_last(), n);
        let last = s[s.len() - 1];
        lemma_flatten_closed(last, n);
        let sp = splice_choice(flatten_model(last));
        assert(refs_below_all(sp, n)) by {
            if !(flatten_model(last) is Choice) {
                assert(sp[0] == flatten_model(last));
            }
        }
        lemma_all_concat(flatten_choice_items(s.drop_last()), sp, n);
    }
}

proof fn lemma_non_charsets_closed(s: Seq<IrModel>, n: nat)
    requires
        refs_below_all(s, n),
    ensures
        refs_below_all(non_charsets(s), n),
    decreases s.len(),
{
    if s.len() > 0 {
        lemma_all_init(s, n);
        lemma_non_charsets_closed(s.drop_last(), n);
        let tail = match s.last() {
            IrModel::CharSet(_) => Seq::<IrModel>::empty(),
            other => seq![other],
        };
        assert(refs_below_all(tail, n)) by {
            if tail.len() > 0 {
                assert(tail[0] == s[s.len() - 1]);
            }
        }
        lemma_all_concat(non_charsets(s.drop_last()), tail, n);
    }
}

proof fn lemma_merge_choice_closed(s: Seq<IrModel>, n: nat)
    requires
        refs_below_all(s, n),
    ensures
        refs_below(merge_choice(s), n),
{
    reveal_with_fuel(refs_below, 2);
    lemma_non_charsets_closed(s, n);
    let others = non_charsets(s);
    let result = seq![IrModel::CharSet(coalesce_model(charset_ranges(s)))] + others;
    assert(refs_below_all(seq![IrModel::CharSet(coalesce_model(charset_ranges(s)))], n)) by {
        reveal_with_fuel(refs_below, 1);
    }
    lemma_all_concat(seq![IrModel::CharSet(coalesce_model(charset_ranges(s)))], others, n);
    if result.len() == 1 {
        assert(refs_below(result[0], n));
    }
    if others.len() == 1 {
        assert(refs_below(others[0], n));
    }
}

proof fn lemma_fuse_items_closed(s: Seq<IrModel>, n: nat)
    requires
        refs_below_all(s, n),
    ensures
        refs_below_all(fuse_items(s), n),
    decreases s.len(),
{
    if s.len() > 0 {
        lemma_all_init(s, n);
        lemma_fuse_items_closed(s.drop_last(), n);
        let prev = fuse_items(s.drop_last());
        let x = s.last();
        if prev.len() > 0 && prev.last() is Literal && x is Literal {
            let u = prev.update(prev.len() - 1, IrModel::Literal(prev.last()->Literal_0 + x->Literal_0));
            assert forall|i: int| 0 <= i < u.len() implies refs_below(#[trigger] u[i], n) by {
                if i < prev.len() - 1 {
                    assert(u[i] == prev[i]);
                }
            }
        } else {
            assert forall|i: int| 0 <= i < prev.push(x).len() implies refs_below(#[trigger] prev.push(x)[i], n) by {
                if i < prev.len() {
                    assert(prev.push(x)[i] == prev[i]);
                }
            }
        }
    }
}

proof fn lemma_find_group_range(gs: Seq<(Seq<CharRange>, Seq<IrModel>)>, r: Seq<CharRange>)
    ensures
        find_group(gs, r) < gs.len(),
    decreases gs.len(),
{
    if gs.len() > 0 {
        lemma_find_group_range(gs.drop_last(), r);
    }
}

proof fn lemma_groups_closed(items: Seq<IrModel>, rules: Seq<IrModel>, grouped: bool, n: nat)
    requires
        refs_below_all(items, n),
    ensures
        group_items(items, rules, grouped) matches Some(gs) ==> forall|k: int|
            0 <= k < gs.len() ==> refs_below_all(#[trigger] gs[k].1, n),
    decreases items.len(),
{
    if items.len() > 0 {
        lemma_all_init(items, n);
        lemma_groups_closed(items.drop_last(), rules, grouped, n);
        let item = items.last();
        assert(refs_below(item, n));
        if let Some(gs) = group_items(items, rules, grouped) {
            let prev = group_items(items.drop_last(), rules, grouped)->0;
            let f = first_of(item, rules, Seq::empty(), grouped)->0;
            let r = coalesce_model(f.ranges);
            let k0 = find_group(prev, r);
            lemma_find_group_range(prev, r);
            if grouped && k0 >= 0 {
                assert(gs == prev.update(k0, (prev[k0].0, prev[k0].1.push(item))));
                assert forall|k: int| 0 <= k < gs.len() implies refs_below_all(#[trigger] gs[k].1, n) by {
                    if k == k0 {
                        assert(refs_below_all(prev[k0].1, n));
                        assert forall|j: int| 0 <= j < gs[k].1.len() implies refs_below(#[trigger] gs[k].1[j], n) by {
                            if j < prev[k0].1.len() {
                                assert(gs[k].1[j] == prev[k0].1[j]);
                            }
                        }
                    } else {
                        assert(gs[k] == prev[k]);
                    }
                }
            } else {
                assert(gs == prev.push((r, seq![item])));
                assert forall|k: int| 0 <= k < gs.len() implies refs_below_all(#[trigger] gs[k].1, n) by {
                    if k < prev.len() {
                        assert(gs[k] == prev[k]);
                    } else {
                        assert(gs[k].1 == seq![item]);
                        assert(gs[k].1[0] == item);
                    }
                }
            }
        }
    }
}

proof fn lemma_build_closed(items: Seq<IrModel>, rules: Seq<IrModel>, grouped: bool, n: nat)
    requires
        refs_below_all(items, n),
    ensures
        refs_below(choice_or_dispatch(items, rules, grouped), n),
{
    reveal_with_fuel(refs_below, 2);
    lemma_groups_closed(items, rules, grouped, n);
    if let Some(arms) = build_model(items, rules, grouped) {
        let gs = group_items(items, rules, grouped)->0;
        assert forall|k: int| 0 <= k < arms.len() implies refs_below(*(#[trigger] arms[k]).expr, n) by {
            assert(arms[k] == group_arm(gs[k]));
            assert(refs_below_all(gs[k].1, n));
            if gs[k].1.len() == 1 {
                assert(refs_below(gs[k].1[0], n));
            }
        }
    }
}

proof fn lemma_special_arms_closed(arms: Seq<ArmModel>, rules: Seq<IrModel>, n: nat)
    requires
        refs_below_arms(arms, n),
    ensures
        refs_below_arms(special_arms(arms, rules), n),
    decreases arms.len(),
{
    if arms.len() > 0 {
        let init = arms.drop_last();
        assert forall|i: int| 0 <= i < init.len() implies refs_below(*(#[trigger] init[i]).expr, n) by {
            assert(init[i] == arms[i]);
        }
        lemma_special_arms_closed(init, rules, n);
        let prev = special_arms(init, rules);
        let x = arms.last();
        assert(refs_below(*arms[arms.len() - 1].expr, n));
        assert forall|i: int| 0 <= i < prev.push(x).len() implies refs_below(*(#[trigger] prev.push(x)[i]).expr, n) by {
            if i < prev.len() {
                assert(prev.push(x)[i] == prev[i]);
            }
        }
    }
}

proof fn lemma_single_char_closed(m: IrModel, n: nat)
    requires
        refs_below(m, n),
    ensures
        refs_below(single_char_to_charset_model(m), n),
    decreases m,
{
    reveal_with_fuel(refs_below, 3);
    match m {
        IrModel::Sequence(items) => {
            let s = single_char_to_charset_model(m)->Sequence_0;
            assert forall|i: int| 0 <= i < s.len() implies refs_below(#[trigger] s[i], n) by {
                lemma_single_char_closed(items[i], n);
                assert(s[i] == single_char_to_charset_model(items[i]));
            }
        },
        IrModel::Choice(items) => {
            let s = single_char_to_charset_model(m)->Choice_0;
            assert forall|i: int| 0 <= i < s.len() implies refs_below(#[trigger] s[i], n) by {
                lemma_single_char_closed(items[i], n);
                assert(s[i] == single_char_charset(single_char_to_charset_model(items[i])));
            }
        },
        IrModel::Dispatch(arms) => {
            let s = single_char_to_charset_model(m)->Dispatch_0;
            assert forall|i: int| 0 <= i < s.len() implies refs_below(*(#[trigger] s[i]).expr, n) by {
                assert(decreases_to!(arms => arms[i]));
                lemma_single_char_closed(*arms[i].expr, n);
                assert(*s[i].expr == single_char_to_charset_model(*arms[i].expr));
            }
        },
        IrModel::Scan { specials: arms, .. } => {
            let s = single_char_to_charset_model(m)->Scan_specials;
            assert forall|i: int| 0 <= i < s.len() implies refs_below(*(#[trigger] s[i]).expr, n) by {
                assert(decreases_to!(arms => arms[i]));
                lemma_single_char_closed(*arms[i].expr, n);
                assert(*s[i].expr == single_char_to_charset_model(*arms[i].expr));
            }
        },
        IrModel::Repeat { expr: inner, .. } => {
            lemma_single_char_closed(*inner, n);
        },
        IrModel::PosLookahead(inner) => {
            lemma_single_char_closed(*inner, n);
        },
        IrModel::NegLookahead(inner) => {
            lemma_single_char_closed(*inner, n);
        },
        IrModel::WithFlag { body: inner, .. } => {
            lemma_single_char_closed(*inner, n);
        },
        IrModel::WithCounter { body: inner, .. } => {
            lemma_single_char_closed(*inner, n);
        },
        IrModel::When { body: inner, .. } => {
            lemma_single_char_closed(*inner, n);
        },
        IrModel::DepthLimit { body: inner, .. } => {
            lemma_single_char_closed(*inner, n);
        },
        IrModel::Labeled { expr: inner, .. } => {
            lemma_single_char_closed(*inner, n);
        },
        _ => {},
    }
}

proof fn lemma_flatten_closed(m: IrModel, n: nat)
    requires
        refs_below(m, n),
    ensures
        refs_below(flatten_model(m), n),
    decreases m,
{
    reveal_with_fuel(refs_below, 3);
    match m {
        IrModel::Sequence(items) => {
            lemma_flatten_seq_items_closed(items, n);
            lemma_unwrap_sequence_closed(flatten_seq_items(items), n);
        },
        IrModel::Choice(items) => {
            lemma_flatten_choice_items_closed(items, n);
            lemma_unwrap_choice_closed(flatten_choice_items(items), n);
        },
        IrModel::Dispatch(arms) => {
            let s = flatten_model(m)->Dispatch_0;
            assert forall|i: int| 0 <= i < s.len() implies refs_below(*(#[trigger] s[i]).expr, n) by {
                assert(decreases_to!(arms => arms[i]));
                lemma_flatten_closed(*arms[i].expr, n);
                assert(*s[i].expr == flatten_model(*arms[i].expr));
            }
        },
        IrModel::Scan { specials: arms, .. } => {
            let s = flatten_model(m)->Scan_specials;
            assert forall|i: int| 0 <= i < s.len() implies refs_below(*(#[trigger] s[i]).expr, n) by {
                assert(decreases_to!(arms => arms[i]));
                lemma_flatten_closed(*arms[i].expr, n);
                assert(*s[i].expr == flatten_model(*arms[i].expr));
            }
        },
        IrModel::Repeat { expr: inner, .. } => {
            lemma_flatten_closed(*inner, n);
        },
        IrModel::PosLookahead(inner) => {
            lemma_flatten_closed(*inner, n);
        },
        IrModel::NegLookahead(inner) => {
            lemma_flatten_closed(*inner, n);
        },
        IrModel::WithFlag { body: inner, .. } => {
            lemma_flatten_closed(*inner, n);
        },
        IrModel::WithCounter { body: inner, .. } => {
            lemma_flatten_closed(*inner, n);
        },
        IrModel::When { body: inner, .. } => {
            lemma_flatten_closed(*inner, n);
        },
        IrModel::DepthLimit { body: inner, .. } => {
            lemma_flatten_closed(*inner, n);
        },
        IrModel::Labeled { expr: inner, .. } => {
            lemma_flatten_closed(*inner, n);
        },
        _ => {},
    }
}

proof fn lemma_merge_closed(m: IrModel, n: nat)
    requires
        refs_below(m, n),
    ensures
        refs_below(merge_charsets_model(m), n),
    decreases m,
{
    reveal_with_fuel(refs_below, 3);
    match m {
        IrModel::Sequence(items) => {
            let s = merge_charsets_model(m)->Sequence_0;
            assert forall|i: int| 0 <= i < s.len() implies refs_below(#[trigger] s[i], n) by {
                lemma_merge_closed(items[i], n);
                assert(s[i] == merge_charsets_model(items[i]));
            }
        },
        IrModel::Choice(items) => {
            let s = merge_charsets_items(items);
            assert forall|i: int| 0 <= i < s.len() implies refs_below(#[trigger] s[i], n) by {
                lemma_merge_closed(items[i], n);
                assert(s[i] == merge_charsets_model(items[i]));
            }
            lemma_merge_choice_closed(s, n);
        },
        IrModel::Dispatch(arms) => {
            let s = merge_charsets_model(m)->Dispatch_0;
            assert forall|i: int| 0 <= i < s.len() implies refs_below(*(#[trigger] s[i]).expr, n) by {
                assert(decreases_to!(arms => arms[i]));
                lemma_merge_closed(*arms[i].expr, n);
                assert(*s[i].expr == merge_charsets_model(*arms[i].expr));
            }
        },
        IrModel::Scan { specials: arms, .. } => {
            let s = merge_charsets_model(m)->Scan_specials;
            assert forall|i: int| 0 <= i < s.len() implies refs_below(*(#[trigger] s[i]).expr, n) by {
                assert(decreases_to!(arms => arms[i]));
                lemma_merge_closed(*arms[i].expr, n);
                assert(*s[i].expr == merge_charsets_model(*arms[i].expr));
            }
        },
        IrModel::Repeat { expr: inner, .. } => {
            lemma_merge_closed(*inner, n);
        },
        IrModel::PosLookahead(inner) => {
            lemma_merge_closed(*inner, n);
        },
        IrModel::NegLookahead(inner) => {
            lemma_merge_closed(*inner, n);
        },
        IrModel::WithFlag { body: inner, .. } => {
            lemma_merge_closed(*inner, n);
        },
        IrModel::WithCounter { body: inner, .. } => {
            lemma_merge_closed(*inner, n);
        },
        IrModel::When { body: inner, .. } => {
            lemma_merge_closed(*inner, n);
        },
        IrModel::DepthLimit { body: inner, .. } => {
            lemma_merge_closed(*inner, n);
        },
        IrModel::Labeled { expr: inner, .. } => {
            lemma_merge_closed(*inner, n);
        },
        _ => {},
    }
}

proof fn lemma_fuse_closed(m: IrModel, n: nat)
    requires
        refs_below(m, n),
    ensures
        refs_below(fuse_literals_model(m), n),
    decreases m,
{
    reveal_with_fuel(refs_below, 3);
    match m {
        IrModel::Sequence(items) => {
            let s = fuse_literals_items(items);
            assert forall|i: int| 0 <= i < s.len() implies refs_below(#[trigger] s[i], n) by {
                lemma_fuse_closed(items[i], n);
                assert(s[i] == fuse_literals_model(items[i]));
            }
            lemma_fuse_items_closed(s, n);
            lemma_unwrap_sequence_closed(fuse_items(s), n);
        },
        IrModel::Choice(items) => {
            let s = fuse_literals_model(m)->Choice_0;
            assert forall|i: int| 0 <= i < s.len() implies refs_below(#[trigger] s[i], n) by {
                lemma_fuse_closed(items[i], n);
                assert(s[i] == fuse_literals_model(items[i]));
            }
        },
        IrModel::Dispatch(arms) => {
            let s = fuse_literals_model(m)->Dispatch_0;
            assert forall|i: int| 0 <= i < s.len() implies refs_below(*(#[trigger] s[i]).expr, n) by {
                assert(decreases_to!(arms => arms[i]));
                lemma_fuse_closed(*arms[i].expr, n);
                assert(*s[i].expr == fuse_literals_model(*arms[i].expr));
            }
        },
        IrModel::Scan { specials: arms, .. } => {
            let s = fuse_literals_model(m)->Scan_specials;
            assert forall|i: int| 0 <= i < s.len() implies refs_below(*(#[trigger] s[i]).expr, n) by {
                assert(decreases_to!(arms => arms[i]));
                lemma_fuse_closed(*arms[i].expr, n);
                assert(*s[i].expr == fuse_literals_model(*arms[i].expr));
            }
        },
        IrModel::Repeat { expr: inner, .. } => {
            lemma_fuse_closed(*inner, n);
        },
        IrModel::PosLookahead(inner) => {
            lemma_fuse_closed(*inner, n);
        },
        IrModel::NegLookahead(inner) => {
            lemma_fuse_closed(*inner, n);
        },
        IrModel::WithFlag { body: inner, .. } => {
            lemma_fuse_closed(*inner, n);
        },
        IrModel::WithCounter { body: inner, .. } => {
            lemma_fuse_closed(*inner, n);
        },
        IrModel::When { body: inner, .. } => {
            lemma_fuse_closed(*inner, n);
        },
        IrModel::DepthLimit { body: inner, .. } => {
            lemma_fuse_closed(*inner, n);
        },
        IrModel::Labeled { expr: inner, .. } => {
            lemma_fuse_closed(*inner, n);
        },
        _ => {},
    }
}

proof fn lemma_inline_closed(m: IrModel, table: Seq<Option<IrModel>>, n: nat)
    requires
        refs_below(m, n),
        table_closed(table, n),
    ensures
        refs_below(inline_model(m, table), n),
    decreases m,
{
    reveal_with_fuel(refs_below, 3);
    match m {
        IrModel::Sequence(items) => {
            let s = inline_model(m, table)->Sequence_0;
            assert forall|i: int| 0 <= i < s.len() implies refs_below(#[trigger] s[i], n) by {
                lemma_inline_closed(items[i], table, n);
                assert(s[i] == inline_model(items[i], table));
            }
        },
        IrModel::Choice(items) => {
            let s = inline_model(m, table)->Choice_0;
            assert forall|i: int| 0 <= i < s.len() implies refs_below(#[trigger] s[i], n) by {
                lemma_inline_closed(items[i], table, n);
                assert(s[i] == inline_model(items[i], table));
            }
        },
        IrModel::Dispatch(arms) => {
            let s = inline_model(m, table)->Dispatch_0;
            assert forall|i: int| 0 <= i < s.len() implies refs_below(*(#[trigger] s[i]).expr, n) by {
                assert(decreases_to!(arms => arms[i]));
                lemma_inline_closed(*arms[i].expr, table, n);
                assert(*s[i].expr == inline_model(*arms[i].expr, table));
            }
        },
        IrModel::Scan { specials: arms, .. } => {
            let s = inline_model(m, table)->Scan_specials;
            assert forall|i: int| 0 <= i < s.len() implies refs_below(*(#[trigger] s[i]).expr, n) by {
                assert(decreases_to!(arms => arms[i]));
                lemma_inline_closed(*arms[i].expr, table, n);
                assert(*s[i].expr == inline_model(*arms[i].expr, table));
            }
        },
        IrModel::Repeat { expr: inner, .. } => {
            lemma_inline_closed(*inner, table, n);
        },
        IrModel::PosLookahead(inner) => {
            lemma_inline_closed(*inner, table, n);
        },
        IrModel::NegLookahead(inner) => {
            lemma_inline_closed(*inner, table, n);
        },
        IrModel::WithFlag { body: inner, .. } => {
            lemma_inline_closed(*inner, table, n);
        },
        IrModel::WithCounter { body: inner, .. } => {
            lemma_inline_closed(*inner, table, n);
        },
        IrModel::When { body: inner, .. } => {
            lemma_inline_closed(*inner, table, n);
        },
        IrModel::DepthLimit { body: inner, .. } => {
            lemma_inline_closed(*inner, table, n);
        },
        IrModel::Labeled { expr: inner, .. } => {
            lemma_inline_closed(*inner, table, n);
        },
        IrModel::RuleRef(idx) => {
            if idx < table.len() && table[idx as int] is Some {
                assert(refs_below(table[idx as int]->0, n));
            }
        },
        _ => {},
    }
}

proof fn lemma_take_while_closed(m: IrModel, n: nat)
    requires
        refs_below(m, n),
    ensures
        refs_below(take_while_model(m), n),
    decreases m,
{
    reveal_with_fuel(refs_below, 3);
    match m {
        IrModel::Sequence(items) => {
            let s = take_while_model(m)->Sequence_0;
            assert forall|i: int| 0 <= i < s.len() implies refs_below(#[trigger] s[i], n) by {
                lemma_take_while_closed(items[i], n);
                assert(s[i] == take_while_model(items[i]));
            }
        },
        IrModel::Choice(items) => {
            let s = take_while_model(m)->Choice_0;
            assert forall|i: int| 0 <= i < s.len() implies refs_below(#[trigger] s[i], n) by {
                lemma_take_while_closed(items[i], n);
                assert(s[i] == take_while_model(items[i]));
            }
        },
        IrModel::Dispatch(arms) => {
            let s = take_while_model(m)->Dispatch_0;
            assert forall|i: int| 0 <= i < s.len() implies refs_below(*(#[trigger] s[i]).expr, n) by {
                assert(decreases_to!(arms => arms[i]));
                lemma_take_while_closed(*arms[i].expr, n);
                assert(*s[i].expr == take_while_model(*arms[i].expr));
            }
        },
        IrModel::Scan { specials: arms, .. } => {
            let s = take_while_model(m)->Scan_specials;
            assert forall|i: int| 0 <= i < s.len() implies refs_below(*(#[trigger] s[i]).expr, n) by {
                assert(decreases_to!(arms => arms[i]));
                lemma_take_while_closed(*arms[i].expr, n);
                assert(*s[i].expr == take_while_model(*arms[i].expr));
            }
        },
        IrModel::Repeat { expr: inner, .. } => {
            lemma_take_while_closed(*inner, n);
        },
        IrModel::PosLookahead(inner) => {
            lemma_take_while_closed(*inner, n);
        },
        IrModel::NegLookahead(inner) => {
            lemma_take_while_closed(*inner, n);
        },
        IrModel::WithFlag { body: inner, .. } => {
            lemma_take_while_closed(*inner, n);
        },
        IrModel::WithCounter { body: inner, .. } => {
            lemma_take_while_closed(*inner, n);
        },
        IrModel::When { body: inner, .. } => {
            lemma_take_while_closed(*inner, n);
        },
        IrModel::DepthLimit { body: inner, .. } => {
            lemma_take_while_closed(*inner, n);
        },
        IrModel::Labeled { expr: inner, .. } => {
            lemma_take_while_closed(*inner, n);
        },
        IrModel::SeparatedList { first, rest } => {
            lemma_take_while_closed(*first, n);
            lemma_take_while_closed(*rest, n);
        },
        _ => {},
    }
}

proof fn lemma_dispatch_closed(m: IrModel, rules: Seq<IrModel>, grouped: bool, n: nat)
    requires
        refs_below(m, n),
    ensures
        refs_below(dispatch_model(m, rules, grouped), n),
    decreases m,
{
    reveal_with_fuel(refs_below, 3);
    match m {
        IrModel::Sequence(items) => {
            let s = dispatch_model(m, rules, grouped)->Sequence_0;
            assert forall|i: int| 0 <= i < s.len() implies refs_below(#[trigger] s[i], n) by {
                lemma_dispatch_closed(items[i], rules, grouped, n);
                assert(s[i] == dispatch_model(items[i], rules, grouped));
            }
        },
        IrModel::Choice(items) => {
            let d = dispatch_all(items, rules, grouped);
            assert forall|i: int| 0 <= i < d.len() implies refs_below(#[trigger] d[i], n) by {
                lemma_dispatch_closed(items[i], rules, grouped, n);
                assert(d[i] == dispatch_model(items[i], rules, grouped));
            }
            lemma_build_closed(d, rules, grouped, n);
        },
        IrModel::Dispatch(arms) => {
            let s = dispatch_model(m, rules, grouped)->Dispatch_0;
            assert forall|i: int| 0 <= i < s.len() implies refs_below(*(#[trigger] s[i]).expr, n) by {
                assert(decreases_to!(arms => arms[i]));
                lemma_dispatch_closed(*arms[i].expr, rules, grouped, n);
                assert(*s[i].expr == dispatch_model(*arms[i].expr, rules, grouped));
            }
        },
        IrModel::Scan { specials: arms, .. } => {
            let s = dispatch_model(m, rules, grouped)->Scan_specials;
            assert forall|i: int| 0 <= i < s.len() implies refs_below(*(#[trigger] s[i]).expr, n) by {
                assert(decreases_to!(arms => arms[i]));
                lemma_dispatch_closed(*arms[i].expr, rules, grouped, n);
                assert(*s[i].expr == dispatch_model(*arms[i].expr, rules, grouped));
            }
        },
        IrModel::Repeat { expr: inner, .. } => {
            lemma_dispatch_closed(*inner, rules, grouped, n);
        },
        IrModel::PosLookahead(inner) => {
            lemma_dispatch_closed(*inner, rules, grouped, n);
        },
        IrModel::NegLookahead(inner) => {
            lemma_dispatch_closed(*inner, rules, grouped, n);
        },
        IrModel::WithFlag { body: inner, .. } => {
            lemma_dispatch_closed(*inner, rules, grouped, n);
        },
        IrModel::WithCounter { body: inner, .. } => {
            lemma_dispatch_closed(*inner, rules, grouped, n);
        },
        IrModel::When { body: inner, .. } => {
            lemma_dispatch_closed(*inner, rules, grouped, n);
        },
        IrModel::DepthLimit { body: inner, .. } => {
            lemma_dispatch_closed(*inner, rules, grouped, n);
        },
        IrModel::Labeled { expr: inner, .. } => {
            lemma_dispatch_closed(*inner, rules, grouped, n);
        },
        _ => {},
    }
}

proof fn lemma_scan_closed(m: IrModel, rules: Seq<IrModel>, n: nat)
    requires
        refs_below(m, n),
    ensures
        refs_below(scan_expr_model(m, rules), n),
    decreases m,
{
    reveal_with_fuel(refs_below, 3);
    match m {
        IrModel::Sequence(items) => {
            let s = scan_expr_model(m, rules)->Sequence_0;
            assert forall|i: int| 0 <= i < s.len() implies refs_below(#[trigger] s[i], n) by {
                lemma_scan_closed(items[i], rules, n);
                assert(s[i] == scan_expr_model(items[i], rules));
            }
        },
        IrModel::Choice(items) => {
            let s = scan_expr_model(m, rules)->Choice_0;
            assert forall|i: int| 0 <= i < s.len() implies refs_below(#[trigger] s[i], n) by {
                lemma_scan_closed(items[i], rules, n);
                assert(s[i] == scan_expr_model(items[i], rules));
            }
        },
        IrModel::Dispatch(arms) => {
            let s = scan_expr_model(m, rules)->Dispatch_0;
            assert forall|i: int| 0 <= i < s.len() implies refs_below(*(#[trigger] s[i]).expr, n) by {
                assert(decreases_to!(arms => arms[i]));
                lemma_scan_closed(*arms[i].expr, rules, n);
                assert(*s[i].expr == scan_expr_model(*arms[i].expr, rules));
            }
        },
        IrModel::Scan { specials: arms, .. } => {
            let s = scan_expr_model(m, rules)->Scan_specials;
            assert forall|i: int| 0 <= i < s.len() implies refs_below(*(#[trigger] s[i]).expr, n) by {
                assert(decreases_to!(arms => arms[i]));
                lemma_scan_closed(*arms[i].expr, rules, n);
                assert(*s[i].expr == scan_expr_model(*arms[i].expr, rules));
            }
        },
        IrModel::Repeat { expr: inner, min, max } => {
            lemma_scan_closed(*inner, rules, n);
            let body = scan_expr_model(*inner, rules);
            if let IrModel::Dispatch(arms) = body {
                lemma_special_arms_closed(arms, rules, n);
            }
        },
        IrModel::PosLookahead(inner) => {
            lemma_scan_closed(*inner, rules, n);
        },
        IrModel::NegLookahead(inner) => {
            lemma_scan_closed(*inner, rules, n);
        },
        IrModel::WithFlag { body: inner, .. } => {
            lemma_scan_closed(*inner, rules, n);
        },
        IrModel::WithCounter { body: inner, .. } => {
            lemma_scan_closed(*inner, rules, n);
        },
        IrModel::When { body: inner, .. } => {
            lemma_scan_closed(*inner, rules, n);
        },
        IrModel::DepthLimit { body: inner, .. } => {
            lemma_scan_closed(*inner, rules, n);
        },
        IrModel::Labeled { expr: inner, .. } => {
            lemma_scan_closed(*inner, rules, n);
        },
        IrModel::SeparatedList { first, rest } => {
            lemma_scan_closed(*first, rules, n);
            lemma_scan_closed(*rest, rules, n);
        },
        _ => {},
    }
}

proof fn lemma_list_closed(m: IrModel, n: nat)
    requires
        refs_below(m, n),
    ensures
        refs_below(list_model(m), n),
    decreases m,
{
    reveal_with_fuel(refs_below, 3);
    match m {
        IrModel::Sequence(items) => {
            let l = list_all(items);
            assert forall|i: int| 0 <= i < l.len() implies refs_below(#[trigger] l[i], n) by {
                lemma_list_closed(items[i], n);
                assert(l[i] == list_model(items[i]));
            }
            if l.len() == 2 {
                assert(refs_below(l[0], n));
                assert(refs_below(l[1], n));
            }
        },
        IrModel::Choice(items) => {
            let s = list_model(m)->Choice_0;
            assert forall|i: int| 0 <= i < s.len() implies refs_below(#[trigger] s[i], n) by {
                lemma_list_closed(items[i], n);
                assert(s[i] == list_model(items[i]));
            }
        },
        IrModel::Dispatch(arms) => {
            let s = list_model(m)->Dispatch_0;
            assert forall|i: int| 0 <= i < s.len() implies refs_below(*(#[trigger] s[i]).expr, n) by {
                assert(decreases_to!(arms => arms[i]));
                lemma_list_closed(*arms[i].expr, n);
                assert(*s[i].expr == list_model(*arms[i].expr));
            }
        },
        IrModel::Scan { specials: arms, .. } => {
            let s = list_model(m)->Scan_specials;
            assert forall|i: int| 0 <= i < s.len() implies refs_below(*(#[trigger] s[i]).expr, n) by {
                assert(decreases_to!(arms => arms[i]));
                lemma_list_closed(*arms[i].expr, n);
                assert(*s[i].expr == list_model(*arms[i].expr));
            }
        },
        IrModel::Repeat { expr: inner, .. } => {
            lemma_list_closed(*inner, n);
        },
        IrModel::PosLookahead(inner) => {
            lemma_list_closed(*inner, n);
        },
        IrModel::NegLookahead(inner) => {
            lemma_list_closed(*inner, n);
        },
        IrModel::WithFlag { body: inner, .. } => {
            lemma_list_closed(*inner, n);
        },
        IrModel::WithCounter { body: inner, .. } => {
            lemma_list_closed(*inner, n);
        },
        IrModel::When { body: inner, .. } => {
            lemma_list_closed(*inner, n);
        },
        IrModel::DepthLimit { body: inner, .. } => {
            lemma_list_closed(*inner, n);
        },
        IrModel::Labeled { expr: inner, .. } => {
            lemma_list_closed(*inner, n);
        },
        IrModel::SeparatedList { first, rest } => {
            lemma_list_closed(*first, n);
            lemma_list_closed(*rest, n);
        },
        _ => {},
    }
}

proof fn lemma_delimited_closed(m: IrModel, n: nat)
    requires
        refs_below(m, n),
    ensures
        refs_below(delimited_model(m), n),
    decreases m,
{
    reveal_with_fuel(refs_below, 3);
    match m {
        IrModel::Sequence(items) => {
            let l = delimited_all(items);
            assert forall|i: int| 0 <= i < l.len() implies refs_below(#[trigger] l[i], n) by {
                lemma_delimited_closed(items[i], n);
                assert(l[i] == delimited_model(items[i]));
            }
            if l.len() == 3 {
                assert(refs_below(l[0], n));
                assert(refs_below(l[1], n));
                assert(refs_below(l[2], n));
            }
        },
        IrModel::Choice(items) => {
            let s = delimited_model(m)->Choice_0;
            assert forall|i: int| 0 <= i < s.len() implies refs_below(#[trigger] s[i], n) by {
                lemma_delimited_closed(items[i], n);
                assert(s[i] == delimited_model(items[i]));
            }
        },
        IrModel::Dispatch(arms) => {
            let s = delimited_model(m)->Dispatch_0;
            assert forall|i: int| 0 <= i < s.len() implies refs_below(*(#[trigger] s[i]).expr, n) by {
                assert(decreases_to!(arms => arms[i]));
                lemma_delimited_closed(*arms[i].expr, n);
                assert(*s[i].expr == delimited_model(*arms[i].expr));
            }
        },
        IrModel::Scan { specials: arms, .. } => {
            let s = delimited_model(m)->Scan_specials;
            assert forall|i: int| 0 <= i < s.len() implies refs_below(*(#[trigger] s[i]).expr, n) by {
                assert(decreases_to!(arms => arms[i]));
                lemma_delimited_closed(*arms[i].expr, n);
                assert(*s[i].expr == delimited_model(*arms[i].expr));
            }
        },
        IrModel::Repeat { expr: inner, .. } => {
            lemma_delimited_closed(*inner, n);
        },
        IrModel::PosLookahead(inner) => {
            lemma_delimited_closed(*inner, n);
        },
        IrModel::NegLookahead(inner) => {
            lemma_delimited_closed(*inner, n);
        },
        IrModel::WithFlag { body: inner, .. } => {
            lemma_delimited_closed(*inner, n);
        },
        IrModel::WithCounter { body: inner, .. } => {
            lemma_delimited_closed(*inner, n);
        },
        IrModel::When { body: inner, .. } => {
            lemma_delimited_closed(*inner, n);
        },
        IrModel::DepthLimit { body: inner, .. } => {
            lemma_delimited_closed(*inner, n);
        },
        IrModel::Labeled { expr: inner, .. } => {
            lemma_delimited_closed(*inner, n);
        },
        IrModel::SeparatedList { first, rest } => {
            lemma_delimited_closed(*first, n);
            lemma_delimited_closed(*rest, n);
        },
        IrModel::Delimited { body, .. } => {
            lemma_delimited_closed(*body, n);
        },
        _ => {},
    }
}

proof fn lemma_single_char_program_closed(p: ProgramModel)
    requires
        rules_closed(p.rules),
    ensures
        rules_closed(single_char_program(p).rules),
{
    let q = single_char_program(p);
    assert forall|i: int| 0 <= i < q.rules.len() implies refs_below(#[trigger] q.rules[i].expr, q.rules.len()) by {
        lemma_single_char_closed(p.rules[i].expr, p.rules.len());
    }
}

proof fn lemma_flatten_program_closed(p: ProgramModel)
    requires
        rules_closed(p.rules),
    ensures
        rules_closed(flatten_program(p).rules),
{
    let q = flatten_program(p);
    assert forall|i: int| 0 <= i < q.rules.len() implies refs_below(#[trigger] q.rules[i].expr, q.rules.len()) by {
        lemma_flatten_closed(p.rules[i].expr, p.rules.len());
    }
}

proof fn lemma_merge_program_closed(p: ProgramModel)
    requires
        rules_closed(p.rules),
    ensures
        rules_closed(merge_program(p).rules),
{
    let q = merge_program(p);
    assert forall|i: int| 0 <= i < q.rules.len() implies refs_below(#[trigger] q.rules[i].expr, q.rules.len()) by {
        lemma_merge_closed(p.rules[i].expr, p.rules.len());
    }
}

proof fn lemma_fuse_program_closed(p: ProgramModel)
    requires
        rules_closed(p.rules),
    ensures
        rules_closed(fuse_program(p).rules),
{
    let q = fuse_program(p);
    assert forall|i: int| 0 <= i < q.rules.len() implies refs_below(#[trigger] q.rules[i].expr, q.rules.len()) by {
        lemma_fuse_closed(p.rules[i].expr, p.rules.len());
    }
}

proof fn lemma_take_while_program_closed(p: ProgramModel)
    requires
        rules_closed(p.rules),
    ensures
        rules_closed(take_while_program(p).rules),
{
    let q = take_while_program(p);
    assert forall|i: int| 0 <= i < q.rules.len() implies refs_below(#[trigger] q.rules[i].expr, q.rules.len()) by {
        lemma_take_while_closed(p.rules[i].expr, p.rules.len());
    }
}

proof fn lemma_list_program_closed(p: ProgramModel)
    requires
        rules_closed(p.rules),
    ensures
        rules_closed(list_program(p).rules),
{
    let q = list_program(p);
    assert forall|i: int| 0 <= i < q.rules.len() implies refs_below(#[trigger] q.rules[i].expr, q.rules.len()) by {
        lemma_list_closed(p.rules[i].expr, p.rules.len());
    }
}

proof fn lemma_delimited_program_closed(p: ProgramModel)
    requires
        rules_closed(p.rules),
    ensures
        rules_closed(delimited_program(p).rules),
{
    let q = delimited_program(p);
    assert forall|i: int| 0 <= i < q.rules.len() implies refs_below(#[trigger] q.rules[i].expr, q.rules.len()) by {
        lemma_delimited_closed(p.rules[i].expr, p.rules.len());
    }
}

proof fn lemma_scan_program_closed(p: ProgramModel)
    requires
        rules_closed(p.rules),
    ensures
        rules_closed(scan_program(p).rules),
{
    let q = scan_program(p);
    assert forall|i: int| 0 <= i < q.rules.len() implies refs_below(#[trigger] q.rules[i].expr, q.rules.len()) by {
        lemma_scan_closed(p.rules[i].expr, crate::hir::optimize::inline::rule_exprs(p.rules), p.rules.len());
    }
}

proof fn lemma_dispatch_program_closed(p: ProgramModel, grouped: bool)
    requires
        rules_closed(p.rules),
    ensures
        rules_closed(dispatch_program(p, grouped).rules),
{
    let q = dispatch_program(p, grouped);
    assert forall|i: int| 0 <= i < q.rules.len() implies refs_below(#[trigger] q.rules[i].expr, q.rules.len()) by {
        lemma_dispatch_closed(p.rules[i].expr, crate::hir::optimize::inline::rule_exprs(p.rules), grouped, p.rules.len());
    }
}

proof fn lemma_normalize_program_closed(p: ProgramModel)
    requires
        rules_closed(p.rules),
    ensures
        rules_closed(normalize_program(p).rules),
{
    lemma_flatten_program_closed(p);
    lemma_merge_program_closed(flatten_program(p));
    lemma_fuse_program_closed(merge_program(flatten_program(p)));
}

proof fn lemma_inlining_closed(p: ProgramModel, marks: Seq<bool>)
    requires
        rules_closed(p.rules),
    ensures
        rules_closed(apply_inlining(p, marks).rules),
{
    let n = p.rules.len();
    let table = inline_table(p.rules, marks);
    assert(table_closed(table, n)) by {
        assert forall|i: int| 0 <= i < table.len() && (#[trigger] table[i]) is Some implies refs_below(table[i]->0, n) by {
            assert(table[i]->0 == p.rules[i].expr);
        }
    }
    let q = apply_inlining(p, marks);
    assert forall|i: int| 0 <= i < q.rules.len() implies refs_below(#[trigger] q.rules[i].expr, q.rules.len()) by {
        lemma_inline_closed(p.rules[i].expr, table, n);
    }
}

proof fn lemma_ref_counts_closed(p: ProgramModel)
    requires
        rules_closed(p.rules),
    ensures
        rules_closed(with_ref_counts(p).rules),
{
    let q = with_ref_counts(p);
    assert forall|i: int| 0 <= i < q.rules.len() implies refs_below(#[trigger] q.rules[i].expr, q.rules.len()) by {
        assert(q.rules[i].expr == p.rules[i].expr);
    }
}

/// Optimizing keeps every rule reference of every rule naming a rule of the
/// program.
pub proof fn law_ir_optimize_keeps_closed(p: ProgramModel)
    requires
        rules_closed(p.rules),
    ensures
        rules_closed(ir_optimized_model(p).rules),
{
    let a = single_char_program(p);
    lemma_single_char_program_closed(p);
    let b = normalize_program(a);
    lemma_normalize_program_closed(a);
    let c = trivial_inlining(b);
    lemma_inlining_closed(b, crate::hir::optimize::inline::trivial_marks(b.rules));
    let d = small_inlining(c);
    lemma_inlining_closed(c, crate::hir::optimize::inline::small_marks(c.rules));
    let e = normalize_program(d);
    lemma_normalize_program_closed(d);
    let f = take_while_program(e);
    lemma_take_while_program_closed(e);
    let g = with_ref_counts(f);
    lemma_ref_counts_closed(f);
    lemma_dispatch_program_closed(g, false);
}

/// The passes of the machine-oriented stage keep every rule reference of
/// every rule naming a rule of the program.
pub proof fn law_mir_optimize_keeps_closed(p: ProgramModel)
    requires
        rules_closed(p.rules),
    ensures
        rules_closed(mir_optimized_model(p).rules),
{
    let a = take_while_program(p);
    lemma_take_while_program_closed(p);
    let b = dispatch_program(a, true);
    lemma_dispatch_program_closed(a, true);
    let c = scan_program(b);
    lemma_scan_program_closed(b);
    let d = list_program(c);
    lemma_list_program_closed(c);
    lemma_delimited_program_closed(d);
}

} // verus!
