//! Every token sequence spells at most one syntax tree of the shapes the
//! parser builds: the grammar language is unambiguous on those shapes.
use super::print::{cond_tokens, op_token, repeat_tokens};
use super::print::{
    choice_tokens, decl_tokens, expr_tokens, grammar_tokens, item_tokens, label_tokens, rule_tokens, seq_tokens,
    statement_tokens, statements_tokens,
};
use super::shape::{
    all_postfix_shaped, all_sequence_shaped, alternatives_of, atom_shaped, choice_shaped, continues_postfix, ends_choice,
    ends_condition, ends_postfix, ends_sequence, items_of, lemma_alternatives, lemma_atom_first, lemma_choice_split,
    lemma_items, lemma_postfix_first, lemma_seq_front, lemma_sequence_first, postfix_shaped, prefix_shaped,
    sequence_shaped, starts_expr, token_at, ends_statements, grammar_shaped, item_shaped, rule_shaped,
    statement_shaped, statements_shaped, lemma_statements_front, lemma_grammar_front,
};
use crate::ast::{CondModel, ExprModel, ItemModel, RepeatKind, RuleModel, StatementModel};
use crate::lexer::TokenModel;
use vstd::prelude::*;

verus! {

/// Two spellings of one token sequence that begin with parts of equal
/// length begin with the same part, and go on the same way.
pub proof fn lemma_cancel(x: Seq<TokenModel>, r: Seq<TokenModel>, y: Seq<TokenModel>, s: Seq<TokenModel>)
    requires
        x + r == y + s,
        x.len() == y.len(),
    ensures
        x == y,
        r == s,
{
    assert(x =~= (x + r).take(x.len() as int));
    assert(y =~= (y + s).take(y.len() as int));
    assert(r =~= (x + r).skip(x.len() as int));
    assert(s =~= (y + s).skip(y.len() as int));
}

/// Two spellings of one token sequence agree at every position.
pub proof fn lemma_same_at(x: Seq<TokenModel>, r: Seq<TokenModel>, y: Seq<TokenModel>, s: Seq<TokenModel>, i: int)
    requires
        x + r == y + s,
        0 <= i < x.len(),
    ensures
        i < y.len() ==> x[i] == y[i],
        i >= y.len() ==> x[i] == s[i - y.len()],
{
    assert((x + r)[i] == x[i]);
    if i >= y.len() {
        assert((x + r).len() == x.len() + r.len());
        assert((y + s).len() == y.len() + s.len());
        assert((x + r).len() == (y + s).len());
        assert(i - y.len() < s.len());
        assert((y + s)[i] == s[i - y.len()]);
    }
}

/// The first token after a part is the first token of what follows it.
pub proof fn lemma_next_token(x: Seq<TokenModel>, r: Seq<TokenModel>, y: Seq<TokenModel>, s: Seq<TokenModel>)
    requires
        x + r == y + s,
        x.len() < y.len(),
    ensures
        token_at(r, 0) == Some(y[x.len() as int]),
{
    assert((x + r)[x.len() as int] == r[0]);
    assert((y + s)[x.len() as int] == y[x.len() as int]);
}

/// A comparison operator is spelled by a comparison token, one per operator.
pub proof fn lemma_op_token(a: crate::ast::CompareOp, b: crate::ast::CompareOp)
    ensures
        super::shape::is_compare_token(op_token(a)),
        op_token(a) == op_token(b) ==> a == b,
{
}

/// A guard condition followed by no comparison operator is spelled by its
/// tokens alone.
pub proof fn lemma_cond_unique(c: CondModel, d: CondModel, r: Seq<TokenModel>, s: Seq<TokenModel>)
    requires
        cond_tokens(c) + r == cond_tokens(d) + s,
        ends_condition(token_at(r, 0)),
        ends_condition(token_at(s, 0)),
    ensures
        c == d,
        r == s,
{
    let x = cond_tokens(c);
    let y = cond_tokens(d);
    lemma_same_at(x, r, y, s, 0);
    match (c, d) {
        (CondModel::IsFlag(_), CondModel::Compare { op, .. }) => {
            lemma_next_token(x, r, y, s);
            lemma_op_token(op, op);
        },
        (CondModel::Compare { op, .. }, CondModel::IsFlag(_)) => {
            lemma_next_token(y, s, x, r);
            lemma_op_token(op, op);
        },
        (CondModel::Compare { op: o1, .. }, CondModel::Compare { op: o2, .. }) => {
            lemma_same_at(x, r, y, s, 1);
            lemma_same_at(x, r, y, s, 2);
            lemma_op_token(o1, o2);
        },
        (CondModel::NotFlag(_), CondModel::NotFlag(_)) => {
            lemma_same_at(x, r, y, s, 1);
        },
        _ => {},
    }
    lemma_cancel(x, r, y, s);
}

// ── Repetitions and labels ──

/// What a repetition or a label adds after the expression it decorates.
pub enum Suffix {
    Times(RepeatKind),
    Label(Seq<char>),
}

/// The tokens of a suffix.
pub open spec fn suffix_tokens(u: Suffix) -> Seq<TokenModel> {
    match u {
        Suffix::Times(k) => repeat_tokens(k),
        Suffix::Label(l) => seq![TokenModel::At, TokenModel::StringLit(l)],
    }
}

/// The tokens of suffixes, one after another.
pub open spec fn suffixes_tokens(us: Seq<Suffix>) -> Seq<TokenModel>
    decreases us.len(),
{
    if us.len() == 0 {
        Seq::empty()
    } else {
        suffixes_tokens(us.drop_last()) + suffix_tokens(us.last())
    }
}

/// `e` decorated by one suffix.
pub open spec fn decorate(e: ExprModel, u: Suffix) -> ExprModel {
    match u {
        Suffix::Times(k) => ExprModel::Repeat { expr: Box::new(e), kind: k },
        Suffix::Label(l) => ExprModel::Labeled { expr: Box::new(e), label: l },
    }
}

/// `e` decorated by suffixes, innermost first.
pub open spec fn decorate_all(e: ExprModel, us: Seq<Suffix>) -> ExprModel
    decreases us.len(),
{
    if us.len() == 0 {
        e
    } else {
        decorate(decorate_all(e, us.drop_last()), us.last())
    }
}

/// An expression without its repetitions and labels.
pub open spec fn undecorated(e: ExprModel) -> ExprModel
    decreases e,
{
    match e {
        ExprModel::Repeat { expr, .. } => undecorated(*expr),
        ExprModel::Labeled { expr, .. } => undecorated(*expr),
        _ => e,
    }
}

/// The repetitions and labels of an expression, innermost first.
pub open spec fn suffixes_of(e: ExprModel) -> Seq<Suffix>
    decreases e,
{
    match e {
        ExprModel::Repeat { expr, kind } => suffixes_of(*expr).push(Suffix::Times(kind)),
        ExprModel::Labeled { expr, label } => suffixes_of(*expr).push(Suffix::Label(label)),
        _ => Seq::empty(),
    }
}

/// A postfix-shaped expression is a prefix-shaped one under its suffixes.
pub proof fn lemma_postfix_parts(e: ExprModel)
    requires
        postfix_shaped(e),
    ensures
        prefix_shaped(undecorated(e)),
        e == decorate_all(undecorated(e), suffixes_of(e)),
        expr_tokens(e) == expr_tokens(undecorated(e)) + suffixes_tokens(suffixes_of(e)),
    decreases e,
{
    match e {
        ExprModel::Repeat { expr, kind } => {
            lemma_postfix_parts(*expr);
            let us = suffixes_of(*expr);
            assert(us.push(Suffix::Times(kind)).drop_last() =~= us);
            assert(expr_tokens(e) =~= expr_tokens(undecorated(e)) + suffixes_tokens(suffixes_of(e)));
        },
        ExprModel::Labeled { expr, label } => {
            lemma_postfix_parts(*expr);
            let us = suffixes_of(*expr);
            assert(us.push(Suffix::Label(label)).drop_last() =~= us);
            assert(expr_tokens(e) =~= expr_tokens(undecorated(e)) + suffixes_tokens(suffixes_of(e)));
        },
        _ => {
            assert(expr_tokens(e) + Seq::<TokenModel>::empty() =~= expr_tokens(e));
        },
    }
}

/// A suffix starts with a token that continues a decorated expression.
pub proof fn lemma_suffix_first(u: Suffix)
    ensures
        suffix_tokens(u).len() > 0,
        continues_postfix(suffix_tokens(u)[0]),
{
}

/// A suffix is spelled by its tokens alone.
pub proof fn lemma_suffix_unique(u: Suffix, v: Suffix, r: Seq<TokenModel>, s: Seq<TokenModel>)
    requires
        suffix_tokens(u) + r == suffix_tokens(v) + s,
    ensures
        u == v,
        r == s,
{
    let x = suffix_tokens(u);
    let y = suffix_tokens(v);
    lemma_suffix_first(u);
    lemma_suffix_first(v);
    lemma_same_at(x, r, y, s, 0);
    if 1 < x.len() && 1 < y.len() {
        lemma_same_at(x, r, y, s, 1);
    }
    if 2 < x.len() && 2 < y.len() {
        lemma_same_at(x, r, y, s, 2);
    }
    if 3 < x.len() && 3 < y.len() {
        lemma_same_at(x, r, y, s, 3);
    }
    if 4 < x.len() && 4 < y.len() {
        lemma_same_at(x, r, y, s, 4);
    }
    assert(u == v);
    lemma_cancel(x, r, y, s);
}

/// The tokens of suffixes are those of the first `k`, then the rest.
pub proof fn lemma_suffixes_split(us: Seq<Suffix>, k: int)
    requires
        0 <= k <= us.len(),
    ensures
        suffixes_tokens(us) == suffixes_tokens(us.take(k)) + suffixes_tokens(us.skip(k)),
    decreases us.len(),
{
    if k == us.len() {
        assert(us.take(k) =~= us);
        assert(us.skip(k) =~= Seq::<Suffix>::empty());
        assert(suffixes_tokens(us) + Seq::<TokenModel>::empty() =~= suffixes_tokens(us));
    } else {
        let dl = us.drop_last();
        lemma_suffixes_split(dl, k);
        assert(dl.take(k) =~= us.take(k));
        assert(us.skip(k).drop_last() =~= dl.skip(k));
        assert(us.skip(k).last() == us.last());
        assert(suffixes_tokens(us) =~= suffixes_tokens(us.take(k)) + suffixes_tokens(us.skip(k)));
    }
}

/// The tokens of nonempty suffixes begin with those of the first.
pub proof fn lemma_suffixes_front(us: Seq<Suffix>)
    requires
        us.len() > 0,
    ensures
        suffixes_tokens(us) == suffix_tokens(us[0]) + suffixes_tokens(us.skip(1)),
{
    lemma_suffixes_split(us, 1);
    let one = us.take(1);
    assert(one.drop_last() =~= Seq::<Suffix>::empty());
    assert(one.last() == us[0]);
    assert(suffixes_tokens(Seq::<Suffix>::empty()) =~= Seq::<TokenModel>::empty());
    assert(suffixes_tokens(one) == suffixes_tokens(Seq::<Suffix>::empty()) + suffix_tokens(us[0]));
    assert(suffixes_tokens(one) =~= suffix_tokens(us[0]));
}

/// Suffixes followed by no further suffix are spelled by their tokens alone.
pub proof fn lemma_suffixes_unique(us: Seq<Suffix>, vs: Seq<Suffix>, r: Seq<TokenModel>, s: Seq<TokenModel>)
    requires
        suffixes_tokens(us) + r == suffixes_tokens(vs) + s,
        ends_postfix(token_at(r, 0)),
        ends_postfix(token_at(s, 0)),
    ensures
        us == vs,
        r == s,
    decreases us.len(),
{
    if us.len() == 0 || vs.len() == 0 {
        if us.len() == 0 && vs.len() > 0 {
            lemma_suffixes_front(vs);
            lemma_suffix_first(vs[0]);
            lemma_next_token(suffixes_tokens(us), r, suffixes_tokens(vs), s);
        } else if vs.len() == 0 && us.len() > 0 {
            lemma_suffixes_front(us);
            lemma_suffix_first(us[0]);
            lemma_next_token(suffixes_tokens(vs), s, suffixes_tokens(us), r);
        }
        assert(us =~= vs);
        lemma_cancel(suffixes_tokens(us), r, suffixes_tokens(vs), s);
    } else {
        lemma_suffixes_front(us);
        lemma_suffixes_front(vs);
        let ru = suffixes_tokens(us.skip(1)) + r;
        let rv = suffixes_tokens(vs.skip(1)) + s;
        assert(suffix_tokens(us[0]) + ru =~= suffixes_tokens(us) + r);
        assert(suffix_tokens(vs[0]) + rv =~= suffixes_tokens(vs) + s);
        lemma_suffix_unique(us[0], vs[0], ru, rv);
        lemma_suffixes_unique(us.skip(1), vs.skip(1), r, s);
        assert(us =~= vs) by {
            assert forall|i: int| 0 <= i < us.len() implies us[i] == vs[i] by {
                if i > 0 {
                    assert(us[i] == us.skip(1)[i - 1]);
                    assert(vs[i] == vs.skip(1)[i - 1]);
                }
            }
        }
    }
}

// ── Expressions ──

/// A token that starts an expression does not continue a decorated one.
pub proof fn lemma_start_ends_postfix(t: TokenModel)
    requires
        starts_expr(t),
    ensures
        ends_postfix(Some(t)),
{
}

/// An atom is spelled by its tokens alone.
#[verifier::spinoff_prover]
#[verifier::rlimit(50)]
pub proof fn lemma_atom_unique(a: ExprModel, b: ExprModel, r: Seq<TokenModel>, s: Seq<TokenModel>)
    requires
        atom_shaped(a),
        atom_shaped(b),
        expr_tokens(a) + r == expr_tokens(b) + s,
    ensures
        a == b,
        r == s,
    decreases expr_tokens(a).len(), 0int,
{
    let x = expr_tokens(a);
    let y = expr_tokens(b);
    lemma_atom_first(a);
    lemma_atom_first(b);
    lemma_same_at(x, r, y, s, 0);
    match a {
        ExprModel::CharRange(_, _) => {
            lemma_same_at(x, r, y, s, 2);
        },
        ExprModel::Group(ia) => {
            match b {
                ExprModel::Group(ib) => {
                    let open = seq![TokenModel::LParen];
                    let tail = seq![TokenModel::RParen];
                    assert(x + r =~= open + (expr_tokens(*ia) + (tail + r)));
                    assert(y + s =~= open + (expr_tokens(*ib) + (tail + s)));
                    lemma_cancel(open, expr_tokens(*ia) + (tail + r), open, expr_tokens(*ib) + (tail + s));
                    lemma_choice_unique(*ia, *ib, tail + r, tail + s);
                    lemma_cancel(tail, r, tail, s);
                },
                _ => {},
            }
        },
        ExprModel::With { flag, body } => {
            lemma_same_at(x, r, y, s, 1);
            lemma_same_at(x, r, y, s, 2);
            match b {
                ExprModel::With { flag: f2, body: b2 } => {
                    let open = seq![TokenModel::With, TokenModel::Ident(flag), TokenModel::LBrace];
                    let tail = seq![TokenModel::RBrace];
                    assert(x + r =~= open + (expr_tokens(*body) + (tail + r)));
                    assert(y + s =~= open + (expr_tokens(*b2) + (tail + s)));
                    lemma_cancel(open, expr_tokens(*body) + (tail + r), open, expr_tokens(*b2) + (tail + s));
                    lemma_choice_unique(*body, *b2, tail + r, tail + s);
                    lemma_cancel(tail, r, tail, s);
                },
                _ => {},
            }
        },
        ExprModel::WithIncrement { counter, amount, body } => {
            lemma_same_at(x, r, y, s, 1);
            lemma_same_at(x, r, y, s, 2);
            match b {
                ExprModel::WithIncrement { counter: c2, amount: a2, body: b2 } => {
                    lemma_same_at(x, r, y, s, 3);
                    let open = seq![
                        TokenModel::With,
                        TokenModel::Ident(counter),
                        TokenModel::PlusEq,
                        TokenModel::Number(amount),
                        TokenModel::LBrace,
                    ];
                    let tail = seq![TokenModel::RBrace];
                    assert(x + r =~= open + (expr_tokens(*body) + (tail + r)));
                    assert(y + s =~= open + (expr_tokens(*b2) + (tail + s)));
                    lemma_cancel(open, expr_tokens(*body) + (tail + r), open, expr_tokens(*b2) + (tail + s));
                    lemma_choice_unique(*body, *b2, tail + r, tail + s);
                    lemma_cancel(tail, r, tail, s);
                },
                _ => {},
            }
        },
        ExprModel::When { condition, body } => {
            match b {
                ExprModel::When { condition: c2, body: b2 } => {
                    let open = seq![TokenModel::When];
                    let mid = seq![TokenModel::LBrace];
                    let tail = seq![TokenModel::RBrace];
                    assert(x + r =~= open + (cond_tokens(condition) + (mid + (expr_tokens(*body) + (tail + r)))));
                    assert(y + s =~= open + (cond_tokens(c2) + (mid + (expr_tokens(*b2) + (tail + s)))));
                    lemma_cancel(
                        open,
                        cond_tokens(condition) + (mid + (expr_tokens(*body) + (tail + r))),
                        open,
                        cond_tokens(c2) + (mid + (expr_tokens(*b2) + (tail + s))),
                    );
                    lemma_cond_unique(condition, c2, mid + (expr_tokens(*body) + (tail + r)), mid + (expr_tokens(*b2) + (tail + s)));
                    lemma_cancel(mid, expr_tokens(*body) + (tail + r), mid, expr_tokens(*b2) + (tail + s));
                    lemma_choice_unique(*body, *b2, tail + r, tail + s);
                    lemma_cancel(tail, r, tail, s);
                },
                _ => {},
            }
        },
        ExprModel::DepthLimit { limit, body } => {
            match b {
                ExprModel::DepthLimit { limit: l2, body: b2 } => {
                    lemma_same_at(x, r, y, s, 2);
                    let open = seq![
                        TokenModel::DepthLimit,
                        TokenModel::LParen,
                        TokenModel::Number(limit),
                        TokenModel::RParen,
                        TokenModel::LBrace,
                    ];
                    let tail = seq![TokenModel::RBrace];
                    assert(x + r =~= open + (expr_tokens(*body) + (tail + r)));
                    assert(y + s =~= open + (expr_tokens(*b2) + (tail + s)));
                    lemma_cancel(open, expr_tokens(*body) + (tail + r), open, expr_tokens(*b2) + (tail + s));
                    lemma_choice_unique(*body, *b2, tail + r, tail + s);
                    lemma_cancel(tail, r, tail, s);
                },
                _ => {},
            }
        },
        _ => {},
    }
    if a == b {
        lemma_cancel(x, r, y, s);
    }
}

/// An atom, possibly under a lookahead, is spelled by its tokens alone.
pub proof fn lemma_prefix_unique(a: ExprModel, b: ExprModel, r: Seq<TokenModel>, s: Seq<TokenModel>)
    requires
        prefix_shaped(a),
        prefix_shaped(b),
        expr_tokens(a) + r == expr_tokens(b) + s,
    ensures
        a == b,
        r == s,
    decreases expr_tokens(a).len(), 1int,
{
    let x = expr_tokens(a);
    let y = expr_tokens(b);
    super::shape::lemma_prefix_first(a);
    super::shape::lemma_prefix_first(b);
    lemma_same_at(x, r, y, s, 0);
    match (a, b) {
        (ExprModel::PosLookahead(ia), ExprModel::PosLookahead(ib)) => {
            let open = seq![TokenModel::Amp];
            assert(x + r =~= open + (expr_tokens(*ia) + r));
            assert(y + s =~= open + (expr_tokens(*ib) + s));
            lemma_cancel(open, expr_tokens(*ia) + r, open, expr_tokens(*ib) + s);
            lemma_atom_unique(*ia, *ib, r, s);
        },
        (ExprModel::NegLookahead(ia), ExprModel::NegLookahead(ib)) => {
            let open = seq![TokenModel::Bang];
            assert(x + r =~= open + (expr_tokens(*ia) + r));
            assert(y + s =~= open + (expr_tokens(*ib) + s));
            lemma_cancel(open, expr_tokens(*ia) + r, open, expr_tokens(*ib) + s);
            lemma_atom_unique(*ia, *ib, r, s);
        },
        (ExprModel::PosLookahead(_), _) => {
            lemma_atom_first(b);
        },
        (ExprModel::NegLookahead(_), _) => {
            lemma_atom_first(b);
        },
        (_, ExprModel::PosLookahead(_)) => {
            lemma_atom_first(a);
        },
        (_, ExprModel::NegLookahead(_)) => {
            lemma_atom_first(a);
        },
        _ => {
            lemma_atom_unique(a, b, r, s);
        },
    }
}

/// A decorated expression followed by no further decoration is spelled by
/// its tokens alone.
pub proof fn lemma_postfix_unique(a: ExprModel, b: ExprModel, r: Seq<TokenModel>, s: Seq<TokenModel>)
    requires
        postfix_shaped(a),
        postfix_shaped(b),
        expr_tokens(a) + r == expr_tokens(b) + s,
        ends_postfix(token_at(r, 0)),
        ends_postfix(token_at(s, 0)),
    ensures
        a == b,
        r == s,
    decreases expr_tokens(a).len(), 2int,
{
    lemma_postfix_parts(a);
    lemma_postfix_parts(b);
    let ua = undecorated(a);
    let ub = undecorated(b);
    let sa = suffixes_tokens(suffixes_of(a));
    let sb = suffixes_tokens(suffixes_of(b));
    assert(expr_tokens(ua) + (sa + r) =~= expr_tokens(a) + r);
    assert(expr_tokens(ub) + (sb + s) =~= expr_tokens(b) + s);
    lemma_prefix_unique(ua, ub, sa + r, sb + s);
    lemma_suffixes_unique(suffixes_of(a), suffixes_of(b), r, s);
}

/// Items of a sequence followed by nothing that extends it are spelled by
/// their tokens alone.
pub proof fn lemma_items_unique(xs: Seq<ExprModel>, ys: Seq<ExprModel>, r: Seq<TokenModel>, s: Seq<TokenModel>)
    requires
        all_postfix_shaped(xs),
        all_postfix_shaped(ys),
        seq_tokens(xs) + r == seq_tokens(ys) + s,
        ends_sequence(token_at(r, 0)),
        ends_sequence(token_at(s, 0)),
    ensures
        xs == ys,
        r == s,
    decreases seq_tokens(xs).len(), 3int,
{
    if xs.len() == 0 || ys.len() == 0 {
        if xs.len() == 0 && ys.len() > 0 {
            lemma_seq_front(ys, 0);
            assert(ys.skip(0) =~= ys);
            assert(postfix_shaped(ys[0]));
            lemma_postfix_first(ys[0]);
            lemma_same_at(seq_tokens(ys), s, seq_tokens(xs), r, 0);
            assert(seq_tokens(xs) =~= Seq::<TokenModel>::empty());
            lemma_next_token(seq_tokens(xs), r, seq_tokens(ys), s);
        } else if ys.len() == 0 && xs.len() > 0 {
            lemma_seq_front(xs, 0);
            assert(xs.skip(0) =~= xs);
            assert(postfix_shaped(xs[0]));
            lemma_postfix_first(xs[0]);
            assert(seq_tokens(ys) =~= Seq::<TokenModel>::empty());
            lemma_next_token(seq_tokens(ys), s, seq_tokens(xs), r);
        }
        assert(xs =~= ys);
        lemma_cancel(seq_tokens(xs), r, seq_tokens(ys), s);
    } else {
        lemma_seq_front(xs, 0);
        lemma_seq_front(ys, 0);
        assert(xs.skip(0) =~= xs);
        assert(ys.skip(0) =~= ys);
        let tx = xs.skip(1);
        let ty = ys.skip(1);
        assert(all_postfix_shaped(tx)) by {
            assert forall|i: int| 0 <= i < tx.len() implies postfix_shaped(#[trigger] tx[i]) by {
                assert(tx[i] == xs[i + 1]);
            }
        }
        assert(all_postfix_shaped(ty)) by {
            assert forall|i: int| 0 <= i < ty.len() implies postfix_shaped(#[trigger] ty[i]) by {
                assert(ty[i] == ys[i + 1]);
            }
        }
        let rx = seq_tokens(tx) + r;
        let ry = seq_tokens(ty) + s;
        assert(expr_tokens(xs[0]) + rx =~= seq_tokens(xs) + r);
        assert(expr_tokens(ys[0]) + ry =~= seq_tokens(ys) + s);
        assert(ends_postfix(token_at(rx, 0))) by {
            if tx.len() > 0 {
                lemma_seq_front(tx, 0);
                assert(tx.skip(0) =~= tx);
                assert(postfix_shaped(tx[0]));
                lemma_postfix_first(tx[0]);
                assert(rx[0] == expr_tokens(tx[0])[0]);
                lemma_start_ends_postfix(rx[0]);
            } else {
                assert(seq_tokens(tx) =~= Seq::<TokenModel>::empty());
                assert(rx =~= r);
            }
        }
        assert(ends_postfix(token_at(ry, 0))) by {
            if ty.len() > 0 {
                lemma_seq_front(ty, 0);
                assert(ty.skip(0) =~= ty);
                assert(postfix_shaped(ty[0]));
                lemma_postfix_first(ty[0]);
                assert(ry[0] == expr_tokens(ty[0])[0]);
                lemma_start_ends_postfix(ry[0]);
            } else {
                assert(seq_tokens(ty) =~= Seq::<TokenModel>::empty());
                assert(ry =~= s);
            }
        }
        assert(postfix_shaped(xs[0]));
        assert(postfix_shaped(ys[0]));
        lemma_postfix_first(xs[0]);
        lemma_postfix_unique(xs[0], ys[0], rx, ry);
        lemma_items_unique(tx, ty, r, s);
        assert(xs =~= ys) by {
            assert forall|i: int| 0 <= i < xs.len() implies xs[i] == ys[i] by {
                if i > 0 {
                    assert(xs[i] == tx[i - 1]);
                    assert(ys[i] == ty[i - 1]);
                }
            }
        }
    }
}

/// A sequence followed by nothing that extends it is spelled by its tokens
/// alone.
pub proof fn lemma_sequence_unique(a: ExprModel, b: ExprModel, r: Seq<TokenModel>, s: Seq<TokenModel>)
    requires
        sequence_shaped(a),
        sequence_shaped(b),
        expr_tokens(a) + r == expr_tokens(b) + s,
        ends_sequence(token_at(r, 0)),
        ends_sequence(token_at(s, 0)),
    ensures
        a == b,
        r == s,
    decreases expr_tokens(a).len(), 4int,
{
    lemma_items(a);
    lemma_items(b);
    lemma_items_unique(items_of(a), items_of(b), r, s);
    if items_of(a).len() >= 2 {
        assert(a is Sequence && b is Sequence);
    }
}

/// Alternatives of a choice followed by nothing that extends it are spelled
/// by their tokens alone.
pub proof fn lemma_alternatives_unique(xs: Seq<ExprModel>, ys: Seq<ExprModel>, r: Seq<TokenModel>, s: Seq<TokenModel>)
    requires
        xs.len() >= 1,
        ys.len() >= 1,
        all_sequence_shaped(xs),
        all_sequence_shaped(ys),
        choice_tokens(xs) + r == choice_tokens(ys) + s,
        ends_choice(token_at(r, 0)),
        ends_choice(token_at(s, 0)),
    ensures
        xs == ys,
        r == s,
    decreases choice_tokens(xs).len(), 5int,
{
    let bar = seq![TokenModel::Pipe];
    let tx = xs.skip(1);
    let ty = ys.skip(1);
    let rx = if xs.len() > 1 { bar + (choice_tokens(tx) + r) } else { r };
    let ry = if ys.len() > 1 { bar + (choice_tokens(ty) + s) } else { s };
    assert(expr_tokens(xs[0]) + rx =~= choice_tokens(xs) + r) by {
        if xs.len() > 1 {
            lemma_choice_split(xs, 1);
            assert(xs.take(1)[0] == xs[0]);
        }
    }
    assert(expr_tokens(ys[0]) + ry =~= choice_tokens(ys) + s) by {
        if ys.len() > 1 {
            lemma_choice_split(ys, 1);
            assert(ys.take(1)[0] == ys[0]);
        }
    }
    assert(sequence_shaped(xs[0]));
    assert(sequence_shaped(ys[0]));
    assert(rx.len() > 0 ==> rx[0] == TokenModel::Pipe || xs.len() == 1);
    lemma_sequence_unique(xs[0], ys[0], rx, ry);
    if xs.len() > 1 && ys.len() > 1 {
        assert(all_sequence_shaped(tx)) by {
            assert forall|i: int| 0 <= i < tx.len() implies sequence_shaped(#[trigger] tx[i]) by {
                assert(tx[i] == xs[i + 1]);
            }
        }
        assert(all_sequence_shaped(ty)) by {
            assert forall|i: int| 0 <= i < ty.len() implies sequence_shaped(#[trigger] ty[i]) by {
                assert(ty[i] == ys[i + 1]);
            }
        }
        lemma_cancel(bar, choice_tokens(tx) + r, bar, choice_tokens(ty) + s);
        lemma_alternatives_unique(tx, ty, r, s);
        assert(xs =~= ys) by {
            assert forall|i: int| 0 <= i < xs.len() implies xs[i] == ys[i] by {
                if i > 0 {
                    assert(xs[i] == tx[i - 1]);
                    assert(ys[i] == ty[i - 1]);
                }
            }
        }
    } else if xs.len() > 1 {
        assert(s[0] == TokenModel::Pipe);
    } else if ys.len() > 1 {
        assert(r[0] == TokenModel::Pipe);
    } else {
        assert(xs =~= ys);
    }
}

/// A choice followed by nothing that extends it is spelled by its tokens
/// alone.
pub proof fn lemma_choice_unique(a: ExprModel, b: ExprModel, r: Seq<TokenModel>, s: Seq<TokenModel>)
    requires
        choice_shaped(a),
        choice_shaped(b),
        expr_tokens(a) + r == expr_tokens(b) + s,
        ends_choice(token_at(r, 0)),
        ends_choice(token_at(s, 0)),
    ensures
        a == b,
        r == s,
    decreases expr_tokens(a).len(), 6int,
{
    lemma_alternatives(a);
    lemma_alternatives(b);
    lemma_alternatives_unique(alternatives_of(a), alternatives_of(b), r, s);
    if alternatives_of(a).len() >= 2 {
        assert(a is Choice && b is Choice);
    }
}

// ── Rules and grammars ──

/// A choice-shaped expression starts with a token that can start one.
pub proof fn lemma_choice_first(e: ExprModel)
    requires
        choice_shaped(e),
    ensures
        expr_tokens(e).len() > 0,
        starts_expr(expr_tokens(e)[0]),
{
    lemma_alternatives(e);
    let alts = alternatives_of(e);
    assert(sequence_shaped(alts[0]));
    lemma_sequence_first(alts[0]);
    if alts.len() > 1 {
        lemma_choice_split(alts, 1);
        assert(alts.take(1)[0] == alts[0]);
        assert(choice_tokens(alts.take(1)) == expr_tokens(alts[0]));
        assert(expr_tokens(e)[0] == expr_tokens(alts[0])[0]);
    }
}

/// A statement followed by no comparison operator is spelled by its tokens
/// alone.
pub proof fn lemma_statement_unique(a: StatementModel, b: StatementModel, r: Seq<TokenModel>, s: Seq<TokenModel>)
    requires
        statement_tokens(a) + r == statement_tokens(b) + s,
        ends_condition(token_at(r, 0)),
        ends_condition(token_at(s, 0)),
    ensures
        a == b,
        r == s,
{
    let x = statement_tokens(a);
    let y = statement_tokens(b);
    lemma_same_at(x, r, y, s, 0);
    match (a, b) {
        (StatementModel::Guard(c), StatementModel::Guard(d)) => {
            let open = seq![TokenModel::Guard];
            assert(x + r =~= open + (cond_tokens(c) + r));
            assert(y + s =~= open + (cond_tokens(d) + s));
            lemma_cancel(open, cond_tokens(c) + r, open, cond_tokens(d) + s);
            lemma_cond_unique(c, d, r, s);
        },
        (StatementModel::Emit(_), StatementModel::Emit(_)) => {
            lemma_same_at(x, r, y, s, 1);
            lemma_cancel(x, r, y, s);
        },
        _ => {},
    }
}

/// Statements followed by none of their continuations are spelled by their
/// tokens alone.
pub proof fn lemma_statements_unique(ss: Seq<StatementModel>, ts: Seq<StatementModel>, r: Seq<TokenModel>, s: Seq<TokenModel>)
    requires
        statements_tokens(ss) + r == statements_tokens(ts) + s,
        ends_statements(token_at(r, 0)),
        ends_statements(token_at(s, 0)),
    ensures
        ss == ts,
        r == s,
    decreases ss.len(),
{
    if ss.len() == 0 || ts.len() == 0 {
        if ss.len() == 0 && ts.len() > 0 {
            lemma_statements_front(ts, 0);
            assert(ts.skip(0) =~= ts);
            assert(statements_tokens(ss) =~= Seq::<TokenModel>::empty());
            assert(statements_tokens(ts)[0] == statement_tokens(ts[0])[0]);
            lemma_next_token(statements_tokens(ss), r, statements_tokens(ts), s);
        } else if ts.len() == 0 && ss.len() > 0 {
            lemma_statements_front(ss, 0);
            assert(ss.skip(0) =~= ss);
            assert(statements_tokens(ts) =~= Seq::<TokenModel>::empty());
            assert(statements_tokens(ss)[0] == statement_tokens(ss[0])[0]);
            lemma_next_token(statements_tokens(ts), s, statements_tokens(ss), r);
        }
        assert(ss =~= ts);
        lemma_cancel(statements_tokens(ss), r, statements_tokens(ts), s);
    } else {
        lemma_statements_front(ss, 0);
        lemma_statements_front(ts, 0);
        assert(ss.skip(0) =~= ss);
        assert(ts.skip(0) =~= ts);
        let tx = ss.skip(1);
        let ty = ts.skip(1);
        let rx = statements_tokens(tx) + r;
        let ry = statements_tokens(ty) + s;
        assert(statement_tokens(ss[0]) + rx =~= statements_tokens(ss) + r);
        assert(statement_tokens(ts[0]) + ry =~= statements_tokens(ts) + s);
        assert(ends_condition(token_at(rx, 0))) by {
            if tx.len() > 0 {
                lemma_statements_front(tx, 0);
                assert(tx.skip(0) =~= tx);
                assert(rx[0] == statement_tokens(tx[0])[0]);
            } else {
                assert(statements_tokens(tx) =~= Seq::<TokenModel>::empty());
                assert(rx =~= r);
            }
        }
        assert(ends_condition(token_at(ry, 0))) by {
            if ty.len() > 0 {
                lemma_statements_front(ty, 0);
                assert(ty.skip(0) =~= ty);
                assert(ry[0] == statement_tokens(ty[0])[0]);
            } else {
                assert(statements_tokens(ty) =~= Seq::<TokenModel>::empty());
                assert(ry =~= s);
            }
        }
        lemma_statement_unique(ss[0], ts[0], rx, ry);
        lemma_statements_unique(tx, ty, r, s);
        assert(ss =~= ts) by {
            assert forall|i: int| 0 <= i < ss.len() implies ss[i] == ts[i] by {
                if i > 0 {
                    assert(ss[i] == tx[i - 1]);
                    assert(ts[i] == ty[i - 1]);
                }
            }
        }
    }
}

/// Two rules spelled alike have the same name and error label.
pub proof fn lemma_rule_head(p: RuleModel, q: RuleModel, r: Seq<TokenModel>, s: Seq<TokenModel>)
    requires
        rule_tokens(p) + r == rule_tokens(q) + s,
    ensures
        p.name == q.name,
        p.error_label == q.error_label,
{
    let x = rule_tokens(p);
    let y = rule_tokens(q);
    let tp = label_tokens(p.error_label);
    let tq = label_tokens(q.error_label);
    assert(x[0] == TokenModel::Ident(p.name));
    assert(y[0] == TokenModel::Ident(q.name));
    assert(x[2] == if p.error_label is Some { TokenModel::At } else { TokenModel::LBrace });
    assert(y[2] == if q.error_label is Some { TokenModel::At } else { TokenModel::LBrace });
    lemma_same_at(x, r, y, s, 0);
    lemma_same_at(x, r, y, s, 2);
    if p.error_label is Some && q.error_label is Some {
        assert(x[3] == TokenModel::StringLit(p.error_label->0));
        assert(y[3] == TokenModel::StringLit(q.error_label->0));
        lemma_same_at(x, r, y, s, 3);
    }
}

/// A rule is spelled by its tokens alone.
pub proof fn lemma_rule_unique(p: RuleModel, q: RuleModel, r: Seq<TokenModel>, s: Seq<TokenModel>)
    requires
        rule_shaped(p),
        rule_shaped(q),
        rule_tokens(p) + r == rule_tokens(q) + s,
    ensures
        p == q,
        r == s,
{
    lemma_rule_head(p, q, r, s);
    let head = seq![TokenModel::Ident(p.name), TokenModel::Eq] + label_tokens(p.error_label) + seq![TokenModel::LBrace];
    let tail = seq![TokenModel::RBrace];
    let ex = expr_tokens(p.expr) + (tail + r);
    let ey = expr_tokens(q.expr) + (tail + s);
    assert(rule_tokens(p) + r =~= head + (statements_tokens(p.statements) + ex));
    assert(rule_tokens(q) + s =~= head + (statements_tokens(q.statements) + ey));
    lemma_cancel(head, statements_tokens(p.statements) + ex, head, statements_tokens(q.statements) + ey);
    lemma_choice_first(p.expr);
    lemma_choice_first(q.expr);
    assert(ex[0] == expr_tokens(p.expr)[0]);
    assert(ey[0] == expr_tokens(q.expr)[0]);
    lemma_statements_unique(p.statements, q.statements, ex, ey);
    lemma_choice_unique(p.expr, q.expr, tail + r, tail + s);
    lemma_cancel(tail, r, tail, s);
}

/// A grammar item is spelled by its tokens alone.
pub proof fn lemma_item_unique(a: ItemModel, b: ItemModel, r: Seq<TokenModel>, s: Seq<TokenModel>)
    requires
        item_shaped(a),
        item_shaped(b),
        item_tokens(a) + r == item_tokens(b) + s,
    ensures
        a == b,
        r == s,
{
    let x = item_tokens(a);
    let y = item_tokens(b);
    lemma_same_at(x, r, y, s, 0);
    match (a, b) {
        (ItemModel::StateDecl(d), ItemModel::StateDecl(e)) => {
            lemma_same_at(x, r, y, s, 1);
            lemma_same_at(x, r, y, s, 2);
            assert(d.kind == e.kind);
            assert(d == e);
            lemma_cancel(x, r, y, s);
        },
        (ItemModel::RuleDef(p), ItemModel::RuleDef(q)) => {
            lemma_rule_unique(p, q, r, s);
        },
        _ => {},
    }
}

/// Every token sequence spells at most one grammar of the shapes the parser
/// builds: two such grammars with the same tokens are the same grammar.
pub proof fn law_tokens_spell_one_grammar(g: Seq<ItemModel>, h: Seq<ItemModel>)
    requires
        grammar_shaped(g),
        grammar_shaped(h),
        grammar_tokens(g) == grammar_tokens(h),
    ensures
        g == h,
    decreases g.len(),
{
    if g.len() == 0 || h.len() == 0 {
        if g.len() > 0 {
            lemma_grammar_front(g, 0);
            assert(g.skip(0) =~= g);
            assert(item_tokens(g[0]).len() > 0);
            assert(grammar_tokens(h).len() == 0);
            assert(grammar_tokens(g).len() > 0);
        } else if h.len() > 0 {
            lemma_grammar_front(h, 0);
            assert(h.skip(0) =~= h);
            assert(item_tokens(h[0]).len() > 0);
            assert(grammar_tokens(g).len() == 0);
            assert(grammar_tokens(h).len() > 0);
        }
        assert(g =~= h);
    } else {
        lemma_grammar_front(g, 0);
        lemma_grammar_front(h, 0);
        assert(g.skip(0) =~= g);
        assert(h.skip(0) =~= h);
        let tg = g.skip(1);
        let th = h.skip(1);
        assert(item_shaped(g[0]));
        assert(item_shaped(h[0]));
        lemma_item_unique(g[0], h[0], grammar_tokens(tg), grammar_tokens(th));
        assert(grammar_shaped(tg)) by {
            assert forall|i: int| 0 <= i < tg.len() implies item_shaped(#[trigger] tg[i]) by {
                assert(tg[i] == g[i + 1]);
            }
        }
        assert(grammar_shaped(th)) by {
            assert forall|i: int| 0 <= i < th.len() implies item_shaped(#[trigger] th[i]) by {
                assert(th[i] == h[i + 1]);
            }
        }
        law_tokens_spell_one_grammar(tg, th);
        assert(g =~= h) by {
            assert forall|i: int| 0 <= i < g.len() implies g[i] == h[i] by {
                if i > 0 {
                    assert(g[i] == tg[i - 1]);
                    assert(h[i] == th[i - 1]);
                }
            }
        }
    }
}

} // verus!
