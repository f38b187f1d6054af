//! The grammar syntax tree produced by the parser, and its mathematical model
//! (the same shape, with strings as `Seq<char>` and lists as `Seq`).
use vstd::prelude::*;

verus! {

/// Built-in predicate: `SOI`, `EOI`, `ANY`, `LINE_START`, `LINE_END`.
#[derive(Debug, Clone, Copy, PartialEq, Eq, Structural)]
pub enum BuiltinPredicate {
    Soi,
    Eoi,
    Any,
    LineStart,
    LineEnd,
}

/// Counter comparison operator in a guard condition.
#[derive(Debug, Clone, Copy, PartialEq, Eq, Structural)]
pub enum CompareOp {
    Gt,
    Lt,
    Ge,
    Le,
    Eq,
    Ne,
}

/// Condition of a `guard` statement or a `when` expression.
#[derive(Debug, Clone, PartialEq)]
pub enum GuardCondition {
    /// `!flag`
    NotFlag(String),
    /// `flag`
    IsFlag(String),
    /// `LINE_START`, `SOI`, ...
    Builtin(BuiltinPredicate),
    /// `counter > 3`
    Compare { name: String, op: CompareOp, value: u32 },
}

/// `guard condition`
#[derive(Debug, Clone, PartialEq)]
pub struct GuardStmt {
    pub condition: GuardCondition,
}

/// `emit counter`
#[derive(Debug, Clone, PartialEq)]
pub struct EmitStmt {
    pub counter: String,
}

/// A statement that precedes a rule's expression.
#[derive(Debug, Clone, PartialEq)]
pub enum Statement {
    Guard(GuardStmt),
    Emit(EmitStmt),
}

#[derive(Debug, PartialEq)]
pub enum Expr {
    /// `"literal"`
    StringLit(String),
    /// `'a'..'z'`
    CharRange(char, char),
    /// Reference to another rule: `inline`, `bold`
    Ident(String),
    /// Built-in predicate: `SOI`, `EOI`, `ANY`, `LINE_START`, `LINE_END`
    Builtin(BuiltinPredicate),
    /// Sequence: `a b c`
    Sequence(Vec<Expr>),
    /// Choice: `a | b | c`
    Choice(Vec<Expr>),
    /// Repetition: `p+`, `p*`, `p?`, `p{n,m}`
    Repeat { expr: Box<Expr>, kind: RepeatKind },
    /// Positive lookahead: `&p`
    PosLookahead(Box<Expr>),
    /// Negative lookahead: `!p`
    NegLookahead(Box<Expr>),
    /// Parenthesized group: `(a | b)`
    Group(Box<Expr>),
    /// `with flag_name { expr }`
    With(WithExpr),
    /// `with counter_name += n { expr }`
    WithIncrement(WithIncrementExpr),
    /// `when condition { expr }`
    When(WhenExpr),
    /// `depth_limit(n) { expr }`
    DepthLimit(DepthLimitExpr),
    /// An expression carrying a custom error label.
    Labeled { expr: Box<Expr>, label: String },
}

#[derive(Debug, Clone, Copy, PartialEq, Eq, Structural)]
pub enum RepeatKind {
    /// `p*`
    ZeroOrMore,
    /// `p+`
    OneOrMore,
    /// `p?`
    Optional,
    /// `p{n}`
    Exact(u32),
    /// `p{n,}`
    AtLeast(u32),
    /// `p{,m}`
    AtMost(u32),
    /// `p{n,m}`
    Range(u32, u32),
}

#[derive(Debug, PartialEq)]
pub struct WithExpr {
    pub flag: String,
    pub body: Box<Expr>,
}

#[derive(Debug, PartialEq)]
pub struct WithIncrementExpr {
    pub counter: String,
    pub amount: u32,
    pub body: Box<Expr>,
}

#[derive(Debug, PartialEq)]
pub struct WhenExpr {
    pub condition: GuardCondition,
    pub body: Box<Expr>,
}

#[derive(Debug, PartialEq)]
pub struct DepthLimitExpr {
    pub limit: u32,
    pub body: Box<Expr>,
}

/// A complete grammar file.
#[derive(Debug, PartialEq)]
pub struct Grammar {
    pub items: Vec<Item>,
}

/// Top-level item: state declaration or rule definition.
#[derive(Debug, PartialEq)]
pub enum Item {
    StateDecl(StateDecl),
    RuleDef(RuleDef),
}

/// A named rule: `rule_name = { ... }` or `rule_name = @ "label" { ... }`.
#[derive(Debug, PartialEq)]
pub struct RuleDef {
    pub name: String,
    /// Optional custom error label: `rule = @ "custom label" { ... }`.
    pub error_label: Option<String>,
    pub body: RuleBody,
}

/// The contents inside `rule_name = { ... }`.
#[derive(Debug, PartialEq)]
pub struct RuleBody {
    pub statements: Vec<Statement>,
    pub expr: Expr,
}

/// `let flag name` or `let counter name`.
#[derive(Debug, Clone, PartialEq)]
pub struct StateDecl {
    pub kind: StateKind,
    pub name: String,
}

#[derive(Debug, Clone, Copy, PartialEq, Eq, Structural)]
pub enum StateKind {
    Flag,
    Counter,
}

// ── Mathematical model ──

pub enum CondModel {
    NotFlag(Seq<char>),
    IsFlag(Seq<char>),
    Builtin(BuiltinPredicate),
    Compare { name: Seq<char>, op: CompareOp, value: u32 },
}

pub enum StatementModel {
    Guard(CondModel),
    Emit(Seq<char>),
}

pub enum ExprModel {
    StringLit(Seq<char>),
    CharRange(char, char),
    Ident(Seq<char>),
    Builtin(BuiltinPredicate),
    Sequence(Seq<ExprModel>),
    Choice(Seq<ExprModel>),
    Repeat { expr: Box<ExprModel>, kind: RepeatKind },
    PosLookahead(Box<ExprModel>),
    NegLookahead(Box<ExprModel>),
    Group(Box<ExprModel>),
    With { flag: Seq<char>, body: Box<ExprModel> },
    WithIncrement { counter: Seq<char>, amount: u32, body: Box<ExprModel> },
    When { condition: CondModel, body: Box<ExprModel> },
    DepthLimit { limit: u32, body: Box<ExprModel> },
    Labeled { expr: Box<ExprModel>, label: Seq<char> },
}

pub struct RuleModel {
    pub name: Seq<char>,
    pub error_label: Option<Seq<char>>,
    pub statements: Seq<StatementModel>,
    pub expr: ExprModel,
}

pub struct StateDeclModel {
    pub kind: StateKind,
    pub name: Seq<char>,
}

pub enum ItemModel {
    StateDecl(StateDeclModel),
    RuleDef(RuleModel),
}

pub open spec fn cond_model(c: GuardCondition) -> CondModel {
    match c {
        GuardCondition::NotFlag(n) => CondModel::NotFlag(n@),
        GuardCondition::IsFlag(n) => CondModel::IsFlag(n@),
        GuardCondition::Builtin(b) => CondModel::Builtin(b),
        GuardCondition::Compare { name, op, value } => CondModel::Compare { name: name@, op, value },
    }
}

impl View for GuardCondition {
    type V = CondModel;

    open spec fn view(&self) -> CondModel {
        cond_model(*self)
    }
}

pub open spec fn statement_model(s: Statement) -> StatementModel {
    match s {
        Statement::Guard(g) => StatementModel::Guard(cond_model(g.condition)),
        Statement::Emit(e) => StatementModel::Emit(e.counter@),
    }
}

impl View for Statement {
    type V = StatementModel;

    open spec fn view(&self) -> StatementModel {
        statement_model(*self)
    }
}

pub open spec fn expr_model(e: Expr) -> ExprModel
    decreases e,
{
    match e {
        Expr::StringLit(s) => ExprModel::StringLit(s@),
        Expr::CharRange(a, b) => ExprModel::CharRange(a, b),
        Expr::Ident(s) => ExprModel::Ident(s@),
        Expr::Builtin(b) => ExprModel::Builtin(b),
        Expr::Sequence(items) => ExprModel::Sequence(expr_models(items@)),
        Expr::Choice(items) => ExprModel::Choice(expr_models(items@)),
        Expr::Repeat { expr, kind } => ExprModel::Repeat { expr: Box::new(expr_model(*expr)), kind },
        Expr::PosLookahead(inner) => ExprModel::PosLookahead(Box::new(expr_model(*inner))),
        Expr::NegLookahead(inner) => ExprModel::NegLookahead(Box::new(expr_model(*inner))),
        Expr::Group(inner) => ExprModel::Group(Box::new(expr_model(*inner))),
        Expr::With(w) => ExprModel::With { flag: w.flag@, body: Box::new(expr_model(*w.body)) },
        Expr::WithIncrement(w) => ExprModel::WithIncrement {
            counter: w.counter@,
            amount: w.amount,
            body: Box::new(expr_model(*w.body)),
        },
        Expr::When(w) => ExprModel::When {
            condition: cond_model(w.condition),
            body: Box::new(expr_model(*w.body)),
        },
        Expr::DepthLimit(d) => ExprModel::DepthLimit { limit: d.limit, body: Box::new(expr_model(*d.body)) },
        Expr::Labeled { expr, label } => ExprModel::Labeled { expr: Box::new(expr_model(*expr)), label: label@ },
    }
}

/// The models of a list of expressions.
pub open spec fn expr_models(s: Seq<Expr>) -> Seq<ExprModel>
    decreases s,
{
    Seq::new(
        s.len(),
        |i: int|
            if 0 <= i < s.len() {
                expr_model(s[i])
            } else {
                ExprModel::Builtin(BuiltinPredicate::Any)
            },
    )
}

pub proof fn lemma_expr_models_index(s: Seq<Expr>)
    ensures
        expr_models(s).len() == s.len(),
        forall|i: int| 0 <= i < s.len() ==> #[trigger] expr_models(s)[i] == expr_model(s[i]),
{
}

impl View for Expr {
    type V = ExprModel;

    open spec fn view(&self) -> ExprModel {
        expr_model(*self)
    }
}

pub open spec fn option_string_model(o: Option<String>) -> Option<Seq<char>> {
    match o {
        Some(s) => Some(s@),
        None => None,
    }
}

pub open spec fn rule_model(r: RuleDef) -> RuleModel {
    RuleModel {
        name: r.name@,
        error_label: option_string_model(r.error_label),
        statements: r.body.statements@.map_values(|s: Statement| statement_model(s)),
        expr: expr_model(r.body.expr),
    }
}

impl View for RuleDef {
    type V = RuleModel;

    open spec fn view(&self) -> RuleModel {
        rule_model(*self)
    }
}

impl View for StateDecl {
    type V = StateDeclModel;

    open spec fn view(&self) -> StateDeclModel {
        StateDeclModel { kind: self.kind, name: self.name@ }
    }
}

pub open spec fn item_model(i: Item) -> ItemModel {
    match i {
        Item::StateDecl(d) => ItemModel::StateDecl(d@),
        Item::RuleDef(r) => ItemModel::RuleDef(rule_model(r)),
    }
}

impl View for Item {
    type V = ItemModel;

    open spec fn view(&self) -> ItemModel {
        item_model(*self)
    }
}

impl View for Grammar {
    type V = Seq<ItemModel>;

    open spec fn view(&self) -> Seq<ItemModel> {
        self.items@.map_values(|i: Item| item_model(i))
    }
}

// ── Copies whose result provably equals the copied value ──

pub fn copy_string(s: &String) -> (r: String)
    ensures
        r@ == s@,
{
    s.clone()
}

pub fn copy_condition(c: &GuardCondition) -> (r: GuardCondition)
    ensures
        r@ == c@,
{
    match c {
        GuardCondition::NotFlag(n) => GuardCondition::NotFlag(copy_string(n)),
        GuardCondition::IsFlag(n) => GuardCondition::IsFlag(copy_string(n)),
        GuardCondition::Builtin(b) => GuardCondition::Builtin(*b),
        GuardCondition::Compare { name, op, value } => GuardCondition::Compare {
            name: copy_string(name),
            op: *op,
            value: *value,
        },
    }
}

pub fn copy_state_decl(d: &StateDecl) -> (r: StateDecl)
    ensures
        r@ == d@,
{
    StateDecl { kind: d.kind, name: copy_string(&d.name) }
}

pub fn copy_option_string(o: &Option<String>) -> (r: Option<String>)
    ensures
        option_string_model(r) == option_string_model(*o),
{
    match o {
        Some(s) => Some(copy_string(s)),
        None => None,
    }
}

} // verus!
