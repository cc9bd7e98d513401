//! The language-independent intermediate representation that every parser
//! produces and every later pass consumes.
//!
//! Each type has a mathematical model (`...V`, names as `Seq<char>`,
//! bodies as `Seq`) reached through `@`; contracts speak of the models.
use crate::names::names_view;
use vstd::prelude::*;

verus! {

broadcast use vstd::std_specs::vec::group_vec_axioms;

// ---------------------------------------------------------------------
// Executable types
// ---------------------------------------------------------------------

#[derive(Debug)]
pub enum Literal {
    Int(i64),
    String(String),
}

#[derive(Debug)]
pub enum Expression {
    Literal(Literal),
    Variable(String),
    Binary { left: Box<Expression>, operator: String, right: Box<Expression> },
}

#[derive(Debug)]
pub struct Condition {
    pub left: String,
    pub operator: String,
    pub right: String,
}

#[derive(Debug)]
pub enum Source {
    Literal(i64),
    LiteralString(String),
    Variable(String),
}

#[derive(Debug, Clone, Copy, PartialEq, Eq, Structural)]
pub enum FileMode {
    Input,
    Output,
    IO,
}

#[derive(Debug, Clone, Copy, PartialEq, Eq, Structural)]
pub enum PicType {
    Numeric,
    Decimal,
    PackedDecimal,
    Alpha,
}

#[derive(Debug, Clone, Copy, PartialEq, Eq, Structural)]
pub enum CompType {
    Comp,
    Comp3,
}

#[derive(Debug, Clone, Copy, PartialEq, Eq, Structural)]
pub enum PicCategory {
    Numeric,
    AlphaNumeric,
    Decimal,
}

#[derive(Debug, Clone, Copy, PartialEq, Eq, Structural)]
pub enum UsageClause {
    Display,
    Comp,
    Comp3,
    Binary,
}

#[derive(Debug)]
pub struct PicClause {
    pub raw: String,
    pub category: PicCategory,
    pub length: usize,
    pub scale: usize,
    pub signed: bool,
}

#[derive(Debug)]
pub struct DataField {
    pub level: u32,
    pub name: String,
    pub pic: Option<PicClause>,
    pub occurs: Option<u32>,
    pub redefines: Option<String>,
    pub usage: Option<UsageClause>,
}

#[derive(Debug)]
pub struct VariableDefinition {
    pub name: String,
    pub pic: Option<PicType>,
    pub occurs: Option<usize>,
    pub redefines: Option<String>,
    pub initial_value: Option<Literal>,
    pub comp_type: Option<CompType>,
}

#[derive(Debug)]
pub enum Statement {
    For {
        variable: String,
        start: Expression,
        step: Expression,
        until: Condition,
        body: Vec<Statement>,
    },
    NoOp,
    Display { value: Literal },
    Move { source: Source, target: String },
    Add { value: i64, target: String },
    Subtract { value: String, target: String },
    Multiply { value: String, target: String },
    Divide { value: String, target: String },
    Initialize { variable: String },
    Compute { target: String, expr: Expression },
    If {
        condition: Condition,
        then_branch: Vec<Statement>,
        else_branch: Option<Vec<Statement>>,
    },
    Perform { name: Option<String>, body: Vec<Statement> },
    PerformUntil { condition: Condition, body: Vec<Statement> },
    PerformVarying {
        variable: String,
        from: Expression,
        by: Expression,
        until: Condition,
        body: Vec<Statement>,
    },
    Call { program: String, using_args: Vec<String> },
    StopRun,
    Continue,
    Exit,
    OpenFile { name: String, mode: FileMode },
    ReadFile { name: String },
    WriteFile { name: String },
    CloseFile { name: String },
    ArrayGet { array: String, index: usize, target: String },
    ArraySet { array: String, index: usize, value: String },
    Accept { variable: String },
    Evaluate { value: String, branches: Vec<(String, Vec<Statement>)> },
    String { sources: Vec<String>, into: String },
    Unstring { source: String, into: Vec<String> },
    Redefines { name: String },
    Occurs { name: String, times: usize },
    ConditionName { name: String, value: String },
    Inspect { source: String, replacing: String, with: String },
    /// A merge of the versions of `variable` that reach a join point,
    /// with the CFG block each one comes from.
    Phi { variable: String, incoming: Vec<(usize, String)> },
    VariableDefinition(VariableDefinition),
}

#[derive(Debug)]
pub struct Function {
    pub name: String,
    pub body: Vec<Statement>,
}

#[derive(Debug)]
pub struct Paragraph {
    pub name: String,
    pub statements: Vec<Statement>,
}

#[derive(Debug)]
pub struct Program {
    pub variables: Vec<VariableDefinition>,
    pub paragraphs: Vec<Paragraph>,
    pub statements: Vec<Statement>,
}

// ---------------------------------------------------------------------
// Models
// ---------------------------------------------------------------------

pub enum LiteralV {
    Int(i64),
    Str(Seq<char>),
}

pub enum ExpressionV {
    Literal(LiteralV),
    Variable(Seq<char>),
    Binary { left: Box<ExpressionV>, operator: Seq<char>, right: Box<ExpressionV> },
}

pub struct ConditionV {
    pub left: Seq<char>,
    pub operator: Seq<char>,
    pub right: Seq<char>,
}

pub enum SourceV {
    Literal(i64),
    LiteralString(Seq<char>),
    Variable(Seq<char>),
}

pub struct PicClauseV {
    pub raw: Seq<char>,
    pub category: PicCategory,
    pub length: usize,
    pub scale: usize,
    pub signed: bool,
}

pub struct DataFieldV {
    pub level: u32,
    pub name: Seq<char>,
    pub pic: Option<PicClauseV>,
    pub occurs: Option<u32>,
    pub redefines: Option<Seq<char>>,
    pub usage: Option<UsageClause>,
}

pub struct VariableDefinitionV {
    pub name: Seq<char>,
    pub pic: Option<PicType>,
    pub occurs: Option<usize>,
    pub redefines: Option<Seq<char>>,
    pub initial_value: Option<LiteralV>,
    pub comp_type: Option<CompType>,
}

pub enum StatementV {
    For {
        variable: Seq<char>,
        start: ExpressionV,
        step: ExpressionV,
        until: ConditionV,
        body: Seq<StatementV>,
    },
    NoOp,
    Display { value: LiteralV },
    Move { source: SourceV, target: Seq<char> },
    Add { value: i64, target: Seq<char> },
    Subtract { value: Seq<char>, target: Seq<char> },
    Multiply { value: Seq<char>, target: Seq<char> },
    Divide { value: Seq<char>, target: Seq<char> },
    Initialize { variable: Seq<char> },
    Compute { target: Seq<char>, expr: ExpressionV },
    If {
        condition: ConditionV,
        then_branch: Seq<StatementV>,
        else_branch: Option<Seq<StatementV>>,
    },
    Perform { name: Option<Seq<char>>, body: Seq<StatementV> },
    PerformUntil { condition: ConditionV, body: Seq<StatementV> },
    PerformVarying {
        variable: Seq<char>,
        from: ExpressionV,
        by: ExpressionV,
        until: ConditionV,
        body: Seq<StatementV>,
    },
    Call { program: Seq<char>, using_args: Seq<Seq<char>> },
    StopRun,
    Continue,
    Exit,
    OpenFile { name: Seq<char>, mode: FileMode },
    ReadFile { name: Seq<char> },
    WriteFile { name: Seq<char> },
    CloseFile { name: Seq<char> },
    ArrayGet { array: Seq<char>, index: usize, target: Seq<char> },
    ArraySet { array: Seq<char>, index: usize, value: Seq<char> },
    Accept { variable: Seq<char> },
    Evaluate { value: Seq<char>, branches: Seq<(Seq<char>, Seq<StatementV>)> },
    String { sources: Seq<Seq<char>>, into: Seq<char> },
    Unstring { source: Seq<char>, into: Seq<Seq<char>> },
    Redefines { name: Seq<char> },
    Occurs { name: Seq<char>, times: usize },
    ConditionName { name: Seq<char>, value: Seq<char> },
    Inspect { source: Seq<char>, replacing: Seq<char>, with: Seq<char> },
    Phi { variable: Seq<char>, incoming: Seq<(usize, Seq<char>)> },
    VariableDefinition(VariableDefinitionV),
}

pub struct FunctionV {
    pub name: Seq<char>,
    pub body: Seq<StatementV>,
}

pub struct ParagraphV {
    pub name: Seq<char>,
    pub statements: Seq<StatementV>,
}

pub struct ProgramV {
    pub variables: Seq<VariableDefinitionV>,
    pub paragraphs: Seq<ParagraphV>,
    pub statements: Seq<StatementV>,
}

// ---------------------------------------------------------------------
// Views
// ---------------------------------------------------------------------

pub open spec fn opt_name(o: Option<String>) -> Option<Seq<char>> {
    match o {
        Some(s) => Some(s@),
        None => None,
    }
}

impl View for Literal {
    type V = LiteralV;

    open spec fn view(&self) -> LiteralV {
        match self {
            Literal::Int(i) => LiteralV::Int(*i),
            Literal::String(s) => LiteralV::Str(s@),
        }
    }
}

pub open spec fn expr_view(e: Expression) -> ExpressionV
    decreases e,
{
    match e {
        Expression::Literal(l) => ExpressionV::Literal(l@),
        Expression::Variable(v) => ExpressionV::Variable(v@),
        Expression::Binary { left, operator, right } => ExpressionV::Binary {
            left: Box::new(expr_view(*left)),
            operator: operator@,
            right: Box::new(expr_view(*right)),
        },
    }
}

impl View for Expression {
    type V = ExpressionV;

    open spec fn view(&self) -> ExpressionV {
        expr_view(*self)
    }
}

impl View for Condition {
    type V = ConditionV;

    open spec fn view(&self) -> ConditionV {
        ConditionV { left: self.left@, operator: self.operator@, right: self.right@ }
    }
}

impl View for Source {
    type V = SourceV;

    open spec fn view(&self) -> SourceV {
        match self {
            Source::Literal(i) => SourceV::Literal(*i),
            Source::LiteralString(s) => SourceV::LiteralString(s@),
            Source::Variable(v) => SourceV::Variable(v@),
        }
    }
}

impl View for PicClause {
    type V = PicClauseV;

    open spec fn view(&self) -> PicClauseV {
        PicClauseV {
            raw: self.raw@,
            category: self.category,
            length: self.length,
            scale: self.scale,
            signed: self.signed,
        }
    }
}

impl View for DataField {
    type V = DataFieldV;

    open spec fn view(&self) -> DataFieldV {
        DataFieldV {
            level: self.level,
            name: self.name@,
            pic: match self.pic {
                Some(p) => Some(p@),
                None => None,
            },
            occurs: self.occurs,
            redefines: opt_name(self.redefines),
            usage: self.usage,
        }
    }
}

impl View for VariableDefinition {
    type V = VariableDefinitionV;

    open spec fn view(&self) -> VariableDefinitionV {
        VariableDefinitionV {
            name: self.name@,
            pic: self.pic,
            occurs: self.occurs,
            redefines: opt_name(self.redefines),
            initial_value: match self.initial_value {
                Some(l) => Some(l@),
                None => None,
            },
            comp_type: self.comp_type,
        }
    }
}

pub open spec fn incoming_view(s: Seq<(usize, String)>) -> Seq<(usize, Seq<char>)> {
    Seq::new(s.len(), |i: int| (s[i].0, s[i].1@))
}

pub open spec fn stmt_view(s: Statement) -> StatementV
    decreases s, 2nat,
{
    match s {
        Statement::For { variable, start, step, until, body } => StatementV::For {
            variable: variable@,
            start: start@,
            step: step@,
            until: until@,
            body: stmts_view(body@),
        },
        Statement::NoOp => StatementV::NoOp,
        Statement::Display { value } => StatementV::Display { value: value@ },
        Statement::Move { source, target } => StatementV::Move {
            source: source@,
            target: target@,
        },
        Statement::Add { value, target } => StatementV::Add { value, target: target@ },
        Statement::Subtract { value, target } => StatementV::Subtract {
            value: value@,
            target: target@,
        },
        Statement::Multiply { value, target } => StatementV::Multiply {
            value: value@,
            target: target@,
        },
        Statement::Divide { value, target } => StatementV::Divide {
            value: value@,
            target: target@,
        },
        Statement::Initialize { variable } => StatementV::Initialize { variable: variable@ },
        Statement::Compute { target, expr } => StatementV::Compute {
            target: target@,
            expr: expr@,
        },
        Statement::If { condition, then_branch, else_branch } => StatementV::If {
            condition: condition@,
            then_branch: stmts_view(then_branch@),
            else_branch: match else_branch {
                Some(b) => Some(stmts_view(b@)),
                None => None,
            },
        },
        Statement::Perform { name, body } => StatementV::Perform {
            name: opt_name(name),
            body: stmts_view(body@),
        },
        Statement::PerformUntil { condition, body } => StatementV::PerformUntil {
            condition: condition@,
            body: stmts_view(body@),
        },
        Statement::PerformVarying { variable, from, by, until, body } =>
            StatementV::PerformVarying {
            variable: variable@,
            from: from@,
            by: by@,
            until: until@,
            body: stmts_view(body@),
        },
        Statement::Call { program, using_args } => StatementV::Call {
            program: program@,
            using_args: names_view(using_args@),
        },
        Statement::StopRun => StatementV::StopRun,
        Statement::Continue => StatementV::Continue,
        Statement::Exit => StatementV::Exit,
        Statement::OpenFile { name, mode } => StatementV::OpenFile { name: name@, mode },
        Statement::ReadFile { name } => StatementV::ReadFile { name: name@ },
        Statement::WriteFile { name } => StatementV::WriteFile { name: name@ },
        Statement::CloseFile { name } => StatementV::CloseFile { name: name@ },
        Statement::ArrayGet { array, index, target } => StatementV::ArrayGet {
            array: array@,
            index,
            target: target@,
        },
        Statement::ArraySet { array, index, value } => StatementV::ArraySet {
            array: array@,
            index,
            value: value@,
        },
        Statement::Accept { variable } => StatementV::Accept { variable: variable@ },
        Statement::Evaluate { value, branches } => StatementV::Evaluate {
            value: value@,
            branches: branches_view(branches@),
        },
        Statement::String { sources, into } => StatementV::String {
            sources: names_view(sources@),
            into: into@,
        },
        Statement::Unstring { source, into } => StatementV::Unstring {
            source: source@,
            into: names_view(into@),
        },
        Statement::Redefines { name } => StatementV::Redefines { name: name@ },
        Statement::Occurs { name, times } => StatementV::Occurs { name: name@, times },
        Statement::ConditionName { name, value } => StatementV::ConditionName {
            name: name@,
            value: value@,
        },
        Statement::Inspect { source, replacing, with } => StatementV::Inspect {
            source: source@,
            replacing: replacing@,
            with: with@,
        },
        Statement::Phi { variable, incoming } => StatementV::Phi {
            variable: variable@,
            incoming: incoming_view(incoming@),
        },
        Statement::VariableDefinition(v) => StatementV::VariableDefinition(v@),
    }
}

pub open spec fn stmts_view(s: Seq<Statement>) -> Seq<StatementV>
    decreases s, 1nat,
{
    if s.len() == 0 {
        Seq::empty()
    } else {
        stmts_view(s.drop_last()).push(stmt_view(s.last()))
    }
}

pub open spec fn branches_view(s: Seq<(String, Vec<Statement>)>) -> Seq<
    (Seq<char>, Seq<StatementV>),
>
    decreases s, 0nat,
{
    if s.len() == 0 {
        Seq::empty()
    } else {
        branches_view(s.drop_last()).push((s.last().0@, stmts_view(s.last().1@)))
    }
}

impl View for Statement {
    type V = StatementV;

    open spec fn view(&self) -> StatementV {
        stmt_view(*self)
    }
}

impl View for Function {
    type V = FunctionV;

    open spec fn view(&self) -> FunctionV {
        FunctionV { name: self.name@, body: stmts_view(self.body@) }
    }
}

impl View for Paragraph {
    type V = ParagraphV;

    open spec fn view(&self) -> ParagraphV {
        ParagraphV { name: self.name@, statements: stmts_view(self.statements@) }
    }
}

pub open spec fn vars_view(s: Seq<VariableDefinition>) -> Seq<VariableDefinitionV> {
    Seq::new(s.len(), |i: int| s[i]@)
}

pub open spec fn paras_view(s: Seq<Paragraph>) -> Seq<ParagraphV> {
    Seq::new(s.len(), |i: int| s[i]@)
}

impl View for Program {
    type V = ProgramV;

    open spec fn view(&self) -> ProgramV {
        ProgramV {
            variables: vars_view(self.variables@),
            paragraphs: paras_view(self.paragraphs@),
            statements: stmts_view(self.statements@),
        }
    }
}

pub broadcast proof fn lemma_stmts_view(s: Seq<Statement>)
    ensures
        #[trigger] stmts_view(s).len() == s.len(),
        forall|i: int| 0 <= i < s.len() ==> #[trigger] stmts_view(s)[i] == stmt_view(s[i]),
    decreases s.len(),
{
    if s.len() > 0 {
        lemma_stmts_view(s.drop_last());
    }
}

pub broadcast proof fn lemma_branches_view(s: Seq<(String, Vec<Statement>)>)
    ensures
        #[trigger] branches_view(s).len() == s.len(),
        forall|i: int|
            0 <= i < s.len() ==> #[trigger] branches_view(s)[i] == (
                s[i].0@,
                stmts_view(s[i].1@),
            ),
    decreases s.len(),
{
    if s.len() > 0 {
        lemma_branches_view(s.drop_last());
    }
}

pub proof fn lemma_stmts_view_push(s: Seq<Statement>, x: Statement)
    ensures
        stmts_view(s.push(x)) == stmts_view(s).push(stmt_view(x)),
{
    assert(s.push(x).drop_last() == s);
}

pub proof fn lemma_stmts_view_add(a: Seq<Statement>, b: Seq<Statement>)
    ensures
        stmts_view(a + b) == stmts_view(a) + stmts_view(b),
    decreases b.len(),
{
    if b.len() == 0 {
        assert(a + b == a);
        assert(stmts_view(a) + stmts_view(b) =~= stmts_view(a));
    } else {
        assert((a + b).drop_last() == a + b.drop_last());
        lemma_stmts_view_add(a, b.drop_last());
        assert(stmts_view(a) + stmts_view(b) =~= (stmts_view(a) + stmts_view(b.drop_last())).push(
            stmt_view(b.last()),
        ));
    }
}

// ---------------------------------------------------------------------
// Copies
// ---------------------------------------------------------------------

pub fn clone_names(v: &Vec<String>) -> (r: Vec<String>)
    ensures
        names_view(r@) == names_view(v@),
{
    let mut r: Vec<String> = Vec::new();
    let mut i: usize = 0;
    while i < v.len()
        invariant
            i <= v@.len(),
            r@.len() == i,
            forall|j: int| 0 <= j < i ==> #[trigger] r@[j]@ == v@[j]@,
        decreases v.len() - i,
    {
        r.push(v[i].clone());
        i = i + 1;
    }
    assert(names_view(r@) =~= names_view(v@));
    r
}

pub fn clone_opt_name(o: &Option<String>) -> (r: Option<String>)
    ensures
        opt_name(r) == opt_name(*o),
{
    match o {
        Some(s) => Some(s.clone()),
        None => None,
    }
}

impl Literal {
    pub fn copy(&self) -> (r: Literal)
        ensures
            r@ == self@,
    {
        match self {
            Literal::Int(i) => Literal::Int(*i),
            Literal::String(s) => Literal::String(s.clone()),
        }
    }
}

impl Clone for Literal {
    fn clone(&self) -> (r: Self)
        ensures
            r@ == self@,
    {
        self.copy()
    }
}

impl Expression {
    pub fn copy(&self) -> (r: Expression)
        ensures
            r@ == self@,
        decreases self,
    {
        match self {
            Expression::Literal(l) => Expression::Literal(l.copy()),
            Expression::Variable(v) => Expression::Variable(v.clone()),
            Expression::Binary { left, operator, right } => {
                let l = (&**left).copy();
                let r = (&**right).copy();
                Expression::Binary { left: Box::new(l), operator: operator.clone(), right: Box::new(r) }
            },
        }
    }
}

impl Clone for Expression {
    fn clone(&self) -> (r: Self)
        ensures
            r@ == self@,
    {
        self.copy()
    }
}

impl Condition {
    pub fn copy(&self) -> (r: Condition)
        ensures
            r@ == self@,
    {
        Condition {
            left: self.left.clone(),
            operator: self.operator.clone(),
            right: self.right.clone(),
        }
    }
}

impl Clone for Condition {
    fn clone(&self) -> (r: Self)
        ensures
            r@ == self@,
    {
        self.copy()
    }
}

impl Source {
    pub fn copy(&self) -> (r: Source)
        ensures
            r@ == self@,
    {
        match self {
            Source::Literal(i) => Source::Literal(*i),
            Source::LiteralString(s) => Source::LiteralString(s.clone()),
            Source::Variable(v) => Source::Variable(v.clone()),
        }
    }
}

impl Clone for Source {
    fn clone(&self) -> (r: Self)
        ensures
            r@ == self@,
    {
        self.copy()
    }
}

impl VariableDefinition {
    pub fn copy(&self) -> (r: VariableDefinition)
        ensures
            r@ == self@,
    {
        VariableDefinition {
            name: self.name.clone(),
            pic: self.pic,
            occurs: self.occurs,
            redefines: clone_opt_name(&self.redefines),
            initial_value: match &self.initial_value {
                Some(l) => Some(l.copy()),
                None => None,
            },
            comp_type: self.comp_type,
        }
    }
}

impl Clone for VariableDefinition {
    fn clone(&self) -> (r: Self)
        ensures
            r@ == self@,
    {
        self.copy()
    }
}

pub fn clone_incoming(v: &Vec<(usize, String)>) -> (r: Vec<(usize, String)>)
    ensures
        incoming_view(r@) == incoming_view(v@),
{
    let mut r: Vec<(usize, String)> = Vec::new();
    let mut i: usize = 0;
    while i < v.len()
        invariant
            i <= v@.len(),
            r@.len() == i,
            forall|j: int| 0 <= j < i ==> #[trigger] r@[j].0 == v@[j].0 && r@[j].1@ == v@[j].1@,
        decreases v.len() - i,
    {
        r.push((v[i].0, v[i].1.clone()));
        i = i + 1;
    }
    assert(incoming_view(r@) =~= incoming_view(v@));
    r
}

/// A copy of a statement sequence.
pub fn clone_stmts(v: &Vec<Statement>) -> (r: Vec<Statement>)
    ensures
        stmts_view(r@) == stmts_view(v@),
    decreases v, 0nat,
{
    let mut r: Vec<Statement> = Vec::new();
    let mut i: usize = 0;
    while i < v.len()
        invariant
            i <= v.len(),
            stmts_view(r@) == stmts_view(v@.take(i as int)),
        decreases v.len() - i,
    {
        proof {
            assert(decreases_to!(*v => v@));
            assert(decreases_to!(v@ => v@[i as int]));
        }
        let c = clone_statement(&v[i]);
        let ghost old_r = r@;
        r.push(c);
        proof {
            lemma_stmts_view_push(old_r, c);
            lemma_stmts_view_push(v@.take(i as int), v@[i as int]);
            assert(v@.take(i + 1) == v@.take(i as int).push(v@[i as int]));
        }
        i = i + 1;
    }
    assert(v@.take(v.len() as int) == v@);
    r
}

fn clone_branches(v: &Vec<(String, Vec<Statement>)>) -> (r: Vec<(String, Vec<Statement>)>)
    ensures
        branches_view(r@) == branches_view(v@),
    decreases v, 0nat,
{
    let mut r: Vec<(String, Vec<Statement>)> = Vec::new();
    let mut i: usize = 0;
    while i < v.len()
        invariant
            i <= v.len(),
            branches_view(r@) == branches_view(v@.take(i as int)),
        decreases v.len() - i,
    {
        proof {
            assert(decreases_to!(*v => v@));
            assert(decreases_to!(v@ => v@[i as int]));
            assert(decreases_to!(v@[i as int] => v@[i as int].1));
        }
        let b = clone_stmts(&v[i].1);
        let n = v[i].0.clone();
        let ghost old_r = r@;
        r.push((n, b));
        proof {
            assert(r@.drop_last() == old_r);
            assert(v@.take(i + 1).drop_last() == v@.take(i as int));
        }
        i = i + 1;
    }
    assert(v@.take(v.len() as int) == v@);
    r
}

/// A copy of a statement.
pub fn clone_statement(s: &Statement) -> (r: Statement)
    ensures
        r@ == s@,
    decreases s, 1nat,
{
    match s {
        Statement::For { variable, start, step, until, body } => Statement::For {
            variable: variable.clone(),
            start: start.copy(),
            step: step.copy(),
            until: until.copy(),
            body: clone_stmts(body),
        },
        Statement::NoOp => Statement::NoOp,
        Statement::Display { value } => Statement::Display { value: value.copy() },
        Statement::Move { source, target } => Statement::Move {
            source: source.copy(),
            target: target.clone(),
        },
        Statement::Add { value, target } => Statement::Add { value: *value, target: target.clone() },
        Statement::Subtract { value, target } => Statement::Subtract {
            value: value.clone(),
            target: target.clone(),
        },
        Statement::Multiply { value, target } => Statement::Multiply {
            value: value.clone(),
            target: target.clone(),
        },
        Statement::Divide { value, target } => Statement::Divide {
            value: value.clone(),
            target: target.clone(),
        },
        Statement::Initialize { variable } => Statement::Initialize { variable: variable.clone() },
        Statement::Compute { target, expr } => Statement::Compute {
            target: target.clone(),
            expr: expr.copy(),
        },
        Statement::If { condition, then_branch, else_branch } => {
            let t = clone_stmts(then_branch);
            let e = match else_branch {
                Some(b) => Some(clone_stmts(b)),
                None => None,
            };
            Statement::If { condition: condition.copy(), then_branch: t, else_branch: e }
        },
        Statement::Perform { name, body } => Statement::Perform {
            name: clone_opt_name(name),
            body: clone_stmts(body),
        },
        Statement::PerformUntil { condition, body } => Statement::PerformUntil {
            condition: condition.copy(),
            body: clone_stmts(body),
        },
        Statement::PerformVarying { variable, from, by, until, body } =>
            Statement::PerformVarying {
            variable: variable.clone(),
            from: from.copy(),
            by: by.copy(),
            until: until.copy(),
            body: clone_stmts(body),
        },
        Statement::Call { program, using_args } => Statement::Call {
            program: program.clone(),
            using_args: clone_names(using_args),
        },
        Statement::StopRun => Statement::StopRun,
        Statement::Continue => Statement::Continue,
        Statement::Exit => Statement::Exit,
        Statement::OpenFile { name, mode } => Statement::OpenFile { name: name.clone(), mode: *mode },
        Statement::ReadFile { name } => Statement::ReadFile { name: name.clone() },
        Statement::WriteFile { name } => Statement::WriteFile { name: name.clone() },
        Statement::CloseFile { name } => Statement::CloseFile { name: name.clone() },
        Statement::ArrayGet { array, index, target } => Statement::ArrayGet {
            array: array.clone(),
            index: *index,
            target: target.clone(),
        },
        Statement::ArraySet { array, index, value } => Statement::ArraySet {
            array: array.clone(),
            index: *index,
            value: value.clone(),
        },
        Statement::Accept { variable } => Statement::Accept { variable: variable.clone() },
        Statement::Evaluate { value, branches } => Statement::Evaluate {
            value: value.clone(),
            branches: clone_branches(branches),
        },
        Statement::String { sources, into } => Statement::String {
            sources: clone_names(sources),
            into: into.clone(),
        },
        Statement::Unstring { source, into } => Statement::Unstring {
            source: source.clone(),
            into: clone_names(into),
        },
        Statement::Redefines { name } => Statement::Redefines { name: name.clone() },
        Statement::Occurs { name, times } => Statement::Occurs { name: name.clone(), times: *times },
        Statement::ConditionName { name, value } => Statement::ConditionName {
            name: name.clone(),
            value: value.clone(),
        },
        Statement::Inspect { source, replacing, with } => Statement::Inspect {
            source: source.clone(),
            replacing: replacing.clone(),
            with: with.clone(),
        },
        Statement::Phi { variable, incoming } => Statement::Phi {
            variable: variable.clone(),
            incoming: clone_incoming(incoming),
        },
        Statement::VariableDefinition(v) => Statement::VariableDefinition(v.copy()),
    }
}

impl Clone for Statement {
    fn clone(&self) -> (r: Self)
        ensures
            r@ == self@,
    {
        clone_statement(self)
    }
}

impl Clone for Function {
    fn clone(&self) -> (r: Self)
        ensures
            r@ == self@,
    {
        Function { name: self.name.clone(), body: clone_stmts(&self.body) }
    }
}

impl Paragraph {
    pub fn copy(&self) -> (r: Paragraph)
        ensures
            r@ == self@,
    {
        Paragraph { name: self.name.clone(), statements: clone_stmts(&self.statements) }
    }
}

impl Clone for Program {
    fn clone(&self) -> (r: Self)
        ensures
            r@ == self@,
    {
        let mut vars: Vec<VariableDefinition> = Vec::new();
        let mut i: usize = 0;
        while i < self.variables.len()
            invariant
                i <= self.variables@.len(),
                vars@.len() == i,
                forall|j: int| 0 <= j < i ==> #[trigger] vars@[j]@ == self.variables@[j]@,
            decreases self.variables.len() - i,
        {
            vars.push(self.variables[i].copy());
            i = i + 1;
        }
        let mut paras: Vec<Paragraph> = Vec::new();
        let mut k: usize = 0;
        while k < self.paragraphs.len()
            invariant
                k <= self.paragraphs@.len(),
                paras@.len() == k,
                forall|j: int| 0 <= j < k ==> #[trigger] paras@[j]@ == self.paragraphs@[j]@,
            decreases self.paragraphs.len() - k,
        {
            paras.push(self.paragraphs[k].copy());
            k = k + 1;
        }
        let r = Program { variables: vars, paragraphs: paras, statements: clone_stmts(&self.statements) };
        assert(vars_view(r.variables@) =~= vars_view(self.variables@));
        assert(paras_view(r.paragraphs@) =~= paras_view(self.paragraphs@));
        r
    }
}

} // verus!
