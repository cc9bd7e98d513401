//! A small interpreter for the statement language: integer variables,
//! arithmetic that stops on overflow, conditionals, loops and calls of
//! named functions, with a budget of steps so that every run ends.
use crate::ir::{
    clone_stmts, stmts_view, Condition, ConditionV, Expression, ExpressionV, Function, Literal,
    LiteralV, Program, Source, SourceV, Statement, StatementV,
};
use crate::names::{put_value, value_of, NameMap};
use crate::text::{int_text, parse_int, trim};
use vstd::prelude::*;

verus! {

broadcast use vstd::std_specs::vec::group_vec_axioms, crate::ir::lemma_stmts_view;

/// How a run stands: still going, out of steps, or stopped by an
/// arithmetic overflow.
#[derive(Clone, Copy, PartialEq, Eq, Structural, Debug)]
pub enum RunStatus {
    Running,
    OutOfFuel,
    Overflow,
}

// ---------------------------------------------------------------------
// Semantics
// ---------------------------------------------------------------------

/// The state a run acts on: the variables in the order they were first
/// set, the lines written, and the status.
pub struct Machine {
    pub vars: Seq<(Seq<char>, i64)>,
    pub out: Seq<Seq<char>>,
    pub status: RunStatus,
}

/// The value of a variable; 0 when it was never set.
pub open spec fn get_var(vars: Seq<(Seq<char>, i64)>, name: Seq<char>) -> i64 {
    match value_of(vars, name) {
        Some(v) => v,
        None => 0,
    }
}

/// Sets a variable: an existing one keeps its place, a new one goes last.
pub open spec fn set_var(vars: Seq<(Seq<char>, i64)>, name: Seq<char>, v: i64) -> Seq<(Seq<char>, i64)> {
    put_value(vars, name, v)
}

pub open spec fn fits(x: int) -> Option<i64> {
    if i64::MIN <= x <= i64::MAX {
        Some(x as i64)
    } else {
        None
    }
}

/// Division rounding toward zero.
pub open spec fn trunc_div(a: int, b: int) -> int {
    let q = (if a < 0 { -a } else { a }) / (if b < 0 { -b } else { b });
    if (a < 0) != (b < 0) {
        -q
    } else {
        q
    }
}

/// One arithmetic operator on two values; `None` on overflow. Division
/// by zero and unknown operators give 0.
pub open spec fn arith(op: Seq<char>, a: i64, b: i64) -> Option<i64> {
    if op == "+"@ {
        fits(a + b)
    } else if op == "-"@ {
        fits(a - b)
    } else if op == "*"@ {
        fits(a * b)
    } else if op == "/"@ {
        if b == 0 {
            Some(0)
        } else {
            fits(trunc_div(a as int, b as int))
        }
    } else {
        Some(0)
    }
}

/// The value of an expression; `None` when an operation overflows.
pub open spec fn eval(e: ExpressionV, vars: Seq<(Seq<char>, i64)>) -> Option<i64>
    decreases e,
{
    match e {
        ExpressionV::Literal(LiteralV::Int(i)) => Some(i),
        ExpressionV::Literal(LiteralV::Str(_)) => Some(0),
        ExpressionV::Variable(n) => Some(get_var(vars, n)),
        ExpressionV::Binary { left, operator, right } => match (eval(*left, vars), eval(*right, vars)) {
            (Some(a), Some(b)) => arith(operator, a, b),
            _ => None,
        },
    }
}

/// A side of a loop condition: the number it spells once trimmed, else
/// the variable it names.
pub open spec fn cond_value(s: Seq<char>, vars: Seq<(Seq<char>, i64)>) -> i64 {
    match parse_int(trim(s)) {
        Some(v) => v,
        None => get_var(vars, trim(s)),
    }
}

/// Whether a loop is done: the comparison of its condition holds.
pub open spec fn loop_done(c: ConditionV, vars: Seq<(Seq<char>, i64)>) -> bool {
    let l = cond_value(c.left, vars);
    let r = cond_value(c.right, vars);
    if c.operator == "="@ {
        l == r
    } else if c.operator == "!="@ {
        l != r
    } else if c.operator == ">"@ {
        l > r
    } else if c.operator == "<"@ {
        l < r
    } else if c.operator == ">="@ {
        l >= r
    } else if c.operator == "<="@ {
        l <= r
    } else {
        false
    }
}

/// A test: the variable on the left against the number on the right
/// (0 when it is not one), by `>`, `<` or `=`; any other operator fails.
pub open spec fn test(c: ConditionV, vars: Seq<(Seq<char>, i64)>) -> bool {
    let l = get_var(vars, c.left);
    let r = match parse_int(c.right) {
        Some(v) => v,
        None => 0,
    };
    if c.operator == ">"@ {
        l > r
    } else if c.operator == "<"@ {
        l < r
    } else if c.operator == "="@ {
        l == r
    } else {
        false
    }
}

pub open spec fn source_value(s: SourceV, vars: Seq<(Seq<char>, i64)>) -> i64 {
    match s {
        SourceV::Literal(i) => i,
        SourceV::LiteralString(_) => 0,
        SourceV::Variable(n) => get_var(vars, n),
    }
}

pub open spec fn literal_text(l: LiteralV) -> Seq<char> {
    match l {
        LiteralV::Int(i) => int_text(i as int),
        LiteralV::Str(s) => s,
    }
}

pub open spec fn with_vars(m: Machine, vars: Seq<(Seq<char>, i64)>) -> Machine {
    Machine { vars, ..m }
}

pub open spec fn with_line(m: Machine, line: Seq<char>) -> Machine {
    Machine { out: m.out.push(line), ..m }
}

pub open spec fn with_status(m: Machine, status: RunStatus) -> Machine {
    Machine { status, ..m }
}

pub open spec fn set_or_overflow(m: Machine, name: Seq<char>, v: Option<i64>) -> Machine {
    match v {
        Some(x) => with_vars(m, set_var(m.vars, name, x)),
        None => with_status(m, RunStatus::Overflow),
    }
}

pub open spec fn min_nat(a: nat, b: nat) -> nat {
    if a < b {
        a
    } else {
        b
    }
}

pub open spec fn body_of(funcs: Seq<(Seq<char>, Seq<StatementV>)>, name: Seq<char>) -> Option<Seq<StatementV>> {
    value_of(funcs, name)
}

/// Runs one statement with `fuel` steps left; gives the new state and the
/// steps left. Every statement takes a step; a run that is not running
/// does nothing.
pub open spec fn run_stmt(
    s: StatementV,
    m: Machine,
    fuel: nat,
    funcs: Seq<(Seq<char>, Seq<StatementV>)>,
) -> (Machine, nat)
    decreases fuel, 1nat, 0int,
{
    if m.status != RunStatus::Running {
        (m, fuel)
    } else if fuel == 0 {
        (with_status(m, RunStatus::OutOfFuel), 0)
    } else {
        let f = (fuel - 1) as nat;
        match s {
            StatementV::Add { value, target } => (
                set_or_overflow(m, target, fits(get_var(m.vars, target) + value)),
                f,
            ),
            StatementV::Move { source, target } => (
                with_vars(m, set_var(m.vars, target, source_value(source, m.vars))),
                f,
            ),
            StatementV::Compute { target, expr } => (set_or_overflow(m, target, eval(expr, m.vars)), f),
            StatementV::If { condition, then_branch, else_branch } => if test(condition, m.vars) {
                run_block(then_branch, 0, m, f, funcs)
            } else {
                match else_branch {
                    Some(e) => run_block(e, 0, m, f, funcs),
                    None => (m, f),
                }
            },
            StatementV::Perform { name, body } => if body.len() > 0 {
                run_block(body, 0, m, f, funcs)
            } else {
                match name {
                    Some(n) => match body_of(funcs, n) {
                        Some(b) => run_block(b, 0, m, f, funcs),
                        None => (m, f),
                    },
                    None => (m, f),
                }
            },
            StatementV::PerformVarying { variable, from, by, until, body } => match (
                eval(from, m.vars),
                eval(by, m.vars),
            ) {
                (Some(cur), Some(step)) => run_loop(
                    variable,
                    cur,
                    step,
                    until,
                    body,
                    with_vars(m, set_var(m.vars, variable, cur)),
                    f,
                    funcs,
                ),
                _ => (with_status(m, RunStatus::Overflow), f),
            },
            StatementV::For { variable, start, step, until, body } => match (
                eval(start, m.vars),
                eval(step, m.vars),
            ) {
                (Some(cur), Some(inc)) => run_loop(
                    variable,
                    cur,
                    inc,
                    until,
                    body,
                    with_vars(m, set_var(m.vars, variable, cur)),
                    f,
                    funcs,
                ),
                _ => (with_status(m, RunStatus::Overflow), f),
            },
            StatementV::PerformUntil { condition, body } => run_until(condition, body, m, f, funcs),
            StatementV::Display { value } => (with_line(m, literal_text(value)), f),
            StatementV::ConditionName { name, value } => (
                with_line(m, "CONDITION-NAME "@ + name + " = "@ + value),
                f,
            ),
            StatementV::Inspect { source, replacing, with } => (
                with_line(m, "INSPECT "@ + source + " replacing "@ + replacing + " with "@ + with),
                f,
            ),
            StatementV::Call { program, .. } => (with_line(m, "CALL "@ + program), f),
            _ => (m, f),
        }
    }
}

/// Runs the statements of `ss` from position `i` on.
pub open spec fn run_block(
    ss: Seq<StatementV>,
    i: int,
    m: Machine,
    fuel: nat,
    funcs: Seq<(Seq<char>, Seq<StatementV>)>,
) -> (Machine, nat)
    decreases fuel, 2nat, ss.len() - i,
{
    if i < 0 || i >= ss.len() {
        (m, fuel)
    } else {
        let r = run_stmt(ss[i], m, fuel, funcs);
        run_block(ss, i + 1, r.0, min_nat(r.1, fuel), funcs)
    }
}

/// A counting loop: stops when its condition holds, otherwise runs the
/// body, steps the variable and goes round again.
pub open spec fn run_loop(
    var: Seq<char>,
    cur: i64,
    step: i64,
    until: ConditionV,
    body: Seq<StatementV>,
    m: Machine,
    fuel: nat,
    funcs: Seq<(Seq<char>, Seq<StatementV>)>,
) -> (Machine, nat)
    decreases fuel, 0nat, 0int,
{
    if m.status != RunStatus::Running || loop_done(until, m.vars) {
        (m, fuel)
    } else if fuel == 0 {
        (with_status(m, RunStatus::OutOfFuel), 0)
    } else {
        let f = (fuel - 1) as nat;
        let r = run_block(body, 0, m, f, funcs);
        let f2 = min_nat(r.1, f);
        if r.0.status != RunStatus::Running {
            (r.0, f2)
        } else {
            match fits(cur + step) {
                Some(next) => run_loop(
                    var,
                    next,
                    step,
                    until,
                    body,
                    with_vars(r.0, set_var(r.0.vars, var, next)),
                    f2,
                    funcs,
                ),
                None => (with_status(r.0, RunStatus::Overflow), f2),
            }
        }
    }
}

/// Runs the body until the test holds.
pub open spec fn run_until(
    c: ConditionV,
    body: Seq<StatementV>,
    m: Machine,
    fuel: nat,
    funcs: Seq<(Seq<char>, Seq<StatementV>)>,
) -> (Machine, nat)
    decreases fuel, 0nat, 0int,
{
    if m.status != RunStatus::Running || test(c, m.vars) {
        (m, fuel)
    } else if fuel == 0 {
        (with_status(m, RunStatus::OutOfFuel), 0)
    } else {
        let f = (fuel - 1) as nat;
        let r = run_block(body, 0, m, f, funcs);
        run_until(c, body, r.0, min_nat(r.1, f), funcs)
    }
}


// ---------------------------------------------------------------------
// The interpreter
// ---------------------------------------------------------------------

/// Functions by name, with their bodies as statement models.
pub open spec fn funcs_view(e: Seq<(String, Function)>) -> Seq<(Seq<char>, Seq<StatementV>)> {
    Seq::new(e.len(), |i: int| (e[i].0@, stmts_view(e[i].1.body@)))
}

proof fn lemma_funcs_view(e: Seq<(String, Function)>, k: Seq<char>)
    ensures
        crate::names::index_of_key(funcs_view(e), k) == crate::names::key_index(e, k),
    decreases e.len(),
{
    if e.len() > 0 {
        assert(funcs_view(e).drop_last() =~= funcs_view(e.drop_last()));
        lemma_funcs_view(e.drop_last(), k);
    }
}

/// Paragraphs recorded in order on top of `m`, each by its name.
pub open spec fn record_paras(
    m: Seq<(Seq<char>, Seq<StatementV>)>,
    ps: Seq<crate::ir::ParagraphV>,
) -> Seq<(Seq<char>, Seq<StatementV>)>
    decreases ps.len(),
{
    if ps.len() == 0 {
        m
    } else {
        put_value(record_paras(m, ps.drop_last()), ps.last().name, ps.last().statements)
    }
}

/// Runs statements on integer variables. Functions are looked up by name
/// when a `PERFORM` names one and has no body of its own; the lines that
/// statements write are kept in order.
pub struct Interpreter {
    vars: NameMap<i64>,
    functions: NameMap<Function>,
    paragraphs: NameMap<Vec<Statement>>,
    output: Vec<String>,
    status: RunStatus,
}

/// Applies inputs in order, each setting one variable.
pub open spec fn apply_inputs(vars: Seq<(Seq<char>, i64)>, inputs: Seq<(Seq<char>, i64)>) -> Seq<(Seq<char>, i64)>
    decreases inputs.len(),
{
    if inputs.len() == 0 {
        vars
    } else {
        set_var(apply_inputs(vars, inputs.drop_last()), inputs.last().0, inputs.last().1)
    }
}

pub open spec fn inputs_view(v: Seq<(String, i64)>) -> Seq<(Seq<char>, i64)> {
    crate::names::view_entries(v)
}

fn truncating_div(a: i64, b: i64) -> (r: Option<i64>)
    requires
        b != 0,
    ensures
        r == fits(trunc_div(a as int, b as int)),
{
    let aa: i128 = if a < 0 { -(a as i128) } else { a as i128 };
    let bb: i128 = if b < 0 { -(b as i128) } else { b as i128 };
    let q: i128 = aa / bb;
    assert(q <= aa) by (nonlinear_arith)
        requires
            aa >= 0,
            bb >= 1,
            q == aa / bb,
    ;
    let r: i128 = if (a < 0) != (b < 0) { -q } else { q };
    if i64::MIN as i128 <= r && r <= i64::MAX as i128 {
        Some(r as i64)
    } else {
        None
    }
}

fn arith_exec(op: &String, a: i64, b: i64) -> (r: Option<i64>)
    ensures
        r == arith(op@, a, b),
{
    if crate::text::string_eq_str(op, "+") {
        let x: i128 = a as i128 + b as i128;
        if i64::MIN as i128 <= x && x <= i64::MAX as i128 {
            Some(x as i64)
        } else {
            None
        }
    } else if crate::text::string_eq_str(op, "-") {
        let x: i128 = a as i128 - b as i128;
        if i64::MIN as i128 <= x && x <= i64::MAX as i128 {
            Some(x as i64)
        } else {
            None
        }
    } else if crate::text::string_eq_str(op, "*") {
        assert(-0x4000_0000_0000_0000_0000_0000_0000_0000 <= (a as int) * (b as int) <= 0x4000_0000_0000_0000_0000_0000_0000_0000) by (nonlinear_arith)
            requires
                -0x8000_0000_0000_0000 <= a as int <= 0x7fff_ffff_ffff_ffff,
                -0x8000_0000_0000_0000 <= b as int <= 0x7fff_ffff_ffff_ffff,
        ;
        let x: i128 = a as i128 * b as i128;
        if i64::MIN as i128 <= x && x <= i64::MAX as i128 {
            Some(x as i64)
        } else {
            None
        }
    } else if crate::text::string_eq_str(op, "/") {
        if b == 0 {
            Some(0)
        } else {
            truncating_div(a, b)
        }
    } else {
        Some(0)
    }
}

impl Interpreter {
    /// The state a run acts on.
    pub closed spec fn machine(&self) -> Machine {
        Machine {
            vars: crate::names::view_entries(self.vars.entries()),
            out: crate::names::names_view(self.output@),
            status: self.status,
        }
    }

    /// The functions that can be performed by name.
    pub closed spec fn funcs(&self) -> Seq<(Seq<char>, Seq<StatementV>)> {
        funcs_view(self.functions.entries())
    }

    /// The paragraphs recorded by name, in the order first recorded.
    pub closed spec fn paras(&self) -> Seq<(Seq<char>, Seq<StatementV>)> {
        crate::names::map_entries(self.paragraphs.entries(), |v: Vec<Statement>| stmts_view(v@))
    }

    /// An interpreter with no variables, functions or output.
    pub fn new() -> (r: Self)
        ensures
            r.machine() == (Machine { vars: Seq::empty(), out: Seq::empty(), status: RunStatus::Running }),
            r.funcs() == Seq::<(Seq<char>, Seq<StatementV>)>::empty(),
            r.paras() == Seq::<(Seq<char>, Seq<StatementV>)>::empty(),
    {
        let r = Interpreter {
            vars: NameMap::new(),
            functions: NameMap::new(),
            paragraphs: NameMap::new(),
            output: Vec::new(),
            status: RunStatus::Running,
        };
        assert(r.machine().vars =~= Seq::<(Seq<char>, i64)>::empty());
        assert(r.machine().out =~= Seq::<Seq<char>>::empty());
        assert(r.funcs() =~= Seq::<(Seq<char>, Seq<StatementV>)>::empty());
        assert(r.paras() =~= Seq::<(Seq<char>, Seq<StatementV>)>::empty());
        r
    }

    /// Records the paragraphs of a program by name; a paragraph of a name
    /// already recorded replaces it in place.
    pub fn load_program(&mut self, program: &Program)
        ensures
            final(self).machine() == old(self).machine(),
            final(self).funcs() == old(self).funcs(),
            final(self).paras() == record_paras(old(self).paras(), program@.paragraphs),
    {
        let ghost ps = program@.paragraphs;
        let mut i: usize = 0;
        assert(ps.take(0) =~= Seq::<crate::ir::ParagraphV>::empty());
        while i < program.paragraphs.len()
            invariant
                i <= program.paragraphs@.len(),
                ps == program@.paragraphs,
                self.machine() == old(self).machine(),
                self.funcs() == old(self).funcs(),
                self.paras() == record_paras(old(self).paras(), ps.take(i as int)),
            decreases program.paragraphs@.len() - i,
        {
            let p = &program.paragraphs[i];
            let ghost e0 = self.paragraphs.entries();
            let name = p.name.clone();
            let body = clone_stmts(&p.statements);
            self.paragraphs.insert(name, body);
            proof {
                crate::names::lemma_map_insert(e0, self.paragraphs.entries(), name, body, |v: Vec<Statement>| stmts_view(v@));
                assert(ps.take(i + 1).drop_last() =~= ps.take(i as int));
                assert(ps[i as int] == program.paragraphs@[i as int]@);
            }
            i = i + 1;
        }
        assert(ps.take(i as int) =~= ps);
    }

    /// Makes a function available to `PERFORM` by its name; a function of
    /// the same name is replaced.
    pub fn add_function(&mut self, func: Function)
        ensures
            final(self).machine() == old(self).machine(),
            final(self).funcs() == crate::names::put_value(old(self).funcs(), func.name@, stmts_view(func.body@)),
            final(self).paras() == old(self).paras(),
    {
        let ghost e0 = self.functions.entries();
        let name = func.name.clone();
        let ghost body = stmts_view(func.body@);
        self.functions.insert(name, func);
        proof {
            let e1 = self.functions.entries();
            lemma_funcs_view(e0, func.name@);
            crate::names::lemma_key_index(e0, func.name@);
            assert(funcs_view(e1) =~= crate::names::put_value(funcs_view(e0), func.name@, body));
        }
    }

    /// The lines written so far.
    pub fn output(&self) -> (r: &Vec<String>)
        ensures
            crate::names::names_view(r@) == self.machine().out,
    {
        &self.output
    }

    /// How the last run ended.
    pub fn status(&self) -> (r: RunStatus)
        ensures
            r == self.machine().status,
    {
        self.status
    }

    fn get(&self, name: &String) -> (r: i64)
        ensures
            r == get_var(self.machine().vars, name@),
    {
        proof {
            crate::names::lemma_view_entries(self.vars.entries(), name@);
        }
        match self.vars.get_name(name) {
            Some(v) => *v,
            None => 0,
        }
    }

    fn set(&mut self, name: &String, v: i64)
        ensures
            final(self).machine() == with_vars(old(self).machine(), set_var(old(self).machine().vars, name@, v)),
            final(self).funcs() == old(self).funcs(),
            final(self).paras() == old(self).paras(),
    {
        let ghost e0 = self.vars.entries();
        self.vars.insert(name.clone(), v);
        proof {
            crate::names::lemma_view_insert(e0, self.vars.entries(), *name, v);
        }
    }

    fn write(&mut self, line: String)
        ensures
            final(self).machine() == with_line(old(self).machine(), line@),
            final(self).funcs() == old(self).funcs(),
            final(self).paras() == old(self).paras(),
    {
        let ghost o = self.output@;
        self.output.push(line);
        assert(crate::names::names_view(self.output@) =~= crate::names::names_view(o).push(line@));
    }

    fn eval_expr(&self, e: &Expression) -> (r: Option<i64>)
        ensures
            r == eval(e@, self.machine().vars),
        decreases e,
    {
        match e {
            Expression::Literal(Literal::Int(i)) => Some(*i),
            Expression::Literal(Literal::String(_)) => Some(0),
            Expression::Variable(n) => Some(self.get(n)),
            Expression::Binary { left, operator, right } => {
                let l = self.eval_expr(&**left);
                let r = self.eval_expr(&**right);
                match (l, r) {
                    (Some(a), Some(b)) => arith_exec(operator, a, b),
                    _ => None,
                }
            },
        }
    }

    fn cond_value(&self, s: &String) -> (r: i64)
        ensures
            r == cond_value(s@, self.machine().vars),
    {
        let cs = crate::text::chars_of_string(s);
        let t = crate::text::trim_chars(cs.as_slice());
        match crate::text::parse_i64(t.as_slice()) {
            Some(v) => v,
            None => {
                let name = crate::text::string_of(t.as_slice());
                self.get(&name)
            },
        }
    }

    fn loop_done(&self, c: &Condition) -> (r: bool)
        ensures
            r == loop_done(c@, self.machine().vars),
    {
        let l = self.cond_value(&c.left);
        let r = self.cond_value(&c.right);
        if crate::text::string_eq_str(&c.operator, "=") {
            l == r
        } else if crate::text::string_eq_str(&c.operator, "!=") {
            l != r
        } else if crate::text::string_eq_str(&c.operator, ">") {
            l > r
        } else if crate::text::string_eq_str(&c.operator, "<") {
            l < r
        } else if crate::text::string_eq_str(&c.operator, ">=") {
            l >= r
        } else if crate::text::string_eq_str(&c.operator, "<=") {
            l <= r
        } else {
            false
        }
    }

    fn test(&self, c: &Condition) -> (r: bool)
        ensures
            r == test(c@, self.machine().vars),
    {
        let l = self.get(&c.left);
        let rc = crate::text::chars_of_string(&c.right);
        let r = match crate::text::parse_i64(rc.as_slice()) {
            Some(v) => v,
            None => 0,
        };
        if crate::text::string_eq_str(&c.operator, ">") {
            l > r
        } else if crate::text::string_eq_str(&c.operator, "<") {
            l < r
        } else if crate::text::string_eq_str(&c.operator, "=") {
            l == r
        } else {
            false
        }
    }

    proof fn lemma_body_of(&self, name: Seq<char>, f: Function)
        requires
            crate::names::lookup(self.functions.entries(), name) == Some(f),
        ensures
            body_of(self.funcs(), name) == Some(stmts_view(f.body@)),
    {
        lemma_funcs_view(self.functions.entries(), name);
        crate::names::lemma_key_index(self.functions.entries(), name);
    }

    proof fn lemma_no_body(&self, name: Seq<char>)
        requires
            crate::names::lookup(self.functions.entries(), name) is None,
        ensures
            body_of(self.funcs(), name) is None,
    {
        lemma_funcs_view(self.functions.entries(), name);
    }

    /// Runs one statement with `fuel` steps left and returns the steps
    /// left.
    pub fn execute_statement(&mut self, s: &Statement, fuel: u64) -> (left: u64)
        ensures
            (final(self).machine(), left as nat) == run_stmt(s@, old(self).machine(), fuel as nat, old(self).funcs()),
            final(self).funcs() == old(self).funcs(),
            final(self).paras() == old(self).paras(),
        decreases fuel, 1nat, 0int,
    {
        if self.status != RunStatus::Running {
            return fuel;
        }
        if fuel == 0 {
            self.status = RunStatus::OutOfFuel;
            return 0;
        }
        let f = fuel - 1;
        match s {
            Statement::Add { value, target } => {
                let cur = self.get(target);
                let x: i128 = cur as i128 + *value as i128;
                if i64::MIN as i128 <= x && x <= i64::MAX as i128 {
                    self.set(target, x as i64);
                } else {
                    self.status = RunStatus::Overflow;
                }
                f
            },
            Statement::Move { source, target } => {
                let v = match source {
                    Source::Literal(i) => *i,
                    Source::LiteralString(_) => 0,
                    Source::Variable(n) => self.get(n),
                };
                self.set(target, v);
                f
            },
            Statement::Compute { target, expr } => {
                match self.eval_expr(expr) {
                    Some(v) => self.set(target, v),
                    None => {
                        self.status = RunStatus::Overflow;
                    },
                }
                f
            },
            Statement::If { condition, then_branch, else_branch } => {
                if self.test(condition) {
                    self.execute_block(then_branch, f)
                } else {
                    match else_branch {
                        Some(e) => self.execute_block(e, f),
                        None => f,
                    }
                }
            },
            Statement::Perform { name, body } => {
                if body.len() > 0 {
                    self.execute_block(body, f)
                } else {
                    match name {
                        Some(n) => {
                            let found = match self.functions.get_name(n) {
                                Some(func) => {
                                    proof {
                                        self.lemma_body_of(n@, *func);
                                    }
                                    Some(clone_stmts(&func.body))
                                },
                                None => {
                                    proof {
                                        self.lemma_no_body(n@);
                                    }
                                    None
                                },
                            };
                            match found {
                                Some(b) => self.execute_block(&b, f),
                                None => f,
                            }
                        },
                        None => f,
                    }
                }
            },
            Statement::PerformVarying { variable, from, by, until, body } => {
                match (self.eval_expr(from), self.eval_expr(by)) {
                    (Some(cur), Some(step)) => {
                        self.set(variable, cur);
                        self.execute_loop(variable, cur, step, until, body, f)
                    },
                    _ => {
                        self.status = RunStatus::Overflow;
                        f
                    },
                }
            },
            Statement::For { variable, start, step, until, body } => {
                match (self.eval_expr(start), self.eval_expr(step)) {
                    (Some(cur), Some(inc)) => {
                        self.set(variable, cur);
                        self.execute_loop(variable, cur, inc, until, body, f)
                    },
                    _ => {
                        self.status = RunStatus::Overflow;
                        f
                    },
                }
            },
            Statement::PerformUntil { condition, body } => self.execute_until(condition, body, f),
            Statement::Display { value } => {
                let line = match value {
                    Literal::Int(i) => crate::text::int_string(*i),
                    Literal::String(t) => t.clone(),
                };
                self.write(line);
                f
            },
            Statement::ConditionName { name, value } => {
                let mut line = crate::text::owned("CONDITION-NAME ");
                crate::text::append_string(&mut line, name);
                crate::text::append_str(&mut line, " = ");
                crate::text::append_string(&mut line, value);
                self.write(line);
                f
            },
            Statement::Inspect { source, replacing, with } => {
                let mut line = crate::text::owned("INSPECT ");
                crate::text::append_string(&mut line, source);
                crate::text::append_str(&mut line, " replacing ");
                crate::text::append_string(&mut line, replacing);
                crate::text::append_str(&mut line, " with ");
                crate::text::append_string(&mut line, with);
                self.write(line);
                f
            },
            Statement::Call { program, .. } => {
                let mut line = crate::text::owned("CALL ");
                crate::text::append_string(&mut line, program);
                self.write(line);
                f
            },
            _ => f,
        }
    }

    /// Runs statements in order with `fuel` steps left and returns the
    /// steps left.
    pub fn execute_block(&mut self, ss: &Vec<Statement>, fuel: u64) -> (left: u64)
        ensures
            (final(self).machine(), left as nat) == run_block(stmts_view(ss@), 0, old(self).machine(), fuel as nat, old(self).funcs()),
            final(self).funcs() == old(self).funcs(),
            final(self).paras() == old(self).paras(),
        decreases fuel, 2nat, ss@.len(),
    {
        let ghost sv = stmts_view(ss@);
        let ghost funcs = self.funcs();
        let ghost target = run_block(sv, 0, self.machine(), fuel as nat, funcs);
        let mut f = fuel;
        let mut i: usize = 0;
        while i < ss.len()
            invariant
                i <= ss@.len(),
                sv == stmts_view(ss@),
                f <= fuel,
                funcs == self.funcs(),
                self.paras() == old(self).paras(),
                funcs == old(self).funcs(),
                run_block(sv, i as int, self.machine(), f as nat, funcs) == target,
            decreases ss.len() - i,
        {
            let r = self.execute_statement(&ss[i], f);
            f = if r < f { r } else { f };
            i = i + 1;
        }
        f
    }

    fn execute_loop(
        &mut self,
        var: &String,
        cur: i64,
        step: i64,
        until: &Condition,
        body: &Vec<Statement>,
        fuel: u64,
    ) -> (left: u64)
        ensures
            (final(self).machine(), left as nat) == run_loop(var@, cur, step, until@, stmts_view(body@), old(self).machine(), fuel as nat, old(self).funcs()),
            final(self).funcs() == old(self).funcs(),
            final(self).paras() == old(self).paras(),
        decreases fuel, 0nat, 0int,
    {
        let ghost bv = stmts_view(body@);
        let ghost funcs = self.funcs();
        let ghost target = run_loop(var@, cur, step, until@, bv, self.machine(), fuel as nat, funcs);
        let mut f = fuel;
        let mut cur = cur;
        loop
            invariant
                f <= fuel,
                bv == stmts_view(body@),
                funcs == self.funcs(),
                self.paras() == old(self).paras(),
                funcs == old(self).funcs(),
                run_loop(var@, cur, step, until@, bv, self.machine(), f as nat, funcs) == target,
            ensures
                (self.machine(), f as nat) == target,
                funcs == self.funcs(),
                self.paras() == old(self).paras(),
            decreases f,
        {
            if self.status != RunStatus::Running || self.loop_done(until) {
                break;
            }
            if f == 0 {
                self.status = RunStatus::OutOfFuel;
                break;
            }
            let f1 = f - 1;
            let r = self.execute_block(body, f1);
            let f2 = if r < f1 { r } else { f1 };
            if self.status != RunStatus::Running {
                f = f2;
                break;
            }
            let x: i128 = cur as i128 + step as i128;
            if i64::MIN as i128 <= x && x <= i64::MAX as i128 {
                let next = x as i64;
                self.set(var, next);
                cur = next;
                f = f2;
            } else {
                self.status = RunStatus::Overflow;
                f = f2;
                break;
            }
        }
        f
    }

    fn execute_until(&mut self, c: &Condition, body: &Vec<Statement>, fuel: u64) -> (left: u64)
        ensures
            (final(self).machine(), left as nat) == run_until(c@, stmts_view(body@), old(self).machine(), fuel as nat, old(self).funcs()),
            final(self).funcs() == old(self).funcs(),
            final(self).paras() == old(self).paras(),
        decreases fuel, 0nat, 0int,
    {
        let ghost bv = stmts_view(body@);
        let ghost funcs = self.funcs();
        let ghost target = run_until(c@, bv, self.machine(), fuel as nat, funcs);
        let mut f = fuel;
        loop
            invariant
                f <= fuel,
                bv == stmts_view(body@),
                funcs == self.funcs(),
                self.paras() == old(self).paras(),
                funcs == old(self).funcs(),
                run_until(c@, bv, self.machine(), f as nat, funcs) == target,
            ensures
                (self.machine(), f as nat) == target,
                funcs == self.funcs(),
                self.paras() == old(self).paras(),
            decreases f,
        {
            if self.status != RunStatus::Running || self.test(c) {
                break;
            }
            if f == 0 {
                self.status = RunStatus::OutOfFuel;
                break;
            }
            let f1 = f - 1;
            let r = self.execute_block(body, f1);
            f = if r < f1 { r } else { f1 };
        }
        f
    }

    /// Sets the inputs, then runs the function `func_name` (when there is
    /// one) with at most `fuel` steps, and returns the variables in the
    /// order they were first set.
    pub fn run(&mut self, func_name: &str, inputs: Vec<(String, i64)>, fuel: u64) -> (r: Vec<(String, i64)>)
        ensures
            final(self).funcs() == old(self).funcs(),
            final(self).paras() == old(self).paras(),
            final(self).machine() == ({
                let m0 = Machine {
                    vars: apply_inputs(old(self).machine().vars, inputs_view(inputs@)),
                    out: old(self).machine().out,
                    status: RunStatus::Running,
                };
                match body_of(old(self).funcs(), func_name@) {
                    Some(b) => run_block(b, 0, m0, fuel as nat, old(self).funcs()).0,
                    None => m0,
                }
            }),
            crate::names::view_entries(r@) == final(self).machine().vars,
    {
        self.status = RunStatus::Running;
        let ghost iv = inputs_view(inputs@);
        let mut i: usize = 0;
        assert(iv.take(0) =~= Seq::<(Seq<char>, i64)>::empty());
        while i < inputs.len()
            invariant
                i <= inputs@.len(),
                iv == inputs_view(inputs@),
                self.funcs() == old(self).funcs(),
                self.paras() == old(self).paras(),
                self.machine() == (Machine {
                    vars: apply_inputs(old(self).machine().vars, iv.take(i as int)),
                    out: old(self).machine().out,
                    status: RunStatus::Running,
                }),
            decreases inputs.len() - i,
        {
            let (name, v) = (&inputs[i].0, inputs[i].1);
            self.set(name, v);
            assert(iv.take(i + 1).drop_last() =~= iv.take(i as int));
            i = i + 1;
        }
        assert(iv.take(i as int) =~= iv);
        let key = crate::text::owned(func_name);
        let found = match self.functions.get_name(&key) {
            Some(func) => {
                proof {
                    self.lemma_body_of(key@, *func);
                }
                Some(clone_stmts(&func.body))
            },
            None => {
                proof {
                    self.lemma_no_body(key@);
                }
                None
            },
        };
        match found {
            Some(b) => {
                let _ = self.execute_block(&b, fuel);
            },
            None => {},
        }
        let mut r: Vec<(String, i64)> = Vec::new();
        let mut k: usize = 0;
        while k < self.vars.len()
            invariant
                k <= self.vars.entries().len(),
                crate::names::view_entries(r@) == crate::names::view_entries(self.vars.entries()).take(k as int),
            decreases self.vars.entries().len() - k,
        {
            let (n, v) = self.vars.entry_at(k);
            let ghost r0 = r@;
            r.push((n.clone(), *v));
            assert(crate::names::view_entries(r@) =~= crate::names::view_entries(r0).push((n@, *v)));
            assert(crate::names::view_entries(self.vars.entries()).take(k + 1) =~= crate::names::view_entries(self.vars.entries()).take(k as int).push((n@, *v)));
            k = k + 1;
        }
        assert(crate::names::view_entries(self.vars.entries()).take(k as int) =~= crate::names::view_entries(self.vars.entries()));
        r
    }
}

/// What an `IF` does: with the run going and a step left, it takes one
/// step and runs its then-branch exactly when the value of the variable on
/// the left compares to the number on the right (0 when the right is not
/// a number) as the operator says (`>`, `<` or `=`; no other operator
/// holds), and otherwise runs its else-branch, or nothing.
pub proof fn law_if_takes_the_branch_its_comparison_picks(
    c: ConditionV,
    then_branch: Seq<StatementV>,
    else_branch: Option<Seq<StatementV>>,
    m: Machine,
    fuel: nat,
    funcs: Seq<(Seq<char>, Seq<StatementV>)>,
)
    requires
        m.status == RunStatus::Running,
        fuel > 0,
    ensures
        ({
            let l: int = get_var(m.vars, c.left) as int;
            let r: int = match parse_int(c.right) {
                Some(v) => v as int,
                None => 0,
            };
            let holds = (c.operator == ">"@ && l > r) || (c.operator == "<"@ && l < r) || (c.operator == "="@ && l == r);
            run_stmt(StatementV::If { condition: c, then_branch, else_branch }, m, fuel, funcs) == if holds {
                run_block(then_branch, 0, m, (fuel - 1) as nat, funcs)
            } else {
                match else_branch {
                    Some(e) => run_block(e, 0, m, (fuel - 1) as nat, funcs),
                    None => (m, (fuel - 1) as nat),
                }
            }
        }),
{
    lemma_test_compares(c, m.vars);
}

/// The comparison of an `IF` or `PERFORM UNTIL` condition: the value of the
/// variable on the left against the number on the right (0 when the right
/// is not a number), by `>`, `<` or `=`.
pub open spec fn compares(c: ConditionV, vars: Seq<(Seq<char>, i64)>) -> bool {
    let l: int = get_var(vars, c.left) as int;
    let r: int = match parse_int(c.right) {
        Some(v) => v as int,
        None => 0,
    };
    (c.operator == ">"@ && l > r) || (c.operator == "<"@ && l < r) || (c.operator == "="@ && l == r)
}

proof fn lemma_test_compares(c: ConditionV, vars: Seq<(Seq<char>, i64)>)
    ensures
        test(c, vars) == compares(c, vars),
{
    reveal_strlit(">");
    reveal_strlit("<");
    reveal_strlit("=");
    assert(">"@[0] == '>' && "<"@[0] == '<' && "="@[0] == '=');
    assert(">"@ != "<"@ && ">"@ != "="@ && "<"@ != "="@);
}

/// A `PERFORM UNTIL` whose comparison holds on entry runs nothing and takes
/// no step; one whose comparison fails, with a step left, runs its body
/// once and then is the same loop again.
pub proof fn law_until_tests_before_each_pass(
    c: ConditionV,
    body: Seq<StatementV>,
    m: Machine,
    fuel: nat,
    funcs: Seq<(Seq<char>, Seq<StatementV>)>,
)
    requires
        m.status == RunStatus::Running,
    ensures
        compares(c, m.vars) ==> run_until(c, body, m, fuel, funcs) == (m, fuel),
        !compares(c, m.vars) && fuel > 0 ==> ({
            let r = run_block(body, 0, m, (fuel - 1) as nat, funcs);
            run_until(c, body, m, fuel, funcs) == run_until(c, body, r.0, min_nat(r.1, (fuel - 1) as nat), funcs)
        }),
{
    lemma_test_compares(c, m.vars);
}

/// A counting loop stops as soon as its condition holds: each side is the
/// number it spells once trimmed, else the variable it names, compared by
/// `=`, `!=`, `>`, `<`, `>=` or `<=` (any other operator never holds).
pub proof fn law_counting_loop_stops_when_condition_holds(
    var: Seq<char>,
    cur: i64,
    step: i64,
    until: ConditionV,
    body: Seq<StatementV>,
    m: Machine,
    fuel: nat,
    funcs: Seq<(Seq<char>, Seq<StatementV>)>,
)
    requires
        m.status == RunStatus::Running,
        ({
            let l = cond_value(until.left, m.vars) as int;
            let r = cond_value(until.right, m.vars) as int;
            ||| (until.operator == "="@ && l == r)
            ||| (until.operator == "!="@ && l != r)
            ||| (until.operator == ">"@ && l > r)
            ||| (until.operator == "<"@ && l < r)
            ||| (until.operator == ">="@ && l >= r)
            ||| (until.operator == "<="@ && l <= r)
        }),
    ensures
        run_loop(var, cur, step, until, body, m, fuel, funcs) == (m, fuel),
{
    reveal_strlit("=");
    reveal_strlit("!=");
    reveal_strlit(">");
    reveal_strlit("<");
    reveal_strlit(">=");
    reveal_strlit("<=");
    assert("="@.len() == 1 && "="@[0] == '=');
    assert(">"@.len() == 1 && ">"@[0] == '>');
    assert("<"@.len() == 1 && "<"@[0] == '<');
    assert("!="@.len() == 2 && "!="@[0] == '!');
    assert(">="@.len() == 2 && ">="@[0] == '>');
    assert("<="@.len() == 2 && "<="@[0] == '<');
    assert(loop_done(until, m.vars));
}

/// `ADD n TO X` with a step left adds `n` to the value of `X` (0 when it
/// was never set) and changes no other variable; where the sum does not
/// fit, the run stops with an overflow and nothing is set.
pub proof fn law_add_adds_to_its_target(
    value: i64,
    target: Seq<char>,
    other: Seq<char>,
    m: Machine,
    fuel: nat,
    funcs: Seq<(Seq<char>, Seq<StatementV>)>,
)
    requires
        m.status == RunStatus::Running,
        fuel > 0,
    ensures
        ({
            let r = run_stmt(StatementV::Add { value, target }, m, fuel, funcs).0;
            let sum = get_var(m.vars, target) + value;
            &&& i64::MIN <= sum <= i64::MAX ==> r.status == RunStatus::Running && get_var(r.vars, target) == sum
            &&& i64::MIN <= sum <= i64::MAX && other != target ==> get_var(r.vars, other) == get_var(m.vars, other)
            &&& !(i64::MIN <= sum <= i64::MAX) ==> r.status == RunStatus::Overflow && r.vars == m.vars
        }),
{
    let sum = get_var(m.vars, target) + value;
    if i64::MIN <= sum <= i64::MAX {
        crate::names::lemma_put_value_of(m.vars, target, sum as i64, other);
    }
}

} // verus!
