//! The evaluator: a mutable store of variables, a registry of declared
//! functions, and an output sink, driven over a program's statements.
//!
//! The semantics is a small-step machine over a work stack of statements:
//! each step executes the top statement, which may mutate the store, append
//! to the sink, push a branch arm or a called function's body, or fail.
//! Execution of a program is running the machine until the stack empties or
//! a statement fails; the first failure aborts the whole run, and output
//! written before it remains. The executable evaluator is proved to produce
//! exactly an outcome of this machine.

use vstd::prelude::*;

use crate::bigint::{bytes_eq, copy_bytes, dec_of, BigInt};
use crate::grammar::{expr_view, lemma_stmts_view, stmt_view, stmts_view};
use crate::grammar::{ExprV, Expression, Statement, StmtV};

verus! {

broadcast use vstd::std_specs::vec::group_vec_axioms, vstd::seq::group_seq_axioms;

/// An evaluation failure, carrying the offending identifier.
#[derive(Debug, PartialEq, Eq)]
pub enum EvalError {
    UndefinedVariable(Vec<u8>),
    DuplicateVariableDefinition(Vec<u8>),
    DuplicateFunctionDefinition(Vec<u8>),
    UndefinedFunctionCall(Vec<u8>),
    SinkWriteFailure(Vec<u8>),
    StepLimitExceeded,
}

/// Mathematical model of an evaluation failure.
pub enum ErrV {
    UndefinedVariable(Seq<u8>),
    DuplicateVariableDefinition(Seq<u8>),
    DuplicateFunctionDefinition(Seq<u8>),
    UndefinedFunctionCall(Seq<u8>),
    SinkWriteFailure(Seq<u8>),
    StepLimitExceeded,
}

impl View for EvalError {
    type V = ErrV;

    open spec fn view(&self) -> ErrV {
        match self {
            EvalError::UndefinedVariable(n) => ErrV::UndefinedVariable(n@),
            EvalError::DuplicateVariableDefinition(n) => ErrV::DuplicateVariableDefinition(n@),
            EvalError::DuplicateFunctionDefinition(n) => ErrV::DuplicateFunctionDefinition(n@),
            EvalError::UndefinedFunctionCall(n) => ErrV::UndefinedFunctionCall(n@),
            EvalError::SinkWriteFailure(n) => ErrV::SinkWriteFailure(n@),
            EvalError::StepLimitExceeded => ErrV::StepLimitExceeded,
        }
    }
}

/// Mathematical model of the evaluator state: the variable store and the
/// function registry in insertion order, and the bytes written so far.
#[verifier::ext_equal]
pub struct StateV {
    pub vars: Seq<(Seq<u8>, int)>,
    pub funcs: Seq<(Seq<u8>, Seq<StmtV>)>,
    pub out: Seq<u8>,
}

/// Index of the first entry with the given name, or -1.
pub open spec fn find_idx<T>(s: Seq<(Seq<u8>, T)>, name: Seq<u8>) -> int
    decreases s.len(),
{
    if s.len() == 0 {
        -1
    } else if s[0].0 == name {
        0
    } else {
        let r = find_idx(s.drop_first(), name);
        if r == -1 {
            -1
        } else {
            r + 1
        }
    }
}

pub proof fn lemma_find_idx<T>(s: Seq<(Seq<u8>, T)>, name: Seq<u8>)
    ensures
        find_idx(s, name) == -1 ==> forall|k: int|
            0 <= k < s.len() ==> (#[trigger] s[k]).0 != name,
        find_idx(s, name) != -1 ==> 0 <= find_idx(s, name) < s.len() && s[find_idx(s, name)].0
            == name && forall|k: int| 0 <= k < find_idx(s, name) ==> (#[trigger] s[k]).0 != name,
    decreases s.len(),
{
    if s.len() > 0 && s[0].0 != name {
        let t = s.drop_first();
        lemma_find_idx(t, name);
        let r = find_idx(t, name);
        if r == -1 {
            assert forall|k: int| 0 <= k < s.len() implies (#[trigger] s[k]).0 != name by {
                if k > 0 {
                    assert(t[k - 1] == s[k]);
                }
            }
        } else {
            assert(s[r + 1] == t[r]);
            assert forall|k: int| 0 <= k < r + 1 implies (#[trigger] s[k]).0 != name by {
                if k > 0 {
                    assert(t[k - 1] == s[k]);
                }
            }
        }
    }
}

/// The first match decides the index.
proof fn lemma_find_idx_is<T>(s: Seq<(Seq<u8>, T)>, name: Seq<u8>, i: int)
    requires
        0 <= i < s.len(),
        s[i].0 == name,
        forall|k: int| 0 <= k < i ==> (#[trigger] s[k]).0 != name,
    ensures
        find_idx(s, name) == i,
{
    lemma_find_idx(s, name);
    let r = find_idx(s, name);
    if r == -1 {
        assert(s[i].0 != name);
    } else if r < i {
        assert(s[r].0 != name);
    } else if r > i {
        assert(s[i].0 != name);
    }
}

/// The value bound to the given name, if any.
pub open spec fn assoc<T>(s: Seq<(Seq<u8>, T)>, name: Seq<u8>) -> Option<T> {
    let i = find_idx(s, name);
    if i == -1 {
        None
    } else {
        Some(s[i].1)
    }
}

/// Evaluate an expression against the variable store: constants are their
/// value, a reference is looked up, and binary nodes combine their children,
/// the left one first.
pub open spec fn eval_expr(e: ExprV, vars: Seq<(Seq<u8>, int)>) -> Result<int, ErrV>
    decreases e,
{
    match e {
        ExprV::Integer(v) => Ok(v),
        ExprV::Literal(n) => match assoc(vars, n) {
            Some(v) => Ok(v),
            None => Err(ErrV::UndefinedVariable(n)),
        },
        ExprV::Add(l, r) => match eval_expr(*l, vars) {
            Ok(a) => match eval_expr(*r, vars) {
                Ok(b) => Ok(a + b),
                Err(e) => Err(e),
            },
            Err(e) => Err(e),
        },
        ExprV::Sub(l, r) => match eval_expr(*l, vars) {
            Ok(a) => match eval_expr(*r, vars) {
                Ok(b) => Ok(a - b),
                Err(e) => Err(e),
            },
            Err(e) => Err(e),
        },
    }
}

/// The line printed for one variable: `"<name>: <value>\n"`.
pub open spec fn print_line(name: Seq<u8>, v: int) -> Seq<u8> {
    name + seq![58u8, 32u8] + dec_of(v) + seq![10u8]
}

/// The fragment a state dump writes for one variable: `"<name>: <value>"`,
/// with no separator between successive variables.
pub open spec fn stats_entry(name: Seq<u8>, v: int) -> Seq<u8> {
    name + seq![58u8, 32u8] + dec_of(v)
}

/// Everything a state dump writes, in store order.
pub open spec fn stats_out(vars: Seq<(Seq<u8>, int)>) -> Seq<u8>
    decreases vars.len(),
{
    if vars.len() == 0 {
        Seq::empty()
    } else {
        stats_out(vars.drop_last()) + stats_entry(vars.last().0, vars.last().1)
    }
}

/// What executing one statement does.
pub enum StepRes {
    Done,
    Push(Seq<StmtV>),
    Fail(ErrV),
}

/// One step of the machine: execute a single statement against a state.
pub open spec fn step(s: StmtV, st: StateV) -> (StateV, StepRes) {
    match s {
        StmtV::Noop => (st, StepRes::Done),
        StmtV::Stats => (
            StateV { vars: st.vars, funcs: st.funcs, out: st.out + stats_out(st.vars) },
            StepRes::Done,
        ),
        StmtV::Define(x) => if find_idx(st.vars, x) != -1 {
            (st, StepRes::Fail(ErrV::DuplicateVariableDefinition(x)))
        } else {
            (
                StateV { vars: st.vars.push((x, 0)), funcs: st.funcs, out: st.out },
                StepRes::Done,
            )
        },
        StmtV::Assign(x, e) => match eval_expr(e, st.vars) {
            Err(er) => (st, StepRes::Fail(er)),
            Ok(v) => {
                let i = find_idx(st.vars, x);
                if i == -1 {
                    (st, StepRes::Fail(ErrV::UndefinedVariable(x)))
                } else {
                    (
                        StateV { vars: st.vars.update(i, (x, v)), funcs: st.funcs, out: st.out },
                        StepRes::Done,
                    )
                }
            },
        },
        StmtV::ModAssign(x, e) => match eval_expr(e, st.vars) {
            Err(er) => (st, StepRes::Fail(er)),
            Ok(v) => {
                let i = find_idx(st.vars, x);
                if i == -1 {
                    (st, StepRes::Fail(ErrV::UndefinedVariable(x)))
                } else {
                    (
                        StateV {
                            vars: st.vars.update(i, (x, st.vars[i].1 + v)),
                            funcs: st.funcs,
                            out: st.out,
                        },
                        StepRes::Done,
                    )
                }
            },
        },
        StmtV::Print(x) => match assoc(st.vars, x) {
            None => (st, StepRes::Fail(ErrV::UndefinedVariable(x))),
            Some(v) => (
                StateV { vars: st.vars, funcs: st.funcs, out: st.out + print_line(x, v) },
                StepRes::Done,
            ),
        },
        StmtV::Condition(x, n, a, b) => match assoc(st.vars, x) {
            None => (st, StepRes::Fail(ErrV::UndefinedVariable(x))),
            Some(v) => (
                st,
                StepRes::Push(
                    seq![
                        if v >= n {
                            *a
                        } else {
                            *b
                        },
                    ],
                ),
            ),
        },
        StmtV::Function(f, body) => if find_idx(st.funcs, f) != -1 {
            (st, StepRes::Fail(ErrV::DuplicateFunctionDefinition(f)))
        } else {
            (
                StateV { vars: st.vars, funcs: st.funcs.push((f, body)), out: st.out },
                StepRes::Done,
            )
        },
        StmtV::Call(f) => match assoc(st.funcs, f) {
            None => (st, StepRes::Fail(ErrV::UndefinedFunctionCall(f))),
            Some(body) => (st, StepRes::Push(body)),
        },
    }
}

pub open spec fn rev_seq(s: Seq<StmtV>) -> Seq<StmtV> {
    Seq::new(s.len(), |i: int| s[s.len() - 1 - i])
}

/// Run the machine with the given fuel: the top of the stack is its last
/// element; statements pushed by a step are executed before the rest. `None`
/// means the fuel ran out; otherwise the final state and the first failure,
/// if any.
pub open spec fn run(fuel: nat, stack: Seq<StmtV>, st: StateV) -> Option<(StateV, Option<ErrV>)>
    decreases fuel,
{
    if stack.len() == 0 {
        Some((st, None))
    } else if fuel == 0 {
        None
    } else {
        let s = stack.last();
        let rest = stack.drop_last();
        let (st2, res) = step(s, st);
        match res {
            StepRes::Done => run((fuel - 1) as nat, rest, st2),
            StepRes::Push(more) => run((fuel - 1) as nat, rest + rev_seq(more), st2),
            StepRes::Fail(e) => Some((st2, Some(e))),
        }
    }
}

/// A step only fails with one of the five semantic error kinds, never with
/// the evaluator's own step-budget guard.
pub proof fn lemma_step_fail_kind(s: StmtV, st: StateV)
    ensures
        step(s, st).1 != StepRes::Fail(ErrV::StepLimitExceeded),
{
    match s {
        StmtV::Noop => {},
        StmtV::Stats => {},
        StmtV::Define(_) => {},
        StmtV::Assign(x, e) => {
            lemma_eval_expr_fail_kind(e, st.vars);
        },
        StmtV::ModAssign(x, e) => {
            lemma_eval_expr_fail_kind(e, st.vars);
        },
        StmtV::Print(_) => {},
        StmtV::Condition(_, _, _, _) => {},
        StmtV::Function(_, _) => {},
        StmtV::Call(_) => {},
    }
}

/// Expression evaluation only fails by an undefined variable.
pub proof fn lemma_eval_expr_fail_kind(e: ExprV, vars: Seq<(Seq<u8>, int)>)
    ensures
        forall|er: ErrV| eval_expr(e, vars) == Err::<int, ErrV>(er) ==> er is UndefinedVariable,
    decreases e,
{
    match e {
        ExprV::Integer(_) => {},
        ExprV::Literal(_) => {},
        ExprV::Add(l, r) => {
            lemma_eval_expr_fail_kind(*l, vars);
            lemma_eval_expr_fail_kind(*r, vars);
        },
        ExprV::Sub(l, r) => {
            lemma_eval_expr_fail_kind(*l, vars);
            lemma_eval_expr_fail_kind(*r, vars);
        },
    }
}

/// The machine, from the given stack and state, reaches this outcome with
/// some amount of fuel.
pub open spec fn evals_to(stack: Seq<StmtV>, st: StateV, o: (StateV, Option<ErrV>)) -> bool {
    exists|f: nat| run(f, stack, st) == Some(o)
}

pub open spec fn err_of(r: Result<(), EvalError>) -> Option<ErrV> {
    match r {
        Ok(_) => None,
        Err(e) => Some(e@),
    }
}

pub open spec fn step_res_of(r: Result<(), EvalError>) -> StepRes {
    match r {
        Ok(_) => StepRes::Done,
        Err(e) => StepRes::Fail(e@),
    }
}

/// The most machine steps one `eval` call will take before giving up.
pub const STEP_BUDGET: u64 = 0xffff_ffff_ffff_ffff;

/// What a step leaves to execute next.
pub open spec fn step_push_of(res: StepRes) -> Seq<StmtV> {
    match res {
        StepRes::Push(m) => rev_seq(m),
        _ => Seq::empty(),
    }
}

/// For any name not in the store, printing it, assigning to it (with any
/// expression that itself evaluates), adding to it, and branching on it each
/// fail with an undefined-variable error carrying that name, and leave the
/// state unchanged.
pub proof fn lemma_undefined_variable_fails(st: StateV, x: Seq<u8>, e: ExprV, n: int, a: StmtV, b: StmtV)
    requires
        assoc::<int>(st.vars, x) is None,
    ensures
        step(StmtV::Print(x), st) == (st, StepRes::Fail(ErrV::UndefinedVariable(x))),
        step(StmtV::Condition(x, n, Box::new(a), Box::new(b)), st) == (
            st,
            StepRes::Fail(ErrV::UndefinedVariable(x)),
        ),
        eval_expr(e, st.vars) is Ok ==> step(StmtV::Assign(x, e), st) == (
            st,
            StepRes::Fail(ErrV::UndefinedVariable(x)),
        ),
        eval_expr(e, st.vars) is Ok ==> step(StmtV::ModAssign(x, e), st) == (
            st,
            StepRes::Fail(ErrV::UndefinedVariable(x)),
        ),
{
}

/// Defining a name and then defining it again fails with a
/// duplicate-variable error carrying that name; the first definition stands.
pub proof fn lemma_duplicate_define_fails(st: StateV, x: Seq<u8>)
    requires
        assoc::<int>(st.vars, x) is None,
    ensures
        ({
            let st1 = StateV { vars: st.vars.push((x, 0)), funcs: st.funcs, out: st.out };
            &&& step(StmtV::Define(x), st) == (st1, StepRes::Done)
            &&& step(StmtV::Define(x), st1) == (
                st1,
                StepRes::Fail(ErrV::DuplicateVariableDefinition(x)),
            )
            &&& run(2, rev_seq(seq![StmtV::Define(x), StmtV::Define(x)]), st) == Some(
                (st1, Some(ErrV::DuplicateVariableDefinition(x))),
            )
        }),
{
    let st1 = StateV { vars: st.vars.push((x, 0)), funcs: st.funcs, out: st.out };
    lemma_find_idx(st1.vars, x);
    assert(st1.vars[st.vars.len() as int].0 == x);
    assert(find_idx(st1.vars, x) != -1);
    let stack = rev_seq(seq![StmtV::Define(x), StmtV::Define(x)]);
    assert(stack.len() == 2);
    assert(stack.last() == StmtV::Define(x));
    assert(stack.drop_last() =~= seq![StmtV::Define(x)]);
    assert(seq![StmtV::Define(x)].drop_last() =~= Seq::<StmtV>::empty());
    assert(run(2, stack, st) == run(1, seq![StmtV::Define(x)], st1));
}

/// Declaring a function name twice fails with a duplicate-function error
/// carrying that name, whatever the two bodies are.
pub proof fn lemma_duplicate_function_fails(st: StateV, f: Seq<u8>, body1: Seq<StmtV>, body2: Seq<StmtV>)
    requires
        assoc::<Seq<StmtV>>(st.funcs, f) is None,
    ensures
        ({
            let st1 = StateV { vars: st.vars, funcs: st.funcs.push((f, body1)), out: st.out };
            &&& step(StmtV::Function(f, body1), st) == (st1, StepRes::Done)
            &&& step(StmtV::Function(f, body2), st1) == (
                st1,
                StepRes::Fail(ErrV::DuplicateFunctionDefinition(f)),
            )
        }),
{
    let st1 = StateV { vars: st.vars, funcs: st.funcs.push((f, body1)), out: st.out };
    lemma_find_idx(st1.funcs, f);
    assert(st1.funcs[st.funcs.len() as int].0 == f);
    assert(find_idx(st1.funcs, f) != -1);
}

/// Calling a name never declared as a function fails with an
/// undefined-function error carrying that name.
pub proof fn lemma_undefined_call_fails(st: StateV, g: Seq<u8>)
    requires
        assoc::<Seq<StmtV>>(st.funcs, g) is None,
    ensures
        step(StmtV::Call(g), st) == (st, StepRes::Fail(ErrV::UndefinedFunctionCall(g))),
{
}

/// Boundary law: a branch takes its first arm when the stored value equals
/// or exceeds the threshold, and its second arm only below it.
pub proof fn lemma_condition_boundary(st: StateV, x: Seq<u8>, n: int, a: StmtV, b: StmtV)
    requires
        assoc::<int>(st.vars, x) is Some,
    ensures
        ({
            let v = assoc::<int>(st.vars, x)->Some_0;
            &&& v == n ==> step(StmtV::Condition(x, n, Box::new(a), Box::new(b)), st) == (
                st,
                StepRes::Push(seq![a]),
            )
            &&& v > n ==> step(StmtV::Condition(x, n, Box::new(a), Box::new(b)), st) == (
                st,
                StepRes::Push(seq![a]),
            )
            &&& v < n ==> step(StmtV::Condition(x, n, Box::new(a), Box::new(b)), st) == (
                st,
                StepRes::Push(seq![b]),
            )
        }),
{
}

/// Adding a delta to a variable adds exactly that delta — a negative delta
/// decrements — and two additions in sequence compose exactly, over the
/// unbounded integers, with no overflow at any magnitude.
pub proof fn lemma_mod_assign_composes(st: StateV, x: Seq<u8>, d1: int, d2: int)
    requires
        assoc::<int>(st.vars, x) is Some,
    ensures
        ({
            let v = assoc::<int>(st.vars, x)->Some_0;
            let st1 = step(StmtV::ModAssign(x, ExprV::Integer(d1)), st).0;
            let st2 = step(StmtV::ModAssign(x, ExprV::Integer(d2)), st1).0;
            &&& step(StmtV::ModAssign(x, ExprV::Integer(d1)), st).1 == StepRes::Done
            &&& assoc::<int>(st1.vars, x) == Some(v + d1)
            &&& step(StmtV::ModAssign(x, ExprV::Integer(d2)), st1).1 == StepRes::Done
            &&& assoc::<int>(st2.vars, x) == Some(v + d1 + d2)
        }),
{
    let i = find_idx(st.vars, x);
    lemma_find_idx(st.vars, x);
    let v = st.vars[i].1;
    let vars1 = st.vars.update(i, (x, v + d1));
    assert(vars1[i].0 == x);
    assert forall|k: int| 0 <= k < i implies (#[trigger] vars1[k]).0 != x by {
        assert(vars1[k] == st.vars[k]);
    }
    lemma_find_idx_is(vars1, x, i);
    let vars2 = vars1.update(i, (x, v + d1 + d2));
    assert(vars2[i].0 == x);
    assert forall|k: int| 0 <= k < i implies (#[trigger] vars2[k]).0 != x by {
        assert(vars2[k] == st.vars[k]);
    }
    lemma_find_idx_is(vars2, x, i);
}

/// Expression association: `a + (b - 1)` evaluates the right-nested chain,
/// never `(a + b) - 1` reassociated, for any store defining both names.
pub proof fn lemma_expression_association(vars: Seq<(Seq<u8>, int)>, a: Seq<u8>, b: Seq<u8>)
    requires
        assoc::<int>(vars, a) is Some,
        assoc::<int>(vars, b) is Some,
    ensures
        eval_expr(
            ExprV::Add(
                Box::new(ExprV::Literal(a)),
                Box::new(ExprV::Sub(Box::new(ExprV::Literal(b)), Box::new(ExprV::Integer(1)))),
            ),
            vars,
        ) == Ok::<int, ErrV>(assoc::<int>(vars, a)->Some_0 + (assoc::<int>(vars, b)->Some_0 - 1)),
{
    reveal_with_fuel(eval_expr, 4);
}

fn push_bytes(out: &mut Vec<u8>, s: &Vec<u8>) -> (r: ())
    ensures
        final(out)@ == old(out)@ + s@,
{
    let mut i: usize = 0;
    while i < s.len()
        invariant
            i <= s@.len(),
            out@ == old(out)@ + s@.take(i as int),
        decreases s@.len() - i,
    {
        out.push(s[i]);
        proof {
            assert(old(out)@ + s@.take(i + 1) =~= (old(out)@ + s@.take(i as int)).push(
                s@[i as int],
            ));
        }
        i += 1;
    }
    proof {
        assert(s@.take(s@.len() as int) =~= s@);
    }
}

fn copy_expression(e: &Expression) -> (r: Expression)
    ensures
        expr_view(r) == expr_view(*e),
    decreases *e,
{
    match e {
        Expression::Literal(n) => Expression::Literal(copy_bytes(n)),
        Expression::Integer(b) => Expression::Integer(b.dup()),
        Expression::Add(l, r2) => Expression::Add(
            Box::new(copy_expression(&**l)),
            Box::new(copy_expression(&**r2)),
        ),
        Expression::Sub(l, r2) => Expression::Sub(
            Box::new(copy_expression(&**l)),
            Box::new(copy_expression(&**r2)),
        ),
    }
}

fn copy_statement(s: &Statement) -> (r: Statement)
    ensures
        stmt_view(r) == stmt_view(*s),
    decreases *s,
{
    match s {
        Statement::Noop => Statement::Noop,
        Statement::Stats => Statement::Stats,
        Statement::Define(x) => Statement::Define(copy_bytes(x)),
        Statement::Call(x) => Statement::Call(copy_bytes(x)),
        Statement::Print(x) => Statement::Print(copy_bytes(x)),
        Statement::Assign(x, e) => Statement::Assign(copy_bytes(x), copy_expression(e)),
        Statement::ModAssign(x, e) => Statement::ModAssign(copy_bytes(x), copy_expression(e)),
        Statement::Condition(x, v, a, b) => Statement::Condition(
            copy_bytes(x),
            v.dup(),
            Box::new(copy_statement(&**a)),
            Box::new(copy_statement(&**b)),
        ),
        Statement::Function(x, body) => {
            let mut nb: Vec<Statement> = Vec::new();
            let mut i: usize = 0;
            while i < body.len()
                invariant
                    *s == Statement::Function(*x, *body),
                    i <= body@.len(),
                    nb@.len() == i,
                    forall|k: int| 0 <= k < i ==> stmt_view(#[trigger] nb@[k]) == stmt_view(
                        body@[k],
                    ),
                decreases body@.len() - i,
            {
                proof {
                    assert(s->Function_1 == *body);
                    assert(decreases_to!(*s => s->Function_1));
                    assert(decreases_to!(*body => body@[i as int]));
                }
                nb.push(copy_statement(&body[i]));
                i += 1;
            }
            proof {
                lemma_stmts_view(nb@);
                lemma_stmts_view(body@);
                assert(stmts_view(nb@) =~= stmts_view(body@));
            }
            Statement::Function(copy_bytes(x), nb)
        },
    }
}

/// The evaluator: variable store and function registry in insertion order,
/// and the output sink, an in-memory byte buffer.
pub struct State {
    pub variables: Vec<(Vec<u8>, BigInt)>,
    pub functions: Vec<(Vec<u8>, Vec<Statement>)>,
    pub out: Vec<u8>,
}

impl View for State {
    type V = StateV;

    open spec fn view(&self) -> StateV {
        StateV {
            vars: self.variables@.map_values(|p: (Vec<u8>, BigInt)| (p.0@, p.1@)),
            funcs: self.functions@.map_values(|p: (Vec<u8>, Vec<Statement>)| (p.0@, stmts_view(p.1@))),
            out: self.out@,
        }
    }
}

impl State {
    /// A fresh evaluator writing to an empty in-memory sink.
    pub fn new() -> (r: State)
        ensures
            r@.vars == Seq::<(Seq<u8>, int)>::empty(),
            r@.funcs == Seq::<(Seq<u8>, Seq<StmtV>)>::empty(),
            r@.out == Seq::<u8>::empty(),
    {
        let r = State { variables: Vec::new(), functions: Vec::new(), out: Vec::new() };
        proof {
            assert(r@.vars =~= Seq::<(Seq<u8>, int)>::empty());
            assert(r@.funcs =~= Seq::<(Seq<u8>, Seq<StmtV>)>::empty());
        }
        r
    }

    /// A fresh evaluator appending to the given sink buffer.
    pub fn new_with_out(out: Vec<u8>) -> (r: State)
        ensures
            r@.vars == Seq::<(Seq<u8>, int)>::empty(),
            r@.funcs == Seq::<(Seq<u8>, Seq<StmtV>)>::empty(),
            r@.out == out@,
    {
        let r = State { variables: Vec::new(), functions: Vec::new(), out };
        proof {
            assert(r@.vars =~= Seq::<(Seq<u8>, int)>::empty());
            assert(r@.funcs =~= Seq::<(Seq<u8>, Seq<StmtV>)>::empty());
        }
        r
    }

    fn find_var(&self, x: &Vec<u8>) -> (r: Option<usize>)
        ensures
            match r {
                Some(i) => i < self.variables@.len() && find_idx(self@.vars, x@) == i,
                None => find_idx(self@.vars, x@) == -1,
            },
    {
        let mut i: usize = 0;
        while i < self.variables.len()
            invariant
                i <= self.variables@.len(),
                forall|k: int| 0 <= k < i ==> (#[trigger] self@.vars[k]).0 != x@,
            decreases self.variables@.len() - i,
        {
            if bytes_eq(&self.variables[i].0, x) {
                proof {
                    assert(self@.vars[i as int] == (
                        self.variables@[i as int].0@,
                        self.variables@[i as int].1@,
                    ));
                    lemma_find_idx_is(self@.vars, x@, i as int);
                }
                return Some(i);
            }
            i += 1;
        }
        proof {
            lemma_find_idx(self@.vars, x@);
        }
        None
    }

    fn find_fn(&self, x: &Vec<u8>) -> (r: Option<usize>)
        ensures
            match r {
                Some(i) => i < self.functions@.len() && find_idx(self@.funcs, x@) == i,
                None => find_idx(self@.funcs, x@) == -1,
            },
    {
        let mut i: usize = 0;
        while i < self.functions.len()
            invariant
                i <= self.functions@.len(),
                forall|k: int| 0 <= k < i ==> (#[trigger] self@.funcs[k]).0 != x@,
            decreases self.functions@.len() - i,
        {
            if bytes_eq(&self.functions[i].0, x) {
                proof {
                    assert(self@.funcs[i as int] == (
                        self.functions@[i as int].0@,
                        stmts_view(self.functions@[i as int].1@),
                    ));
                    lemma_find_idx_is(self@.funcs, x@, i as int);
                }
                return Some(i);
            }
            i += 1;
        }
        proof {
            lemma_find_idx(self@.funcs, x@);
        }
        None
    }

    /// Evaluate an expression to an integer against the current store.
    fn eval_arithmetics(&self, expr: &Expression) -> (r: Result<BigInt, EvalError>)
        ensures
            match r {
                Ok(v) => eval_expr(expr_view(*expr), self@.vars) == Ok::<int, ErrV>(v@),
                Err(e) => eval_expr(expr_view(*expr), self@.vars) == Err::<int, ErrV>(e@),
            },
        decreases *expr,
    {
        match expr {
            Expression::Integer(x) => Ok(x.dup()),
            Expression::Literal(x) => match self.find_var(x) {
                Some(i) => Ok(self.variables[i].1.dup()),
                None => Err(EvalError::UndefinedVariable(copy_bytes(x))),
            },
            Expression::Add(l, r2) => match self.eval_arithmetics(&**l) {
                Ok(a) => match self.eval_arithmetics(&**r2) {
                    Ok(b) => Ok(a.add(&b)),
                    Err(e) => Err(e),
                },
                Err(e) => Err(e),
            },
            Expression::Sub(l, r2) => match self.eval_arithmetics(&**l) {
                Ok(a) => match self.eval_arithmetics(&**r2) {
                    Ok(b) => Ok(a.sub(&b)),
                    Err(e) => Err(e),
                },
                Err(e) => Err(e),
            },
        }
    }

    /// Introduce a variable with initial value zero; a second introduction
    /// of the same name fails.
    fn define_variable(&mut self, x: &Vec<u8>) -> (r: Result<(), EvalError>)
        ensures
            final(self)@ == step(StmtV::Define(x@), old(self)@).0,
            step_res_of(r) == step(StmtV::Define(x@), old(self)@).1,
    {
        match self.find_var(x) {
            Some(_) => Err(EvalError::DuplicateVariableDefinition(copy_bytes(x))),
            None => {
                self.variables.push((copy_bytes(x), BigInt::zero()));
                proof {
                    assert(self@.vars =~= old(self)@.vars.push((x@, 0)));
                    assert(self@ =~= step(StmtV::Define(x@), old(self)@).0);
                }
                Ok(())
            },
        }
    }

    /// Evaluate the expression and store the result: overwrite the variable,
    /// or, incrementally, add the result to it.
    fn assign_variable(&mut self, x: &Vec<u8>, expr: &Expression, incremental: bool) -> (r: Result<
        (),
        EvalError,
    >)
        ensures
            final(self)@ == step(
                if incremental {
                    StmtV::ModAssign(x@, expr_view(*expr))
                } else {
                    StmtV::Assign(x@, expr_view(*expr))
                },
                old(self)@,
            ).0,
            step_res_of(r) == step(
                if incremental {
                    StmtV::ModAssign(x@, expr_view(*expr))
                } else {
                    StmtV::Assign(x@, expr_view(*expr))
                },
                old(self)@,
            ).1,
    {
        let result = match self.eval_arithmetics(expr) {
            Ok(v) => v,
            Err(e) => {
                return Err(e);
            },
        };
        match self.find_var(x) {
            None => Err(EvalError::UndefinedVariable(copy_bytes(x))),
            Some(i) => {
                let name = copy_bytes(&self.variables[i].0);
                let nv = if incremental {
                    self.variables[i].1.add(&result)
                } else {
                    result
                };
                let slot = vstd::std_specs::vec::vec_index_mut(&mut self.variables, i);
                *slot = (name, nv);
                proof {
                    let sv = if incremental {
                        StmtV::ModAssign(x@, expr_view(*expr))
                    } else {
                        StmtV::Assign(x@, expr_view(*expr))
                    };
                    let st0 = old(self)@;
                    let ii = find_idx(st0.vars, x@);
                    lemma_find_idx(st0.vars, x@);
                    assert(ii == i);
                    assert(st0.vars[ii].0 == x@);
                    assert(self@.vars =~= st0.vars.update(
                        ii,
                        (
                            x@,
                            if incremental {
                                st0.vars[ii].1 + eval_expr(expr_view(*expr), st0.vars)->Ok_0
                            } else {
                                eval_expr(expr_view(*expr), st0.vars)->Ok_0
                            },
                        ),
                    ));
                    assert(self@ =~= step(sv, st0).0);
                }
                Ok(())
            },
        }
    }

    /// Print one variable as `"<name>: <value>\n"`.
    fn print_variable(&mut self, x: &Vec<u8>) -> (r: Result<(), EvalError>)
        ensures
            final(self)@ == step(StmtV::Print(x@), old(self)@).0,
            step_res_of(r) == step(StmtV::Print(x@), old(self)@).1,
    {
        match self.find_var(x) {
            None => Err(EvalError::UndefinedVariable(copy_bytes(x))),
            Some(i) => {
                let dec = self.variables[i].1.to_decimal();
                let name = copy_bytes(&self.variables[i].0);
                push_bytes(&mut self.out, &name);
                self.out.push(58);
                self.out.push(32);
                push_bytes(&mut self.out, &dec);
                self.out.push(10);
                proof {
                    let st0 = old(self)@;
                    let v = st0.vars[find_idx(st0.vars, x@)].1;
                    lemma_find_idx(st0.vars, x@);
                    assert(st0.vars[find_idx(st0.vars, x@)].0 == x@);
                    assert(self@.out =~= st0.out + print_line(x@, v));
                    assert(self@ =~= step(StmtV::Print(x@), st0).0);
                }
                Ok(())
            },
        }
    }

    /// Dump every defined variable, in store order, with no separators.
    fn print_stats(&mut self) -> (r: Result<(), EvalError>)
        ensures
            final(self)@ == step(StmtV::Stats, old(self)@).0,
            step_res_of(r) == step(StmtV::Stats, old(self)@).1,
    {
        let n = self.variables.len();
        let mut i: usize = 0;
        while i < n
            invariant
                n == self.variables@.len(),
                i <= n,
                self.variables@ == old(self).variables@,
                self.functions@ == old(self).functions@,
                self.out@ == old(self).out@ + stats_out(self@.vars.take(i as int)),
            decreases n - i,
        {
            let dec = self.variables[i].1.to_decimal();
            let name = copy_bytes(&self.variables[i].0);
            push_bytes(&mut self.out, &name);
            self.out.push(58);
            self.out.push(32);
            push_bytes(&mut self.out, &dec);
            proof {
                let vs = self@.vars;
                assert(vs.take(i + 1).drop_last() =~= vs.take(i as int));
                assert(vs.take(i + 1).last() == vs[i as int]);
                assert(self.out@ =~= old(self).out@ + stats_out(vs.take(i + 1)));
            }
            i += 1;
        }
        proof {
            assert(self@.vars.take(n as int) =~= self@.vars);
            assert(self@ =~= step(StmtV::Stats, old(self)@).0);
        }
        Ok(())
    }

    /// Decide a branch: whether the variable's current value is at least the
    /// threshold, boundary included.
    fn condition(&self, x: &Vec<u8>, val: &BigInt) -> (r: Result<bool, EvalError>)
        ensures
            match r {
                Ok(b) => {
                    &&& assoc(self@.vars, x@) is Some
                    &&& b == (assoc(self@.vars, x@)->Some_0 >= val@)
                },
                Err(e) => assoc(self@.vars, x@) is None && e@ == ErrV::UndefinedVariable(x@),
            },
    {
        match self.find_var(x) {
            None => Err(EvalError::UndefinedVariable(copy_bytes(x))),
            Some(i) => Ok(self.variables[i].1.ge(val)),
        }
    }

    /// Register a function body under its name; a second declaration of the
    /// same name fails.
    fn declare_function(&mut self, x: &Vec<u8>, body: &Vec<Statement>) -> (r: Result<
        (),
        EvalError,
    >)
        ensures
            final(self)@ == step(StmtV::Function(x@, stmts_view(body@)), old(self)@).0,
            step_res_of(r) == step(StmtV::Function(x@, stmts_view(body@)), old(self)@).1,
    {
        match self.find_fn(x) {
            Some(_) => Err(EvalError::DuplicateFunctionDefinition(copy_bytes(x))),
            None => {
                let mut nb: Vec<Statement> = Vec::new();
                let mut i: usize = 0;
                while i < body.len()
                    invariant
                        i <= body@.len(),
                        nb@.len() == i,
                        forall|k: int| 0 <= k < i ==> stmt_view(#[trigger] nb@[k]) == stmt_view(
                            body@[k],
                        ),
                    decreases body@.len() - i,
                {
                    nb.push(copy_statement(&body[i]));
                    i += 1;
                }
                proof {
                    lemma_stmts_view(nb@);
                    lemma_stmts_view(body@);
                    assert(stmts_view(nb@) =~= stmts_view(body@));
                }
                self.functions.push((copy_bytes(x), nb));
                proof {
                    assert(self@.funcs =~= old(self)@.funcs.push((x@, stmts_view(body@))));
                    assert(self@ =~= step(StmtV::Function(x@, stmts_view(body@)), old(self)@).0);
                }
                Ok(())
            },
        }
    }

    /// Look up a function's body, late-bound at call time.
    fn call_function(&self, x: &Vec<u8>) -> (r: Result<Vec<Statement>, EvalError>)
        ensures
            match r {
                Ok(body) => assoc(self@.funcs, x@) == Some(stmts_view(body@)),
                Err(e) => assoc(self@.funcs, x@) is None && e@ == ErrV::UndefinedFunctionCall(x@),
            },
    {
        match self.find_fn(x) {
            None => Err(EvalError::UndefinedFunctionCall(copy_bytes(x))),
            Some(i) => {
                let body = &self.functions[i].1;
                let mut nb: Vec<Statement> = Vec::new();
                let mut k: usize = 0;
                while k < body.len()
                    invariant
                        k <= body@.len(),
                        nb@.len() == k,
                        body == &self.functions@[i as int].1,
                        i < self.functions@.len(),
                        forall|j: int| 0 <= j < k ==> stmt_view(#[trigger] nb@[j]) == stmt_view(
                            body@[j],
                        ),
                    decreases body@.len() - k,
                {
                    nb.push(copy_statement(&body[k]));
                    k += 1;
                }
                proof {
                    lemma_stmts_view(nb@);
                    lemma_stmts_view(body@);
                    assert(stmts_view(nb@) =~= stmts_view(body@));
                }
                Ok(nb)
            },
        }
    }

    /// Execute one statement: mutate the state as its step prescribes, and
    /// push onto the work stack whatever that step leaves to execute.
    fn eval_statement(&mut self, s: &Statement, stack: &mut Vec<Statement>) -> (r: Result<
        (),
        EvalError,
    >)
        ensures
            final(self)@ == step(stmt_view(*s), old(self)@).0,
            r is Ok <==> !(step(stmt_view(*s), old(self)@).1 is Fail),
            r matches Err(e) ==> step(stmt_view(*s), old(self)@).1 == StepRes::Fail(e@),
            stmts_view(final(stack)@) == stmts_view(old(stack)@) + step_push_of(
                step(stmt_view(*s), old(self)@).1,
            ),
    {
        proof {
            lemma_stmts_view(stack@);
        }
        let r: Result<(), EvalError> = match s {
            Statement::Noop => Ok(()),
            Statement::Stats => self.print_stats(),
            Statement::Define(x) => self.define_variable(x),
            Statement::Assign(x, e) => self.assign_variable(x, e, false),
            Statement::ModAssign(x, e) => self.assign_variable(x, e, true),
            Statement::Print(x) => self.print_variable(x),
            Statement::Call(x) => match self.call_function(x) {
                Err(e) => Err(e),
                Ok(body) => {
                    let ghost pre = stack@;
                    let ghost bodyv = stmts_view(body@);
                    proof {
                        lemma_stmts_view(body@);
                        assert(rev_seq(bodyv).take(0) =~= Seq::<StmtV>::empty());
                        assert(stmts_view(stack@) =~= stmts_view(pre) + rev_seq(bodyv).take(0));
                    }
                    let mut k: usize = body.len();
                    while k > 0
                        invariant
                            k <= body@.len(),
                            bodyv == stmts_view(body@),
                            bodyv.len() == body@.len(),
                            stmts_view(stack@) == stmts_view(pre) + rev_seq(bodyv).take(
                                body@.len() - k,
                            ),
                            forall|j: int| 0 <= j < body@.len() ==> #[trigger] bodyv[j]
                                == stmt_view(body@[j]),
                        decreases k,
                    {
                        let ghost stk0 = stack@;
                        stack.push(copy_statement(&body[k - 1]));
                        proof {
                            lemma_stmts_view(stack@);
                            lemma_stmts_view(stk0);
                            assert(stmts_view(stack@) =~= stmts_view(stk0).push(
                                stmt_view(body@[k - 1]),
                            ));
                            assert(rev_seq(bodyv).take(body@.len() - (k - 1)) =~= rev_seq(
                                bodyv,
                            ).take(body@.len() - k).push(bodyv[k - 1]));
                        }
                        k -= 1;
                    }
                    proof {
                        assert(rev_seq(bodyv).take(body@.len() as int) =~= rev_seq(bodyv));
                    }
                    Ok(())
                },
            },
            Statement::Condition(x, val, a, b) => match self.condition(x, val) {
                Err(e) => Err(e),
                Ok(take_then) => {
                    let branch = if take_then {
                        copy_statement(&**a)
                    } else {
                        copy_statement(&**b)
                    };
                    let ghost stk0 = stack@;
                    stack.push(branch);
                    proof {
                        lemma_stmts_view(stack@);
                        lemma_stmts_view(stk0);
                        let bv = if take_then {
                            stmt_view(*(*a))
                        } else {
                            stmt_view(*(*b))
                        };
                        assert(stmts_view(stack@) =~= stmts_view(stk0) + rev_seq(seq![bv]));
                    }
                    Ok(())
                },
            },
            Statement::Function(x, body) => self.declare_function(x, body),
        };
        proof {
            if !(step(stmt_view(*s), old(self)@).1 is Push) {
                assert(stmts_view(stack@) =~= stmts_view(old(stack)@) + Seq::<StmtV>::empty());
            }
        }
        r
    }

    /// Execute a program: its statements in order, fail-fast on the first
    /// error. The result and the state afterwards are exactly an outcome of
    /// the small-step machine started on the program. A program that has not
    /// halted after an astronomically large number of machine steps is cut
    /// off with a guarded error instead of running the host out of stack.
    pub fn eval(&mut self, program: &[Statement]) -> (r: Result<(), EvalError>)
        ensures
            r != Err::<(), EvalError>(EvalError::StepLimitExceeded) ==> evals_to(
                rev_seq(stmts_view(program@)),
                old(self)@,
                (final(self)@, err_of(r)),
            ),
            r == Err::<(), EvalError>(EvalError::StepLimitExceeded) ==> run(
                STEP_BUDGET as nat,
                rev_seq(stmts_view(program@)),
                old(self)@,
            ) is None,
    {
        let ghost st0 = self@;
        let ghost progv = stmts_view(program@);
        let ghost init_stack = rev_seq(progv);
        proof {
            lemma_stmts_view(program@);
        }
        let mut stack: Vec<Statement> = Vec::new();
        let mut k: usize = program.len();
        while k > 0
            invariant
                k <= program@.len(),
                progv == stmts_view(program@),
                progv.len() == program@.len(),
                stmts_view(stack@) == rev_seq(progv).take(program@.len() - k),
                forall|j: int| 0 <= j < program@.len() ==> #[trigger] progv[j] == stmt_view(
                    program@[j],
                ),
            decreases k,
        {
            let ghost stk0 = stack@;
            stack.push(copy_statement(&program[k - 1]));
            proof {
                lemma_stmts_view(stack@);
                lemma_stmts_view(stk0);
                assert(stmts_view(stack@) =~= stmts_view(stk0).push(stmt_view(program@[k - 1])));
                assert(rev_seq(progv).take(program@.len() - (k - 1)) =~= rev_seq(progv).take(
                    program@.len() - k,
                ).push(progv[k - 1]));
            }
            k -= 1;
        }
        proof {
            assert(rev_seq(progv).take(program@.len() as int) =~= rev_seq(progv));
            assert(stmts_view(stack@) == init_stack);
        }
        let mut budget: u64 = STEP_BUDGET;
        while budget > 0
            invariant
                budget <= STEP_BUDGET,
                st0 == old(self)@,
                progv == stmts_view(program@),
                init_stack == rev_seq(progv),
                forall|f: nat| run(f + (STEP_BUDGET - budget) as nat, init_stack, st0)
                    == #[trigger] run(f, stmts_view(stack@), self@),
            decreases budget,
        {
            if stack.len() == 0 {
                proof {
                    lemma_stmts_view(stack@);
                    assert(stmts_view(stack@) =~= Seq::<StmtV>::empty());
                    let c = (STEP_BUDGET - budget) as nat;
                    let o = (self@, None::<ErrV>);
                    assert(run(0, stmts_view(stack@), self@) == Some(o));
                    assert(run(0 + c, init_stack, st0) == Some(o));
                    assert(run(c, init_stack, st0) == Some(o));
                    assert(evals_to(init_stack, st0, o));
                }
                return Ok(());
            }
            let ghost full = stmts_view(stack@);
            let ghost pre_st = self@;
            let ghost c = (STEP_BUDGET - budget) as nat;
            let s = stack.pop().unwrap();
            proof {
                lemma_stmts_view(stack@);
                assert(full.len() > 0);
                assert(stmts_view(stack@) =~= full.drop_last());
                assert(full.last() == stmt_view(s));
            }
            let ghost rest = stmts_view(stack@);
            let r = self.eval_statement(&s, &mut stack);
            proof {
                let stepped = step(stmt_view(s), pre_st);
                let st2 = stepped.0;
                let res = stepped.1;
                assert(self@ == st2);
                match &r {
                    Err(e) => {
                        let o = (st2, Some(e@));
                        assert(run(1, full, pre_st) == Some(o));
                        assert(run(1 + c, init_stack, st0) == Some(o));
                        assert(run((c + 1) as nat, init_stack, st0) == Some(o));
                        assert(evals_to(init_stack, st0, o));
                        lemma_step_fail_kind(stmt_view(s), pre_st);
                        assert(e@ != ErrV::StepLimitExceeded);
                        assert(*e != EvalError::StepLimitExceeded);
                    },
                    Ok(_) => {
                        let newv = stmts_view(stack@);
                        assert(newv == rest + step_push_of(res));
                        assert forall|f: nat| run(
                            f + (STEP_BUDGET - (budget - 1)) as nat,
                            init_stack,
                            st0,
                        ) == #[trigger] run(f, newv, st2) by {
                            assert(run((f + 1) + c, init_stack, st0) == run(f + 1, full, pre_st));
                            match res {
                                StepRes::Done => {
                                    assert(newv =~= full.drop_last());
                                    assert(run(f + 1, full, pre_st) == run(f, newv, st2));
                                },
                                StepRes::Push(m) => {
                                    assert(newv =~= full.drop_last() + rev_seq(m));
                                    assert(run(f + 1, full, pre_st) == run(f, newv, st2));
                                },
                                StepRes::Fail(_) => {},
                            }
                            assert(f + (STEP_BUDGET - (budget - 1)) as nat == (f + 1) + c);
                        }
                    },
                }
            }
            if let Err(e) = r {
                return Err(e);
            }
            budget = budget - 1;
        }
        if stack.len() == 0 {
            proof {
                lemma_stmts_view(stack@);
                assert(stmts_view(stack@) =~= Seq::<StmtV>::empty());
                let o = (self@, None::<ErrV>);
                assert(run(0, stmts_view(stack@), self@) == Some(o));
                assert(run(0 + (STEP_BUDGET - 0) as nat, init_stack, st0) == Some(o));
                assert(run(STEP_BUDGET as nat, init_stack, st0) == Some(o));
                assert(evals_to(init_stack, st0, o));
            }
            return Ok(());
        }
        proof {
            lemma_stmts_view(stack@);
            assert(stmts_view(stack@).len() > 0);
            assert(run(0, stmts_view(stack@), self@) is None);
            assert(run(0 + (STEP_BUDGET - 0) as nat, init_stack, st0) is None);
            assert(run(STEP_BUDGET as nat, init_stack, st0) is None);
        }
        Err(EvalError::StepLimitExceeded)
    }
}

} // verus!
