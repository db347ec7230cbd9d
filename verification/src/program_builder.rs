//! Program builder: turns a search problem into a machine program together
//! with a step bound B* derived from the program's structure.
//!
//! A search problem says what to search for:
//!   Exists { variables, predicate } — is some assignment satisfying?
//!   ForAll { variables, predicate } — is every assignment satisfying?
//!   Sat { num_vars, clauses }       — boolean satisfiability, searched as
//!                                     Exists over one assignment integer.
//!
//! Memory layout: variable `i` of `n` lives in slot `i`, its loop limit
//! (`hi + 1`) in slot `n + i`.

use crate::predicate::{
    cnf_model, cnf_to_pred, compile_pred_spec, eval_pred_spec, find_name, pred_count_spec,
    lemma_compiled_pred_pushes_truth, lemma_pred_count_is_code_length, valid_literal, CompileError,
    Pred, PredicateCompiler, SpecPred, VarEnv,
};
use crate::vm::{
    exec_straight, flag, lemma_run_straight, reported_outcome, spec_run, spec_run_from, spec_step,
    Instruction, MachineState, Program, VmOutcome,
};
use vstd::prelude::*;

verus! {

broadcast use vstd::string::group_string_axioms;

/// A bounded variable with name and inclusive domain `[lo, hi]`.
#[derive(Debug, Clone, PartialEq, Eq)]
pub struct BoundedVar {
    pub name: String,
    pub lo: i64,
    pub hi: i64,
}

impl View for BoundedVar {
    type V = (Seq<char>, i64, i64);

    open spec fn view(&self) -> (Seq<char>, i64, i64) {
        (self.name@, self.lo, self.hi)
    }
}

/// A search problem.
#[derive(Debug)]
pub enum SearchProblem {
    /// Is some assignment in the product of the domains satisfying?
    /// The program halts with 1 if so, with 0 after exhausting the domain.
    Exists { variables: Vec<BoundedVar>, predicate: Pred },
    /// Is every assignment satisfying? The program halts with 1 when all
    /// pass, with 0 at the first counterexample.
    ForAll { variables: Vec<BoundedVar>, predicate: Pred },
    /// Boolean satisfiability over `num_vars` variables (at most 20),
    /// searched as Exists over the assignment integer `a` in `[0, 2^n - 1]`.
    Sat { num_vars: usize, clauses: Vec<Vec<i32>> },
}

/// Build error.
#[derive(Debug, Clone, PartialEq, Eq)]
pub enum BuildError {
    /// Empty variable list (nothing to search).
    NoVariables,
    /// Domain too large.
    DomainTooLarge(String),
    /// Predicate compilation failed.
    CompileError(CompileError),
    /// Too many SAT variables.
    TooManyVars(usize),
}

impl BuildError {
    /// Wrap a compilation error.
    pub fn from_compile_error(e: CompileError) -> (r: BuildError)
        ensures
            r == BuildError::CompileError(e),
    {
        BuildError::CompileError(e)
    }
}

// ── Models ───────────────────────────────────────────────────────────

pub open spec fn vars_model(vars: Seq<BoundedVar>) -> Seq<(Seq<char>, i64, i64)> {
    vars.map_values(|v: BoundedVar| v@)
}

/// The names the environment holds after binding the variables in order
/// (a repeated name keeps its first slot).
pub open spec fn bind_all(vs: Seq<(Seq<char>, i64, i64)>) -> Seq<Seq<char>>
    decreases vs.len(),
{
    if vs.len() == 0 {
        Seq::empty()
    } else {
        let prev = bind_all(vs.drop_last());
        if find_name(prev, vs.last().0) is Some {
            prev
        } else {
            prev.push(vs.last().0)
        }
    }
}

/// Number of values in `[lo, hi]`.
pub open spec fn domain_size(lo: i64, hi: i64) -> nat {
    if hi < lo {
        0
    } else {
        (hi - lo + 1) as nat
    }
}

pub open spec fn total_domain(vs: Seq<(Seq<char>, i64, i64)>) -> nat
    decreases vs.len(),
{
    if vs.len() == 0 {
        1
    } else {
        total_domain(vs.drop_last()) * domain_size(vs.last().1, vs.last().2)
    }
}

/// `2^n`.
pub open spec fn two_pow(n: nat) -> nat
    decreases n,
{
    if n == 0 {
        1
    } else {
        2 * two_pow((n - 1) as nat)
    }
}

/// Initialisation: for each variable `i`, `mem[i] = lo`, `mem[n + i] = hi + 1`.
pub open spec fn init_code(vs: Seq<(Seq<char>, i64, i64)>, n: nat) -> Seq<Instruction>
    decreases vs.len(),
{
    if vs.len() == 0 {
        Seq::empty()
    } else {
        let k = (vs.len() - 1) as nat;
        init_code(vs.drop_last(), n) + seq![
            Instruction::Push(vs.last().1),
            Instruction::Store(k as usize),
            Instruction::Push((vs.last().2 + 1) as i64),
            Instruction::Store((n + k) as usize),
        ]
    }
}

/// Where the loop over variable `i` exits, for a cascade starting at `c`.
pub open spec fn exit_pos(n: nat, c: nat, i: nat) -> usize {
    (c + 7 * (n - 1 - i) + 5) as usize
}

/// The `k` outermost loop headers: `Load(i), Load(n+i), Lt, Jz(exit_i)`.
pub open spec fn check_code(n: nat, c: nat, k: nat) -> Seq<Instruction>
    decreases k,
{
    if k == 0 {
        Seq::empty()
    } else {
        let i = (k - 1) as nat;
        check_code(n, c, i) + seq![
            Instruction::Load(i as usize),
            Instruction::Load((n + i) as usize),
            Instruction::Lt,
            Instruction::Jz(exit_pos(n, c, i)),
        ]
    }
}

/// Increment of variable `i` and jump back to its header, then (for an
/// inner variable) its reset to `lo`.
pub open spec fn block_code(vs: Seq<(Seq<char>, i64, i64)>, n: nat, i: nat) -> Seq<Instruction> {
    seq![
        Instruction::Load(i as usize),
        Instruction::Push(1),
        Instruction::Add,
        Instruction::Store(i as usize),
        Instruction::Jmp((4 * n + 4 * i) as usize),
    ] + if i > 0 {
        seq![Instruction::Push(vs[i as int].1), Instruction::Store(i as usize)]
    } else {
        Seq::empty()
    }
}

/// The first `m` increment blocks, innermost variable first.
pub open spec fn cascade_code(vs: Seq<(Seq<char>, i64, i64)>, n: nat, m: nat) -> Seq<Instruction>
    decreases m,
{
    if m == 0 {
        Seq::empty()
    } else {
        cascade_code(vs, n, (m - 1) as nat) + block_code(vs, n, (n - m) as nat)
    }
}

/// Nested-loop program over `vs` (at least one variable) around predicate
/// code `pc`.
pub open spec fn multi_code(vs: Seq<(Seq<char>, i64, i64)>, pc: Seq<Instruction>, exists: bool) -> Seq<
    Instruction,
> {
    let n = vs.len();
    if exists {
        let c = 8 * n + pc.len() + 2;
        init_code(vs, n) + check_code(n, c, n) + pc + seq![
            Instruction::Jz(c as usize),
            Instruction::Halt(1),
        ] + cascade_code(vs, n, n) + seq![Instruction::Halt(0)]
    } else {
        let c = 8 * n + pc.len() + 1;
        init_code(vs, n) + check_code(n, c, n) + pc + seq![
            Instruction::Jz((c + 7 * (n - 1) + 6) as usize),
        ] + cascade_code(vs, n, n) + seq![Instruction::Halt(1), Instruction::Halt(0)]
    }
}

/// Single-variable ForAll program:
/// init, header `Load 0, Load 1, Lt, Jz(all_pass)`, predicate,
/// `Jz(counterexample)`, increment and loop, `Halt(0)`, `Halt(1)`.
pub open spec fn single_forall_code(lo: i64, hi: i64, pc: Seq<Instruction>) -> Seq<Instruction> {
    let p = pc.len();
    seq![
        Instruction::Push(lo),
        Instruction::Store(0),
        Instruction::Push((hi + 1) as i64),
        Instruction::Store(1),
        Instruction::Load(0),
        Instruction::Load(1),
        Instruction::Lt,
        Instruction::Jz((15 + p) as usize),
    ] + pc + seq![
        Instruction::Jz((14 + p) as usize),
        Instruction::Load(0),
        Instruction::Push(1),
        Instruction::Add,
        Instruction::Store(0),
        Instruction::Jmp(4),
        Instruction::Halt(0),
        Instruction::Halt(1),
    ]
}

/// The program for a nonempty variable list and compiled predicate code.
/// (A single-variable Exists program is the one-variable nested loop.)
pub open spec fn search_code(vs: Seq<(Seq<char>, i64, i64)>, pc: Seq<Instruction>, exists: bool) -> Seq<
    Instruction,
> {
    if vs.len() == 1 && !exists {
        single_forall_code(vs[0].1, vs[0].2, pc)
    } else {
        multi_code(vs, pc, exists)
    }
}

/// B*: `9 + D * (10 + p)` for one variable; for `n > 1` variables
/// `4n + D * (9n + p + 1 + 2(n-1)) + 11n + 1`, where `D` is the number of
/// assignments and `p` the predicate's code length.
pub open spec fn b_star_spec(vs: Seq<(Seq<char>, i64, i64)>, p: nat) -> int {
    let n = vs.len();
    if n == 1 {
        (9 + domain_size(vs[0].1, vs[0].2) * (10 + p)) as int
    } else {
        4 * n + total_domain(vs) * (9 * n + p + 1 + 2 * (n - 1)) + 11 * n + 1
    }
}

/// Inputs on which building the program involves no arithmetic overflow.
pub open spec fn search_admissible(vs: Seq<(Seq<char>, i64, i64)>, p: SpecPred) -> bool {
    &&& forall|i: int|
        0 <= i < vs.len() ==> #[trigger] vs[i].2 < i64::MAX && (vs[i].2 >= vs[i].1 ==> vs[i].2
            - vs[i].1 < i64::MAX)
    &&& vs.len() > 1 ==> forall|k: int|
        0 <= k <= vs.len() ==> #[trigger] total_domain(vs.take(k)) <= u64::MAX
    &&& 16 * vs.len() + pred_count_spec(p) + 16 <= usize::MAX
    &&& b_star_spec(vs, pred_count_spec(p)) <= u64::MAX
}

/// The Exists problem a SAT instance is searched as: `a` in `[0, 2^n - 1]`.
pub open spec fn sat_vars(num_vars: nat) -> Seq<(Seq<char>, i64, i64)> {
    seq![("a"@, 0i64, (two_pow(num_vars) - 1) as i64)]
}

/// Result of building from variables and a predicate: the predicate's
/// code against the bound variables, or the unbound variable's name.
pub open spec fn search_result(vs: Seq<(Seq<char>, i64, i64)>, p: SpecPred, exists: bool) -> Result<
    (Seq<Instruction>, int),
    Seq<char>,
> {
    match compile_pred_spec(bind_all(vs), 0, p) {
        Ok(pc) => Ok((search_code(vs, pc, exists), b_star_spec(vs, pc.len()))),
        Err(n) => Err(n),
    }
}

proof fn lemma_two_pow_mono(a: nat, b: nat)
    requires
        a <= b,
    ensures
        1 <= two_pow(a) <= two_pow(b),
    decreases b,
{
    if b > a {
        lemma_two_pow_mono(a, (b - 1) as nat);
    } else if a > 0 {
        lemma_two_pow_mono((a - 1) as nat, (a - 1) as nat);
    }
}

proof fn lemma_two_pow_bound(n: nat)
    requires
        n <= 20,
    ensures
        1 <= two_pow(n) <= 1048576,
{
    lemma_two_pow_mono(n, 20);
    reveal_with_fuel(two_pow, 21);
}

// ── Code emission ────────────────────────────────────────────────────

fn compute_domain_size(lo: i64, hi: i64) -> (d: u64)
    requires
        hi >= lo ==> hi - lo < i64::MAX,
    ensures
        d == domain_size(lo, hi),
{
    if hi < lo {
        0
    } else {
        (hi - lo + 1) as u64
    }
}

fn bind_variables(variables: &Vec<BoundedVar>) -> (env: VarEnv)
    ensures
        env.names() == bind_all(vars_model(variables@)),
        env.first() == 0,
{
    let ghost vs = vars_model(variables@);
    let n = variables.len();
    let mut env = VarEnv::new(0);
    let mut i: usize = 0;
    while i < n
        invariant
            n == variables@.len(),
            vs == vars_model(variables@),
            0 <= i <= n,
            env.first() == 0,
            env.names() == bind_all(vs.take(i as int)),
            env.names().len() <= i,
        decreases n - i,
    {
        assert(vs.take(i as int + 1).drop_last() =~= vs.take(i as int));
        assert(vs[i as int].0 == variables@[i as int].name@);
        env.bind(variables[i].name.as_str());
        i = i + 1;
    }
    assert(vs.take(n as int) =~= vs);
    env
}

fn emit_init(variables: &Vec<BoundedVar>, instrs: &mut Vec<Instruction>)
    requires
        forall|i: int| 0 <= i < variables@.len() ==> #[trigger] variables@[i].hi < i64::MAX,
        2 * variables@.len() <= usize::MAX,
    ensures
        final(instrs)@ == old(instrs)@ + init_code(
            vars_model(variables@),
            variables@.len() as nat,
        ),
{
    let ghost vs = vars_model(variables@);
    let ghost start = instrs@;
    let n = variables.len();
    let mut i: usize = 0;
    while i < n
        invariant
            n == variables@.len(),
            2 * n <= usize::MAX,
            vs == vars_model(variables@),
            forall|k: int| 0 <= k < variables@.len() ==> #[trigger] variables@[k].hi < i64::MAX,
            0 <= i <= n,
            instrs@ == start + init_code(vs.take(i as int), n as nat),
        decreases n - i,
    {
        let var = &variables[i];
        assert(vs.take(i as int + 1).drop_last() =~= vs.take(i as int));
        assert(vs[i as int] == var@);
        instrs.push(Instruction::Push(var.lo));
        instrs.push(Instruction::Store(i));
        instrs.push(Instruction::Push(var.hi + 1));
        instrs.push(Instruction::Store(n + i));
        i = i + 1;
    }
    assert(vs.take(n as int) =~= vs);
}

fn emit_checks(n: usize, c: usize, instrs: &mut Vec<Instruction>)
    requires
        n >= 1,
        c + 7 * n + 5 <= usize::MAX,
        2 * n <= usize::MAX,
    ensures
        final(instrs)@ == old(instrs)@ + check_code(n as nat, c as nat, n as nat),
{
    let ghost start = instrs@;
    let mut i: usize = 0;
    while i < n
        invariant
            n >= 1,
            c + 7 * n + 5 <= usize::MAX,
            2 * n <= usize::MAX,
            0 <= i <= n,
            instrs@ == start + check_code(n as nat, c as nat, i as nat),
        decreases n - i,
    {
        instrs.push(Instruction::Load(i));
        instrs.push(Instruction::Load(n + i));
        instrs.push(Instruction::Lt);
        instrs.push(Instruction::Jz(c + 7 * (n - 1 - i) + 5));
        i = i + 1;
    }
}

fn emit_cascade(variables: &Vec<BoundedVar>, instrs: &mut Vec<Instruction>)
    requires
        variables@.len() >= 1,
        8 * variables@.len() <= usize::MAX,
    ensures
        final(instrs)@ == old(instrs)@ + cascade_code(
            vars_model(variables@),
            variables@.len() as nat,
            variables@.len() as nat,
        ),
{
    let ghost vs = vars_model(variables@);
    let ghost start = instrs@;
    let n = variables.len();
    let mut m: usize = 0;
    while m < n
        invariant
            n == variables@.len(),
            8 * n <= usize::MAX,
            vs == vars_model(variables@),
            0 <= m <= n,
            instrs@ == start + cascade_code(vs, n as nat, m as nat),
        decreases n - m,
    {
        let i = n - 1 - m;
        let ghost before = instrs@;
        instrs.push(Instruction::Load(i));
        instrs.push(Instruction::Push(1));
        instrs.push(Instruction::Add);
        instrs.push(Instruction::Store(i));
        instrs.push(Instruction::Jmp(4 * n + 4 * i));
        if i > 0 {
            assert(vs[i as int].1 == variables@[i as int].lo);
            instrs.push(Instruction::Push(variables[i].lo));
            instrs.push(Instruction::Store(i));
        }
        assert(instrs@ =~= before + block_code(vs, n as nat, i as nat));
        m = m + 1;
    }
}

/// Nested-loop program (used for one Exists variable too).
fn build_nested_program(
    variables: &Vec<BoundedVar>,
    pred_instrs: Vec<Instruction>,
    exists: bool,
) -> (code: Vec<Instruction>)
    requires
        variables@.len() >= 1,
        forall|i: int| 0 <= i < variables@.len() ==> #[trigger] variables@[i].hi < i64::MAX,
        16 * variables@.len() + pred_instrs@.len() + 16 <= usize::MAX,
    ensures
        code@ == multi_code(vars_model(variables@), pred_instrs@, exists),
{
    let n = variables.len();
    let p = pred_instrs.len();
    let c: usize = if exists {
        8 * n + p + 2
    } else {
        8 * n + p + 1
    };
    let mut instrs: Vec<Instruction> = Vec::new();
    emit_init(variables, &mut instrs);
    emit_checks(n, c, &mut instrs);
    let mut pc = pred_instrs;
    instrs.append(&mut pc);
    if exists {
        instrs.push(Instruction::Jz(c));
        instrs.push(Instruction::Halt(1));
    } else {
        instrs.push(Instruction::Jz(c + 7 * (n - 1) + 6));
    }
    emit_cascade(variables, &mut instrs);
    if exists {
        instrs.push(Instruction::Halt(0));
    } else {
        instrs.push(Instruction::Halt(1));
        instrs.push(Instruction::Halt(0));
    }
    proof {
        let vs = vars_model(variables@);
        assert(vs.len() == n);
        assert(instrs@ =~= multi_code(vs, pred_instrs@, exists));
    }
    instrs
}

fn build_single_forall_code(var: &BoundedVar, pred_instrs: Vec<Instruction>) -> (code: Vec<
    Instruction,
>)
    requires
        var.hi < i64::MAX,
        pred_instrs@.len() + 16 <= usize::MAX,
    ensures
        code@ == single_forall_code(var.lo, var.hi, pred_instrs@),
{
    let p = pred_instrs.len();
    let mut instrs: Vec<Instruction> = Vec::new();
    instrs.push(Instruction::Push(var.lo));
    instrs.push(Instruction::Store(0));
    instrs.push(Instruction::Push(var.hi + 1));
    instrs.push(Instruction::Store(1));
    instrs.push(Instruction::Load(0));
    instrs.push(Instruction::Load(1));
    instrs.push(Instruction::Lt);
    instrs.push(Instruction::Jz(15 + p));
    let mut pc = pred_instrs;
    instrs.append(&mut pc);
    instrs.push(Instruction::Jz(14 + p));
    instrs.push(Instruction::Load(0));
    instrs.push(Instruction::Push(1));
    instrs.push(Instruction::Add);
    instrs.push(Instruction::Store(0));
    instrs.push(Instruction::Jmp(4));
    instrs.push(Instruction::Halt(0));
    instrs.push(Instruction::Halt(1));
    assert(instrs@ =~= single_forall_code(var.lo, var.hi, pred_instrs@));
    instrs
}

fn total_domain_exec(variables: &Vec<BoundedVar>) -> (d: u64)
    requires
        forall|i: int|
            0 <= i < variables@.len() ==> #[trigger] variables@[i].hi >= variables@[i].lo
                ==> variables@[i].hi - variables@[i].lo < i64::MAX,
        forall|k: int|
            0 <= k <= variables@.len() ==> #[trigger] total_domain(vars_model(variables@).take(k))
                <= u64::MAX,
    ensures
        d == total_domain(vars_model(variables@)),
{
    let ghost vs = vars_model(variables@);
    let n = variables.len();
    let mut d: u64 = 1;
    let mut i: usize = 0;
    while i < n
        invariant
            n == variables@.len(),
            vs == vars_model(variables@),
            forall|k: int|
                0 <= k < variables@.len() ==> #[trigger] variables@[k].hi >= variables@[k].lo
                    ==> variables@[k].hi - variables@[k].lo < i64::MAX,
            forall|k: int| 0 <= k <= vs.len() ==> #[trigger] total_domain(vs.take(k)) <= u64::MAX,
            0 <= i <= n,
            d == total_domain(vs.take(i as int)),
        decreases n - i,
    {
        assert(vs.take(i as int + 1).drop_last() =~= vs.take(i as int));
        let ds = compute_domain_size(variables[i].lo, variables[i].hi);
        proof {
            assert(vs[i as int] == variables@[i as int]@);
        }
        assert(total_domain(vs.take(i as int + 1)) <= u64::MAX);
        d = d * ds;
        i = i + 1;
    }
    assert(vs.take(n as int) =~= vs);
    d
}

/// Build the program for a nonempty variable list.
fn build_search_program(variables: &Vec<BoundedVar>, predicate: &Pred, exists: bool) -> (r: Result<
    (Program, u64),
    BuildError,
>)
    requires
        variables@.len() >= 1,
        search_admissible(vars_model(variables@), predicate@),
    ensures
        match search_result(vars_model(variables@), predicate@, exists) {
            Ok((code, b)) => r matches Ok((prog, bs)) && prog@ == code && bs == b,
            Err(name) => r matches Err(BuildError::CompileError(CompileError::UnboundVariable(n)))
                && n@ == name,
        },
{
    let ghost vs = vars_model(variables@);
    let env = bind_variables(variables);
    let compiler = PredicateCompiler::new(env);
    let pred_instrs = match compiler.compile_pred(predicate) {
        Ok(code) => code,
        Err(e) => return Err(BuildError::from_compile_error(e)),
    };
    proof {
        lemma_pred_count_is_code_length(bind_all(vs), 0, predicate@);
    }
    let n = variables.len();
    let p = pred_instrs.len();
    assert forall|i: int| 0 <= i < variables@.len() implies #[trigger] variables@[i].hi
        < i64::MAX by {
        assert(vs[i] == variables@[i]@);
        assert(vs[i].2 < i64::MAX);
    }
    if n == 1 {
        let var = &variables[0];
        assert(vs[0] == var@);
        let domain = compute_domain_size(var.lo, var.hi);
        let code = if exists {
            build_nested_program(variables, pred_instrs, true)
        } else {
            build_single_forall_code(var, pred_instrs)
        };
        let steps_per_iter: u64 = 10 + p as u64;
        proof {
            assert(domain * steps_per_iter <= b_star_spec(vs, p as nat) - 9);
        }
        let b_star = 9 + domain * steps_per_iter;
        Ok((Program::new(code), b_star))
    } else {
        assert forall|i: int| 0 <= i < variables@.len() implies #[trigger] variables@[i].hi
            >= variables@[i].lo ==> variables@[i].hi - variables@[i].lo < i64::MAX by {
            assert(vs[i] == variables@[i]@);
            assert(vs[i].2 < i64::MAX);
        }
        assert(vs.take(vs.len() as int) =~= vs);
        let total = total_domain_exec(variables);
        let code = build_nested_program(variables, pred_instrs, exists);
        let nn = n as u64;
        let init_steps: u64 = 4 * nn;
        let per_iter: u64 = nn * 4 + p as u64 + 1 + nn * 5 + (nn - 1) * 2;
        let exhaust_overhead: u64 = nn * 11 + 1;
        proof {
            assert(total * per_iter <= u64::MAX) by (nonlinear_arith)
                requires
                    4 * nn + total * per_iter + 11 * nn + 1 <= u64::MAX,
            ;
        }
        let b_star = init_steps + total * per_iter + exhaust_overhead;
        Ok((Program::new(code), b_star))
    }
}

/// Model of a search problem: the searched variables, the predicate, and
/// whether it is existential; `None` for a SAT instance with too many variables.
pub open spec fn problem_search(problem: SearchProblem) -> (Seq<(Seq<char>, i64, i64)>, SpecPred, bool) {
    match problem {
        SearchProblem::Exists { variables, predicate } => (vars_model(variables@), predicate@, true),
        SearchProblem::ForAll { variables, predicate } => (vars_model(variables@), predicate@, false),
        SearchProblem::Sat { num_vars, clauses } => (
            sat_vars(num_vars as nat),
            cnf_model(clauses@.map_values(|c: Vec<i32>| c@)),
            true,
        ),
    }
}

/// Inputs on which `build_program` runs without arithmetic overflow: every
/// literal of a SAT instance names one of 64 bits, and the searched
/// program's sizes and B* fit their machine types.
pub open spec fn build_admissible(problem: SearchProblem) -> bool {
    match problem {
        SearchProblem::Sat { num_vars, clauses } => num_vars > 20 || (forall|i: int, j: int|
            0 <= i < clauses@.len() && 0 <= j < clauses@[i]@.len() ==> valid_literal(
                #[trigger] clauses@[i]@[j],
            )) && search_admissible(problem_search(problem).0, problem_search(problem).1),
        _ => problem_search(problem).0.len() == 0 || search_admissible(
            problem_search(problem).0,
            problem_search(problem).1,
        ),
    }
}

/// Build a machine program and its step bound B* from a search problem.
///
/// Errors: `TooManyVars(n)` for a SAT instance with more than 20 variables,
/// `NoVariables` for an Exists/ForAll problem without variables, and
/// `CompileError` when the predicate mentions an unbound variable.
pub fn build_program(problem: &SearchProblem) -> (r: Result<(Program, u64), BuildError>)
    requires
        build_admissible(*problem),
    ensures
        match *problem {
            SearchProblem::Sat { num_vars, .. } => num_vars > 20 ==> r == Err::<
                (Program, u64),
                BuildError,
            >(BuildError::TooManyVars(num_vars)),
            SearchProblem::Exists { variables, .. } | SearchProblem::ForAll { variables, .. } =>
                variables@.len() == 0 ==> r == Err::<(Program, u64), BuildError>(
                BuildError::NoVariables,
            ),
        },
        (match *problem {
            SearchProblem::Sat { num_vars, .. } => num_vars <= 20,
            SearchProblem::Exists { variables, .. } | SearchProblem::ForAll { variables, .. } =>
                variables@.len() > 0,
        }) ==> match search_result(
            problem_search(*problem).0,
            problem_search(*problem).1,
            problem_search(*problem).2,
        ) {
            Ok((code, b)) => r matches Ok((prog, bs)) && prog@ == code && bs == b,
            Err(name) => r matches Err(BuildError::CompileError(CompileError::UnboundVariable(n)))
                && n@ == name,
        },
{
    match problem {
        SearchProblem::Sat { num_vars, clauses } => {
            if *num_vars > 20 {
                return Err(BuildError::TooManyVars(*num_vars));
            }
            let mut domain_size: i64 = 1;
            let mut k: usize = 0;
            while k < *num_vars
                invariant
                    *num_vars <= 20,
                    0 <= k <= *num_vars,
                    domain_size == two_pow(k as nat),
                decreases *num_vars - k,
            {
                proof {
                    lemma_two_pow_bound(k as nat + 1);
                }
                domain_size = domain_size * 2;
                k = k + 1;
            }
            proof {
                lemma_two_pow_bound(*num_vars as nat);
            }
            let pred = cnf_to_pred(clauses.as_slice());
            let vars = vec![BoundedVar { name: "a".to_string(), lo: 0, hi: domain_size - 1 }];
            assert(vars_model(vars@) =~= sat_vars(*num_vars as nat));
            build_search_program(&vars, &pred, true)
        },
        SearchProblem::Exists { variables, predicate } => {
            if variables.len() == 0 {
                return Err(BuildError::NoVariables);
            }
            build_search_program(variables, predicate, true)
        },
        SearchProblem::ForAll { variables, predicate } => {
            if variables.len() == 0 {
                return Err(BuildError::NoVariables);
            }
            build_search_program(variables, predicate, false)
        },
    }
}

// ── What a single-variable search program decides ──────────────────────

/// Memory at the loop head: slot 1 holds the limit `hi + 1`, slot 0 the
/// current value of the variable.
pub open spec fn loop_memory(limit: i64, x: i64) -> Map<usize, i64> {
    Map::empty().insert(1usize, limit).insert(0usize, x)
}

/// Truth of the predicate when the variable `v` has value `x`; `None` when
/// an operand does not evaluate (overflow, division by zero).
pub open spec fn holds_at(v: (Seq<char>, i64, i64), p: SpecPred, x: i64) -> Option<bool> {
    eval_pred_spec(seq![v.0], 0, loop_memory((v.2 + 1) as i64, x), p)
}

/// Some value of the domain `[lo, hi]` from `x` on satisfies the predicate.
pub open spec fn satisfied_from(v: (Seq<char>, i64, i64), p: SpecPred, x: i64) -> bool {
    exists|y: i64| x <= y <= v.2 && #[trigger] holds_at(v, p, y) == Some(true)
}

/// Every value of the domain `[lo, hi]` from `x` on satisfies the predicate.
pub open spec fn all_satisfied_from(v: (Seq<char>, i64, i64), p: SpecPred, x: i64) -> bool {
    forall|y: i64| x <= y <= v.2 ==> #[trigger] holds_at(v, p, y) == Some(true)
}

/// The predicate evaluates, without overflow or division by zero, at every
/// value of the domain from `x` on.
pub open spec fn evaluates_from(v: (Seq<char>, i64, i64), p: SpecPred, x: i64) -> bool {
    forall|y: i64| x <= y <= v.2 ==> (#[trigger] holds_at(v, p, y)) is Some
}

/// Steps the loop takes from value `x` to its end.
pub open spec fn loop_steps(v: (Seq<char>, i64, i64), p: nat, x: i64) -> nat {
    (if x <= v.2 {
        ((v.2 - x + 1) * (p + 10)) as nat
    } else {
        0
    }) + 5
}

pub open spec fn head_state(v: (Seq<char>, i64, i64), x: i64, steps: nat) -> MachineState {
    MachineState {
        pc: 4,
        stack: Seq::empty(),
        memory: loop_memory((v.2 + 1) as i64, x),
        steps,
        outcome: None,
    }
}

/// The loop header `Load(0), Load(1), Lt` at the head pushes whether the
/// variable is below its limit.
proof fn lemma_header(v: (Seq<char>, i64, i64), x: i64)
    requires
        v.2 < i64::MAX,
    ensures
        exec_straight(
            seq![Instruction::Load(0), Instruction::Load(1), Instruction::Lt],
            Seq::empty(),
            loop_memory((v.2 + 1) as i64, x),
        ) == Ok::<(Seq<i64>, Map<usize, i64>), crate::vm::Fault>(
            (seq![flag(x < v.2 + 1)], loop_memory((v.2 + 1) as i64, x)),
        ),
{
    reveal_with_fuel(exec_straight, 4);
    let m = loop_memory((v.2 + 1) as i64, x);
    assert(m.contains_key(0usize) && m[0usize] == x);
    assert(m.contains_key(1usize) && m[1usize] == v.2 + 1);
    let code = seq![Instruction::Load(0), Instruction::Load(1), Instruction::Lt];
    assert(code.skip(1) =~= seq![Instruction::Load(1), Instruction::Lt]);
    assert(code.skip(1).skip(1) =~= seq![Instruction::Lt]);
    assert(code.skip(1).skip(1).skip(1) =~= Seq::<Instruction>::empty());
    let s2 = Seq::<i64>::empty().push(x).push((v.2 + 1) as i64);
    assert(s2.drop_last().drop_last().push(flag(x < v.2 + 1)) =~= seq![flag(x < v.2 + 1)]);
}

/// The increment `Load(0), Push(1), Add, Store(0)` moves to the next value.
proof fn lemma_increment(v: (Seq<char>, i64, i64), x: i64)
    requires
        x < v.2 + 1,
        v.2 < i64::MAX,
    ensures
        exec_straight(
            seq![Instruction::Load(0), Instruction::Push(1), Instruction::Add, Instruction::Store(0)],
            Seq::empty(),
            loop_memory((v.2 + 1) as i64, x),
        ) == Ok::<(Seq<i64>, Map<usize, i64>), crate::vm::Fault>(
            (Seq::empty(), loop_memory((v.2 + 1) as i64, (x + 1) as i64)),
        ),
{
    reveal_with_fuel(exec_straight, 5);
    let m = loop_memory((v.2 + 1) as i64, x);
    assert(m.contains_key(0usize) && m[0usize] == x);
    let code = seq![Instruction::Load(0), Instruction::Push(1), Instruction::Add, Instruction::Store(0)];
    assert(code.skip(1) =~= seq![Instruction::Push(1), Instruction::Add, Instruction::Store(0)]);
    assert(code.skip(1).skip(1) =~= seq![Instruction::Add, Instruction::Store(0)]);
    assert(code.skip(1).skip(1).skip(1) =~= seq![Instruction::Store(0)]);
    assert(code.skip(1).skip(1).skip(1).skip(1) =~= Seq::<Instruction>::empty());
    let s2 = Seq::<i64>::empty().push(x).push(1);
    assert(s2.drop_last().drop_last().push((x + 1) as i64) =~= seq![(x + 1) as i64]);
    assert(seq![(x + 1) as i64].drop_last() =~= Seq::<i64>::empty());
    assert(m.insert(0usize, (x + 1) as i64) =~= loop_memory((v.2 + 1) as i64, (x + 1) as i64));
}

/// The single-variable Exists program, instruction by instruction.
pub open spec fn exists_layout(v: (Seq<char>, i64, i64), pc: Seq<Instruction>) -> Seq<Instruction> {
    let p = pc.len();
    seq![
        Instruction::Push(v.1),
        Instruction::Store(0),
        Instruction::Push((v.2 + 1) as i64),
        Instruction::Store(1),
        Instruction::Load(0),
        Instruction::Load(1),
        Instruction::Lt,
        Instruction::Jz((p + 15) as usize),
    ] + pc + seq![
        Instruction::Jz((p + 10) as usize),
        Instruction::Halt(1),
        Instruction::Load(0),
        Instruction::Push(1),
        Instruction::Add,
        Instruction::Store(0),
        Instruction::Jmp(4),
        Instruction::Halt(0),
    ]
}

proof fn lemma_exists_layout(v: (Seq<char>, i64, i64), pc: Seq<Instruction>)
    ensures
        multi_code(seq![v], pc, true) == exists_layout(v, pc),
{
    let vs = seq![v];
    let n: nat = 1;
    let c = 8 * n + pc.len() + 2;
    assert(vs.drop_last() =~= Seq::<(Seq<char>, i64, i64)>::empty());
    assert(vs.last() == v);
    reveal_with_fuel(init_code, 2);
    reveal_with_fuel(check_code, 2);
    reveal_with_fuel(cascade_code, 2);
    assert(init_code(vs, n) =~= seq![
        Instruction::Push(v.1),
        Instruction::Store(0),
        Instruction::Push((v.2 + 1) as i64),
        Instruction::Store(1),
    ]);
    assert(check_code(n, c, n) =~= seq![
        Instruction::Load(0),
        Instruction::Load(1),
        Instruction::Lt,
        Instruction::Jz(exit_pos(n, c, 0)),
    ]);
    assert(cascade_code(vs, n, n) =~= block_code(vs, n, 0));
    assert(block_code(vs, n, 0) =~= seq![
        Instruction::Load(0),
        Instruction::Push(1),
        Instruction::Add,
        Instruction::Store(0),
        Instruction::Jmp(4),
    ]);
    assert(multi_code(vs, pc, true) =~= exists_layout(v, pc));
}

/// From the loop head at value `x`, the Exists program halts with 1 when
/// some value from `x` to `hi` satisfies the predicate and with 0 otherwise.
#[verifier::spinoff_prover]
#[verifier::rlimit(60)]
proof fn lemma_exists_loop(
    v: (Seq<char>, i64, i64),
    p: SpecPred,
    pc: Seq<Instruction>,
    x: i64,
    steps: nat,
    fuel: nat,
)
    requires
        compile_pred_spec(seq![v.0], 0, p) == Ok::<Seq<Instruction>, Seq<char>>(pc),
        v.2 < i64::MAX,
        pc.len() + 16 <= usize::MAX,
        evaluates_from(v, p, x),
        fuel >= loop_steps(v, pc.len(), x),
    ensures
        spec_run_from(exists_layout(v, pc), head_state(v, x, steps), fuel).outcome == Some(
            VmOutcome::Halted(if satisfied_from(v, p, x) { 1u8 } else { 0u8 }),
        ),
    decreases (if x <= v.2 { v.2 - x + 1 } else { 0 }),
{
    let prog = exists_layout(v, pc);
    let pl: int = pc.len() as int;
    let mem = loop_memory((v.2 + 1) as i64, x);
    let s0 = head_state(v, x, steps);
    let header = seq![Instruction::Load(0), Instruction::Load(1), Instruction::Lt];
    assert(prog.subrange(4, 7) =~= header);
    lemma_header(v, x);
    lemma_run_straight(prog, s0, header, fuel);
    let s3 = MachineState { pc: 7, stack: seq![flag(x < v.2 + 1)], memory: mem, steps: steps + 3, outcome: None };
    let f3 = (fuel - 3) as nat;
    assert(prog[7] == Instruction::Jz((pl + 15) as usize));
    if x <= v.2 {
        assert(loop_steps(v, pl as nat, x) == (v.2 - x + 1) * (pl + 10) + 5);
        assert((v.2 - x + 1) * (pl + 10) >= pl + 10) by (nonlinear_arith)
            requires
                v.2 - x + 1 >= 1,
                pl >= 0,
        ;
        // Enter the body.
        let s4 = MachineState { pc: 8, stack: Seq::empty(), memory: mem, steps: steps + 4, outcome: None };
        assert(seq![flag(x < v.2 + 1)].drop_last() =~= Seq::<i64>::empty());
        assert(spec_step(prog, s3) == s4);
        assert(spec_run_from(prog, s3, f3) == spec_run_from(prog, s4, (f3 - 1) as nat));
        let f4 = (f3 - 1) as nat;
        assert(holds_at(v, p, x) is Some);
        lemma_compiled_pred_pushes_truth(seq![v.0], 0, mem, p, Seq::empty());
        let t = holds_at(v, p, x)->Some_0;
        assert(prog.subrange(8, 8 + pl) =~= pc);
        lemma_run_straight(prog, s4, pc, f4);
        let s5 = MachineState {
            pc: (8 + pl) as nat,
            stack: seq![flag(t)],
            memory: mem,
            steps: (steps + 4 + pl) as nat,
            outcome: None,
        };
        assert(Seq::<i64>::empty().push(flag(t)) =~= seq![flag(t)]);
        let f5 = (f4 - pl) as nat;
        assert(prog[8 + pl] == Instruction::Jz((pl + 10) as usize));
        assert(spec_run_from(prog, s5, f5) == spec_run_from(prog, spec_step(prog, s5), (f5 - 1) as nat));
        assert(seq![flag(t)].drop_last() =~= Seq::<i64>::empty());
        if t {
            let s6 = MachineState { pc: (9 + pl) as nat, stack: Seq::empty(), memory: mem, steps: (steps + 5 + pl) as nat, outcome: None };
            assert(spec_step(prog, s5) == s6);
            assert(prog[9 + pl] == Instruction::Halt(1));
            let s7 = spec_step(prog, s6);
            assert(s7.outcome == Some(VmOutcome::Halted(1)));
            assert(spec_run_from(prog, s6, (f5 - 1) as nat) == spec_run_from(prog, s7, (f5 - 2) as nat));
            assert(spec_run_from(prog, s7, (f5 - 2) as nat) == s7);
            assert(satisfied_from(v, p, x)) by {
                assert(holds_at(v, p, x) == Some(true));
            }
        } else {
            let s6 = MachineState { pc: (10 + pl) as nat, stack: Seq::empty(), memory: mem, steps: (steps + 5 + pl) as nat, outcome: None };
            assert(spec_step(prog, s5) == s6);
            let inc = seq![Instruction::Load(0), Instruction::Push(1), Instruction::Add, Instruction::Store(0)];
            assert(prog.subrange(10 + pl, 14 + pl) =~= inc);
            lemma_increment(v, x);
            lemma_run_straight(prog, s6, inc, (f5 - 1) as nat);
            let mem2 = loop_memory((v.2 + 1) as i64, (x + 1) as i64);
            let s7 = MachineState { pc: (14 + pl) as nat, stack: Seq::empty(), memory: mem2, steps: (steps + 9 + pl) as nat, outcome: None };
            let f7 = (f5 - 5) as nat;
            assert(prog[14 + pl] == Instruction::Jmp(4));
            let s8 = head_state(v, (x + 1) as i64, (steps + 10 + pl) as nat);
            assert(spec_step(prog, s7) == s8);
            assert(spec_run_from(prog, s7, f7) == spec_run_from(prog, s8, (f7 - 1) as nat));
            assert(evaluates_from(v, p, (x + 1) as i64));
            if x + 1 <= v.2 {
                assert(v.2 - ((x + 1) as i64) + 1 == v.2 - x);
            } else {
                assert(v.2 - x == 0);
                assert((v.2 - x) * (pl + 10) == 0);
            }
            assert(loop_steps(v, pl as nat, (x + 1) as i64) == (v.2 - x) * (pl + 10) + 5);
            assert((v.2 - x + 1) * (pl + 10) == (v.2 - x) * (pl + 10) + pl + 10) by (nonlinear_arith);
            lemma_exists_loop(v, p, pc, (x + 1) as i64, (steps + 10 + pl) as nat, (f7 - 1) as nat);
            assert(satisfied_from(v, p, x) == satisfied_from(v, p, (x + 1) as i64)) by {
                if satisfied_from(v, p, x) {
                    let y = choose|y: i64| x <= y <= v.2 && #[trigger] holds_at(v, p, y) == Some(true);
                    assert(y != x);
                    assert(x + 1 <= y <= v.2 && holds_at(v, p, y) == Some(true));
                }
            }
        }
    } else {
        let s4 = MachineState { pc: (pl + 15) as nat, stack: Seq::empty(), memory: mem, steps: steps + 4, outcome: None };
        assert(seq![flag(x < v.2 + 1)].drop_last() =~= Seq::<i64>::empty());
        assert(spec_step(prog, s3) == s4);
        assert(spec_run_from(prog, s3, f3) == spec_run_from(prog, s4, (f3 - 1) as nat));
        assert(prog[pl + 15] == Instruction::Halt(0));
        let s5 = spec_step(prog, s4);
        assert(s5.outcome == Some(VmOutcome::Halted(0)));
        assert(spec_run_from(prog, s4, (f3 - 1) as nat) == spec_run_from(prog, s5, (f3 - 2) as nat));
        assert(spec_run_from(prog, s5, (f3 - 2) as nat) == s5);
        assert(!satisfied_from(v, p, x));
    }
}

/// From the loop head at value `x`, the ForAll program halts with 1 when
/// every value from `x` to `hi` satisfies the predicate and with 0 otherwise.
#[verifier::spinoff_prover]
#[verifier::rlimit(60)]
proof fn lemma_forall_loop(
    v: (Seq<char>, i64, i64),
    p: SpecPred,
    pc: Seq<Instruction>,
    x: i64,
    steps: nat,
    fuel: nat,
)
    requires
        compile_pred_spec(seq![v.0], 0, p) == Ok::<Seq<Instruction>, Seq<char>>(pc),
        v.2 < i64::MAX,
        pc.len() + 16 <= usize::MAX,
        evaluates_from(v, p, x),
        fuel >= loop_steps(v, pc.len(), x),
    ensures
        spec_run_from(single_forall_code(v.1, v.2, pc), head_state(v, x, steps), fuel).outcome == Some(
            VmOutcome::Halted(if all_satisfied_from(v, p, x) { 1u8 } else { 0u8 }),
        ),
    decreases (if x <= v.2 { v.2 - x + 1 } else { 0 }),
{
    let prog = single_forall_code(v.1, v.2, pc);
    let pl: int = pc.len() as int;
    let mem = loop_memory((v.2 + 1) as i64, x);
    let s0 = head_state(v, x, steps);
    let header = seq![Instruction::Load(0), Instruction::Load(1), Instruction::Lt];
    assert(prog.subrange(4, 7) =~= header);
    lemma_header(v, x);
    lemma_run_straight(prog, s0, header, fuel);
    let s3 = MachineState { pc: 7, stack: seq![flag(x < v.2 + 1)], memory: mem, steps: steps + 3, outcome: None };
    let f3 = (fuel - 3) as nat;
    assert(prog[7] == Instruction::Jz((15 + pl) as usize));
    if x <= v.2 {
        assert(loop_steps(v, pl as nat, x) == (v.2 - x + 1) * (pl + 10) + 5);
        assert((v.2 - x + 1) * (pl + 10) >= pl + 10) by (nonlinear_arith)
            requires
                v.2 - x + 1 >= 1,
                pl >= 0,
        ;
        // Enter the body.
        let s4 = MachineState { pc: 8, stack: Seq::empty(), memory: mem, steps: steps + 4, outcome: None };
        assert(seq![flag(x < v.2 + 1)].drop_last() =~= Seq::<i64>::empty());
        assert(spec_step(prog, s3) == s4);
        assert(spec_run_from(prog, s3, f3) == spec_run_from(prog, s4, (f3 - 1) as nat));
        let f4 = (f3 - 1) as nat;
        assert(holds_at(v, p, x) is Some);
        lemma_compiled_pred_pushes_truth(seq![v.0], 0, mem, p, Seq::empty());
        let t = holds_at(v, p, x)->Some_0;
        assert(prog.subrange(8, 8 + pl) =~= pc);
        lemma_run_straight(prog, s4, pc, f4);
        let s5 = MachineState {
            pc: (8 + pl) as nat,
            stack: seq![flag(t)],
            memory: mem,
            steps: (steps + 4 + pl) as nat,
            outcome: None,
        };
        assert(Seq::<i64>::empty().push(flag(t)) =~= seq![flag(t)]);
        let f5 = (f4 - pl) as nat;
        assert(prog[8 + pl] == Instruction::Jz((14 + pl) as usize));
        assert(spec_run_from(prog, s5, f5) == spec_run_from(prog, spec_step(prog, s5), (f5 - 1) as nat));
        assert(seq![flag(t)].drop_last() =~= Seq::<i64>::empty());
        if t {
            let s6 = MachineState { pc: (9 + pl) as nat, stack: Seq::empty(), memory: mem, steps: (steps + 5 + pl) as nat, outcome: None };
            assert(spec_step(prog, s5) == s6);
            let inc = seq![Instruction::Load(0), Instruction::Push(1), Instruction::Add, Instruction::Store(0)];
            assert(prog.subrange(9 + pl, 13 + pl) =~= inc);
            lemma_increment(v, x);
            lemma_run_straight(prog, s6, inc, (f5 - 1) as nat);
            let mem2 = loop_memory((v.2 + 1) as i64, (x + 1) as i64);
            let s7 = MachineState { pc: (13 + pl) as nat, stack: Seq::empty(), memory: mem2, steps: (steps + 9 + pl) as nat, outcome: None };
            let f7 = (f5 - 5) as nat;
            assert(prog[13 + pl] == Instruction::Jmp(4));
            let s8 = head_state(v, (x + 1) as i64, (steps + 10 + pl) as nat);
            assert(spec_step(prog, s7) == s8);
            assert(spec_run_from(prog, s7, f7) == spec_run_from(prog, s8, (f7 - 1) as nat));
            assert(evaluates_from(v, p, (x + 1) as i64));
            if x + 1 <= v.2 {
                assert(v.2 - ((x + 1) as i64) + 1 == v.2 - x);
            } else {
                assert(v.2 - x == 0);
                assert((v.2 - x) * (pl + 10) == 0);
            }
            assert(loop_steps(v, pl as nat, (x + 1) as i64) == (v.2 - x) * (pl + 10) + 5);
            assert((v.2 - x + 1) * (pl + 10) == (v.2 - x) * (pl + 10) + pl + 10) by (nonlinear_arith);
            lemma_forall_loop(v, p, pc, (x + 1) as i64, (steps + 10 + pl) as nat, (f7 - 1) as nat);
            assert(all_satisfied_from(v, p, x) == all_satisfied_from(v, p, (x + 1) as i64)) by {
                if all_satisfied_from(v, p, (x + 1) as i64) {
                    assert forall|y: i64| x <= y <= v.2 implies #[trigger] holds_at(v, p, y) == Some(true) by {
                        if y != x {
                            assert(x + 1 <= y <= v.2);
                        }
                    }
                }
            }
        } else {
            let s6 = MachineState { pc: (14 + pl) as nat, stack: Seq::empty(), memory: mem, steps: (steps + 5 + pl) as nat, outcome: None };
            assert(spec_step(prog, s5) == s6);
            assert(prog[14 + pl] == Instruction::Halt(0));
            let s7 = spec_step(prog, s6);
            assert(s7.outcome == Some(VmOutcome::Halted(0)));
            assert(spec_run_from(prog, s6, (f5 - 1) as nat) == spec_run_from(prog, s7, (f5 - 2) as nat));
            assert(spec_run_from(prog, s7, (f5 - 2) as nat) == s7);
            assert(!all_satisfied_from(v, p, x)) by {
                assert(holds_at(v, p, x) == Some(false));
            }
        }
    } else {
        let s4 = MachineState { pc: (15 + pl) as nat, stack: Seq::empty(), memory: mem, steps: steps + 4, outcome: None };
        assert(seq![flag(x < v.2 + 1)].drop_last() =~= Seq::<i64>::empty());
        assert(spec_step(prog, s3) == s4);
        assert(spec_run_from(prog, s3, f3) == spec_run_from(prog, s4, (f3 - 1) as nat));
        assert(prog[15 + pl] == Instruction::Halt(1));
        let s5 = spec_step(prog, s4);
        assert(s5.outcome == Some(VmOutcome::Halted(1)));
        assert(spec_run_from(prog, s4, (f3 - 1) as nat) == spec_run_from(prog, s5, (f3 - 2) as nat));
        assert(spec_run_from(prog, s5, (f3 - 2) as nat) == s5);
        assert(all_satisfied_from(v, p, x));
    }
}

/// A single-variable Exists search program, run for its B* steps, halts
/// with 1 exactly when some value of the domain satisfies the predicate,
/// and with 0 otherwise; provided the predicate evaluates at every value.
pub proof fn lemma_exists_search_decides(v: (Seq<char>, i64, i64), p: SpecPred, pc: Seq<Instruction>)
    requires
        compile_pred_spec(seq![v.0], 0, p) == Ok::<Seq<Instruction>, Seq<char>>(pc),
        v.2 < i64::MAX,
        pc.len() + 16 <= usize::MAX,
        evaluates_from(v, p, v.1),
    ensures
        reported_outcome(
            spec_run(multi_code(seq![v], pc, true), b_star_spec(seq![v], pc.len()) as nat),
        ) == VmOutcome::Halted(if satisfied_from(v, p, v.1) { 1u8 } else { 0u8 }),
{
    lemma_exists_layout(v, pc);
    let prog = exists_layout(v, pc);
    let b = b_star_spec(seq![v], pc.len());
    let init = seq![
        Instruction::Push(v.1),
        Instruction::Store(0),
        Instruction::Push((v.2 + 1) as i64),
        Instruction::Store(1),
    ];
    lemma_init_memory(v);
    assert(prog.subrange(0, 4) =~= init);
    lemma_run_straight(prog, crate::vm::initial_state(), init, b as nat);
    assert(loop_steps(v, pc.len(), v.1) + 4 == b);
    lemma_exists_loop(v, p, pc, v.1, 4, (b - 4) as nat);
}

proof fn lemma_init_memory(v: (Seq<char>, i64, i64))
    ensures
        exec_straight(
            seq![
                Instruction::Push(v.1),
                Instruction::Store(0),
                Instruction::Push((v.2 + 1) as i64),
                Instruction::Store(1),
            ],
            Seq::empty(),
            Map::empty(),
        ) == Ok::<(Seq<i64>, Map<usize, i64>), crate::vm::Fault>(
            (Seq::empty(), loop_memory((v.2 + 1) as i64, v.1)),
        ),
{
    reveal_with_fuel(exec_straight, 5);
    let code = seq![
        Instruction::Push(v.1),
        Instruction::Store(0),
        Instruction::Push((v.2 + 1) as i64),
        Instruction::Store(1),
    ];
    assert(code.skip(1) =~= seq![Instruction::Store(0), Instruction::Push((v.2 + 1) as i64), Instruction::Store(1)]);
    assert(code.skip(1).skip(1) =~= seq![Instruction::Push((v.2 + 1) as i64), Instruction::Store(1)]);
    assert(code.skip(1).skip(1).skip(1) =~= seq![Instruction::Store(1)]);
    assert(code.skip(1).skip(1).skip(1).skip(1) =~= Seq::<Instruction>::empty());
    assert(seq![v.1].drop_last() =~= Seq::<i64>::empty());
    assert(Seq::<i64>::empty().push(v.1) =~= seq![v.1]);
    assert(Seq::<i64>::empty().push((v.2 + 1) as i64).drop_last() =~= Seq::<i64>::empty());
    assert(Map::<usize, i64>::empty().insert(0usize, v.1).insert(1usize, (v.2 + 1) as i64) =~= loop_memory(
        (v.2 + 1) as i64,
        v.1,
    ));
}

/// A single-variable ForAll search program, run for its B* steps, halts
/// with 1 exactly when every value of the domain satisfies the predicate,
/// and with 0 otherwise; provided the predicate evaluates at every value.
pub proof fn lemma_forall_search_decides(v: (Seq<char>, i64, i64), p: SpecPred, pc: Seq<Instruction>)
    requires
        compile_pred_spec(seq![v.0], 0, p) == Ok::<Seq<Instruction>, Seq<char>>(pc),
        v.2 < i64::MAX,
        pc.len() + 16 <= usize::MAX,
        evaluates_from(v, p, v.1),
    ensures
        reported_outcome(
            spec_run(single_forall_code(v.1, v.2, pc), b_star_spec(seq![v], pc.len()) as nat),
        ) == VmOutcome::Halted(if all_satisfied_from(v, p, v.1) { 1u8 } else { 0u8 }),
{
    let prog = single_forall_code(v.1, v.2, pc);
    let b = b_star_spec(seq![v], pc.len());
    let init = seq![
        Instruction::Push(v.1),
        Instruction::Store(0),
        Instruction::Push((v.2 + 1) as i64),
        Instruction::Store(1),
    ];
    lemma_init_memory(v);
    assert(prog.subrange(0, 4) =~= init);
    lemma_run_straight(prog, crate::vm::initial_state(), init, b as nat);
    assert(loop_steps(v, pc.len(), v.1) + 4 == b);
    lemma_forall_loop(v, p, pc, v.1, 4, (b - 4) as nat);
}

/// The program built for a search over a single variable (an Exists or
/// ForAll problem with one variable, or a SAT instance) decides the
/// problem within its B* steps: run for B* steps it halts with 1 exactly
/// when a value of the domain satisfies the predicate (Exists, SAT) or
/// when every value does (ForAll), and with 0 otherwise. This holds when
/// the predicate evaluates, without overflow or division by zero, at every
/// value of the domain.
pub proof fn lemma_single_variable_program_decides(problem: SearchProblem)
    requires
        build_admissible(problem),
        problem matches SearchProblem::Sat { num_vars, .. } ==> num_vars <= 20,
        problem_search(problem).0.len() == 1,
        search_result(problem_search(problem).0, problem_search(problem).1, problem_search(problem).2) is Ok,
        evaluates_from(problem_search(problem).0[0], problem_search(problem).1, problem_search(problem).0[0].1),
    ensures
        ({
            let (vs, p, exists) = problem_search(problem);
            let (code, b) = search_result(vs, p, exists)->Ok_0;
            reported_outcome(spec_run(code, b as nat)) == VmOutcome::Halted(
                if exists {
                    if satisfied_from(vs[0], p, vs[0].1) { 1u8 } else { 0u8 }
                } else {
                    if all_satisfied_from(vs[0], p, vs[0].1) { 1u8 } else { 0u8 }
                },
            )
        }),
{
    let (vs, p, exists) = problem_search(problem);
    let v = vs[0];
    assert(vs =~= seq![v]);
    assert(vs.drop_last() =~= Seq::<(Seq<char>, i64, i64)>::empty());
    reveal_with_fuel(bind_all, 2);
    assert(find_name(Seq::<Seq<char>>::empty(), v.0) is None);
    assert(bind_all(vs.drop_last()) =~= Seq::<Seq<char>>::empty());
    assert(bind_all(vs) =~= seq![v.0]);
    let pc = compile_pred_spec(seq![v.0], 0, p)->Ok_0;
    lemma_pred_count_is_code_length(seq![v.0], 0, p);
    match problem {
        SearchProblem::Sat { num_vars, clauses } => {
            if num_vars <= 20 {
                assert(search_admissible(vs, p));
            }
        },
        _ => {
            assert(search_admissible(vs, p));
        },
    }
    assert(search_admissible(vs, p));
    assert(vs[0].2 < i64::MAX);
    if exists {
        lemma_exists_search_decides(v, p, pc);
    } else {
        lemma_forall_search_decides(v, p, pc);
    }
}

} // verus!
