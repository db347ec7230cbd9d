//! Predicate AST and compiler: boolean predicates over integer expressions,
//! compiled to straight-line machine code that pushes the predicate's value
//! (1 or 0) onto the stack.
//!
//! Variables are resolved to memory slots through a `VarEnv`, which hands out
//! consecutive slots in binding order.

use crate::vm::{Instruction, Fault, read_cell, binary_value, flag, exec_straight, lemma_exec_straight_append, lemma_exec_straight_single};
use vstd::prelude::*;

verus! {

broadcast use vstd::string::group_string_axioms;

/// Integer arithmetic expression.
#[derive(Debug, PartialEq, Eq)]
pub enum Expr {
    /// Constant literal.
    Lit(i64),
    /// Variable (resolved to a memory slot via `VarEnv`).
    Var(String),
    Add(Box<Expr>, Box<Expr>),
    Sub(Box<Expr>, Box<Expr>),
    Mul(Box<Expr>, Box<Expr>),
    /// Truncating division (division by zero faults on the machine).
    Div(Box<Expr>, Box<Expr>),
    /// Remainder (modulo by zero faults on the machine).
    Mod(Box<Expr>, Box<Expr>),
    Neg(Box<Expr>),
}

/// Boolean predicate over integer expressions.
#[derive(Debug, PartialEq, Eq)]
pub enum Pred {
    True,
    False,
    Eq(Expr, Expr),
    Ne(Expr, Expr),
    Lt(Expr, Expr),
    Le(Expr, Expr),
    Gt(Expr, Expr),
    Ge(Expr, Expr),
    And(Box<Pred>, Box<Pred>),
    Or(Box<Pred>, Box<Pred>),
    Not(Box<Pred>),
}

/// Mathematical model of an expression. Binary arithmetic nodes carry the
/// machine instruction that computes them.
pub enum SpecExpr {
    Lit(i64),
    Var(Seq<char>),
    Bin(Instruction, Box<SpecExpr>, Box<SpecExpr>),
    Neg(Box<SpecExpr>),
}

/// Mathematical model of a predicate.
pub enum SpecPred {
    True,
    False,
    Eq(SpecExpr, SpecExpr),
    Ne(SpecExpr, SpecExpr),
    Lt(SpecExpr, SpecExpr),
    Le(SpecExpr, SpecExpr),
    Gt(SpecExpr, SpecExpr),
    Ge(SpecExpr, SpecExpr),
    And(Box<SpecPred>, Box<SpecPred>),
    Or(Box<SpecPred>, Box<SpecPred>),
    Not(Box<SpecPred>),
}

pub open spec fn expr_model(e: Expr) -> SpecExpr
    decreases e,
{
    match e {
        Expr::Lit(v) => SpecExpr::Lit(v),
        Expr::Var(n) => SpecExpr::Var(n@),
        Expr::Add(a, b) => SpecExpr::Bin(
            Instruction::Add,
            Box::new(expr_model(*a)),
            Box::new(expr_model(*b)),
        ),
        Expr::Sub(a, b) => SpecExpr::Bin(
            Instruction::Sub,
            Box::new(expr_model(*a)),
            Box::new(expr_model(*b)),
        ),
        Expr::Mul(a, b) => SpecExpr::Bin(
            Instruction::Mul,
            Box::new(expr_model(*a)),
            Box::new(expr_model(*b)),
        ),
        Expr::Div(a, b) => SpecExpr::Bin(
            Instruction::Div,
            Box::new(expr_model(*a)),
            Box::new(expr_model(*b)),
        ),
        Expr::Mod(a, b) => SpecExpr::Bin(
            Instruction::Mod,
            Box::new(expr_model(*a)),
            Box::new(expr_model(*b)),
        ),
        Expr::Neg(a) => SpecExpr::Neg(Box::new(expr_model(*a))),
    }
}

pub open spec fn pred_model(p: Pred) -> SpecPred
    decreases p,
{
    match p {
        Pred::True => SpecPred::True,
        Pred::False => SpecPred::False,
        Pred::Eq(a, b) => SpecPred::Eq(expr_model(a), expr_model(b)),
        Pred::Ne(a, b) => SpecPred::Ne(expr_model(a), expr_model(b)),
        Pred::Lt(a, b) => SpecPred::Lt(expr_model(a), expr_model(b)),
        Pred::Le(a, b) => SpecPred::Le(expr_model(a), expr_model(b)),
        Pred::Gt(a, b) => SpecPred::Gt(expr_model(a), expr_model(b)),
        Pred::Ge(a, b) => SpecPred::Ge(expr_model(a), expr_model(b)),
        Pred::And(p, q) => SpecPred::And(Box::new(pred_model(*p)), Box::new(pred_model(*q))),
        Pred::Or(p, q) => SpecPred::Or(Box::new(pred_model(*p)), Box::new(pred_model(*q))),
        Pred::Not(p) => SpecPred::Not(Box::new(pred_model(*p))),
    }
}

impl View for Expr {
    type V = SpecExpr;

    open spec fn view(&self) -> SpecExpr {
        expr_model(*self)
    }
}

impl View for Pred {
    type V = SpecPred;

    open spec fn view(&self) -> SpecPred {
        pred_model(*self)
    }
}

// ── Variable environment ─────────────────────────────────────────────

/// Index of the first occurrence of `name` in `names`, if any.
pub open spec fn find_name(names: Seq<Seq<char>>, name: Seq<char>) -> Option<nat>
    decreases names.len(),
{
    if names.len() == 0 {
        None
    } else {
        match find_name(names.drop_last(), name) {
            Some(i) => Some(i),
            None => if names.last() == name {
                Some((names.len() - 1) as nat)
            } else {
                None
            },
        }
    }
}

/// Slot of `name` in an environment whose first slot is `first`.
pub open spec fn slot_of(names: Seq<Seq<char>>, first: nat, name: Seq<char>) -> Option<usize> {
    match find_name(names, name) {
        Some(i) => Some((first + i) as usize),
        None => None,
    }
}

/// Variable-to-memory-slot mapping. Variables get consecutive slots from
/// `first_slot` on, in binding order; a name is bound at most once.
#[derive(Debug)]
pub struct VarEnv {
    names: Vec<String>,
    first_slot: usize,
}

impl VarEnv {
    /// The bound names, in binding order.
    pub closed spec fn names(&self) -> Seq<Seq<char>> {
        self.names@.map_values(|s: String| s@)
    }

    /// The first slot handed out.
    pub closed spec fn first(&self) -> nat {
        self.first_slot as nat
    }

    /// The slot the next fresh variable gets.
    pub open spec fn spec_next_slot(&self) -> nat {
        self.first() + self.names().len()
    }

    /// Slot of a variable, if bound.
    pub open spec fn spec_lookup(&self, name: Seq<char>) -> Option<usize> {
        slot_of(self.names(), self.first(), name)
    }

    #[verifier::type_invariant]
    closed spec fn inv(self) -> bool {
        self.first_slot + self.names@.len() <= usize::MAX
    }

    /// A new environment whose first variable gets `first_slot`.
    pub fn new(first_slot: usize) -> (env: VarEnv)
        ensures
            env.names() == Seq::<Seq<char>>::empty(),
            env.first() == first_slot,
    {
        let env = VarEnv { names: Vec::new(), first_slot };
        assert(env.names() =~= Seq::<Seq<char>>::empty());
        env
    }

    fn find(&self, key: &String) -> (r: Option<usize>)
        ensures
            r == (match find_name(self.names(), key@) {
                Some(i) => Some(i as usize),
                None => None::<usize>,
            }),
    {
        let n = self.names.len();
        let mut i: usize = 0;
        while i < n
            invariant
                n == self.names@.len(),
                0 <= i <= n,
                find_name(self.names().take(i as int), key@) is None,
            decreases n - i,
        {
            assert(self.names().take(i as int + 1).drop_last() =~= self.names().take(i as int));
            if self.names[i] == *key {
                proof {
                    lemma_find_name_prefix(self.names(), key@, i as int + 1);
                }
                return Some(i);
            }
            proof {
                lemma_find_name_prefix(self.names(), key@, i as int + 1);
            }
            i = i + 1;
        }
        assert(self.names().take(n as int) =~= self.names());
        None
    }

    /// Bind a variable to the next slot and return that slot; a variable
    /// already bound keeps its slot.
    pub fn bind(&mut self, name: &str) -> (slot: usize)
        requires
            old(self).spec_lookup(name@) is Some || old(self).spec_next_slot() < usize::MAX,
        ensures
            final(self).first() == old(self).first(),
            old(self).spec_lookup(name@) is Some ==> final(self).names() == old(self).names()
                && Some(slot) == old(self).spec_lookup(name@),
            old(self).spec_lookup(name@) is None ==> final(self).names() == old(self).names().push(
                name@,
            ) && slot == old(self).spec_next_slot(),
            final(self).spec_lookup(name@) == Some(slot),
    {
        proof {
            use_type_invariant(&*self);
        }
        let key = name.to_string();
        match self.find(&key) {
            Some(i) => {
                proof {
                    lemma_find_name_bound(self.names(), name@);
                }
                self.first_slot + i
            },
            None => {
                let slot = self.first_slot + self.names.len();
                let ghost old_names = self.names();
                let mut names: Vec<String> = Vec::new();
                std::mem::swap(&mut names, &mut self.names);
                names.push(key);
                self.names = names;
                proof {
                    assert(self.names() =~= old_names.push(name@));
                    lemma_find_name_push(old_names, name@, name@);
                }
                slot
            },
        }
    }

    /// Slot of a variable, or `None` if it is not bound.
    pub fn lookup(&self, name: &str) -> (slot: Option<usize>)
        ensures
            slot == self.spec_lookup(name@),
    {
        proof {
            use_type_invariant(self);
        }
        let key = name.to_string();
        match self.find(&key) {
            Some(i) => {
                proof {
                    lemma_find_name_bound(self.names(), name@);
                }
                Some(self.first_slot + i)
            },
            None => None,
        }
    }

    /// Number of bound variables.
    pub fn len(&self) -> (n: usize)
        ensures
            n == self.names().len(),
    {
        self.names.len()
    }

    pub fn is_empty(&self) -> (b: bool)
        ensures
            b == (self.names().len() == 0),
    {
        self.names.len() == 0
    }

    /// The slot the next fresh variable would get.
    pub fn next_slot(&self) -> (s: usize)
        ensures
            s == self.spec_next_slot(),
    {
        proof {
            use_type_invariant(self);
        }
        self.first_slot + self.names.len()
    }
}

proof fn lemma_find_name_bound(names: Seq<Seq<char>>, name: Seq<char>)
    ensures
        find_name(names, name) matches Some(i) ==> i < names.len() && names[i as int] == name,
    decreases names.len(),
{
    if names.len() > 0 {
        lemma_find_name_bound(names.drop_last(), name);
    }
}

proof fn lemma_find_name_prefix(names: Seq<Seq<char>>, name: Seq<char>, k: int)
    requires
        0 < k <= names.len(),
        find_name(names.take(k - 1), name) is None,
    ensures
        names[k - 1] == name ==> find_name(names.take(k), name) == Some((k - 1) as nat)
            && find_name(names, name) == Some((k - 1) as nat),
        names[k - 1] != name ==> find_name(names.take(k), name) is None,
    decreases names.len(),
{
    assert(names.take(k).drop_last() =~= names.take(k - 1));
    if names[k - 1] == name {
        lemma_find_name_extend(names, name, k);
    }
}

/// A match found in a prefix stays the first match in the whole sequence.
proof fn lemma_find_name_extend(names: Seq<Seq<char>>, name: Seq<char>, k: int)
    requires
        0 < k <= names.len(),
        find_name(names.take(k), name) is Some,
    ensures
        find_name(names, name) == find_name(names.take(k), name),
    decreases names.len() - k,
{
    if k == names.len() {
        assert(names.take(k) =~= names);
    } else {
        let n2 = names.take(k + 1);
        assert(n2.drop_last() =~= names.take(k));
        assert(names.take(k + 1).take(k) =~= names.take(k));
        lemma_find_name_extend(names, name, k + 1);
    }
}

proof fn lemma_find_name_push(names: Seq<Seq<char>>, x: Seq<char>, name: Seq<char>)
    requires
        find_name(names, name) is None,
    ensures
        find_name(names.push(x), name) == (if x == name {
            Some(names.len())
        } else {
            None
        }),
{
    assert(names.push(x).drop_last() =~= names);
}

impl Clone for VarEnv {
    fn clone(&self) -> (r: Self)
        ensures
            r.names() == self.names(),
            r.first() == self.first(),
    {
        proof {
            use_type_invariant(self);
        }
        let n = self.names.len();
        let mut names: Vec<String> = Vec::new();
        let mut i: usize = 0;
        while i < n
            invariant
                n == self.names@.len(),
                0 <= i <= n,
                names@.len() == i,
                forall|j: int| 0 <= j < i ==> #[trigger] names@[j]@ == self.names@[j]@,
            decreases n - i,
        {
            names.push(self.names[i].clone());
            i = i + 1;
        }
        let r = VarEnv { names, first_slot: self.first_slot };
        assert(r.names() =~= self.names());
        r
    }
}

// ── Compilation ──────────────────────────────────────────────────────

/// Compilation error.
#[derive(Debug, Clone, PartialEq, Eq)]
pub enum CompileError {
    UnboundVariable(String),
}

impl CompileError {
    /// Human-readable message.
    pub fn message(&self) -> (s: String)
        ensures
            s@ == (match self {
                CompileError::UnboundVariable(name) => "unbound variable: "@ + name@,
            }),
    {
        match self {
            CompileError::UnboundVariable(name) => {
                let s = "unbound variable: ".to_string();
                s.concat(name.as_str())
            },
        }
    }
}

/// Code for an expression: pushes its value.
pub open spec fn compile_expr_spec(names: Seq<Seq<char>>, first: nat, e: SpecExpr) -> Result<
    Seq<Instruction>,
    Seq<char>,
>
    decreases e,
{
    match e {
        SpecExpr::Lit(v) => Ok(seq![Instruction::Push(v)]),
        SpecExpr::Var(n) => match slot_of(names, first, n) {
            Some(s) => Ok(seq![Instruction::Load(s)]),
            None => Err(n),
        },
        SpecExpr::Bin(op, a, b) => match compile_expr_spec(names, first, *a) {
            Err(x) => Err(x),
            Ok(ca) => match compile_expr_spec(names, first, *b) {
                Err(x) => Err(x),
                Ok(cb) => Ok(ca + cb + seq![op]),
            },
        },
        SpecExpr::Neg(a) => match compile_expr_spec(names, first, *a) {
            Err(x) => Err(x),
            Ok(ca) => Ok(ca.push(Instruction::Neg)),
        },
    }
}

/// Code for two operands followed by a tail of instructions.
pub open spec fn compile_pair_spec(
    names: Seq<Seq<char>>,
    first: nat,
    a: SpecExpr,
    b: SpecExpr,
    tail: Seq<Instruction>,
) -> Result<Seq<Instruction>, Seq<char>> {
    match compile_expr_spec(names, first, a) {
        Err(x) => Err(x),
        Ok(ca) => match compile_expr_spec(names, first, b) {
            Err(x) => Err(x),
            Ok(cb) => Ok(ca + cb + tail),
        },
    }
}

/// Code for a predicate: pushes 1 when it holds, 0 otherwise.
///   Ne(a, b) = [a, b, Eq, Not];  Le(a, b) = [b, a, Lt, Not];
///   Gt(a, b) = [b, a, Lt];       Ge(a, b) = [a, b, Lt, Not].
pub open spec fn compile_pred_spec(names: Seq<Seq<char>>, first: nat, p: SpecPred) -> Result<
    Seq<Instruction>,
    Seq<char>,
>
    decreases p,
{
    match p {
        SpecPred::True => Ok(seq![Instruction::Push(1)]),
        SpecPred::False => Ok(seq![Instruction::Push(0)]),
        SpecPred::Eq(a, b) => compile_pair_spec(names, first, a, b, seq![Instruction::Eq]),
        SpecPred::Ne(a, b) => compile_pair_spec(
            names,
            first,
            a,
            b,
            seq![Instruction::Eq, Instruction::Not],
        ),
        SpecPred::Lt(a, b) => compile_pair_spec(names, first, a, b, seq![Instruction::Lt]),
        SpecPred::Le(a, b) => compile_pair_spec(
            names,
            first,
            b,
            a,
            seq![Instruction::Lt, Instruction::Not],
        ),
        SpecPred::Gt(a, b) => compile_pair_spec(names, first, b, a, seq![Instruction::Lt]),
        SpecPred::Ge(a, b) => compile_pair_spec(
            names,
            first,
            a,
            b,
            seq![Instruction::Lt, Instruction::Not],
        ),
        SpecPred::And(p, q) => match compile_pred_spec(names, first, *p) {
            Err(x) => Err(x),
            Ok(cp) => match compile_pred_spec(names, first, *q) {
                Err(x) => Err(x),
                Ok(cq) => Ok(cp + cq + seq![Instruction::And]),
            },
        },
        SpecPred::Or(p, q) => match compile_pred_spec(names, first, *p) {
            Err(x) => Err(x),
            Ok(cp) => match compile_pred_spec(names, first, *q) {
                Err(x) => Err(x),
                Ok(cq) => Ok(cp + cq + seq![Instruction::Or]),
            },
        },
        SpecPred::Not(p) => match compile_pred_spec(names, first, *p) {
            Err(x) => Err(x),
            Ok(cp) => Ok(cp.push(Instruction::Not)),
        },
    }
}

/// Does an exec result agree with a spec result of compilation?
pub open spec fn compile_result_matches(
    r: Result<Vec<Instruction>, CompileError>,
    s: Result<Seq<Instruction>, Seq<char>>,
) -> bool {
    match r {
        Ok(v) => s == Ok::<Seq<Instruction>, Seq<char>>(v@),
        Err(CompileError::UnboundVariable(n)) => s == Err::<Seq<Instruction>, Seq<char>>(n@),
    }
}

/// Number of instructions an expression compiles to.
pub open spec fn expr_count_spec(e: SpecExpr) -> nat
    decreases e,
{
    match e {
        SpecExpr::Lit(_) => 1,
        SpecExpr::Var(_) => 1,
        SpecExpr::Bin(_, a, b) => expr_count_spec(*a) + expr_count_spec(*b) + 1,
        SpecExpr::Neg(a) => expr_count_spec(*a) + 1,
    }
}

/// Number of instructions a predicate compiles to.
pub open spec fn pred_count_spec(p: SpecPred) -> nat
    decreases p,
{
    match p {
        SpecPred::True | SpecPred::False => 1,
        SpecPred::Eq(a, b) | SpecPred::Lt(a, b) | SpecPred::Gt(a, b) => expr_count_spec(a)
            + expr_count_spec(b) + 1,
        SpecPred::Ne(a, b) | SpecPred::Le(a, b) | SpecPred::Ge(a, b) => expr_count_spec(a)
            + expr_count_spec(b) + 2,
        SpecPred::And(p, q) | SpecPred::Or(p, q) => pred_count_spec(*p) + pred_count_spec(*q) + 1,
        SpecPred::Not(p) => pred_count_spec(*p) + 1,
    }
}

fn code1(a: Instruction) -> (v: Vec<Instruction>)
    ensures
        v@ == seq![a],
{
    let v = vec![a];
    assert(v@ =~= seq![a]);
    v
}

fn code2(a: Instruction, b: Instruction) -> (v: Vec<Instruction>)
    ensures
        v@ == seq![a, b],
{
    let v = vec![a, b];
    assert(v@ =~= seq![a, b]);
    v
}

// ── Meaning of expressions and predicates ─────────────────────────────

/// Value of an expression when its variables are read from `memory`
/// through the environment; `None` for an unbound variable, an overflow,
/// or a division by zero.
pub open spec fn eval_expr_spec(
    names: Seq<Seq<char>>,
    first: nat,
    memory: Map<usize, i64>,
    e: SpecExpr,
) -> Option<i64>
    decreases e,
{
    match e {
        SpecExpr::Lit(v) => Some(v),
        SpecExpr::Var(n) => match slot_of(names, first, n) {
            Some(s) => Some(read_cell(memory, s)),
            None => None,
        },
        SpecExpr::Bin(op, a, b) => match eval_expr_spec(names, first, memory, *a) {
            None => None,
            Some(x) => match eval_expr_spec(names, first, memory, *b) {
                None => None,
                Some(y) => match binary_value(op, x, y) {
                    Ok(v) => Some(v),
                    Err(_) => None,
                },
            },
        },
        SpecExpr::Neg(a) => match eval_expr_spec(names, first, memory, *a) {
            None => None,
            Some(x) => 0i64.checked_sub(x),
        },
    }
}

/// Truth value of a comparison of two evaluated operands.
pub open spec fn eval_cmp(
    names: Seq<Seq<char>>,
    first: nat,
    memory: Map<usize, i64>,
    a: SpecExpr,
    b: SpecExpr,
    rel: spec_fn(i64, i64) -> bool,
) -> Option<bool> {
    match eval_expr_spec(names, first, memory, a) {
        None => None,
        Some(x) => match eval_expr_spec(names, first, memory, b) {
            None => None,
            Some(y) => Some(rel(x, y)),
        },
    }
}

/// Truth value of a predicate; `None` when an operand does not evaluate.
/// Operands are evaluated in the order the compiled code evaluates them.
pub open spec fn eval_pred_spec(
    names: Seq<Seq<char>>,
    first: nat,
    memory: Map<usize, i64>,
    p: SpecPred,
) -> Option<bool>
    decreases p,
{
    match p {
        SpecPred::True => Some(true),
        SpecPred::False => Some(false),
        SpecPred::Eq(a, b) => eval_cmp(names, first, memory, a, b, |x: i64, y: i64| x == y),
        SpecPred::Ne(a, b) => eval_cmp(names, first, memory, a, b, |x: i64, y: i64| x != y),
        SpecPred::Lt(a, b) => eval_cmp(names, first, memory, a, b, |x: i64, y: i64| x < y),
        SpecPred::Le(a, b) => eval_cmp(names, first, memory, b, a, |y: i64, x: i64| x <= y),
        SpecPred::Gt(a, b) => eval_cmp(names, first, memory, b, a, |y: i64, x: i64| x > y),
        SpecPred::Ge(a, b) => eval_cmp(names, first, memory, a, b, |x: i64, y: i64| x >= y),
        SpecPred::And(p, q) => match eval_pred_spec(names, first, memory, *p) {
            None => None,
            Some(x) => match eval_pred_spec(names, first, memory, *q) {
                None => None,
                Some(y) => Some(x && y),
            },
        },
        SpecPred::Or(p, q) => match eval_pred_spec(names, first, memory, *p) {
            None => None,
            Some(x) => match eval_pred_spec(names, first, memory, *q) {
                None => None,
                Some(y) => Some(x || y),
            },
        },
        SpecPred::Not(p) => match eval_pred_spec(names, first, memory, *p) {
            None => None,
            Some(x) => Some(!x),
        },
    }
}

proof fn lemma_push2_drop2(s: Seq<i64>, x: i64, y: i64)
    ensures
        s.push(x).push(y).drop_last().drop_last() == s,
        s.push(x).push(y).drop_last() == s.push(x),
        s.push(x).push(y)[s.len() as int] == x,
        s.push(x).push(y).last() == y,
        s.push(x).drop_last() == s,
{
    assert(s.push(x).push(y).drop_last().drop_last() =~= s);
    assert(s.push(x).push(y).drop_last() =~= s.push(x));
    assert(s.push(x).drop_last() =~= s);
}

/// Compiled expression code, run on any stack, pushes the expression's
/// value and leaves memory unchanged, whenever the expression evaluates.
pub proof fn lemma_compiled_expr_pushes_value(
    names: Seq<Seq<char>>,
    first: nat,
    memory: Map<usize, i64>,
    e: SpecExpr,
    stack: Seq<i64>,
)
    requires
        compile_expr_spec(names, first, e) is Ok,
        eval_expr_spec(names, first, memory, e) is Some,
    ensures
        exec_straight(compile_expr_spec(names, first, e)->Ok_0, stack, memory) == Ok::<
            (Seq<i64>, Map<usize, i64>),
            Fault,
        >((stack.push(eval_expr_spec(names, first, memory, e)->Some_0), memory)),
    decreases e,
{
    match e {
        SpecExpr::Lit(v) => {
            lemma_exec_straight_single(Instruction::Push(v), stack, memory);
        },
        SpecExpr::Var(n) => {
            lemma_exec_straight_single(
                Instruction::Load(slot_of(names, first, n)->Some_0),
                stack,
                memory,
            );
        },
        SpecExpr::Bin(op, a, b) => {
            let ca = compile_expr_spec(names, first, *a)->Ok_0;
            let cb = compile_expr_spec(names, first, *b)->Ok_0;
            let x = eval_expr_spec(names, first, memory, *a)->Some_0;
            let y = eval_expr_spec(names, first, memory, *b)->Some_0;
            lemma_compiled_expr_pushes_value(names, first, memory, *a, stack);
            lemma_compiled_expr_pushes_value(names, first, memory, *b, stack.push(x));
            lemma_exec_straight_append(ca + cb, seq![op], stack, memory);
            lemma_exec_straight_append(ca, cb, stack, memory);
            lemma_exec_straight_single(op, stack.push(x).push(y), memory);
            lemma_push2_drop2(stack, x, y);
        },
        SpecExpr::Neg(a) => {
            let ca = compile_expr_spec(names, first, *a)->Ok_0;
            let x = eval_expr_spec(names, first, memory, *a)->Some_0;
            lemma_compiled_expr_pushes_value(names, first, memory, *a, stack);
            assert(ca.push(Instruction::Neg) =~= ca + seq![Instruction::Neg]);
            lemma_exec_straight_append(ca, seq![Instruction::Neg], stack, memory);
            lemma_exec_straight_single(Instruction::Neg, stack.push(x), memory);
            assert(stack.push(x).drop_last() =~= stack);
        },
    }
}

proof fn lemma_flag_bits()
    ensures
        flag(true) & flag(true) == flag(true),
        flag(true) & flag(false) == flag(false),
        flag(false) & flag(true) == flag(false),
        flag(false) & flag(false) == flag(false),
        flag(true) | flag(true) == flag(true),
        flag(true) | flag(false) == flag(true),
        flag(false) | flag(true) == flag(true),
        flag(false) | flag(false) == flag(false),
{
    assert(1i64 & 1i64 == 1i64) by (bit_vector);
    assert(1i64 & 0i64 == 0i64) by (bit_vector);
    assert(0i64 & 1i64 == 0i64) by (bit_vector);
    assert(0i64 & 0i64 == 0i64) by (bit_vector);
    assert(1i64 | 1i64 == 1i64) by (bit_vector);
    assert(1i64 | 0i64 == 1i64) by (bit_vector);
    assert(0i64 | 1i64 == 1i64) by (bit_vector);
    assert(0i64 | 0i64 == 0i64) by (bit_vector);
}

proof fn lemma_compiled_pair(
    names: Seq<Seq<char>>,
    first: nat,
    memory: Map<usize, i64>,
    a: SpecExpr,
    b: SpecExpr,
    tail: Seq<Instruction>,
    stack: Seq<i64>,
)
    requires
        compile_pair_spec(names, first, a, b, tail) is Ok,
        eval_expr_spec(names, first, memory, a) is Some,
        eval_expr_spec(names, first, memory, b) is Some,
    ensures
        exec_straight(compile_pair_spec(names, first, a, b, tail)->Ok_0, stack, memory)
            == exec_straight(
            tail,
            stack.push(eval_expr_spec(names, first, memory, a)->Some_0).push(
                eval_expr_spec(names, first, memory, b)->Some_0,
            ),
            memory,
        ),
{
    let ca = compile_expr_spec(names, first, a)->Ok_0;
    let cb = compile_expr_spec(names, first, b)->Ok_0;
    let x = eval_expr_spec(names, first, memory, a)->Some_0;
    lemma_compiled_expr_pushes_value(names, first, memory, a, stack);
    lemma_compiled_expr_pushes_value(names, first, memory, b, stack.push(x));
    lemma_exec_straight_append(ca + cb, tail, stack, memory);
    lemma_exec_straight_append(ca, cb, stack, memory);
}

/// Run `[Lt, Not]` or `[Eq, Not]` (or a single comparison) on two operands.
proof fn lemma_compare_tail(op: Instruction, negate: bool, s: Seq<i64>, x: i64, y: i64, memory: Map<
    usize,
    i64,
>)
    requires
        op == Instruction::Eq || op == Instruction::Lt,
    ensures
        negate ==> exec_straight(seq![op, Instruction::Not], s.push(x).push(y), memory) == Ok::<
            (Seq<i64>, Map<usize, i64>),
            Fault,
        >(
            (
                s.push(
                    flag(
                        !(if op == Instruction::Eq {
                            x == y
                        } else {
                            x < y
                        }),
                    ),
                ),
                memory,
            ),
        ),
        !negate ==> exec_straight(seq![op], s.push(x).push(y), memory) == Ok::<
            (Seq<i64>, Map<usize, i64>),
            Fault,
        >(
            (
                s.push(
                    flag(
                        if op == Instruction::Eq {
                            x == y
                        } else {
                            x < y
                        },
                    ),
                ),
                memory,
            ),
        ),
{
    lemma_push2_drop2(s, x, y);
    let r = flag(
        if op == Instruction::Eq {
            x == y
        } else {
            x < y
        },
    );
    lemma_exec_straight_single(op, s.push(x).push(y), memory);
    assert(seq![op, Instruction::Not] =~= seq![op] + seq![Instruction::Not]);
    lemma_exec_straight_append(seq![op], seq![Instruction::Not], s.push(x).push(y), memory);
    lemma_exec_straight_single(Instruction::Not, s.push(r), memory);
    assert(s.push(r).drop_last() =~= s);
}

/// Compiled predicate code, run on any stack, pushes 1 when the predicate
/// holds and 0 when it does not, whenever all its operands evaluate.
#[verifier::spinoff_prover]
#[verifier::rlimit(60)]
pub proof fn lemma_compiled_pred_pushes_truth(
    names: Seq<Seq<char>>,
    first: nat,
    memory: Map<usize, i64>,
    p: SpecPred,
    stack: Seq<i64>,
)
    requires
        compile_pred_spec(names, first, p) is Ok,
        eval_pred_spec(names, first, memory, p) is Some,
    ensures
        exec_straight(compile_pred_spec(names, first, p)->Ok_0, stack, memory) == Ok::<
            (Seq<i64>, Map<usize, i64>),
            Fault,
        >((stack.push(flag(eval_pred_spec(names, first, memory, p)->Some_0)), memory)),
    decreases p,
{
    match p {
        SpecPred::True => {
            lemma_exec_straight_single(Instruction::Push(1), stack, memory);
        },
        SpecPred::False => {
            lemma_exec_straight_single(Instruction::Push(0), stack, memory);
        },
        SpecPred::Eq(a, b) => {
            lemma_compiled_pair(names, first, memory, a, b, seq![Instruction::Eq], stack);
            lemma_compare_tail(
                Instruction::Eq,
                false,
                stack,
                eval_expr_spec(names, first, memory, a)->Some_0,
                eval_expr_spec(names, first, memory, b)->Some_0,
                memory,
            );
        },
        SpecPred::Ne(a, b) => {
            lemma_compiled_pair(
                names,
                first,
                memory,
                a,
                b,
                seq![Instruction::Eq, Instruction::Not],
                stack,
            );
            lemma_compare_tail(
                Instruction::Eq,
                true,
                stack,
                eval_expr_spec(names, first, memory, a)->Some_0,
                eval_expr_spec(names, first, memory, b)->Some_0,
                memory,
            );
        },
        SpecPred::Lt(a, b) => {
            lemma_compiled_pair(names, first, memory, a, b, seq![Instruction::Lt], stack);
            lemma_compare_tail(
                Instruction::Lt,
                false,
                stack,
                eval_expr_spec(names, first, memory, a)->Some_0,
                eval_expr_spec(names, first, memory, b)->Some_0,
                memory,
            );
        },
        SpecPred::Le(a, b) => {
            lemma_compiled_pair(
                names,
                first,
                memory,
                b,
                a,
                seq![Instruction::Lt, Instruction::Not],
                stack,
            );
            lemma_compare_tail(
                Instruction::Lt,
                true,
                stack,
                eval_expr_spec(names, first, memory, b)->Some_0,
                eval_expr_spec(names, first, memory, a)->Some_0,
                memory,
            );
        },
        SpecPred::Gt(a, b) => {
            lemma_compiled_pair(names, first, memory, b, a, seq![Instruction::Lt], stack);
            lemma_compare_tail(
                Instruction::Lt,
                false,
                stack,
                eval_expr_spec(names, first, memory, b)->Some_0,
                eval_expr_spec(names, first, memory, a)->Some_0,
                memory,
            );
        },
        SpecPred::Ge(a, b) => {
            lemma_compiled_pair(
                names,
                first,
                memory,
                a,
                b,
                seq![Instruction::Lt, Instruction::Not],
                stack,
            );
            lemma_compare_tail(
                Instruction::Lt,
                true,
                stack,
                eval_expr_spec(names, first, memory, a)->Some_0,
                eval_expr_spec(names, first, memory, b)->Some_0,
                memory,
            );
        },
        SpecPred::And(p1, q1) => {
            let cp = compile_pred_spec(names, first, *p1)->Ok_0;
            let cq = compile_pred_spec(names, first, *q1)->Ok_0;
            let x = flag(eval_pred_spec(names, first, memory, *p1)->Some_0);
            let y = flag(eval_pred_spec(names, first, memory, *q1)->Some_0);
            lemma_compiled_pred_pushes_truth(names, first, memory, *p1, stack);
            lemma_compiled_pred_pushes_truth(names, first, memory, *q1, stack.push(x));
            lemma_exec_straight_append(cp + cq, seq![Instruction::And], stack, memory);
            lemma_exec_straight_append(cp, cq, stack, memory);
            lemma_exec_straight_single(Instruction::And, stack.push(x).push(y), memory);
            lemma_push2_drop2(stack, x, y);
            lemma_flag_bits();
        },
        SpecPred::Or(p1, q1) => {
            let cp = compile_pred_spec(names, first, *p1)->Ok_0;
            let cq = compile_pred_spec(names, first, *q1)->Ok_0;
            let x = flag(eval_pred_spec(names, first, memory, *p1)->Some_0);
            let y = flag(eval_pred_spec(names, first, memory, *q1)->Some_0);
            lemma_compiled_pred_pushes_truth(names, first, memory, *p1, stack);
            lemma_compiled_pred_pushes_truth(names, first, memory, *q1, stack.push(x));
            lemma_exec_straight_append(cp + cq, seq![Instruction::Or], stack, memory);
            lemma_exec_straight_append(cp, cq, stack, memory);
            lemma_exec_straight_single(Instruction::Or, stack.push(x).push(y), memory);
            lemma_push2_drop2(stack, x, y);
            lemma_flag_bits();
        },
        SpecPred::Not(p1) => {
            let cp = compile_pred_spec(names, first, *p1)->Ok_0;
            let x = flag(eval_pred_spec(names, first, memory, *p1)->Some_0);
            lemma_compiled_pred_pushes_truth(names, first, memory, *p1, stack);
            assert(cp.push(Instruction::Not) =~= cp + seq![Instruction::Not]);
            lemma_exec_straight_append(cp, seq![Instruction::Not], stack, memory);
            lemma_exec_straight_single(Instruction::Not, stack.push(x), memory);
            assert(stack.push(x).drop_last() =~= stack);
        },
    }
}

/// The instruction count of an expression is the length of its code.
pub proof fn lemma_expr_count_is_code_length(names: Seq<Seq<char>>, first: nat, e: SpecExpr)
    requires
        compile_expr_spec(names, first, e) is Ok,
    ensures
        compile_expr_spec(names, first, e)->Ok_0.len() == expr_count_spec(e),
    decreases e,
{
    match e {
        SpecExpr::Bin(_, a, b) => {
            lemma_expr_count_is_code_length(names, first, *a);
            lemma_expr_count_is_code_length(names, first, *b);
        },
        SpecExpr::Neg(a) => {
            lemma_expr_count_is_code_length(names, first, *a);
        },
        _ => {},
    }
}

/// The instruction count of a predicate is the length of its code.
pub proof fn lemma_pred_count_is_code_length(names: Seq<Seq<char>>, first: nat, p: SpecPred)
    requires
        compile_pred_spec(names, first, p) is Ok,
    ensures
        compile_pred_spec(names, first, p)->Ok_0.len() == pred_count_spec(p),
    decreases p,
{
    match p {
        SpecPred::Eq(a, b) | SpecPred::Ne(a, b) | SpecPred::Lt(a, b) | SpecPred::Le(a, b)
        | SpecPred::Gt(a, b) | SpecPred::Ge(a, b) => {
            lemma_expr_count_is_code_length(names, first, a);
            lemma_expr_count_is_code_length(names, first, b);
        },
        SpecPred::And(p1, q1) | SpecPred::Or(p1, q1) => {
            lemma_pred_count_is_code_length(names, first, *p1);
            lemma_pred_count_is_code_length(names, first, *q1);
        },
        SpecPred::Not(p1) => {
            lemma_pred_count_is_code_length(names, first, *p1);
        },
        _ => {},
    }
}

/// Predicate compiler: Expr/Pred AST to machine code, against a fixed
/// variable environment.
pub struct PredicateCompiler {
    env: VarEnv,
}

impl PredicateCompiler {
    /// The environment the compiler resolves variables in.
    pub closed spec fn env(&self) -> VarEnv {
        self.env
    }

    pub fn new(env: VarEnv) -> (c: PredicateCompiler)
        ensures
            c.env() == env,
    {
        PredicateCompiler { env }
    }

    /// Compile an expression to code that pushes its value.
    pub fn compile_expr(&self, expr: &Expr) -> (r: Result<Vec<Instruction>, CompileError>)
        ensures
            compile_result_matches(
                r,
                compile_expr_spec(self.env().names(), self.env().first(), expr@),
            ),
        decreases expr,
    {
        match expr {
            Expr::Lit(v) => {
                let instrs = vec![Instruction::Push(*v)];
                assert(instrs@ =~= seq![Instruction::Push(*v)]);
                Ok(instrs)
            },
            Expr::Var(name) => match self.env.lookup(name.as_str()) {
                Some(slot) => {
                    let instrs = vec![Instruction::Load(slot)];
                    assert(instrs@ =~= seq![Instruction::Load(slot)]);
                    Ok(instrs)
                },
                None => Err(CompileError::UnboundVariable(name.clone())),
            },
            Expr::Add(a, b) => {
                let mut instrs = match self.compile_expr(a) {
                    Ok(v) => v,
                    Err(e) => return Err(e),
                };
                let mut rest = match self.compile_expr(b) {
                    Ok(v) => v,
                    Err(e) => return Err(e),
                };
                let ghost a = instrs@;
                let ghost b = rest@;
                instrs.append(&mut rest);
                instrs.push(Instruction::Add);
                assert(instrs@ =~= a + b + seq![Instruction::Add]);
                Ok(instrs)
            },
            Expr::Sub(a, b) => {
                let mut instrs = match self.compile_expr(a) {
                    Ok(v) => v,
                    Err(e) => return Err(e),
                };
                let mut rest = match self.compile_expr(b) {
                    Ok(v) => v,
                    Err(e) => return Err(e),
                };
                let ghost a = instrs@;
                let ghost b = rest@;
                instrs.append(&mut rest);
                instrs.push(Instruction::Sub);
                assert(instrs@ =~= a + b + seq![Instruction::Sub]);
                Ok(instrs)
            },
            Expr::Mul(a, b) => {
                let mut instrs = match self.compile_expr(a) {
                    Ok(v) => v,
                    Err(e) => return Err(e),
                };
                let mut rest = match self.compile_expr(b) {
                    Ok(v) => v,
                    Err(e) => return Err(e),
                };
                let ghost a = instrs@;
                let ghost b = rest@;
                instrs.append(&mut rest);
                instrs.push(Instruction::Mul);
                assert(instrs@ =~= a + b + seq![Instruction::Mul]);
                Ok(instrs)
            },
            Expr::Div(a, b) => {
                let mut instrs = match self.compile_expr(a) {
                    Ok(v) => v,
                    Err(e) => return Err(e),
                };
                let mut rest = match self.compile_expr(b) {
                    Ok(v) => v,
                    Err(e) => return Err(e),
                };
                let ghost a = instrs@;
                let ghost b = rest@;
                instrs.append(&mut rest);
                instrs.push(Instruction::Div);
                assert(instrs@ =~= a + b + seq![Instruction::Div]);
                Ok(instrs)
            },
            Expr::Mod(a, b) => {
                let mut instrs = match self.compile_expr(a) {
                    Ok(v) => v,
                    Err(e) => return Err(e),
                };
                let mut rest = match self.compile_expr(b) {
                    Ok(v) => v,
                    Err(e) => return Err(e),
                };
                let ghost a = instrs@;
                let ghost b = rest@;
                instrs.append(&mut rest);
                instrs.push(Instruction::Mod);
                assert(instrs@ =~= a + b + seq![Instruction::Mod]);
                Ok(instrs)
            },
            Expr::Neg(a) => {
                let mut instrs = match self.compile_expr(a) {
                    Ok(v) => v,
                    Err(e) => return Err(e),
                };
                instrs.push(Instruction::Neg);
                Ok(instrs)
            },
        }
    }

    /// Code for `a`, then `b`, then `tail`.
    fn compile_operands(&self, a: &Expr, b: &Expr, tail: Vec<Instruction>) -> (r: Result<
        Vec<Instruction>,
        CompileError,
    >)
        ensures
            compile_result_matches(
                r,
                compile_pair_spec(self.env().names(), self.env().first(), a@, b@, tail@),
            ),
    {
        let mut instrs = match self.compile_expr(a) {
            Ok(v) => v,
            Err(e) => return Err(e),
        };
        let mut rest = match self.compile_expr(b) {
            Ok(v) => v,
            Err(e) => return Err(e),
        };
        let mut tail = tail;
        instrs.append(&mut rest);
        instrs.append(&mut tail);
        Ok(instrs)
    }

    /// Compile a predicate to code that pushes 1 if it holds and 0 otherwise.
    pub fn compile_pred(&self, pred: &Pred) -> (r: Result<Vec<Instruction>, CompileError>)
        ensures
            compile_result_matches(
                r,
                compile_pred_spec(self.env().names(), self.env().first(), pred@),
            ),
        decreases pred,
    {
        match pred {
            Pred::True => {
                let instrs = vec![Instruction::Push(1)];
                assert(instrs@ =~= seq![Instruction::Push(1)]);
                Ok(instrs)
            },
            Pred::False => {
                let instrs = vec![Instruction::Push(0)];
                assert(instrs@ =~= seq![Instruction::Push(0)]);
                Ok(instrs)
            },
            Pred::Eq(a, b) => self.compile_operands(a, b, code1(Instruction::Eq)),
            Pred::Ne(a, b) => self.compile_operands(a, b, code2(Instruction::Eq, Instruction::Not)),
            Pred::Lt(a, b) => self.compile_operands(a, b, code1(Instruction::Lt)),
            Pred::Le(a, b) => self.compile_operands(b, a, code2(Instruction::Lt, Instruction::Not)),
            Pred::Gt(a, b) => self.compile_operands(b, a, code1(Instruction::Lt)),
            Pred::Ge(a, b) => self.compile_operands(a, b, code2(Instruction::Lt, Instruction::Not)),
            Pred::And(p, q) => {
                let mut instrs = match self.compile_pred(p) {
                    Ok(v) => v,
                    Err(e) => return Err(e),
                };
                let mut rest = match self.compile_pred(q) {
                    Ok(v) => v,
                    Err(e) => return Err(e),
                };
                let ghost a = instrs@;
                let ghost b = rest@;
                instrs.append(&mut rest);
                instrs.push(Instruction::And);
                assert(instrs@ =~= a + b + seq![Instruction::And]);
                Ok(instrs)
            },
            Pred::Or(p, q) => {
                let mut instrs = match self.compile_pred(p) {
                    Ok(v) => v,
                    Err(e) => return Err(e),
                };
                let mut rest = match self.compile_pred(q) {
                    Ok(v) => v,
                    Err(e) => return Err(e),
                };
                let ghost a = instrs@;
                let ghost b = rest@;
                instrs.append(&mut rest);
                instrs.push(Instruction::Or);
                assert(instrs@ =~= a + b + seq![Instruction::Or]);
                Ok(instrs)
            },
            Pred::Not(p) => {
                let mut instrs = match self.compile_pred(p) {
                    Ok(v) => v,
                    Err(e) => return Err(e),
                };
                instrs.push(Instruction::Not);
                Ok(instrs)
            },
        }
    }

    /// Number of instructions an expression compiles to.
    pub fn expr_instruction_count(expr: &Expr) -> (n: usize)
        requires
            expr_count_spec(expr@) <= usize::MAX,
        ensures
            n == expr_count_spec(expr@),
        decreases expr,
    {
        match expr {
            Expr::Lit(_) => 1,
            Expr::Var(_) => 1,
            Expr::Add(a, b) | Expr::Sub(a, b) | Expr::Mul(a, b) | Expr::Div(a, b) | Expr::Mod(
                a,
                b,
            ) => Self::expr_instruction_count(a) + Self::expr_instruction_count(b) + 1,
            Expr::Neg(a) => Self::expr_instruction_count(a) + 1,
        }
    }

    /// Number of instructions a predicate compiles to.
    pub fn pred_instruction_count(pred: &Pred) -> (n: usize)
        requires
            pred_count_spec(pred@) <= usize::MAX,
        ensures
            n == pred_count_spec(pred@),
        decreases pred,
    {
        match pred {
            Pred::True | Pred::False => 1,
            Pred::Eq(a, b) | Pred::Lt(a, b) | Pred::Gt(a, b) => Self::expr_instruction_count(a)
                + Self::expr_instruction_count(b) + 1,
            Pred::Ne(a, b) | Pred::Le(a, b) | Pred::Ge(a, b) => Self::expr_instruction_count(a)
                + Self::expr_instruction_count(b) + 2,
            Pred::And(p, q) | Pred::Or(p, q) => Self::pred_instruction_count(p)
                + Self::pred_instruction_count(q) + 1,
            Pred::Not(p) => Self::pred_instruction_count(p) + 1,
        }
    }
}

} // verus!

verus! {

// ── CNF and polynomial predicates ────────────────────────────────────

/// Zero-based variable index of a (nonzero) DIMACS literal.
pub open spec fn lit_var_index(lit: i32) -> u32 {
    ((if lit < 0 {
        -lit
    } else {
        lit as int
    }) - 1) as u32
}

/// Bit `k` of the assignment variable `a`: `(a / 2^k) % 2`.
pub open spec fn bit_expr_model(k: u32) -> SpecExpr {
    SpecExpr::Bin(
        Instruction::Mod,
        Box::new(
            SpecExpr::Bin(
                Instruction::Div,
                Box::new(SpecExpr::Var("a"@)),
                Box::new(SpecExpr::Lit(1i64 << k)),
            ),
        ),
        Box::new(SpecExpr::Lit(2)),
    )
}

/// A positive literal `i` holds when bit `i-1` is nonzero; a negative
/// literal `-i` holds when it is zero.
pub open spec fn literal_model(lit: i32) -> SpecPred {
    if lit > 0 {
        SpecPred::Ne(bit_expr_model(lit_var_index(lit)), SpecExpr::Lit(0))
    } else {
        SpecPred::Eq(bit_expr_model(lit_var_index(lit)), SpecExpr::Lit(0))
    }
}

/// Left-nested disjunction of the literals of a nonempty clause.
pub open spec fn or_chain(c: Seq<i32>) -> SpecPred
    decreases c.len(),
{
    if c.len() <= 1 {
        literal_model(c[0])
    } else {
        SpecPred::Or(Box::new(or_chain(c.drop_last())), Box::new(literal_model(c.last())))
    }
}

/// A clause: the disjunction of its literals; the empty clause is false.
pub open spec fn clause_model(c: Seq<i32>) -> SpecPred {
    if c.len() == 0 {
        SpecPred::False
    } else {
        or_chain(c)
    }
}

/// Left-nested conjunction of the clauses of a nonempty CNF.
pub open spec fn and_chain(cs: Seq<Seq<i32>>) -> SpecPred
    decreases cs.len(),
{
    if cs.len() <= 1 {
        clause_model(cs[0])
    } else {
        SpecPred::And(Box::new(and_chain(cs.drop_last())), Box::new(clause_model(cs.last())))
    }
}

/// A CNF: the conjunction of its clauses; the empty CNF is true.
pub open spec fn cnf_model(cs: Seq<Seq<i32>>) -> SpecPred {
    if cs.len() == 0 {
        SpecPred::True
    } else {
        and_chain(cs)
    }
}

/// A literal names one of the 64 bits of the assignment.
pub open spec fn valid_literal(lit: i32) -> bool {
    lit != 0 && -64 <= lit <= 64
}

fn literal_pred(lit: i32) -> (p: Pred)
    requires
        valid_literal(lit),
    ensures
        p@ == literal_model(lit),
{
    let mag: u32 = if lit < 0 {
        (-lit) as u32
    } else {
        lit as u32
    };
    let var_idx: u32 = mag - 1;
    let power: i64 = 1i64 << var_idx;
    let bit_expr = Expr::Mod(
        Box::new(Expr::Div(Box::new(Expr::Var("a".to_string())), Box::new(Expr::Lit(power)))),
        Box::new(Expr::Lit(2)),
    );
    proof {
        reveal_with_fuel(expr_model, 4);
    }
    if lit > 0 {
        Pred::Ne(bit_expr, Expr::Lit(0))
    } else {
        Pred::Eq(bit_expr, Expr::Lit(0))
    }
}

fn clause_pred(clause: &Vec<i32>) -> (p: Pred)
    requires
        forall|j: int| 0 <= j < clause@.len() ==> valid_literal(#[trigger] clause@[j]),
    ensures
        p@ == clause_model(clause@),
{
    let n = clause.len();
    if n == 0 {
        return Pred::False;
    }
    let mut acc = literal_pred(clause[0]);
    let mut i: usize = 1;
    while i < n
        invariant
            n == clause@.len(),
            1 <= i <= n,
            forall|j: int| 0 <= j < clause@.len() ==> valid_literal(#[trigger] clause@[j]),
            acc@ == or_chain(clause@.take(i as int)),
        decreases n - i,
    {
        let lit_p = literal_pred(clause[i]);
        acc = Pred::Or(Box::new(acc), Box::new(lit_p));
        assert(clause@.take(i as int + 1).drop_last() =~= clause@.take(i as int));
        i = i + 1;
    }
    assert(clause@.take(n as int) =~= clause@);
    acc
}

/// Convert DIMACS-style CNF clauses to a predicate over the assignment
/// variable `a`: literal `+i` holds when bit `i-1` of `a` is set, `-i`
/// when it is clear; each clause is the disjunction of its literals and
/// the CNF the conjunction of its clauses. No clauses gives `True`; an
/// empty clause gives `False`.
pub fn cnf_to_pred(clauses: &[Vec<i32>]) -> (p: Pred)
    requires
        forall|i: int, j: int|
            0 <= i < clauses@.len() && 0 <= j < clauses@[i]@.len() ==> valid_literal(
                #[trigger] clauses@[i]@[j],
            ),
    ensures
        p@ == cnf_model(clauses@.map_values(|c: Vec<i32>| c@)),
{
    let ghost cs = clauses@.map_values(|c: Vec<i32>| c@);
    let n = clauses.len();
    if n == 0 {
        return Pred::True;
    }
    assert(clauses@[0]@ == cs[0]);
    let mut acc = clause_pred(&clauses[0]);
    let mut i: usize = 1;
    while i < n
        invariant
            n == clauses@.len(),
            cs == clauses@.map_values(|c: Vec<i32>| c@),
            1 <= i <= n,
            forall|a: int, b: int|
                0 <= a < clauses@.len() && 0 <= b < clauses@[a]@.len() ==> valid_literal(
                    #[trigger] clauses@[a]@[b],
                ),
            acc@ == and_chain(cs.take(i as int)),
        decreases n - i,
    {
        let c = clause_pred(&clauses[i]);
        assert(clauses@[i as int]@ == cs[i as int]);
        acc = Pred::And(Box::new(acc), Box::new(c));
        assert(cs.take(i as int + 1).drop_last() =~= cs.take(i as int));
        i = i + 1;
    }
    assert(cs.take(n as int) =~= cs);
    acc
}

/// `x^i` as a left-nested product `x * x * ... * x` (`i >= 1`).
pub open spec fn power_model(name: Seq<char>, i: nat) -> SpecExpr
    decreases i,
{
    if i <= 1 {
        SpecExpr::Var(name)
    } else {
        SpecExpr::Bin(
            Instruction::Mul,
            Box::new(power_model(name, (i - 1) as nat)),
            Box::new(SpecExpr::Var(name)),
        )
    }
}

/// The term `c * x^i`: a literal for `i = 0`, `x^i` for `c = 1`,
/// `-(x^i)` for `c = -1`, and `c * x^i` otherwise.
pub open spec fn term_model(name: Seq<char>, c: i64, i: nat) -> SpecExpr {
    if i == 0 {
        SpecExpr::Lit(c)
    } else if c == 1 {
        power_model(name, i)
    } else if c == -1 {
        SpecExpr::Neg(Box::new(power_model(name, i)))
    } else {
        SpecExpr::Bin(Instruction::Mul, Box::new(SpecExpr::Lit(c)), Box::new(power_model(name, i)))
    }
}

/// Left-nested sum of the terms with nonzero coefficients, if any.
pub open spec fn sum_terms(name: Seq<char>, cs: Seq<i64>) -> Option<SpecExpr>
    decreases cs.len(),
{
    if cs.len() == 0 {
        None
    } else {
        let prev = sum_terms(name, cs.drop_last());
        let i = (cs.len() - 1) as nat;
        if cs.last() == 0 {
            prev
        } else {
            match prev {
                None => Some(term_model(name, cs.last(), i)),
                Some(e) => Some(
                    SpecExpr::Bin(
                        Instruction::Add,
                        Box::new(e),
                        Box::new(term_model(name, cs.last(), i)),
                    ),
                ),
            }
        }
    }
}

/// The polynomial `c[0] + c[1]*x + c[2]*x^2 + ...`; `0` when every
/// coefficient is zero.
pub open spec fn poly_model(name: Seq<char>, cs: Seq<i64>) -> SpecExpr {
    match sum_terms(name, cs) {
        Some(e) => e,
        None => SpecExpr::Lit(0),
    }
}

fn power_expr(var_name: &str, i: usize) -> (e: Expr)
    requires
        i >= 1,
    ensures
        e@ == power_model(var_name@, i as nat),
{
    let s0 = var_name.to_string();
    assert(s0@ == var_name@);
    let mut power = Expr::Var(s0);
    assert(power@ == SpecExpr::Var(var_name@));
    let mut j: usize = 1;
    while j < i
        invariant
            1 <= j <= i,
            power@ == power_model(var_name@, j as nat),
        decreases i - j,
    {
        let s1 = var_name.to_string();
        let v = Expr::Var(s1);
        assert(v@ == SpecExpr::Var(var_name@));
        power = Expr::Mul(Box::new(power), Box::new(v));
        assert(power@ == SpecExpr::Bin(Instruction::Mul, Box::new(power_model(var_name@, j as nat)), Box::new(SpecExpr::Var(var_name@))));
        j = j + 1;
    }
    power
}

fn term_expr(var_name: &str, coeff: i64, i: usize) -> (e: Expr)
    ensures
        e@ == term_model(var_name@, coeff, i as nat),
{
    if i == 0 {
        Expr::Lit(coeff)
    } else {
        let xp = power_expr(var_name, i);
        proof {
            reveal_with_fuel(expr_model, 2);
        }
        if coeff == 1 {
            xp
        } else if coeff == -1 {
            Expr::Neg(Box::new(xp))
        } else {
            Expr::Mul(Box::new(Expr::Lit(coeff)), Box::new(xp))
        }
    }
}

/// Build the polynomial expression `c[0] + c[1]*x + c[2]*x^2 + ...`,
/// skipping zero coefficients.
fn build_polynomial_expr(coefficients: &[i64], var_name: &str) -> (e: Expr)
    ensures
        e@ == poly_model(var_name@, coefficients@),
{
    let n = coefficients.len();
    let mut acc: Option<Expr> = None;
    let mut i: usize = 0;
    while i < n
        invariant
            n == coefficients@.len(),
            0 <= i <= n,
            (match acc {
                Some(e) => Some(e@),
                None => None::<SpecExpr>,
            }) == sum_terms(var_name@, coefficients@.take(i as int)),
        decreases n - i,
    {
        let coeff = coefficients[i];
        assert(coefficients@.take(i as int + 1).drop_last() =~= coefficients@.take(i as int));
        if coeff != 0 {
            let term = term_expr(var_name, coeff, i);
            acc = match acc {
                None => Some(term),
                Some(prev) => Some(Expr::Add(Box::new(prev), Box::new(term))),
            };
        }
        i = i + 1;
    }
    assert(coefficients@.take(n as int) =~= coefficients@);
    match acc {
        Some(e) => e,
        None => Expr::Lit(0),
    }
}

/// The predicate `c[0] + c[1]*x + c[2]*x^2 + ... == target` over the
/// variable `x`.
pub fn poly_eq_pred(coefficients: &[i64], target: i64) -> (p: Pred)
    ensures
        p@ == SpecPred::Eq(poly_model("x"@, coefficients@), SpecExpr::Lit(target)),
{
    let poly = build_polynomial_expr(coefficients, "x");
    Pred::Eq(poly, Expr::Lit(target))
}

} // verus!
