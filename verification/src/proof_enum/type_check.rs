//! Type inference for core terms.
//!
//! Rules of the minimal dependent type theory:
//!   Type(i)      : Type(i+1)
//!   Prop         : Type(0)
//!   Var(i)       : the type of the i-th innermost binding of the context
//!   NatLit(n)    : Nat
//!   Pi(A, B)     : Type(max(u, v)) when A : Type(u) and B : Type(v)
//!   Lam(A, body) : Pi(A, B) when body : B in the context extended by A
//!   App(f, a)    : B[0 := a] when f : Pi(A, B) (after normalization) and a : A
//!   Let(A, v, b) : B[0 := v] when v : A and b : B in the context extended by A
//!   constants    : their declared type, or the type of a built-in
//!   constructors and the Nat recursor: by their signatures
//! Types are compared up to normalization of at most 100 reduction steps.

use super::core_term::{
    first_def, lemma_args_model, models, shift_model, subst_model, subst_ok, CoreCtx, CoreEnv, CoreTerm, Term,
};
use super::reduce::{
    lemma_literal_step, lemma_op_names_distinct, literal_binop, nat_compute, reduce_step, step, step_ok,
    Kind,
};
use vstd::prelude::*;

verus! {

broadcast use vstd::string::group_string_axioms;

/// Why a term is ill-typed.
#[derive(Debug)]
pub enum TypeError {
    /// A variable index beyond the context.
    UnboundVariable(usize),
    /// An argument whose type differs from the parameter type.
    ArgumentMismatch { expected: CoreTerm, got: CoreTerm },
    /// An application of a term whose type is not a function type.
    NotAFunction { func: CoreTerm, func_type: CoreTerm },
    /// A let value whose type differs from the declared type.
    LetMismatch { declared: CoreTerm, got: CoreTerm },
    /// A constant that is neither defined nor built in.
    UnknownConstant(String),
    /// `Nat.zero` applied to arguments.
    NatZeroArguments,
    /// `Nat.succ` applied to a non-Nat.
    NatSuccNotNat(CoreTerm),
    /// `Nat.succ` applied to a number of arguments other than one.
    NatSuccArity(usize),
    /// A Bool constructor applied to arguments.
    BoolArguments(String),
    /// `And.intro` with fewer than two arguments.
    AndIntroArity(usize),
    /// `Exists.intro` with fewer than two arguments.
    ExistsIntroArity(usize),
    /// `Nat.rec` with fewer than four arguments.
    NatRecArity(usize),
    /// A recursor of a type other than Nat.
    UnknownRecursor(String),
}

/// Model of a type error.
pub enum TypeErr {
    UnboundVariable(usize),
    ArgumentMismatch(Term, Term),
    NotAFunction(Term, Term),
    LetMismatch(Term, Term),
    UnknownConstant(Seq<char>),
    NatZeroArguments,
    NatSuccNotNat(Term),
    NatSuccArity(nat),
    BoolArguments(Seq<char>),
    AndIntroArity(nat),
    ExistsIntroArity(nat),
    NatRecArity(nat),
    UnknownRecursor(Seq<char>),
}

impl View for TypeError {
    type V = TypeErr;

    open spec fn view(&self) -> TypeErr {
        match self {
            TypeError::UnboundVariable(i) => TypeErr::UnboundVariable(*i),
            TypeError::ArgumentMismatch { expected, got } => TypeErr::ArgumentMismatch(expected@, got@),
            TypeError::NotAFunction { func, func_type } => TypeErr::NotAFunction(func@, func_type@),
            TypeError::LetMismatch { declared, got } => TypeErr::LetMismatch(declared@, got@),
            TypeError::UnknownConstant(n) => TypeErr::UnknownConstant(n@),
            TypeError::NatZeroArguments => TypeErr::NatZeroArguments,
            TypeError::NatSuccNotNat(t) => TypeErr::NatSuccNotNat(t@),
            TypeError::NatSuccArity(n) => TypeErr::NatSuccArity(*n as nat),
            TypeError::BoolArguments(c) => TypeErr::BoolArguments(c@),
            TypeError::AndIntroArity(n) => TypeErr::AndIntroArity(*n as nat),
            TypeError::ExistsIntroArity(n) => TypeErr::ExistsIntroArity(*n as nat),
            TypeError::NatRecArity(n) => TypeErr::NatRecArity(*n as nat),
            TypeError::UnknownRecursor(t) => TypeErr::UnknownRecursor(t@),
        }
    }
}

pub open spec fn nat_ty() -> Term {
    Term::Const("Nat"@, Seq::empty())
}

pub open spec fn bool_ty() -> Term {
    Term::Const("Bool"@, Seq::empty())
}

pub open spec fn arrow(a: Term, b: Term) -> Term {
    Term::Pi(Box::new(a), Box::new(b))
}

/// At most `fuel` reduction steps.
pub open spec fn normalize(t: Term, env: CoreEnv, fuel: nat) -> Term
    decreases fuel,
{
    if fuel == 0 {
        t
    } else {
        match step(t, env) {
            None => t,
            Some((t2, _)) => normalize(t2, env, (fuel - 1) as nat),
        }
    }
}

/// Every step of the normalization stays within machine integers.
pub open spec fn normalize_ok(t: Term, env: CoreEnv, fuel: nat) -> bool
    decreases fuel,
{
    fuel == 0 || (step_ok(t, env) && match step(t, env) {
        None => true,
        Some((t2, _)) => normalize_ok(t2, env, (fuel - 1) as nat),
    })
}

/// Equality up to normalization.
pub open spec fn defeq(a: Term, b: Term, env: CoreEnv) -> bool {
    a == b || normalize(a, env, 100) == normalize(b, env, 100)
}

pub open spec fn defeq_ok(a: Term, b: Term, env: CoreEnv) -> bool {
    a == b || (normalize_ok(a, env, 100) && normalize_ok(b, env, 100))
}

/// Universe level of a type: that of `Type(u)`, else 0.
pub open spec fn universe(t: Term) -> u32 {
    match t {
        Term::Type(u) => u,
        _ => 0,
    }
}

/// Types of the built-in constants.
pub open spec fn builtin_type(name: Seq<char>) -> Result<Term, TypeErr> {
    if name == "Nat"@ || name == "Bool"@ {
        Ok(Term::Type(0))
    } else if name == "Nat.add"@ || name == "Nat.mul"@ || name == "Nat.sub"@ || name == "Nat.div"@
        || name == "Nat.mod"@ {
        Ok(arrow(nat_ty(), arrow(nat_ty(), nat_ty())))
    } else if name == "Nat.ble"@ || name == "Nat.beq"@ {
        Ok(arrow(nat_ty(), arrow(nat_ty(), bool_ty())))
    } else if name == "Nat.zero"@ {
        Ok(nat_ty())
    } else if name == "Nat.succ"@ {
        Ok(arrow(nat_ty(), nat_ty()))
    } else if name == "Nat.Prime"@ {
        Ok(arrow(nat_ty(), Term::Prop))
    } else {
        Err(TypeErr::UnknownConstant(name))
    }
}

/// Context entries: optional name and type; the last is the innermost.
pub type CtxModel = Seq<(Option<Seq<char>>, Term)>;

/// The context extended by an unnamed binding of type `a`.
pub open spec fn extend(ctx: CtxModel, a: Term) -> CtxModel {
    ctx.push((None, a))
}

/// The inferred type of a term, or why it is ill-typed.
pub open spec fn infer(ctx: CtxModel, t: Term, env: CoreEnv) -> Result<Term, TypeErr>
    decreases t,
{
    match t {
        Term::Type(u) => Ok(Term::Type((u + 1) as u32)),
        Term::Prop => Ok(Term::Type(0)),
        Term::Var(i) => if i < ctx.len() {
            Ok(ctx[ctx.len() - 1 - i].1)
        } else {
            Err(TypeErr::UnboundVariable(i))
        },
        Term::NatLit(_) => Ok(nat_ty()),
        Term::Pi(a, b) => match infer(ctx, *a, env) {
            Err(e) => Err(e),
            Ok(at) => match infer(extend(ctx, *a), *b, env) {
                Err(e) => Err(e),
                Ok(bt) => Ok(
                    Term::Type(
                        if universe(at) >= universe(bt) {
                            universe(at)
                        } else {
                            universe(bt)
                        },
                    ),
                ),
            },
        },
        Term::Lam(a, b) => match infer(ctx, *a, env) {
            Err(e) => Err(e),
            Ok(_) => match infer(extend(ctx, *a), *b, env) {
                Err(e) => Err(e),
                Ok(bt) => Ok(Term::Pi(a, Box::new(bt))),
            },
        },
        Term::App(f, x) => match infer(ctx, *f, env) {
            Err(e) => Err(e),
            Ok(ft) => match normalize(ft, env, 100) {
                Term::Pi(pa, pb) => match infer(ctx, *x, env) {
                    Err(e) => Err(e),
                    Ok(xt) => if !defeq(xt, *pa, env) {
                        Err(TypeErr::ArgumentMismatch(*pa, xt))
                    } else {
                        Ok(subst_model(*pb, 0, *x))
                    },
                },
                nf => Err(TypeErr::NotAFunction(*f, nf)),
            },
        },
        Term::Let(bt, v, body) => match infer(ctx, *v, env) {
            Err(e) => Err(e),
            Ok(vt) => if !defeq(vt, *bt, env) {
                Err(TypeErr::LetMismatch(*bt, vt))
            } else {
                match infer(extend(ctx, *bt), *body, env) {
                    Err(e) => Err(e),
                    Ok(bodyt) => Ok(subst_model(bodyt, 0, *v)),
                }
            },
        },
        Term::Const(name, _) => match first_def(env.names(), name) {
            Some(i) => Ok(env.defs()[i].ty@),
            None => builtin_type(name),
        },
        Term::Constructor(tn, cn, args) => if tn == "Nat"@ && cn == "zero"@ {
            if args.len() == 0 {
                Ok(nat_ty())
            } else {
                Err(TypeErr::NatZeroArguments)
            }
        } else if tn == "Nat"@ && cn == "succ"@ {
            if args.len() == 1 {
                match infer(ctx, args[0], env) {
                    Err(e) => Err(e),
                    Ok(at) => if defeq(at, nat_ty(), env) {
                        Ok(nat_ty())
                    } else {
                        Err(TypeErr::NatSuccNotNat(at))
                    },
                }
            } else {
                Err(TypeErr::NatSuccArity(args.len()))
            }
        } else if tn == "Bool"@ && (cn == "true"@ || cn == "false"@) {
            if args.len() == 0 {
                Ok(bool_ty())
            } else {
                Err(TypeErr::BoolArguments(cn))
            }
        } else if tn == "And"@ && cn == "intro"@ {
            if args.len() >= 2 {
                Ok(Term::Prop)
            } else {
                Err(TypeErr::AndIntroArity(args.len()))
            }
        } else if tn == "Exists"@ && cn == "intro"@ {
            if args.len() >= 2 {
                Ok(Term::Prop)
            } else {
                Err(TypeErr::ExistsIntroArity(args.len()))
            }
        } else {
            Ok(Term::Const(tn, Seq::empty()))
        },
        Term::Recursor(tn, args) => if tn == "Nat"@ {
            if args.len() >= 4 {
                Ok(Term::App(Box::new(args[0]), Box::new(args[3])))
            } else {
                Err(TypeErr::NatRecArity(args.len()))
            }
        } else {
            Err(TypeErr::UnknownRecursor(tn))
        },
    }
}

/// Inference stays within machine integers: universe levels, variable
/// indices under substitution, and every normalization it performs.
pub open spec fn infer_ok(ctx: CtxModel, t: Term, env: CoreEnv) -> bool
    decreases t,
{
    match t {
        Term::Type(u) => u + 1 <= u32::MAX,
        Term::Pi(a, b) | Term::Lam(a, b) => infer_ok(ctx, *a, env) && (infer(ctx, *a, env) is Ok
            ==> infer_ok(extend(ctx, *a), *b, env)),
        Term::App(f, x) => infer_ok(ctx, *f, env) && match infer(ctx, *f, env) {
            Err(_) => true,
            Ok(ft) => normalize_ok(ft, env, 100) && match normalize(ft, env, 100) {
                Term::Pi(pa, pb) => infer_ok(ctx, *x, env) && match infer(ctx, *x, env) {
                    Err(_) => true,
                    Ok(xt) => defeq_ok(xt, *pa, env) && (defeq(xt, *pa, env) ==> subst_ok(
                        *pb,
                        0,
                        *x,
                    )),
                },
                _ => true,
            },
        },
        Term::Let(bt, v, body) => infer_ok(ctx, *v, env) && match infer(ctx, *v, env) {
            Err(_) => true,
            Ok(vt) => defeq_ok(vt, *bt, env) && (defeq(vt, *bt, env) ==> infer_ok(
                extend(ctx, *bt),
                *body,
                env,
            ) && match infer(extend(ctx, *bt), *body, env) {
                Err(_) => true,
                Ok(bodyt) => subst_ok(bodyt, 0, *v),
            }),
        },
        Term::Constructor(tn, cn, args) => (tn == "Nat"@ && cn == "succ"@ && args.len() == 1) ==> (
        infer_ok(ctx, args[0], env) && match infer(ctx, args[0], env) {
            Err(_) => true,
            Ok(at) => defeq_ok(at, nat_ty(), env),
        }),
        _ => true,
    }
}

/// A type built from the undefined constants `Nat` and `Bool` is already
/// normal.
proof fn lemma_arrow_normal(r: Term, env: CoreEnv)
    requires
        first_def(env.names(), "Nat"@) is None,
        first_def(env.names(), "Bool"@) is None,
        r == nat_ty() || r == bool_ty(),
    ensures
        step(arrow(nat_ty(), r), env) is None,
        step(arrow(nat_ty(), arrow(nat_ty(), r)), env) is None,
        normalize(arrow(nat_ty(), r), env, 100) == arrow(nat_ty(), r),
        normalize(arrow(nat_ty(), arrow(nat_ty(), r)), env, 100) == arrow(nat_ty(), arrow(nat_ty(), r)),
{
    assert(step(nat_ty(), env) is None);
    assert(step(r, env) is None);
    assert(step(arrow(nat_ty(), r), env) is None);
    assert(step(arrow(nat_ty(), arrow(nat_ty(), r)), env) is None);
}

/// Literal computation preserves types: when `op a b` on two literals
/// takes a step of literal arithmetic to `u`, the redex is well typed and
/// `u` has the same type (`Nat` for the arithmetic operations, `Bool` for
/// the comparisons), in every context.
pub proof fn lemma_literal_step_preserves_type(
    ctx: CtxModel,
    op: Seq<char>,
    levels: Seq<u32>,
    a: u64,
    b: u64,
    env: CoreEnv,
    u: Term,
)
    requires
        first_def(env.names(), op) is None,
        first_def(env.names(), "Nat"@) is None,
        first_def(env.names(), "Bool"@) is None,
        step(literal_binop(op, levels, a, b), env) == Some((u, Kind::NatCompute)),
    ensures
        infer(ctx, literal_binop(op, levels, a, b), env) is Ok,
        infer(ctx, u, env) == infer(ctx, literal_binop(op, levels, a, b), env),
        defeq(
            infer(ctx, u, env)->Ok_0,
            infer(ctx, literal_binop(op, levels, a, b), env)->Ok_0,
            env,
        ),
{
    let t = literal_binop(op, levels, a, b);
    let f = Term::App(Box::new(Term::Const(op, levels)), Box::new(Term::NatLit(a)));
    lemma_literal_step(op, levels, a, b, env);
    lemma_op_names_distinct();
    reveal_strlit("Nat");
    reveal_strlit("Bool");
    let is_cmp = op == "Nat.ble"@ || op == "Nat.beq"@;
    let r = if is_cmp {
        bool_ty()
    } else {
        nat_ty()
    };
    assert(nat_compute(t) == Some(u));
    assert(builtin_type(op) == Ok::<Term, TypeErr>(arrow(nat_ty(), arrow(nat_ty(), r))));
    assert(infer(ctx, Term::Const(op, levels), env) == Ok::<Term, TypeErr>(arrow(nat_ty(), arrow(nat_ty(), r))));
    lemma_arrow_normal(r, env);
    assert(infer(ctx, Term::NatLit(a), env) == Ok::<Term, TypeErr>(nat_ty()));
    assert(infer(ctx, Term::NatLit(b), env) == Ok::<Term, TypeErr>(nat_ty()));
    assert(subst_model(nat_ty(), 0, Term::NatLit(a)) == nat_ty());
    assert(subst_model(r, 1, shift_model(Term::NatLit(a), 0, 1)) == r);
    assert(subst_model(arrow(nat_ty(), r), 0, Term::NatLit(a)) == arrow(nat_ty(), r));
    assert(infer(ctx, f, env) == Ok::<Term, TypeErr>(arrow(nat_ty(), r)));
    assert(subst_model(r, 0, Term::NatLit(b)) == r);
    assert(infer(ctx, t, env) == Ok::<Term, TypeErr>(r));
    if is_cmp {
        let c = u->Constructor_1;
        assert(u == Term::Constructor("Bool"@, c, Seq::empty()));
        assert(c == "true"@ || c == "false"@);
        assert("Bool"@[0] == 'B' && "Nat"@[0] == 'N');
        assert("Bool"@ != "Nat"@);
        assert(infer(ctx, u, env) == Ok::<Term, TypeErr>(bool_ty()));
    } else {
        assert(infer(ctx, u, env) == Ok::<Term, TypeErr>(nat_ty()));
    }
}

pub(crate) fn levels_equal(a: &Vec<u32>, b: &Vec<u32>) -> (r: bool)
    ensures
        r == (a@ == b@),
{
    if a.len() != b.len() {
        return false;
    }
    let mut i: usize = 0;
    while i < a.len()
        invariant
            i <= a@.len(),
            a@.len() == b@.len(),
            forall|k: int| 0 <= k < i ==> a@[k] == b@[k],
        decreases a@.len() - i,
    {
        if a[i] != b[i] {
            return false;
        }
        i = i + 1;
    }
    assert(a@ =~= b@);
    true
}

/// Structural equality of terms.
pub(crate) fn term_eq(a: &CoreTerm, b: &CoreTerm) -> (r: bool)
    ensures
        r == (a@ == b@),
    decreases a,
{
    proof {
        lemma_args_model(a);
        lemma_args_model(b);
    }
    match (a, b) {
        (CoreTerm::Type(x), CoreTerm::Type(y)) => *x == *y,
        (CoreTerm::Prop, CoreTerm::Prop) => true,
        (CoreTerm::Var(x), CoreTerm::Var(y)) => *x == *y,
        (CoreTerm::NatLit(x), CoreTerm::NatLit(y)) => *x == *y,
        (CoreTerm::Lam { param_type: p1, body: b1 }, CoreTerm::Lam { param_type: p2, body: b2 }) => term_eq(
            p1,
            p2,
        ) && term_eq(b1, b2),
        (CoreTerm::Pi { param_type: p1, body: b1 }, CoreTerm::Pi { param_type: p2, body: b2 }) => term_eq(
            p1,
            p2,
        ) && term_eq(b1, b2),
        (CoreTerm::App { func: f1, arg: x1 }, CoreTerm::App { func: f2, arg: x2 }) => term_eq(f1, f2)
            && term_eq(x1, x2),
        (
            CoreTerm::Let { bound_type: t1, value: v1, body: b1 },
            CoreTerm::Let { bound_type: t2, value: v2, body: b2 },
        ) => term_eq(t1, t2) && term_eq(v1, v2) && term_eq(b1, b2),
        (CoreTerm::Const { name: n1, levels: l1 }, CoreTerm::Const { name: n2, levels: l2 }) => *n1
            == *n2 && levels_equal(l1, l2),
        (
            CoreTerm::Constructor { inductive: t1, ctor_name: c1, args: a1 },
            CoreTerm::Constructor { inductive: t2, ctor_name: c2, args: a2 },
        ) => *t1 == *t2 && *c1 == *c2 && args_eq(a1, a2),
        (CoreTerm::Recursor { inductive: t1, args: a1 }, CoreTerm::Recursor { inductive: t2, args: a2 }) => *t1
            == *t2 && args_eq(a1, a2),
        _ => false,
    }
}

fn args_eq(a: &Vec<CoreTerm>, b: &Vec<CoreTerm>) -> (r: bool)
    ensures
        r == (models(a@) == models(b@)),
    decreases a,
{
    if a.len() != b.len() {
        assert(models(a@).len() != models(b@).len());
        return false;
    }
    let mut i: usize = 0;
    while i < a.len()
        invariant
            i <= a@.len(),
            a@.len() == b@.len(),
            forall|k: int| 0 <= k < i ==> #[trigger] a@[k]@ == b@[k]@,
        decreases a@.len() - i,
    {
        if !term_eq(&a[i], &b[i]) {
            assert(models(a@)[i as int] != models(b@)[i as int]);
            return false;
        }
        i = i + 1;
    }
    assert(models(a@) =~= models(b@));
    true
}

/// At most 100 reduction steps.
fn normalize_for_check(term: &CoreTerm, env: &CoreEnv) -> (r: CoreTerm)
    requires
        normalize_ok(term@, *env, 100),
    ensures
        r@ == normalize(term@, *env, 100),
{
    let mut cur = term.clone();
    let mut fuel: u64 = 100;
    while fuel > 0
        invariant
            normalize(term@, *env, 100) == normalize(cur@, *env, fuel as nat),
            normalize_ok(cur@, *env, fuel as nat),
        decreases fuel,
    {
        match reduce_step(&cur, env) {
            Some((next, _)) => {
                cur = next;
                fuel = fuel - 1;
            },
            None => {
                return cur;
            },
        }
    }
    cur
}

/// Equality up to normalization.
fn types_equal(a: &CoreTerm, b: &CoreTerm, env: &CoreEnv) -> (r: bool)
    requires
        defeq_ok(a@, b@, *env),
    ensures
        r == defeq(a@, b@, *env),
{
    if term_eq(a, b) {
        return true;
    }
    let a_nf = normalize_for_check(a, env);
    let b_nf = normalize_for_check(b, env);
    term_eq(&a_nf, &b_nf)
}

fn nat_exec() -> (r: CoreTerm)
    ensures
        r@ == nat_ty(),
{
    let levels: Vec<u32> = Vec::new();
    assert(levels@ =~= Seq::<u32>::empty());
    CoreTerm::Const { name: "Nat".to_string(), levels }
}

fn bool_exec() -> (r: CoreTerm)
    ensures
        r@ == bool_ty(),
{
    let levels: Vec<u32> = Vec::new();
    assert(levels@ =~= Seq::<u32>::empty());
    CoreTerm::Const { name: "Bool".to_string(), levels }
}

fn arrow_exec(a: CoreTerm, b: CoreTerm) -> (r: CoreTerm)
    ensures
        r@ == arrow(a@, b@),
{
    CoreTerm::Pi { param_type: Box::new(a), body: Box::new(b) }
}

fn str_is(s: &String, lit: &str) -> (b: bool)
    ensures
        b == (s@ == lit@),
{
    *s == lit.to_string()
}

fn builtin_const_type(name: &String) -> (r: Result<CoreTerm, TypeError>)
    ensures
        match builtin_type(name@) {
            Ok(t) => r matches Ok(u) && u@ == t,
            Err(e) => r matches Err(f) && f@ == e,
        },
{
    if str_is(name, "Nat") || str_is(name, "Bool") {
        Ok(CoreTerm::Type(0))
    } else if str_is(name, "Nat.add") || str_is(name, "Nat.mul") || str_is(name, "Nat.sub")
        || str_is(name, "Nat.div") || str_is(name, "Nat.mod") {
        Ok(arrow_exec(nat_exec(), arrow_exec(nat_exec(), nat_exec())))
    } else if str_is(name, "Nat.ble") || str_is(name, "Nat.beq") {
        Ok(arrow_exec(nat_exec(), arrow_exec(nat_exec(), bool_exec())))
    } else if str_is(name, "Nat.zero") {
        Ok(nat_exec())
    } else if str_is(name, "Nat.succ") {
        Ok(arrow_exec(nat_exec(), nat_exec()))
    } else if str_is(name, "Nat.Prime") {
        Ok(arrow_exec(nat_exec(), CoreTerm::Prop))
    } else {
        Err(TypeError::UnknownConstant(name.clone()))
    }
}

/// Infer the type of a term in a context and an environment.
pub fn infer_type(ctx: &CoreCtx, term: &CoreTerm, env: &CoreEnv) -> (r: Result<CoreTerm, TypeError>)
    requires
        infer_ok(ctx@, term@, *env),
    ensures
        match infer(ctx@, term@, *env) {
            Ok(t) => r matches Ok(u) && u@ == t,
            Err(e) => r matches Err(f) && f@ == e,
        },
    decreases term,
{
    proof {
        lemma_args_model(term);
        reveal_with_fuel(CoreTerm::model, 2);
    }
    match term {
        CoreTerm::Type(u) => Ok(CoreTerm::Type(*u + 1)),
        CoreTerm::Prop => Ok(CoreTerm::Type(0)),
        CoreTerm::Var(i) => {
            match ctx.lookup(*i) {
                Some(entry) => Ok(entry.ty.clone()),
                None => Err(TypeError::UnboundVariable(*i)),
            }
        },
        CoreTerm::NatLit(_) => Ok(nat_exec()),
        CoreTerm::Pi { param_type, body } => {
            let a_type = match infer_type(ctx, param_type, env) {
                Ok(t) => t,
                Err(e) => return Err(e),
            };
            let u = universe_of(&a_type);
            let mut extended = ctx.clone();
            extended.push(None, (**param_type).clone());
            let b_type = match infer_type(&extended, body, env) {
                Ok(t) => t,
                Err(e) => return Err(e),
            };
            let v = universe_of(&b_type);
            Ok(CoreTerm::Type(if u >= v { u } else { v }))
        },
        CoreTerm::Lam { param_type, body } => {
            match infer_type(ctx, param_type, env) {
                Ok(_) => {},
                Err(e) => return Err(e),
            }
            let mut extended = ctx.clone();
            extended.push(None, (**param_type).clone());
            let body_type = match infer_type(&extended, body, env) {
                Ok(t) => t,
                Err(e) => return Err(e),
            };
            Ok(CoreTerm::Pi { param_type: Box::new((**param_type).clone()), body: Box::new(body_type) })
        },
        CoreTerm::App { func, arg } => {
            let func_type = match infer_type(ctx, func, env) {
                Ok(t) => t,
                Err(e) => return Err(e),
            };
            let func_type_nf = normalize_for_check(&func_type, env);
            match func_type_nf {
                CoreTerm::Pi { param_type, body } => {
                    let arg_type = match infer_type(ctx, arg, env) {
                        Ok(t) => t,
                        Err(e) => return Err(e),
                    };
                    if !types_equal(&arg_type, &param_type, env) {
                        return Err(TypeError::ArgumentMismatch { expected: *param_type, got: arg_type });
                    }
                    Ok(body.substitute(0, arg))
                },
                other => Err(TypeError::NotAFunction { func: (**func).clone(), func_type: other }),
            }
        },
        CoreTerm::Let { bound_type, value, body } => {
            let value_type = match infer_type(ctx, value, env) {
                Ok(t) => t,
                Err(e) => return Err(e),
            };
            if !types_equal(&value_type, bound_type, env) {
                return Err(TypeError::LetMismatch { declared: (**bound_type).clone(), got: value_type });
            }
            let mut extended = ctx.clone();
            extended.push(None, (**bound_type).clone());
            let body_type = match infer_type(&extended, body, env) {
                Ok(t) => t,
                Err(e) => return Err(e),
            };
            Ok(body_type.substitute(0, value))
        },
        CoreTerm::Const { name, .. } => {
            match env.lookup(name.as_str()) {
                Some(def) => Ok(def.ty.clone()),
                None => builtin_const_type(name),
            }
        },
        CoreTerm::Constructor { inductive, ctor_name, args } => {
            if str_is(inductive, "Nat") && str_is(ctor_name, "zero") {
                if args.len() == 0 {
                    Ok(nat_exec())
                } else {
                    Err(TypeError::NatZeroArguments)
                }
            } else if str_is(inductive, "Nat") && str_is(ctor_name, "succ") {
                if args.len() == 1 {
                    assert(models(args@)[0] == args@[0]@);
                    let arg_type = match infer_type(ctx, &args[0], env) {
                        Ok(t) => t,
                        Err(e) => return Err(e),
                    };
                    if types_equal(&arg_type, &nat_exec(), env) {
                        Ok(nat_exec())
                    } else {
                        Err(TypeError::NatSuccNotNat(arg_type))
                    }
                } else {
                    Err(TypeError::NatSuccArity(args.len()))
                }
            } else if str_is(inductive, "Bool") && (str_is(ctor_name, "true") || str_is(
                ctor_name,
                "false",
            )) {
                if args.len() == 0 {
                    Ok(bool_exec())
                } else {
                    Err(TypeError::BoolArguments(ctor_name.clone()))
                }
            } else if str_is(inductive, "And") && str_is(ctor_name, "intro") {
                if args.len() >= 2 {
                    Ok(CoreTerm::Prop)
                } else {
                    Err(TypeError::AndIntroArity(args.len()))
                }
            } else if str_is(inductive, "Exists") && str_is(ctor_name, "intro") {
                if args.len() >= 2 {
                    Ok(CoreTerm::Prop)
                } else {
                    Err(TypeError::ExistsIntroArity(args.len()))
                }
            } else {
                let levels: Vec<u32> = Vec::new();
                assert(levels@ =~= Seq::<u32>::empty());
                Ok(CoreTerm::Const { name: inductive.clone(), levels })
            }
        },
        CoreTerm::Recursor { inductive, args } => {
            if str_is(inductive, "Nat") {
                if args.len() >= 4 {
                    assert(models(args@)[0] == args@[0]@);
                    assert(models(args@)[3] == args@[3]@);
                    Ok(CoreTerm::App { func: Box::new(args[0].clone()), arg: Box::new(args[3].clone()) })
                } else {
                    Err(TypeError::NatRecArity(args.len()))
                }
            } else {
                Err(TypeError::UnknownRecursor(inductive.clone()))
            }
        },
    }
}

/// Why a term failed to check against a goal type.
#[derive(Debug)]
pub enum CheckFailure {
    /// The term is ill-typed.
    IllTyped(TypeError),
    /// The term's type differs from the goal, even after normalization.
    TypeMismatch { inferred: CoreTerm, expected: CoreTerm },
}

/// Result of checking a term against a goal type.
#[derive(Debug)]
pub enum CheckResult {
    /// The term inhabits the goal type.
    Pass,
    /// The term does not inhabit the goal type.
    Fail { reason: CheckFailure },
}

impl CheckResult {
    pub fn is_pass(&self) -> (b: bool)
        ensures
            b == (self is Pass),
    {
        match self {
            CheckResult::Pass => true,
            CheckResult::Fail { .. } => false,
        }
    }

    pub fn is_fail(&self) -> (b: bool)
        ensures
            b == (self is Fail),
    {
        match self {
            CheckResult::Pass => false,
            CheckResult::Fail { .. } => true,
        }
    }
}

/// Whether `term` inhabits `goal_type`: its inferred type must equal the
/// goal up to normalization.
pub fn type_check(ctx: &CoreCtx, term: &CoreTerm, goal_type: &CoreTerm, env: &CoreEnv) -> (r: CheckResult)
    requires
        infer_ok(ctx@, term@, *env),
        infer(ctx@, term@, *env) matches Ok(t) ==> defeq_ok(t, goal_type@, *env),
    ensures
        match infer(ctx@, term@, *env) {
            Ok(t) => if defeq(t, goal_type@, *env) {
                r is Pass
            } else {
                r matches CheckResult::Fail { reason: CheckFailure::TypeMismatch { inferred, expected } }
                    && inferred@ == t && expected@ == goal_type@
            },
            Err(e) => r matches CheckResult::Fail { reason: CheckFailure::IllTyped(f) } && f@ == e,
        },
{
    match infer_type(ctx, term, env) {
        Ok(inferred) => {
            if types_equal(&inferred, goal_type, env) {
                CheckResult::Pass
            } else {
                CheckResult::Fail {
                    reason: CheckFailure::TypeMismatch { inferred, expected: goal_type.clone() },
                }
            }
        },
        Err(e) => CheckResult::Fail { reason: CheckFailure::IllTyped(e) },
    }
}

fn universe_of(t: &CoreTerm) -> (u: u32)
    ensures
        u == universe(t@),
{
    match t {
        CoreTerm::Type(u) => *u,
        _ => 0,
    }
}

} // verus!
