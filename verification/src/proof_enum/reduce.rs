//! One-step reduction of core terms.
//!
//! Rules, tried in a fixed order so that every step is deterministic:
//!   beta:  (lambda x : A. body) arg  ->  body[x := arg]
//!   delta: a defined constant unfolds to its value
//!   iota:  Nat.rec applied to zero or a successor computes
//!   zeta:  let x : A := v in body  ->  body[x := v]
//!   Nat computation: Nat.add, Nat.mul, Nat.sub, Nat.mod, Nat.div, Nat.ble
//!   and Nat.beq on literals.
//! Reduction also proceeds inside applications, binders and constructor
//! arguments, leftmost first.

use super::core_term::{
    clone_args, first_def, lemma_args_model, models, subst_model, subst_ok, CoreEnv, CoreTerm, Term,
};
use vstd::prelude::*;

verus! {

broadcast use vstd::string::group_string_axioms;

/// The kind of reduction applied.
#[derive(Debug, PartialEq, Eq)]
pub enum ReductionKind {
    /// (lambda x. body) arg -> body[x := arg]
    Beta,
    /// Unfolding of the named constant.
    Delta(String),
    /// Recursor on a constructor.
    Iota,
    /// let x := v in body -> body[x := v]
    Zeta,
    /// Arithmetic on literals.
    NatCompute,
}

/// Model of a reduction kind.
pub enum Kind {
    Beta,
    Delta(Seq<char>),
    Iota,
    Zeta,
    NatCompute,
}

impl View for ReductionKind {
    type V = Kind;

    open spec fn view(&self) -> Kind {
        match self {
            ReductionKind::Beta => Kind::Beta,
            ReductionKind::Delta(n) => Kind::Delta(n@),
            ReductionKind::Iota => Kind::Iota,
            ReductionKind::Zeta => Kind::Zeta,
            ReductionKind::NatCompute => Kind::NatCompute,
        }
    }
}

/// The Bool constructor for `b`.
pub open spec fn bool_term(b: bool) -> Term {
    Term::Constructor("Bool"@, if b { "true"@ } else { "false"@ }, Seq::empty())
}

/// Arithmetic on literals: `App(App(Const(op), NatLit(a)), NatLit(b))`.
pub open spec fn nat_compute(t: Term) -> Option<Term> {
    match t {
        Term::App(f, x) => match (*f, *x) {
            (Term::App(g, y), Term::NatLit(b)) => match (*g, *y) {
                (Term::Const(op, _), Term::NatLit(a)) => if op == "Nat.add"@ {
                    Some(Term::NatLit((a + b) as u64))
                } else if op == "Nat.mul"@ {
                    Some(Term::NatLit((a * b) as u64))
                } else if op == "Nat.sub"@ {
                    Some(Term::NatLit(if a >= b { (a - b) as u64 } else { 0 }))
                } else if op == "Nat.mod"@ && b > 0 {
                    Some(Term::NatLit((a % b) as u64))
                } else if op == "Nat.div"@ && b > 0 {
                    Some(Term::NatLit((a / b) as u64))
                } else if op == "Nat.ble"@ {
                    Some(bool_term(a <= b))
                } else if op == "Nat.beq"@ {
                    Some(bool_term(a == b))
                } else {
                    None
                },
                _ => None,
            },
            _ => None,
        },
        _ => None,
    }
}

/// Literal arithmetic stays within `u64`.
pub open spec fn nat_compute_ok(t: Term) -> bool {
    match t {
        Term::App(f, x) => match (*f, *x) {
            (Term::App(g, y), Term::NatLit(b)) => match (*g, *y) {
                (Term::Const(op, _), Term::NatLit(a)) => (op == "Nat.add"@ ==> a + b <= u64::MAX)
                    && (op == "Nat.mul"@ ==> a * b <= u64::MAX),
                _ => true,
            },
            _ => true,
        },
        _ => true,
    }
}

/// `op a b` on two literals.
pub open spec fn literal_binop(op: Seq<char>, levels: Seq<u32>, a: u64, b: u64) -> Term {
    Term::App(
        Box::new(Term::App(Box::new(Term::Const(op, levels)), Box::new(Term::NatLit(a)))),
        Box::new(Term::NatLit(b)),
    )
}

/// In an environment that gives `op` no value, the literal application
/// `op a b` takes its step as literal arithmetic, to `r` when `r` is
/// `Some`, and is in normal form otherwise.
pub(crate) proof fn lemma_literal_step(op: Seq<char>, levels: Seq<u32>, a: u64, b: u64, env: CoreEnv)
    requires
        unfold(env, op) is None,
    ensures
        step(literal_binop(op, levels, a, b), env) == match nat_compute(
            literal_binop(op, levels, a, b),
        ) {
            Some(r) => Some((r, Kind::NatCompute)),
            None => None::<(Term, Kind)>,
        },
{
    let inner = Term::App(Box::new(Term::Const(op, levels)), Box::new(Term::NatLit(a)));
    assert(step(Term::Const(op, levels), env) is None);
    assert(step(Term::NatLit(a), env) is None);
    assert(nat_compute(inner) is None);
    assert(step(inner, env) is None);
    assert(step(Term::NatLit(b), env) is None);
}

/// The names of the literal operations are pairwise distinct, each of
/// seven characters.
pub(crate) proof fn lemma_op_names_distinct()
    ensures
        "Nat.add"@.len() == 7 && "Nat.mul"@.len() == 7 && "Nat.sub"@.len() == 7,
        "Nat.mod"@.len() == 7 && "Nat.div"@.len() == 7,
        "Nat.ble"@.len() == 7 && "Nat.beq"@.len() == 7,
        "Nat.add"@ != "Nat.mul"@,
        "Nat.add"@ != "Nat.sub"@,
        "Nat.add"@ != "Nat.mod"@,
        "Nat.add"@ != "Nat.div"@,
        "Nat.add"@ != "Nat.ble"@,
        "Nat.add"@ != "Nat.beq"@,
        "Nat.mul"@ != "Nat.sub"@,
        "Nat.mul"@ != "Nat.mod"@,
        "Nat.mul"@ != "Nat.div"@,
        "Nat.mul"@ != "Nat.ble"@,
        "Nat.mul"@ != "Nat.beq"@,
        "Nat.sub"@ != "Nat.mod"@,
        "Nat.sub"@ != "Nat.div"@,
        "Nat.sub"@ != "Nat.ble"@,
        "Nat.sub"@ != "Nat.beq"@,
        "Nat.mod"@ != "Nat.div"@,
        "Nat.mod"@ != "Nat.ble"@,
        "Nat.mod"@ != "Nat.beq"@,
        "Nat.div"@ != "Nat.ble"@,
        "Nat.div"@ != "Nat.beq"@,
        "Nat.ble"@ != "Nat.beq"@,
{
    reveal_strlit("Nat.add");
    reveal_strlit("Nat.mul");
    reveal_strlit("Nat.sub");
    reveal_strlit("Nat.mod");
    reveal_strlit("Nat.div");
    reveal_strlit("Nat.ble");
    reveal_strlit("Nat.beq");
    assert("Nat.add"@[4] == 'a' && "Nat.mul"@[4] == 'm' && "Nat.sub"@[4] == 's');
    assert("Nat.mod"@[4] == 'm' && "Nat.div"@[4] == 'd' && "Nat.ble"@[4] == 'b');
    assert("Nat.beq"@[4] == 'b' && "Nat.mul"@[5] == 'u' && "Nat.mod"@[5] == 'o');
    assert("Nat.ble"@[5] == 'l' && "Nat.beq"@[5] == 'e');
}

/// `Nat.ble a b` steps to `Bool.true` when `a <= b` and to `Bool.false`
/// otherwise.
pub proof fn lemma_literal_ble(a: u64, b: u64, levels: Seq<u32>, env: CoreEnv)
    requires
        unfold(env, "Nat.ble"@) is None,
    ensures
        step(literal_binop("Nat.ble"@, levels, a, b), env) == Some(
            (
                Term::Constructor(
                    "Bool"@,
                    if a <= b {
                        "true"@
                    } else {
                        "false"@
                    },
                    Seq::empty(),
                ),
                Kind::NatCompute,
            ),
        ),
{
    lemma_literal_step("Nat.ble"@, levels, a, b, env);
    lemma_op_names_distinct();
}

/// `Nat.beq a b` steps to `Bool.true` when `a == b` and to `Bool.false`
/// otherwise.
pub proof fn lemma_literal_beq(a: u64, b: u64, levels: Seq<u32>, env: CoreEnv)
    requires
        unfold(env, "Nat.beq"@) is None,
    ensures
        step(literal_binop("Nat.beq"@, levels, a, b), env) == Some(
            (
                Term::Constructor(
                    "Bool"@,
                    if a == b {
                        "true"@
                    } else {
                        "false"@
                    },
                    Seq::empty(),
                ),
                Kind::NatCompute,
            ),
        ),
{
    lemma_literal_step("Nat.beq"@, levels, a, b, env);
    lemma_op_names_distinct();
}

/// `Nat.add`, `Nat.mul` and `Nat.sub` on literals step to the literal of the
/// sum, the product and the truncated difference, when the result fits.
pub proof fn lemma_literal_arith(a: u64, b: u64, levels: Seq<u32>, env: CoreEnv)
    ensures
        unfold(env, "Nat.add"@) is None && a + b <= u64::MAX ==> (step(
            literal_binop("Nat.add"@, levels, a, b),
            env,
        ) matches Some((Term::NatLit(r), Kind::NatCompute)) && r == a + b),
        unfold(env, "Nat.mul"@) is None && a * b <= u64::MAX ==> (step(
            literal_binop("Nat.mul"@, levels, a, b),
            env,
        ) matches Some((Term::NatLit(r), Kind::NatCompute)) && r == a * b),
        unfold(env, "Nat.sub"@) is None ==> (step(literal_binop("Nat.sub"@, levels, a, b), env) matches Some(
            (Term::NatLit(r), Kind::NatCompute),
        ) && r == (if a >= b {
            a - b
        } else {
            0
        })),
{
    lemma_op_names_distinct();
    if unfold(env, "Nat.add"@) is None {
        lemma_literal_step("Nat.add"@, levels, a, b, env);
    }
    if unfold(env, "Nat.mul"@) is None {
        lemma_literal_step("Nat.mul"@, levels, a, b, env);
    }
    if unfold(env, "Nat.sub"@) is None {
        lemma_literal_step("Nat.sub"@, levels, a, b, env);
    }
}

/// `Nat.div` and `Nat.mod` on literals step to the quotient and remainder
/// by a positive divisor, and are in normal form for divisor zero.
pub proof fn lemma_literal_div_mod(a: u64, b: u64, levels: Seq<u32>, env: CoreEnv)
    ensures
        unfold(env, "Nat.div"@) is None && b > 0 ==> (step(literal_binop("Nat.div"@, levels, a, b), env) matches Some(
            (Term::NatLit(r), Kind::NatCompute),
        ) && r == a / b),
        unfold(env, "Nat.mod"@) is None && b > 0 ==> (step(literal_binop("Nat.mod"@, levels, a, b), env) matches Some(
            (Term::NatLit(r), Kind::NatCompute),
        ) && r == a % b),
        unfold(env, "Nat.div"@) is None && b == 0 ==> step(literal_binop("Nat.div"@, levels, a, b), env) is None,
        unfold(env, "Nat.mod"@) is None && b == 0 ==> step(literal_binop("Nat.mod"@, levels, a, b), env) is None,
{
    lemma_op_names_distinct();
    if unfold(env, "Nat.div"@) is None {
        lemma_literal_step("Nat.div"@, levels, a, b, env);
    }
    if unfold(env, "Nat.mod"@) is None {
        lemma_literal_step("Nat.mod"@, levels, a, b, env);
    }
}

/// One step of `Nat.rec motive zero_case succ_case n`.
pub open spec fn iota(inductive: Seq<char>, args: Seq<Term>) -> Option<Term> {
    if inductive != "Nat"@ || args.len() < 4 {
        None
    } else {
        let motive = args[0];
        let zero_case = args[1];
        let succ_case = args[2];
        match args[3] {
            Term::NatLit(n) => if n == 0 {
                Some(zero_case)
            } else {
                let pred = Term::NatLit((n - 1) as u64);
                Some(
                    Term::App(
                        Box::new(Term::App(Box::new(succ_case), Box::new(pred))),
                        Box::new(Term::Recursor("Nat"@, seq![motive, zero_case, succ_case, pred])),
                    ),
                )
            },
            Term::Constructor(tn, cn, cargs) => if tn == "Nat"@ && cn == "zero"@ && cargs.len()
                == 0 {
                Some(zero_case)
            } else if tn == "Nat"@ && cn == "succ"@ && cargs.len() == 1 {
                let pred = cargs[0];
                Some(
                    Term::App(
                        Box::new(Term::App(Box::new(succ_case), Box::new(pred))),
                        Box::new(Term::Recursor("Nat"@, seq![motive, zero_case, succ_case, pred])),
                    ),
                )
            } else {
                None
            },
            _ => None,
        }
    }
}

/// The value of the first definition of `name`, if it has one.
pub open spec fn unfold(env: CoreEnv, name: Seq<char>) -> Option<Term> {
    match first_def(env.names(), name) {
        Some(i) => match env.defs()[i].value {
            Some(v) => Some(v@),
            None => None,
        },
        None => None,
    }
}

/// One reduction step, or `None` for a term in normal form.
pub open spec fn step(t: Term, env: CoreEnv) -> Option<(Term, Kind)>
    decreases t, 0int,
{
    match t {
        Term::App(f, a) => match *f {
            Term::Lam(_, body) => Some((subst_model(*body, 0, *a), Kind::Beta)),
            _ => match step(*f, env) {
                Some((f2, k)) => Some((Term::App(Box::new(f2), a), k)),
                None => match step(*a, env) {
                    Some((a2, k)) => Some((Term::App(f, Box::new(a2)), k)),
                    None => match nat_compute(t) {
                        Some(r) => Some((r, Kind::NatCompute)),
                        None => None,
                    },
                },
            },
        },
        Term::Let(_, v, body) => Some((subst_model(*body, 0, *v), Kind::Zeta)),
        Term::Const(name, _) => match unfold(env, name) {
            Some(v) => Some((v, Kind::Delta(name))),
            None => None,
        },
        Term::Recursor(tn, args) => match iota(tn, args) {
            Some(r) => Some((r, Kind::Iota)),
            None => None,
        },
        Term::Lam(pt, body) => match step(*pt, env) {
            Some((pt2, k)) => Some((Term::Lam(Box::new(pt2), body), k)),
            None => match step(*body, env) {
                Some((b2, k)) => Some((Term::Lam(pt, Box::new(b2)), k)),
                None => None,
            },
        },
        Term::Pi(pt, body) => match step(*pt, env) {
            Some((pt2, k)) => Some((Term::Pi(Box::new(pt2), body), k)),
            None => match step(*body, env) {
                Some((b2, k)) => Some((Term::Pi(pt, Box::new(b2)), k)),
                None => None,
            },
        },
        Term::Constructor(tn, cn, args) => match step_args(args, 0, env) {
            Some((args2, k)) => Some((Term::Constructor(tn, cn, args2), k)),
            None => None,
        },
        _ => None,
    }
}

/// Reduce the first reducible argument at index `i` or later.
pub open spec fn step_args(args: Seq<Term>, i: int, env: CoreEnv) -> Option<(Seq<Term>, Kind)>
    decreases args, args.len() - i,
{
    if i < 0 || i >= args.len() {
        None
    } else {
        match step(args[i], env) {
            Some((a2, k)) => Some((args.update(i, a2), k)),
            None => step_args(args, i + 1, env),
        }
    }
}

/// The step stays within machine integers: substitutions do not overflow
/// variable indices and literal arithmetic stays within `u64`.
pub open spec fn step_ok(t: Term, env: CoreEnv) -> bool
    decreases t, 0int,
{
    match t {
        Term::App(f, a) => match *f {
            Term::Lam(_, body) => subst_ok(*body, 0, *a),
            _ => step_ok(*f, env) && (step(*f, env) is None ==> step_ok(*a, env) && (step(*a, env) is None
                ==> nat_compute_ok(t))),
        },
        Term::Let(_, v, body) => subst_ok(*body, 0, *v),
        Term::Lam(pt, body) | Term::Pi(pt, body) => step_ok(*pt, env) && (step(*pt, env) is None
            ==> step_ok(*body, env)),
        Term::Constructor(_, _, args) => step_args_ok(args, 0, env),
        _ => true,
    }
}

pub open spec fn step_args_ok(args: Seq<Term>, i: int, env: CoreEnv) -> bool
    decreases args, args.len() - i,
{
    if i < 0 || i >= args.len() {
        true
    } else {
        step_ok(args[i], env) && (step(args[i], env) is None ==> step_args_ok(args, i + 1, env))
    }
}

fn str_is(s: &String, lit: &str) -> (b: bool)
    ensures
        b == (s@ == lit@),
{
    *s == lit.to_string()
}

fn bool_exec(b: bool) -> (r: CoreTerm)
    ensures
        r@ == bool_term(b),
{
    let r = CoreTerm::Constructor {
        inductive: "Bool".to_string(),
        ctor_name: if b {
            "true".to_string()
        } else {
            "false".to_string()
        },
        args: Vec::new(),
    };
    proof {
        lemma_args_model(&r);
    }
    assert(models(Seq::<CoreTerm>::empty()) =~= Seq::<Term>::empty());
    r
}

/// Literal arithmetic on a term of the shape `App(App(Const(op), NatLit(a)), NatLit(b))`.
fn try_nat_compute(term: &CoreTerm) -> (r: Option<CoreTerm>)
    requires
        nat_compute_ok(term@),
    ensures
        match nat_compute(term@) {
            None => r is None,
            Some(x) => r matches Some(y) && y@ == x,
        },
{
    proof {
        reveal_with_fuel(CoreTerm::model, 3);
    }
    if let CoreTerm::App { func, arg } = term {
        if let CoreTerm::NatLit(b) = &**arg {
            if let CoreTerm::App { func: inner_func, arg: inner_arg } = &**func {
                if let CoreTerm::NatLit(a) = &**inner_arg {
                    if let CoreTerm::Const { name, .. } = &**inner_func {
                        let a = *a;
                        let b = *b;
                        if str_is(name, "Nat.add") {
                            return Some(CoreTerm::NatLit(a + b));
                        } else if str_is(name, "Nat.mul") {
                            return Some(CoreTerm::NatLit(a * b));
                        } else if str_is(name, "Nat.sub") {
                            return Some(CoreTerm::NatLit(a.saturating_sub(b)));
                        } else if str_is(name, "Nat.mod") && b > 0 {
                            return Some(CoreTerm::NatLit(a % b));
                        } else if str_is(name, "Nat.div") && b > 0 {
                            return Some(CoreTerm::NatLit(a / b));
                        } else if str_is(name, "Nat.ble") {
                            return Some(bool_exec(a <= b));
                        } else if str_is(name, "Nat.beq") {
                            return Some(bool_exec(a == b));
                        }
                    }
                }
            }
        }
    }
    None
}

/// `Nat.rec` applied to a literal or to a `Nat.zero` / `Nat.succ` constructor.
fn try_iota_reduce(inductive: &String, args: &Vec<CoreTerm>) -> (r: Option<CoreTerm>)
    ensures
        match iota(inductive@, models(args@)) {
            None => r is None,
            Some(x) => r matches Some(y) && y@ == x,
        },
{
    let ghost ms = models(args@);
    if !str_is(inductive, "Nat") || args.len() < 4 {
        return None;
    }
    let motive = &args[0];
    let zero_case = &args[1];
    let succ_case = &args[2];
    let target = &args[3];
    assert(ms[0] == motive@ && ms[1] == zero_case@ && ms[2] == succ_case@ && ms[3] == target@);
    proof {
        lemma_args_model(target);
    }
    match target {
        CoreTerm::NatLit(n) => {
            if *n == 0 {
                Some(zero_case.clone())
            } else {
                let pred = CoreTerm::NatLit(*n - 1);
                Some(nat_rec_step(motive, zero_case, succ_case, &pred))
            }
        },
        CoreTerm::Constructor { inductive: tn, ctor_name, args: ctor_args } => {
            if str_is(tn, "Nat") && str_is(ctor_name, "zero") && ctor_args.len() == 0 {
                Some(zero_case.clone())
            } else if str_is(tn, "Nat") && str_is(ctor_name, "succ") && ctor_args.len() == 1 {
                assert(models(ctor_args@)[0] == ctor_args@[0]@);
                Some(nat_rec_step(motive, zero_case, succ_case, &ctor_args[0]))
            } else {
                None
            }
        },
        _ => None,
    }
}

/// `succ_case pred (Nat.rec motive zero_case succ_case pred)`.
fn nat_rec_step(motive: &CoreTerm, zero_case: &CoreTerm, succ_case: &CoreTerm, pred: &CoreTerm) -> (r:
    CoreTerm)
    ensures
        r@ == Term::App(
            Box::new(Term::App(Box::new(succ_case@), Box::new(pred@))),
            Box::new(Term::Recursor("Nat"@, seq![motive@, zero_case@, succ_case@, pred@])),
        ),
{
    let m = motive.clone();
    let z = zero_case.clone();
    let s = succ_case.clone();
    let p = pred.clone();
    let rec_args = vec![m, z, s, p];
    assert(rec_args@ =~= seq![m, z, s, p]);
    assert(models(rec_args@) =~= seq![motive@, zero_case@, succ_case@, pred@]);
    let recursive_call = CoreTerm::Recursor { inductive: "Nat".to_string(), args: rec_args };
    proof {
        lemma_args_model(&recursive_call);
        reveal_with_fuel(CoreTerm::model, 2);
    }
    CoreTerm::App {
        func: Box::new(CoreTerm::App { func: Box::new(succ_case.clone()), arg: Box::new(pred.clone()) }),
        arg: Box::new(recursive_call),
    }
}

/// Perform one reduction step; `None` when the term is in normal form.
pub fn reduce_step(term: &CoreTerm, env: &CoreEnv) -> (r: Option<(CoreTerm, ReductionKind)>)
    requires
        step_ok(term@, *env),
    ensures
        match step(term@, *env) {
            None => r is None,
            Some((t, k)) => r matches Some((u, j)) && u@ == t && j@ == k,
        },
    decreases term,
{
    proof {
        lemma_args_model(term);
        reveal_with_fuel(CoreTerm::model, 2);
    }
    match term {
        CoreTerm::App { func, arg } => {
            if let CoreTerm::Lam { body, .. } = &**func {
                let reduced = body.substitute(0, arg);
                return Some((reduced, ReductionKind::Beta));
            }
            if let Some((reduced_func, kind)) = reduce_step(func, env) {
                return Some(
                    (CoreTerm::App { func: Box::new(reduced_func), arg: Box::new((**arg).clone()) }, kind),
                );
            }
            if let Some((reduced_arg, kind)) = reduce_step(arg, env) {
                return Some(
                    (CoreTerm::App { func: Box::new((**func).clone()), arg: Box::new(reduced_arg) }, kind),
                );
            }
            if let Some(result) = try_nat_compute(term) {
                return Some((result, ReductionKind::NatCompute));
            }
            None
        },
        CoreTerm::Let { value, body, .. } => {
            let reduced = body.substitute(0, value);
            Some((reduced, ReductionKind::Zeta))
        },
        CoreTerm::Const { name, .. } => {
            if let Some(def) = env.lookup(name.as_str()) {
                if let Some(value) = &def.value {
                    return Some((value.clone(), ReductionKind::Delta(name.clone())));
                }
            }
            None
        },
        CoreTerm::Recursor { inductive, args } => {
            match try_iota_reduce(inductive, args) {
                Some(result) => Some((result, ReductionKind::Iota)),
                None => None,
            }
        },
        CoreTerm::Lam { param_type, body } => {
            if let Some((reduced_pt, kind)) = reduce_step(param_type, env) {
                return Some(
                    (CoreTerm::Lam { param_type: Box::new(reduced_pt), body: Box::new((**body).clone()) }, kind),
                );
            }
            if let Some((reduced_body, kind)) = reduce_step(body, env) {
                return Some(
                    (
                        CoreTerm::Lam {
                            param_type: Box::new((**param_type).clone()),
                            body: Box::new(reduced_body),
                        },
                        kind,
                    ),
                );
            }
            None
        },
        CoreTerm::Pi { param_type, body } => {
            if let Some((reduced_pt, kind)) = reduce_step(param_type, env) {
                return Some(
                    (CoreTerm::Pi { param_type: Box::new(reduced_pt), body: Box::new((**body).clone()) }, kind),
                );
            }
            if let Some((reduced_body, kind)) = reduce_step(body, env) {
                return Some(
                    (
                        CoreTerm::Pi {
                            param_type: Box::new((**param_type).clone()),
                            body: Box::new(reduced_body),
                        },
                        kind,
                    ),
                );
            }
            None
        },
        CoreTerm::Constructor { inductive, ctor_name, args } => {
            match reduce_args(args, env) {
                Some((new_args, kind)) => {
                    let r = CoreTerm::Constructor {
                        inductive: inductive.clone(),
                        ctor_name: ctor_name.clone(),
                        args: new_args,
                    };
                    proof {
                        lemma_args_model(&r);
                    }
                    Some((r, kind))
                },
                None => None,
            }
        },
        _ => None,
    }
}

/// Reduce the first reducible argument.
fn reduce_args(args: &Vec<CoreTerm>, env: &CoreEnv) -> (r: Option<(Vec<CoreTerm>, ReductionKind)>)
    requires
        step_args_ok(models(args@), 0, *env),
    ensures
        match step_args(models(args@), 0, *env) {
            None => r is None,
            Some((ts, k)) => r matches Some((v, j)) && models(v@) == ts && j@ == k,
        },
    decreases args,
{
    let ghost ms = models(args@);
    let mut i: usize = 0;
    while i < args.len()
        invariant
            i <= args@.len(),
            ms == models(args@),
            step_args(ms, 0, *env) == step_args(ms, i as int, *env),
            step_args_ok(ms, i as int, *env),
        decreases args@.len() - i,
    {
        assert(ms[i as int] == args@[i as int]@);
        match reduce_step(&args[i], env) {
            Some((reduced, kind)) => {
                let mut new_args = clone_args(args);
                let ghost before = new_args@;
                new_args.set(i, reduced);
                proof {
                    assert(models(new_args@) =~= models(before).update(i as int, reduced@));
                }
                return Some((new_args, kind));
            },
            None => {},
        }
        i = i + 1;
    }
    None
}

} // verus!
