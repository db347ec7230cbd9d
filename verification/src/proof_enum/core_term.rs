//! The core calculus: a minimal dependent type theory over byte strings.
//!
//! Terms have type universes, `Prop`, de Bruijn variables, lambda and pi
//! binders, application, let, named constants with universe levels, natural
//! number literals, and constructor and recursor applications of inductive
//! types. Every term has a canonical byte serialization.

use vstd::bytes::{
    spec_u32_from_le_bytes, spec_u32_to_le_bytes, spec_u64_from_le_bytes, spec_u64_to_le_bytes,
    u32_from_le_bytes, u32_to_le_bytes, u64_from_le_bytes, u64_to_le_bytes,
};
use vstd::prelude::*;
use vstd::slice::slice_to_vec;
use vstd::utf8::{decode_utf8, encode_utf8, valid_utf8};

verus! {

/// A core term.
#[derive(Debug, PartialEq, Eq)]
pub enum CoreTerm {
    /// Type universe at level i.
    Type(u32),
    /// The type of propositions.
    Prop,
    /// Variable reference (de Bruijn index; 0 is the innermost binder).
    Var(usize),
    /// Lambda abstraction; the body sees the bound variable as index 0.
    Lam { param_type: Box<CoreTerm>, body: Box<CoreTerm> },
    /// Dependent function type.
    Pi { param_type: Box<CoreTerm>, body: Box<CoreTerm> },
    /// Application.
    App { func: Box<CoreTerm>, arg: Box<CoreTerm> },
    /// `let x : bound_type = value in body`.
    Let { bound_type: Box<CoreTerm>, value: Box<CoreTerm>, body: Box<CoreTerm> },
    /// A named constant with universe levels.
    Const { name: String, levels: Vec<u32> },
    /// Natural number literal.
    NatLit(u64),
    /// Constructor application of an inductive type.
    Constructor { inductive: String, ctor_name: String, args: Vec<CoreTerm> },
    /// Recursor (eliminator) application.
    Recursor { inductive: String, args: Vec<CoreTerm> },
}

/// Mathematical model of a term: strings as character sequences and
/// argument vectors as sequences.
pub enum Term {
    Type(u32),
    Prop,
    Var(usize),
    Lam(Box<Term>, Box<Term>),
    Pi(Box<Term>, Box<Term>),
    App(Box<Term>, Box<Term>),
    Let(Box<Term>, Box<Term>, Box<Term>),
    Const(Seq<char>, Seq<u32>),
    NatLit(u64),
    Constructor(Seq<char>, Seq<char>, Seq<Term>),
    Recursor(Seq<char>, Seq<Term>),
}

impl CoreTerm {
    pub open spec fn model(&self) -> Term
        decreases self,
    {
        match self {
            CoreTerm::Type(u) => Term::Type(*u),
            CoreTerm::Prop => Term::Prop,
            CoreTerm::Var(i) => Term::Var(*i),
            CoreTerm::Lam { param_type, body } => Term::Lam(
                Box::new(param_type.model()),
                Box::new(body.model()),
            ),
            CoreTerm::Pi { param_type, body } => Term::Pi(
                Box::new(param_type.model()),
                Box::new(body.model()),
            ),
            CoreTerm::App { func, arg } => Term::App(Box::new(func.model()), Box::new(arg.model())),
            CoreTerm::Let { bound_type, value, body } => Term::Let(
                Box::new(bound_type.model()),
                Box::new(value.model()),
                Box::new(body.model()),
            ),
            CoreTerm::Const { name, levels } => Term::Const(name@, levels@),
            CoreTerm::NatLit(n) => Term::NatLit(*n),
            CoreTerm::Constructor { inductive, ctor_name, args } => Term::Constructor(
                inductive@,
                ctor_name@,
                Seq::new(args@.len(), |i: int| if 0 <= i < args@.len() { args@[i].model() } else { Term::Prop }),
            ),
            CoreTerm::Recursor { inductive, args } => Term::Recursor(
                inductive@,
                Seq::new(args@.len(), |i: int| if 0 <= i < args@.len() { args@[i].model() } else { Term::Prop }),
            ),
        }
    }
}

impl View for CoreTerm {
    type V = Term;

    open spec fn view(&self) -> Term {
        self.model()
    }
}

/// Node count.
pub open spec fn term_size(t: Term) -> nat
    decreases t,
{
    match t {
        Term::Lam(a, b) => 1 + term_size(*a) + term_size(*b),
        Term::Pi(a, b) => 1 + term_size(*a) + term_size(*b),
        Term::App(a, b) => 1 + term_size(*a) + term_size(*b),
        Term::Let(a, b, c) => 1 + term_size(*a) + term_size(*b) + term_size(*c),
        Term::Constructor(_, _, args) => 1 + args_size(args),
        Term::Recursor(_, args) => 1 + args_size(args),
        _ => 1,
    }
}

/// Total node count of a sequence of terms.
pub open spec fn args_size(args: Seq<Term>) -> nat
    decreases args,
{
    if args.len() == 0 {
        0
    } else {
        args_size(args.drop_last()) + term_size(args.last())
    }
}

/// Whether a term is a value: a universe, `Prop`, a literal, a variable,
/// a binder, a constant, or a constructor applied to values.
pub open spec fn term_is_value(t: Term) -> bool
    decreases t,
{
    match t {
        Term::App(_, _) | Term::Let(_, _, _) | Term::Recursor(_, _) => false,
        Term::Constructor(_, _, args) => args_are_values(args),
        _ => true,
    }
}

pub open spec fn args_are_values(args: Seq<Term>) -> bool
    decreases args,
{
    if args.len() == 0 {
        true
    } else {
        args_are_values(args.drop_last()) && term_is_value(args.last())
    }
}

/// The term with every free variable of index at least `cutoff` raised by
/// `amount`.
pub open spec fn shift_model(t: Term, cutoff: int, amount: int) -> Term
    decreases t,
{
    match t {
        Term::Var(i) => if i >= cutoff {
            Term::Var((i + amount) as usize)
        } else {
            Term::Var(i)
        },
        Term::Lam(a, b) => Term::Lam(
            Box::new(shift_model(*a, cutoff, amount)),
            Box::new(shift_model(*b, cutoff + 1, amount)),
        ),
        Term::Pi(a, b) => Term::Pi(
            Box::new(shift_model(*a, cutoff, amount)),
            Box::new(shift_model(*b, cutoff + 1, amount)),
        ),
        Term::App(a, b) => Term::App(
            Box::new(shift_model(*a, cutoff, amount)),
            Box::new(shift_model(*b, cutoff, amount)),
        ),
        Term::Let(a, b, c) => Term::Let(
            Box::new(shift_model(*a, cutoff, amount)),
            Box::new(shift_model(*b, cutoff, amount)),
            Box::new(shift_model(*c, cutoff + 1, amount)),
        ),
        Term::Constructor(tn, cn, args) => Term::Constructor(
            tn,
            cn,
            shift_args(args, cutoff, amount),
        ),
        Term::Recursor(tn, args) => Term::Recursor(tn, shift_args(args, cutoff, amount)),
        _ => t,
    }
}

pub open spec fn shift_args(args: Seq<Term>, cutoff: int, amount: int) -> Seq<Term>
    decreases args,
{
    if args.len() == 0 {
        args
    } else {
        shift_args(args.drop_last(), cutoff, amount).push(shift_model(args.last(), cutoff, amount))
    }
}

/// Shifting stays within machine integers: every shifted variable and every
/// cutoff under a binder fits in `usize`.
pub open spec fn shift_ok(t: Term, cutoff: int, amount: int) -> bool
    decreases t,
{
    match t {
        Term::Var(i) => i >= cutoff ==> i + amount <= usize::MAX,
        Term::Lam(a, b) | Term::Pi(a, b) => shift_ok(*a, cutoff, amount) && cutoff + 1 <= usize::MAX
            && shift_ok(*b, cutoff + 1, amount),
        Term::App(a, b) => shift_ok(*a, cutoff, amount) && shift_ok(*b, cutoff, amount),
        Term::Let(a, b, c) => shift_ok(*a, cutoff, amount) && shift_ok(*b, cutoff, amount) && cutoff
            + 1 <= usize::MAX && shift_ok(*c, cutoff + 1, amount),
        Term::Constructor(_, _, args) => shift_args_ok(args, cutoff, amount),
        Term::Recursor(_, args) => shift_args_ok(args, cutoff, amount),
        _ => true,
    }
}

pub open spec fn shift_args_ok(args: Seq<Term>, cutoff: int, amount: int) -> bool
    decreases args,
{
    if args.len() == 0 {
        true
    } else {
        shift_args_ok(args.drop_last(), cutoff, amount) && shift_ok(args.last(), cutoff, amount)
    }
}

/// Substitution of `rep` for variable `idx`: variables above `idx` move
/// down by one, and `rep` is shifted by one under each binder.
pub open spec fn subst_model(t: Term, idx: int, rep: Term) -> Term
    decreases t,
{
    match t {
        Term::Var(i) => if i == idx {
            rep
        } else if i > idx {
            Term::Var((i - 1) as usize)
        } else {
            Term::Var(i)
        },
        Term::Lam(a, b) => Term::Lam(
            Box::new(subst_model(*a, idx, rep)),
            Box::new(subst_model(*b, idx + 1, shift_model(rep, 0, 1))),
        ),
        Term::Pi(a, b) => Term::Pi(
            Box::new(subst_model(*a, idx, rep)),
            Box::new(subst_model(*b, idx + 1, shift_model(rep, 0, 1))),
        ),
        Term::App(a, b) => Term::App(
            Box::new(subst_model(*a, idx, rep)),
            Box::new(subst_model(*b, idx, rep)),
        ),
        Term::Let(a, b, c) => Term::Let(
            Box::new(subst_model(*a, idx, rep)),
            Box::new(subst_model(*b, idx, rep)),
            Box::new(subst_model(*c, idx + 1, shift_model(rep, 0, 1))),
        ),
        Term::Constructor(tn, cn, args) => Term::Constructor(tn, cn, subst_args(args, idx, rep)),
        Term::Recursor(tn, args) => Term::Recursor(tn, subst_args(args, idx, rep)),
        _ => t,
    }
}

pub open spec fn subst_args(args: Seq<Term>, idx: int, rep: Term) -> Seq<Term>
    decreases args,
{
    if args.len() == 0 {
        args
    } else {
        subst_args(args.drop_last(), idx, rep).push(subst_model(args.last(), idx, rep))
    }
}

/// Substitution stays within machine integers.
pub open spec fn subst_ok(t: Term, idx: int, rep: Term) -> bool
    decreases t,
{
    match t {
        Term::Lam(a, b) | Term::Pi(a, b) => subst_ok(*a, idx, rep) && idx + 1 <= usize::MAX
            && shift_ok(rep, 0, 1) && subst_ok(*b, idx + 1, shift_model(rep, 0, 1)),
        Term::App(a, b) => subst_ok(*a, idx, rep) && subst_ok(*b, idx, rep),
        Term::Let(a, b, c) => subst_ok(*a, idx, rep) && subst_ok(*b, idx, rep) && idx + 1
            <= usize::MAX && shift_ok(rep, 0, 1) && subst_ok(*c, idx + 1, shift_model(rep, 0, 1)),
        Term::Constructor(_, _, args) => subst_args_ok(args, idx, rep),
        Term::Recursor(_, args) => subst_args_ok(args, idx, rep),
        _ => true,
    }
}

pub open spec fn subst_args_ok(args: Seq<Term>, idx: int, rep: Term) -> bool
    decreases args,
{
    if args.len() == 0 {
        true
    } else {
        subst_args_ok(args.drop_last(), idx, rep) && subst_ok(args.last(), idx, rep)
    }
}

/// Whether variable `k` occurs free in `t`: a binder's annotation sees the
/// same variables as the binder, its body one more.
pub open spec fn occurs_free(t: Term, k: int) -> bool
    decreases t,
{
    match t {
        Term::Var(i) => i == k,
        Term::Lam(a, b) => occurs_free(*a, k) || occurs_free(*b, k + 1),
        Term::Pi(a, b) => occurs_free(*a, k) || occurs_free(*b, k + 1),
        Term::App(a, b) => occurs_free(*a, k) || occurs_free(*b, k),
        Term::Let(a, b, c) => occurs_free(*a, k) || occurs_free(*b, k) || occurs_free(*c, k + 1),
        Term::Constructor(_, _, args) => occurs_free_args(args, k),
        Term::Recursor(_, args) => occurs_free_args(args, k),
        _ => false,
    }
}

pub open spec fn occurs_free_args(args: Seq<Term>, k: int) -> bool
    decreases args,
{
    if args.len() == 0 {
        false
    } else {
        occurs_free_args(args.drop_last(), k) || occurs_free(args.last(), k)
    }
}

/// Shifting renames free variables: after raising the variables from
/// `cutoff` on by one, variable `k` is free exactly when `k` was free below
/// the cutoff or `k - 1` was free above it; nothing is free at the cutoff.
pub proof fn lemma_shift_free_vars(t: Term, cutoff: int, k: int)
    requires
        0 <= cutoff,
        shift_ok(t, cutoff, 1),
    ensures
        occurs_free(shift_model(t, cutoff, 1), k) <==> ((k < cutoff && occurs_free(t, k)) || (k
            > cutoff && occurs_free(t, k - 1))),
    decreases t,
{
    match t {
        Term::Lam(a, b) => {
            lemma_shift_free_vars(*a, cutoff, k);
            lemma_shift_free_vars(*b, cutoff + 1, k + 1);
        },
        Term::Pi(a, b) => {
            lemma_shift_free_vars(*a, cutoff, k);
            lemma_shift_free_vars(*b, cutoff + 1, k + 1);
        },
        Term::App(a, b) => {
            lemma_shift_free_vars(*a, cutoff, k);
            lemma_shift_free_vars(*b, cutoff, k);
        },
        Term::Let(a, b, c) => {
            lemma_shift_free_vars(*a, cutoff, k);
            lemma_shift_free_vars(*b, cutoff, k);
            lemma_shift_free_vars(*c, cutoff + 1, k + 1);
        },
        Term::Constructor(_, _, args) => {
            lemma_shift_free_vars_args(args, cutoff, k);
        },
        Term::Recursor(_, args) => {
            lemma_shift_free_vars_args(args, cutoff, k);
        },
        _ => {},
    }
}

/// Free variables of shifted argument lists, as for a single term.
pub proof fn lemma_shift_free_vars_args(args: Seq<Term>, cutoff: int, k: int)
    requires
        0 <= cutoff,
        shift_args_ok(args, cutoff, 1),
    ensures
        occurs_free_args(shift_args(args, cutoff, 1), k) <==> ((k < cutoff && occurs_free_args(
            args,
            k,
        )) || (k > cutoff && occurs_free_args(args, k - 1))),
    decreases args,
{
    if args.len() > 0 {
        let init = args.drop_last();
        let s = shift_args(args, cutoff, 1);
        lemma_shift_free_vars_args(init, cutoff, k);
        lemma_shift_free_vars(args.last(), cutoff, k);
        assert(s.drop_last() =~= shift_args(init, cutoff, 1));
    }
}

/// Substitution removes variable `idx` and lowers the variables above it:
/// variable `k` is free in the result exactly when it was free below `idx`,
/// when `k + 1` was free from `idx` on, or when `idx` was free and `k` is
/// free in the replacement. Binder annotations are substituted like every
/// other child.
pub proof fn lemma_subst_free_vars(t: Term, idx: int, rep: Term, k: int)
    requires
        0 <= idx,
        0 <= k,
        subst_ok(t, idx, rep),
    ensures
        occurs_free(subst_model(t, idx, rep), k) <==> ((k < idx && occurs_free(t, k)) || (k >= idx
            && occurs_free(t, k + 1)) || (occurs_free(t, idx) && occurs_free(rep, k))),
    decreases t,
{
    match t {
        Term::Lam(a, b) => {
            lemma_subst_free_vars(*a, idx, rep, k);
            lemma_subst_free_vars(*b, idx + 1, shift_model(rep, 0, 1), k + 1);
            lemma_shift_free_vars(rep, 0, k + 1);
        },
        Term::Pi(a, b) => {
            lemma_subst_free_vars(*a, idx, rep, k);
            lemma_subst_free_vars(*b, idx + 1, shift_model(rep, 0, 1), k + 1);
            lemma_shift_free_vars(rep, 0, k + 1);
        },
        Term::App(a, b) => {
            lemma_subst_free_vars(*a, idx, rep, k);
            lemma_subst_free_vars(*b, idx, rep, k);
        },
        Term::Let(a, b, c) => {
            lemma_subst_free_vars(*a, idx, rep, k);
            lemma_subst_free_vars(*b, idx, rep, k);
            lemma_subst_free_vars(*c, idx + 1, shift_model(rep, 0, 1), k + 1);
            lemma_shift_free_vars(rep, 0, k + 1);
        },
        Term::Constructor(_, _, args) => {
            lemma_subst_free_vars_args(args, idx, rep, k);
        },
        Term::Recursor(_, args) => {
            lemma_subst_free_vars_args(args, idx, rep, k);
        },
        _ => {},
    }
}

/// Free variables of substituted argument lists, as for a single term.
pub proof fn lemma_subst_free_vars_args(args: Seq<Term>, idx: int, rep: Term, k: int)
    requires
        0 <= idx,
        0 <= k,
        subst_args_ok(args, idx, rep),
    ensures
        occurs_free_args(subst_args(args, idx, rep), k) <==> ((k < idx && occurs_free_args(args, k))
            || (k >= idx && occurs_free_args(args, k + 1)) || (occurs_free_args(args, idx)
            && occurs_free(rep, k))),
    decreases args,
{
    if args.len() > 0 {
        let init = args.drop_last();
        let s = subst_args(args, idx, rep);
        lemma_subst_free_vars_args(init, idx, rep, k);
        lemma_subst_free_vars(args.last(), idx, rep, k);
        assert(s.drop_last() =~= subst_args(init, idx, rep));
    }
}

/// Substituting for a variable that a shift has just made room for undoes
/// the shift, whatever the replacement.
pub proof fn lemma_subst_shift_cancel(t: Term, cutoff: int, rep: Term)
    requires
        0 <= cutoff,
        shift_ok(t, cutoff, 1),
    ensures
        subst_model(shift_model(t, cutoff, 1), cutoff, rep) == t,
    decreases t,
{
    match t {
        Term::Lam(a, b) => {
            lemma_subst_shift_cancel(*a, cutoff, rep);
            lemma_subst_shift_cancel(*b, cutoff + 1, shift_model(rep, 0, 1));
        },
        Term::Pi(a, b) => {
            lemma_subst_shift_cancel(*a, cutoff, rep);
            lemma_subst_shift_cancel(*b, cutoff + 1, shift_model(rep, 0, 1));
        },
        Term::App(a, b) => {
            lemma_subst_shift_cancel(*a, cutoff, rep);
            lemma_subst_shift_cancel(*b, cutoff, rep);
        },
        Term::Let(a, b, c) => {
            lemma_subst_shift_cancel(*a, cutoff, rep);
            lemma_subst_shift_cancel(*b, cutoff, rep);
            lemma_subst_shift_cancel(*c, cutoff + 1, shift_model(rep, 0, 1));
        },
        Term::Constructor(_, _, args) => {
            lemma_subst_shift_cancel_args(args, cutoff, rep);
        },
        Term::Recursor(_, args) => {
            lemma_subst_shift_cancel_args(args, cutoff, rep);
        },
        _ => {},
    }
}

/// Shift and substitution at the same index cancel on argument lists.
pub proof fn lemma_subst_shift_cancel_args(args: Seq<Term>, cutoff: int, rep: Term)
    requires
        0 <= cutoff,
        shift_args_ok(args, cutoff, 1),
    ensures
        subst_args(shift_args(args, cutoff, 1), cutoff, rep) == args,
    decreases args,
{
    if args.len() > 0 {
        let init = args.drop_last();
        let s = shift_args(args, cutoff, 1);
        lemma_subst_shift_cancel_args(init, cutoff, rep);
        lemma_subst_shift_cancel(args.last(), cutoff, rep);
        assert(s.drop_last() =~= shift_args(init, cutoff, 1));
        assert(init.push(args.last()) =~= args);
    }
}

/// Models of a vector of terms.
pub open spec fn models(v: Seq<CoreTerm>) -> Seq<Term> {
    Seq::new(v.len(), |i: int| v[i]@)
}

/// The model of a constructor or recursor application is built from the
/// models of its arguments.
pub(crate) proof fn lemma_args_model(t: &CoreTerm)
    ensures
        t matches CoreTerm::Constructor { inductive, ctor_name, args } ==> t@ == Term::Constructor(
            inductive@,
            ctor_name@,
            models(args@),
        ),
        t matches CoreTerm::Recursor { inductive, args } ==> t@ == Term::Recursor(
            inductive@,
            models(args@),
        ),
{
    match t {
        CoreTerm::Constructor { inductive, ctor_name, args } => {
            assert(t@->Constructor_2 =~= models(args@));
        },
        CoreTerm::Recursor { inductive, args } => {
            assert(t@->Recursor_1 =~= models(args@));
        },
        _ => {},
    }
}

fn copy_levels(levels: &Vec<u32>) -> (r: Vec<u32>)
    ensures
        r@ == levels@,
{
    let mut out: Vec<u32> = Vec::new();
    let mut i: usize = 0;
    while i < levels.len()
        invariant
            i <= levels@.len(),
            out@ == levels@.take(i as int),
        decreases levels@.len() - i,
    {
        out.push(levels[i]);
        i = i + 1;
        assert(out@ =~= levels@.take(i as int));
    }
    assert(levels@.take(i as int) =~= levels@);
    out
}

impl Clone for CoreTerm {
    /// A deep copy with the same model.
    fn clone(&self) -> (r: Self)
        ensures
            r@ == self@,
        decreases self,
    {
        match self {
            CoreTerm::Type(u) => CoreTerm::Type(*u),
            CoreTerm::Prop => CoreTerm::Prop,
            CoreTerm::Var(i) => CoreTerm::Var(*i),
            CoreTerm::NatLit(n) => CoreTerm::NatLit(*n),
            CoreTerm::Lam { param_type, body } => CoreTerm::Lam {
                param_type: Box::new((**param_type).clone()),
                body: Box::new((**body).clone()),
            },
            CoreTerm::Pi { param_type, body } => CoreTerm::Pi {
                param_type: Box::new((**param_type).clone()),
                body: Box::new((**body).clone()),
            },
            CoreTerm::App { func, arg } => CoreTerm::App {
                func: Box::new((**func).clone()),
                arg: Box::new((**arg).clone()),
            },
            CoreTerm::Let { bound_type, value, body } => CoreTerm::Let {
                bound_type: Box::new((**bound_type).clone()),
                value: Box::new((**value).clone()),
                body: Box::new((**body).clone()),
            },
            CoreTerm::Const { name, levels } => CoreTerm::Const {
                name: name.clone(),
                levels: copy_levels(levels),
            },
            CoreTerm::Constructor { inductive, ctor_name, args } => {
                let out = clone_args(args);
                let r = CoreTerm::Constructor {
                    inductive: inductive.clone(),
                    ctor_name: ctor_name.clone(),
                    args: out,
                };
                proof {
                    lemma_args_model(self);
                    lemma_args_model(&r);
                }
                r
            },
            CoreTerm::Recursor { inductive, args } => {
                let out = clone_args(args);
                let r = CoreTerm::Recursor { inductive: inductive.clone(), args: out };
                proof {
                    lemma_args_model(self);
                    lemma_args_model(&r);
                }
                r
            },
        }
    }
}

pub(crate) fn clone_args(args: &Vec<CoreTerm>) -> (r: Vec<CoreTerm>)
    ensures
        models(r@) == models(args@),
    decreases args,
{
    let mut out: Vec<CoreTerm> = Vec::new();
    let mut i: usize = 0;
    while i < args.len()
        invariant
            i <= args@.len(),
            out@.len() == i,
            models(out@) == models(args@).take(i as int),
        decreases args@.len() - i,
    {
        let c = args[i].clone();
        let ghost prev = out@;
        out.push(c);
        proof {
            assert forall|k: int| 0 <= k <= i implies #[trigger] models(out@)[k] == models(
                args@,
            ).take(i + 1)[k] by {
                if k < i {
                    assert(out@[k] == prev[k]);
                    assert(models(prev)[k] == models(args@).take(i as int)[k]);
                }
            }
        }
        i = i + 1;
        assert(models(out@) =~= models(args@).take(i as int));
    }
    assert(models(args@).take(i as int) =~= models(args@));
    out
}

pub(crate) proof fn lemma_take_step<A>(ms: Seq<A>, i: int)
    requires
        0 <= i < ms.len(),
    ensures
        ms.take(i + 1).drop_last() == ms.take(i),
        ms.take(i + 1).last() == ms[i],
{
    assert(ms.take(i + 1).drop_last() =~= ms.take(i));
}

pub(crate) proof fn lemma_take_of_drop_last<A>(ms: Seq<A>, i: int)
    requires
        0 <= i < ms.len(),
    ensures
        ms.drop_last().take(i) == ms.take(i),
{
    assert(ms.drop_last().take(i) =~= ms.take(i));
}

proof fn lemma_args_size_prefix(ms: Seq<Term>, i: int)
    requires
        0 <= i <= ms.len(),
    ensures
        args_size(ms.take(i)) <= args_size(ms),
    decreases ms.len(),
{
    if i == ms.len() {
        assert(ms.take(i) =~= ms);
    } else {
        lemma_take_of_drop_last(ms, i);
        lemma_args_size_prefix(ms.drop_last(), i);
    }
}

proof fn lemma_values_prefix(ms: Seq<Term>, i: int)
    requires
        0 <= i <= ms.len(),
        args_are_values(ms),
    ensures
        args_are_values(ms.take(i)),
    decreases ms.len(),
{
    if i == ms.len() {
        assert(ms.take(i) =~= ms);
    } else {
        lemma_take_of_drop_last(ms, i);
        lemma_values_prefix(ms.drop_last(), i);
    }
}

proof fn lemma_shift_ok_prefix(ms: Seq<Term>, i: int, cutoff: int, amount: int)
    requires
        0 <= i <= ms.len(),
        shift_args_ok(ms, cutoff, amount),
    ensures
        shift_args_ok(ms.take(i), cutoff, amount),
    decreases ms.len(),
{
    if i == ms.len() {
        assert(ms.take(i) =~= ms);
    } else {
        lemma_take_of_drop_last(ms, i);
        lemma_shift_ok_prefix(ms.drop_last(), i, cutoff, amount);
    }
}

proof fn lemma_subst_ok_prefix(ms: Seq<Term>, i: int, idx: int, rep: Term)
    requires
        0 <= i <= ms.len(),
        subst_args_ok(ms, idx, rep),
    ensures
        subst_args_ok(ms.take(i), idx, rep),
    decreases ms.len(),
{
    if i == ms.len() {
        assert(ms.take(i) =~= ms);
    } else {
        lemma_take_of_drop_last(ms, i);
        lemma_subst_ok_prefix(ms.drop_last(), i, idx, rep);
    }
}

impl CoreTerm {
    /// Node count.
    pub fn size(&self) -> (n: usize)
        requires
            term_size(self@) <= usize::MAX,
        ensures
            n == term_size(self@),
        decreases self,
    {
        proof {
            lemma_args_model(self);
        }
        match self {
            CoreTerm::Lam { param_type, body } => 1 + param_type.size() + body.size(),
            CoreTerm::Pi { param_type, body } => 1 + param_type.size() + body.size(),
            CoreTerm::App { func, arg } => 1 + func.size() + arg.size(),
            CoreTerm::Let { bound_type, value, body } => 1 + bound_type.size() + value.size()
                + body.size(),
            CoreTerm::Constructor { args, .. } => 1 + args_total_size(args),
            CoreTerm::Recursor { args, .. } => 1 + args_total_size(args),
            _ => 1,
        }
    }

    /// Whether this term is a value (cannot reduce further).
    pub fn is_value(&self) -> (b: bool)
        ensures
            b == term_is_value(self@),
        decreases self,
    {
        proof {
            lemma_args_model(self);
        }
        match self {
            CoreTerm::App { .. } | CoreTerm::Let { .. } | CoreTerm::Recursor { .. } => false,
            CoreTerm::Constructor { args, .. } => args_all_values(args),
            _ => true,
        }
    }

    /// Raise every free variable of index at least `cutoff` by one.
    pub fn shift(&self, cutoff: usize) -> (r: CoreTerm)
        requires
            shift_ok(self@, cutoff as int, 1),
        ensures
            r@ == shift_model(self@, cutoff as int, 1),
    {
        self.shift_by(cutoff, 1)
    }

    fn shift_by(&self, cutoff: usize, amount: usize) -> (r: CoreTerm)
        requires
            shift_ok(self@, cutoff as int, amount as int),
        ensures
            r@ == shift_model(self@, cutoff as int, amount as int),
        decreases self,
    {
        proof {
            lemma_args_model(self);
        }
        match self {
            CoreTerm::Type(u) => CoreTerm::Type(*u),
            CoreTerm::Prop => CoreTerm::Prop,
            CoreTerm::NatLit(n) => CoreTerm::NatLit(*n),
            CoreTerm::Var(i) => {
                if *i >= cutoff {
                    CoreTerm::Var(*i + amount)
                } else {
                    CoreTerm::Var(*i)
                }
            },
            CoreTerm::Lam { param_type, body } => CoreTerm::Lam {
                param_type: Box::new(param_type.shift_by(cutoff, amount)),
                body: Box::new(body.shift_by(cutoff + 1, amount)),
            },
            CoreTerm::Pi { param_type, body } => CoreTerm::Pi {
                param_type: Box::new(param_type.shift_by(cutoff, amount)),
                body: Box::new(body.shift_by(cutoff + 1, amount)),
            },
            CoreTerm::App { func, arg } => CoreTerm::App {
                func: Box::new(func.shift_by(cutoff, amount)),
                arg: Box::new(arg.shift_by(cutoff, amount)),
            },
            CoreTerm::Let { bound_type, value, body } => CoreTerm::Let {
                bound_type: Box::new(bound_type.shift_by(cutoff, amount)),
                value: Box::new(value.shift_by(cutoff, amount)),
                body: Box::new(body.shift_by(cutoff + 1, amount)),
            },
            CoreTerm::Const { name, levels } => CoreTerm::Const {
                name: name.clone(),
                levels: copy_levels(levels),
            },
            CoreTerm::Constructor { inductive, ctor_name, args } => {
                let out = shift_all(args, cutoff, amount);
                let r = CoreTerm::Constructor {
                    inductive: inductive.clone(),
                    ctor_name: ctor_name.clone(),
                    args: out,
                };
                proof {
                    lemma_args_model(&r);
                }
                r
            },
            CoreTerm::Recursor { inductive, args } => {
                let out = shift_all(args, cutoff, amount);
                let r = CoreTerm::Recursor { inductive: inductive.clone(), args: out };
                proof {
                    lemma_args_model(&r);
                }
                r
            },
        }
    }

    /// Substitute `replacement` for variable `idx`; variables above `idx`
    /// move down by one, and the replacement is shifted under binders.
    pub fn substitute(&self, idx: usize, replacement: &CoreTerm) -> (r: CoreTerm)
        requires
            subst_ok(self@, idx as int, replacement@),
        ensures
            r@ == subst_model(self@, idx as int, replacement@),
        decreases self,
    {
        proof {
            lemma_args_model(self);
        }
        match self {
            CoreTerm::Type(u) => CoreTerm::Type(*u),
            CoreTerm::Prop => CoreTerm::Prop,
            CoreTerm::NatLit(n) => CoreTerm::NatLit(*n),
            CoreTerm::Var(i) => {
                if *i == idx {
                    replacement.clone()
                } else if *i > idx {
                    CoreTerm::Var(*i - 1)
                } else {
                    CoreTerm::Var(*i)
                }
            },
            CoreTerm::Lam { param_type, body } => CoreTerm::Lam {
                param_type: Box::new(param_type.substitute(idx, replacement)),
                body: Box::new(body.substitute(idx + 1, &replacement.shift(0))),
            },
            CoreTerm::Pi { param_type, body } => CoreTerm::Pi {
                param_type: Box::new(param_type.substitute(idx, replacement)),
                body: Box::new(body.substitute(idx + 1, &replacement.shift(0))),
            },
            CoreTerm::App { func, arg } => CoreTerm::App {
                func: Box::new(func.substitute(idx, replacement)),
                arg: Box::new(arg.substitute(idx, replacement)),
            },
            CoreTerm::Let { bound_type, value, body } => CoreTerm::Let {
                bound_type: Box::new(bound_type.substitute(idx, replacement)),
                value: Box::new(value.substitute(idx, replacement)),
                body: Box::new(body.substitute(idx + 1, &replacement.shift(0))),
            },
            CoreTerm::Const { name, levels } => CoreTerm::Const {
                name: name.clone(),
                levels: copy_levels(levels),
            },
            CoreTerm::Constructor { inductive, ctor_name, args } => {
                let out = substitute_all(args, idx, replacement);
                let r = CoreTerm::Constructor {
                    inductive: inductive.clone(),
                    ctor_name: ctor_name.clone(),
                    args: out,
                };
                proof {
                    lemma_args_model(&r);
                }
                r
            },
            CoreTerm::Recursor { inductive, args } => {
                let out = substitute_all(args, idx, replacement);
                let r = CoreTerm::Recursor { inductive: inductive.clone(), args: out };
                proof {
                    lemma_args_model(&r);
                }
                r
            },
        }
    }
}

fn args_all_values(args: &Vec<CoreTerm>) -> (b: bool)
    ensures
        b == args_are_values(models(args@)),
    decreases args,
{
    let ghost ms = models(args@);
    let mut i: usize = 0;
    while i < args.len()
        invariant
            i <= args@.len(),
            ms == models(args@),
            args_are_values(ms.take(i as int)),
        decreases args@.len() - i,
    {
        proof {
            lemma_take_step(ms, i as int);
        }
        assert(ms[i as int] == args@[i as int]@);
        if !args[i].is_value() {
            proof {
                if args_are_values(ms) {
                    lemma_values_prefix(ms, i + 1);
                }
            }
            return false;
        }
        i = i + 1;
    }
    assert(ms.take(i as int) =~= ms);
    true
}

fn args_total_size(args: &Vec<CoreTerm>) -> (n: usize)
    requires
        args_size(models(args@)) + 1 <= usize::MAX,
    ensures
        n == args_size(models(args@)),
    decreases args,
{
    let ghost ms = models(args@);
    let mut total: usize = 0;
    let mut i: usize = 0;
    while i < args.len()
        invariant
            i <= args@.len(),
            ms == models(args@),
            args_size(ms) + 1 <= usize::MAX,
            total == args_size(ms.take(i as int)),
        decreases args@.len() - i,
    {
        proof {
            lemma_take_step(ms, i as int);
            lemma_args_size_prefix(ms, i + 1);
        }
        let n = args[i].size();
        total = total + n;
        i = i + 1;
    }
    assert(ms.take(i as int) =~= ms);
    total
}

fn shift_all(args: &Vec<CoreTerm>, cutoff: usize, amount: usize) -> (r: Vec<CoreTerm>)
    requires
        shift_args_ok(models(args@), cutoff as int, amount as int),
    ensures
        models(r@) == shift_args(models(args@), cutoff as int, amount as int),
    decreases args,
{
    let ghost ms = models(args@);
    let mut out: Vec<CoreTerm> = Vec::new();
    let mut i: usize = 0;
    while i < args.len()
        invariant
            i <= args@.len(),
            out@.len() == i,
            ms == models(args@),
            shift_args_ok(ms, cutoff as int, amount as int),
            models(out@) == shift_args(ms.take(i as int), cutoff as int, amount as int),
        decreases args@.len() - i,
    {
        proof {
            lemma_take_step(ms, i as int);
            lemma_shift_ok_prefix(ms, i + 1, cutoff as int, amount as int);
        }
        let c = args[i].shift_by(cutoff, amount);
        let ghost prev = out@;
        out.push(c);
        proof {
            assert(models(out@) =~= models(prev).push(c@));
        }
        i = i + 1;
    }
    assert(ms.take(i as int) =~= ms);
    out
}

fn substitute_all(args: &Vec<CoreTerm>, idx: usize, replacement: &CoreTerm) -> (r: Vec<CoreTerm>)
    requires
        subst_args_ok(models(args@), idx as int, replacement@),
    ensures
        models(r@) == subst_args(models(args@), idx as int, replacement@),
    decreases args,
{
    let ghost ms = models(args@);
    let mut out: Vec<CoreTerm> = Vec::new();
    let mut i: usize = 0;
    while i < args.len()
        invariant
            i <= args@.len(),
            out@.len() == i,
            ms == models(args@),
            subst_args_ok(ms, idx as int, replacement@),
            models(out@) == subst_args(ms.take(i as int), idx as int, replacement@),
        decreases args@.len() - i,
    {
        proof {
            lemma_take_step(ms, i as int);
            lemma_subst_ok_prefix(ms, i + 1, idx as int, replacement@);
        }
        let c = args[i].substitute(idx, replacement);
        let ghost prev = out@;
        out.push(c);
        proof {
            assert(models(out@) =~= models(prev).push(c@));
        }
        i = i + 1;
    }
    assert(ms.take(i as int) =~= ms);
    out
}

/// Model of an optional name.
pub open spec fn name_model(name: Option<String>) -> Option<Seq<char>> {
    match name {
        Some(s) => Some(s@),
        None => None,
    }
}

/// A typing context entry: a variable with its type.
#[derive(Debug, PartialEq, Eq)]
pub struct CtxEntry {
    /// Optional name, for readability; the de Bruijn index is authoritative.
    pub name: Option<String>,
    /// The type of this variable.
    pub ty: CoreTerm,
}

impl View for CtxEntry {
    type V = (Option<Seq<char>>, Term);

    open spec fn view(&self) -> (Option<Seq<char>>, Term) {
        (name_model(self.name), self.ty@)
    }
}

/// Typing context: a stack of variable types. Index 0 is the most recently
/// bound variable.
#[derive(Debug)]
pub struct CoreCtx {
    entries: Vec<CtxEntry>,
}

impl View for CoreCtx {
    type V = Seq<(Option<Seq<char>>, Term)>;

    /// The entries in the order they were pushed.
    closed spec fn view(&self) -> Seq<(Option<Seq<char>>, Term)> {
        Seq::new(self.entries@.len(), |i: int| self.entries@[i]@)
    }
}

impl CoreCtx {
    /// Empty context.
    pub fn new() -> (c: CoreCtx)
        ensures
            c@ == Seq::<(Option<Seq<char>>, Term)>::empty(),
    {
        let c = CoreCtx { entries: Vec::new() };
        assert(c@ =~= Seq::<(Option<Seq<char>>, Term)>::empty());
        c
    }

    /// Push a new variable.
    pub fn push(&mut self, name: Option<String>, ty: CoreTerm)
        ensures
            final(self)@ == old(self)@.push((name_model(name), ty@)),
    {
        let ghost before = self@;
        self.entries.push(CtxEntry { name, ty });
        assert(self@ =~= before.push((name_model(name), ty@)));
    }

    /// Remove and return the most recent variable.
    pub fn pop(&mut self) -> (r: Option<CtxEntry>)
        ensures
            old(self)@.len() == 0 ==> r is None && final(self)@ == old(self)@,
            old(self)@.len() > 0 ==> (r matches Some(e) && e@ == old(self)@.last() && final(self)@
                == old(self)@.drop_last()),
    {
        let ghost before = self@;
        let r = self.entries.pop();
        assert(self@ =~= if before.len() > 0 { before.drop_last() } else { before });
        r
    }

    /// Look up a variable by de Bruijn index: 0 is the last pushed.
    pub fn lookup(&self, idx: usize) -> (r: Option<&CtxEntry>)
        ensures
            idx >= self@.len() ==> r is None,
            idx < self@.len() ==> (r matches Some(e) && e@ == self@[self@.len() - 1 - idx]),
    {
        let n = self.entries.len();
        if idx < n {
            Some(&self.entries[n - 1 - idx])
        } else {
            None
        }
    }

    /// Number of variables in the context.
    pub fn len(&self) -> (n: usize)
        ensures
            n == self@.len(),
    {
        self.entries.len()
    }

    /// Whether the context is empty.
    pub fn is_empty(&self) -> (b: bool)
        ensures
            b == (self@.len() == 0),
    {
        self.entries.len() == 0
    }
}

impl Clone for CtxEntry {
    /// A deep copy with the same model.
    fn clone(&self) -> (r: Self)
        ensures
            r@ == self@,
    {
        let name = match &self.name {
            Some(n) => Some(n.clone()),
            None => None,
        };
        CtxEntry { name, ty: self.ty.clone() }
    }
}

impl Clone for CoreCtx {
    /// A deep copy with the same model.
    fn clone(&self) -> (r: Self)
        ensures
            r@ == self@,
    {
        let mut entries: Vec<CtxEntry> = Vec::new();
        let mut i: usize = 0;
        while i < self.entries.len()
            invariant
                i <= self.entries@.len(),
                entries@.len() == i,
                forall|k: int| 0 <= k < i ==> #[trigger] entries@[k]@ == self.entries@[k]@,
            decreases self.entries@.len() - i,
        {
            entries.push(self.entries[i].clone());
            i = i + 1;
        }
        let r = CoreCtx { entries };
        assert(r@ =~= self@);
        r
    }
}

/// A named constant of the environment.
#[derive(Debug)]
pub struct CoreDef {
    /// Name of this definition.
    pub name: String,
    /// Its type.
    pub ty: CoreTerm,
    /// Its value; axioms have none.
    pub value: Option<CoreTerm>,
    /// Universe parameters.
    pub universe_params: Vec<String>,
}

/// Index of the first definition named `name`.
pub open spec fn first_def(names: Seq<Seq<char>>, name: Seq<char>) -> Option<int>
    decreases names.len(),
{
    if names.len() == 0 {
        None
    } else {
        match first_def(names.drop_last(), name) {
            Some(i) => Some(i),
            None => if names.last() == name {
                Some(names.len() - 1)
            } else {
                None
            },
        }
    }
}

/// The global environment of named constants.
#[derive(Debug)]
pub struct CoreEnv {
    defs: Vec<CoreDef>,
}

impl CoreEnv {
    /// The definitions, in the order they were added.
    pub closed spec fn defs(&self) -> Seq<CoreDef> {
        self.defs@
    }

    /// Their names.
    pub open spec fn names(&self) -> Seq<Seq<char>> {
        Seq::new(self.defs().len(), |i: int| self.defs()[i].name@)
    }

    /// Empty environment.
    pub fn new() -> (e: CoreEnv)
        ensures
            e.defs() == Seq::<CoreDef>::empty(),
    {
        CoreEnv { defs: Vec::new() }
    }

    /// Add a definition.
    pub fn add_def(&mut self, def: CoreDef)
        ensures
            final(self).defs() == old(self).defs().push(def),
    {
        self.defs.push(def);
    }

    /// The first definition named `name`.
    pub fn lookup(&self, name: &str) -> (r: Option<&CoreDef>)
        ensures
            first_def(self.names(), name@) is None ==> r is None,
            first_def(self.names(), name@) matches Some(i) ==> (r matches Some(d) && *d
                == self.defs()[i]),
    {
        let key = name.to_string();
        let n = self.defs.len();
        let ghost names = self.names();
        let mut i: usize = 0;
        while i < n
            invariant
                n == self.defs@.len(),
                i <= n,
                names == self.names(),
                key@ == name@,
                first_def(names.take(i as int), name@) is None,
            decreases n - i,
        {
            proof {
                lemma_take_step(names, i as int);
            }
            if self.defs[i].name == key {
                proof {
                    lemma_first_def_prefix(names, name@, i + 1);
                }
                return Some(&self.defs[i]);
            }
            i = i + 1;
        }
        assert(names.take(i as int) =~= names);
        None
    }

    /// Number of definitions.
    pub fn len(&self) -> (n: usize)
        ensures
            n == self.defs().len(),
    {
        self.defs.len()
    }

    /// Whether the environment is empty.
    pub fn is_empty(&self) -> (b: bool)
        ensures
            b == (self.defs().len() == 0),
    {
        self.defs.len() == 0
    }
}

/// A match found in a prefix is the first match overall.
proof fn lemma_first_def_prefix(names: Seq<Seq<char>>, name: Seq<char>, k: int)
    requires
        0 < k <= names.len(),
        first_def(names.take(k), name) is Some,
    ensures
        first_def(names, name) == first_def(names.take(k), name),
    decreases names.len() - k,
{
    if k == names.len() {
        assert(names.take(k) =~= names);
    } else {
        lemma_take_step(names, k);
        lemma_first_def_prefix(names, name, k + 1);
    }
}

// ── Canonical byte serialization ────────────────────────────────────────

/// A string as its byte length (little-endian u32) followed by its UTF-8 bytes.
pub open spec fn str_bytes(name: Seq<char>) -> Seq<u8> {
    spec_u32_to_le_bytes(encode_utf8(name).len() as u32) + encode_utf8(name)
}

/// Universe levels as their count followed by each level, all little-endian u32.
pub open spec fn levels_bytes(levels: Seq<u32>) -> Seq<u8> {
    spec_u32_to_le_bytes(levels.len() as u32) + levels_body(levels)
}

pub open spec fn levels_body(levels: Seq<u32>) -> Seq<u8>
    decreases levels.len(),
{
    if levels.len() == 0 {
        Seq::empty()
    } else {
        levels_body(levels.drop_last()) + spec_u32_to_le_bytes(levels.last())
    }
}

/// The canonical serialization of a term: a tag byte, then the fields.
pub open spec fn serialize(t: Term) -> Seq<u8>
    decreases t,
{
    match t {
        Term::Type(u) => seq![0x01u8] + spec_u32_to_le_bytes(u),
        Term::Prop => seq![0x02u8],
        Term::Var(i) => seq![0x03u8] + spec_u64_to_le_bytes(i as u64),
        Term::Lam(a, b) => seq![0x04u8] + serialize(*a) + serialize(*b),
        Term::Pi(a, b) => seq![0x05u8] + serialize(*a) + serialize(*b),
        Term::App(a, b) => seq![0x06u8] + serialize(*a) + serialize(*b),
        Term::Let(a, b, c) => seq![0x07u8] + serialize(*a) + serialize(*b) + serialize(*c),
        Term::Const(name, levels) => seq![0x08u8] + str_bytes(name) + levels_bytes(levels),
        Term::NatLit(n) => seq![0x09u8] + spec_u64_to_le_bytes(n),
        Term::Constructor(tn, cn, args) => seq![0x0Au8] + str_bytes(tn) + str_bytes(cn)
            + spec_u32_to_le_bytes(args.len() as u32) + serialize_args(args),
        Term::Recursor(tn, args) => seq![0x0Bu8] + str_bytes(tn) + spec_u32_to_le_bytes(
            args.len() as u32,
        ) + serialize_args(args),
    }
}

/// Concatenated serializations of a sequence of terms.
pub open spec fn serialize_args(args: Seq<Term>) -> Seq<u8>
    decreases args,
{
    if args.len() == 0 {
        Seq::empty()
    } else {
        serialize_args(args.drop_last()) + serialize(args.last())
    }
}

fn push_u32(buf: &mut Vec<u8>, x: u32)
    ensures
        final(buf)@ == old(buf)@ + spec_u32_to_le_bytes(x),
{
    let mut b = u32_to_le_bytes(x);
    buf.append(&mut b);
}

fn push_u64(buf: &mut Vec<u8>, x: u64)
    ensures
        final(buf)@ == old(buf)@ + spec_u64_to_le_bytes(x),
{
    let mut b = u64_to_le_bytes(x);
    buf.append(&mut b);
}

fn push_str(buf: &mut Vec<u8>, s: &String)
    ensures
        final(buf)@ == old(buf)@ + str_bytes(s@),
{
    let bytes = s.as_str().as_bytes();
    push_u32(buf, bytes.len() as u32);
    let mut v = slice_to_vec(bytes);
    buf.append(&mut v);
}

impl CoreTerm {
    /// Canonical byte serialization.
    pub fn to_bytes(&self) -> (b: Vec<u8>)
        ensures
            b@ == serialize(self@),
    {
        let mut buf: Vec<u8> = Vec::new();
        self.write_bytes(&mut buf);
        assert(buf@ =~= serialize(self@));
        buf
    }

    fn write_bytes(&self, buf: &mut Vec<u8>)
        ensures
            final(buf)@ == old(buf)@ + serialize(self@),
        decreases self,
    {
        proof {
            lemma_args_model(self);
        }
        let ghost start = buf@;
        match self {
            CoreTerm::Type(u) => {
                buf.push(0x01);
                push_u32(buf, *u);
            },
            CoreTerm::Prop => {
                buf.push(0x02);
            },
            CoreTerm::Var(i) => {
                buf.push(0x03);
                push_u64(buf, *i as u64);
            },
            CoreTerm::Lam { param_type, body } => {
                buf.push(0x04);
                param_type.write_bytes(buf);
                body.write_bytes(buf);
            },
            CoreTerm::Pi { param_type, body } => {
                buf.push(0x05);
                param_type.write_bytes(buf);
                body.write_bytes(buf);
            },
            CoreTerm::App { func, arg } => {
                buf.push(0x06);
                func.write_bytes(buf);
                arg.write_bytes(buf);
            },
            CoreTerm::Let { bound_type, value, body } => {
                buf.push(0x07);
                bound_type.write_bytes(buf);
                value.write_bytes(buf);
                body.write_bytes(buf);
            },
            CoreTerm::Const { name, levels } => {
                buf.push(0x08);
                push_str(buf, name);
                push_u32(buf, levels.len() as u32);
                let ghost mid = buf@;
                let mut i: usize = 0;
                while i < levels.len()
                    invariant
                        i <= levels@.len(),
                        buf@ == mid + levels_body(levels@.take(i as int)),
                    decreases levels@.len() - i,
                {
                    proof {
                        lemma_take_step(levels@, i as int);
                    }
                    push_u32(buf, levels[i]);
                    i = i + 1;
                    assert(buf@ =~= mid + levels_body(levels@.take(i as int)));
                }
                assert(levels@.take(i as int) =~= levels@);
            },
            CoreTerm::NatLit(n) => {
                buf.push(0x09);
                push_u64(buf, *n);
            },
            CoreTerm::Constructor { inductive, ctor_name, args } => {
                buf.push(0x0A);
                push_str(buf, inductive);
                push_str(buf, ctor_name);
                push_u32(buf, args.len() as u32);
                write_all(args, buf);
            },
            CoreTerm::Recursor { inductive, args } => {
                buf.push(0x0B);
                push_str(buf, inductive);
                push_u32(buf, args.len() as u32);
                write_all(args, buf);
            },
        }
        assert(buf@ =~= start + serialize(self@));
    }
}

fn write_all(args: &Vec<CoreTerm>, buf: &mut Vec<u8>)
    ensures
        final(buf)@ == old(buf)@ + serialize_args(models(args@)),
    decreases args,
{
    let ghost ms = models(args@);
    let ghost start = buf@;
    let mut i: usize = 0;
    while i < args.len()
        invariant
            i <= args@.len(),
            ms == models(args@),
            buf@ == start + serialize_args(ms.take(i as int)),
        decreases args@.len() - i,
    {
        proof {
            lemma_take_step(ms, i as int);
        }
        args[i].write_bytes(buf);
        i = i + 1;
        assert(buf@ =~= start + serialize_args(ms.take(i as int)));
    }
    assert(ms.take(i as int) =~= ms);
}

// ── Parsing ─────────────────────────────────────────────────────────────

/// The little-endian u32 at byte `p`.
pub open spec fn u32_at(s: Seq<u8>, p: int) -> u32 {
    spec_u32_from_le_bytes(s.subrange(p, p + 4))
}

/// The little-endian u64 at byte `p`.
pub open spec fn u64_at(s: Seq<u8>, p: int) -> u64 {
    spec_u64_from_le_bytes(s.subrange(p, p + 8))
}

/// A string field at byte `p`: its length, its UTF-8 bytes, and at least
/// four more bytes after it (the field that follows). Gives the string and
/// the position after it.
pub open spec fn parse_str(s: Seq<u8>, p: int) -> Option<(Seq<char>, int)> {
    if p + 4 > s.len() {
        None
    } else {
        let n = u32_at(s, p) as int;
        if p + 4 + n + 4 > s.len() {
            None
        } else if !valid_utf8(s.subrange(p + 4, p + 4 + n)) {
            None
        } else {
            Some((decode_utf8(s.subrange(p + 4, p + 4 + n)), p + 4 + n))
        }
    }
}

/// The term for a tag with two subterms.
pub open spec fn binary_term(tag: u8, a: Term, b: Term) -> Term {
    if tag == 0x04 {
        Term::Lam(Box::new(a), Box::new(b))
    } else if tag == 0x05 {
        Term::Pi(Box::new(a), Box::new(b))
    } else {
        Term::App(Box::new(a), Box::new(b))
    }
}

/// Parse one term starting at byte `pos`: the term and the position after it.
pub open spec fn parse_term(s: Seq<u8>, pos: int) -> Option<(Term, int)>
    decreases s.len() - pos, 0int,
{
    if pos < 0 || pos >= s.len() {
        None
    } else {
        let tag = s[pos];
        let p = pos + 1;
        if tag == 0x01 {
            if p + 4 <= s.len() {
                Some((Term::Type(u32_at(s, p)), p + 4))
            } else {
                None
            }
        } else if tag == 0x02 {
            Some((Term::Prop, p))
        } else if tag == 0x03 {
            if p + 8 <= s.len() {
                Some((Term::Var(u64_at(s, p) as usize), p + 8))
            } else {
                None
            }
        } else if tag == 0x04 || tag == 0x05 || tag == 0x06 {
            match parse_term(s, p) {
                None => None,
                Some((a, e1)) => if e1 <= pos || e1 > s.len() {
                    None
                } else {
                    match parse_term(s, e1) {
                        None => None,
                        Some((b, e2)) => Some((binary_term(tag, a, b), e2)),
                    }
                },
            }
        } else if tag == 0x07 {
            match parse_term(s, p) {
                None => None,
                Some((a, e1)) => if e1 <= pos || e1 > s.len() {
                    None
                } else {
                    match parse_term(s, e1) {
                        None => None,
                        Some((b, e2)) => if e2 <= pos || e2 > s.len() {
                            None
                        } else {
                            match parse_term(s, e2) {
                                None => None,
                                Some((c, e3)) => Some(
                                    (Term::Let(Box::new(a), Box::new(b), Box::new(c)), e3),
                                ),
                            }
                        },
                    }
                },
            }
        } else if tag == 0x08 {
            match parse_str(s, p) {
                None => None,
                Some((name, q)) => {
                    let count = u32_at(s, q) as int;
                    if q + 4 + 4 * count > s.len() {
                        None
                    } else {
                        Some(
                            (
                                Term::Const(
                                    name,
                                    Seq::new(count as nat, |k: int| u32_at(s, q + 4 + 4 * k)),
                                ),
                                q + 4 + 4 * count,
                            ),
                        )
                    }
                },
            }
        } else if tag == 0x09 {
            if p + 8 <= s.len() {
                Some((Term::NatLit(u64_at(s, p)), p + 8))
            } else {
                None
            }
        } else if tag == 0x0A {
            match parse_str(s, p) {
                None => None,
                Some((tn, q1)) => match parse_str(s, q1) {
                    None => None,
                    Some((cn, q2)) => match parse_args(s, q2 + 4, u32_at(s, q2) as nat) {
                        None => None,
                        Some((args, e)) => Some((Term::Constructor(tn, cn, args), e)),
                    },
                },
            }
        } else if tag == 0x0B {
            match parse_str(s, p) {
                None => None,
                Some((tn, q)) => match parse_args(s, q + 4, u32_at(s, q) as nat) {
                    None => None,
                    Some((args, e)) => Some((Term::Recursor(tn, args), e)),
                },
            }
        } else {
            None
        }
    }
}

/// Parse `count` consecutive terms starting at byte `start`.
pub open spec fn parse_args(s: Seq<u8>, start: int, count: nat) -> Option<(Seq<Term>, int)>
    decreases s.len() - start, count,
{
    if start < 0 || start > s.len() {
        None
    } else if count == 0 {
        Some((Seq::empty(), start))
    } else {
        match parse_args(s, start, (count - 1) as nat) {
            None => None,
            Some((ts, e)) => if e < start || e > s.len() {
                None
            } else {
                match parse_term(s, e) {
                    None => None,
                    Some((t, e2)) => Some((ts.push(t), e2)),
                }
            },
        }
    }
}

/// Decode UTF-8 bytes into a string.
///
/// Calls `String::from_utf8`, which succeeds exactly when the bytes are
/// valid UTF-8 and then holds the characters those bytes encode; this
/// contract states both facts over vstd's UTF-8 model.
#[verifier::external_body]
pub(crate) fn string_from_utf8(bytes: Vec<u8>) -> (r: Option<String>)
    ensures
        r is Some <==> valid_utf8(bytes@),
        r matches Some(s) ==> s@ == decode_utf8(bytes@),
{
    match String::from_utf8(bytes) {
        Ok(s) => Some(s),
        Err(_) => None,
    }
}

fn read_u32(data: &[u8], p: usize) -> (x: u32)
    requires
        p + 4 <= data@.len(),
    ensures
        x == u32_at(data@, p as int),
{
    let len = data.len();
    assert(p + 4 <= len);
    u32_from_le_bytes(&data[p..p + 4])
}

fn read_u64(data: &[u8], p: usize) -> (x: u64)
    requires
        p + 8 <= data@.len(),
    ensures
        x == u64_at(data@, p as int),
{
    let len = data.len();
    assert(p + 8 <= len);
    u64_from_le_bytes(&data[p..p + 8])
}

fn read_str(data: &[u8], p: usize) -> (r: Option<(String, usize)>)
    requires
        p <= data@.len(),
    ensures
        match parse_str(data@, p as int) {
            None => r is None,
            Some((name, q)) => r matches Some((st, e)) && st@ == name && e == q,
        },
{
    let len = data.len();
    if len - p < 4 {
        return None;
    }
    let n = read_u32(data, p);
    if (len as u128) < (p as u128) + 8 + (n as u128) {
        return None;
    }
    let nu = n as usize;
    let bytes = slice_to_vec(&data[p + 4..p + 4 + nu]);
    match string_from_utf8(bytes) {
        None => None,
        Some(st) => Some((st, p + 4 + nu)),
    }
}

proof fn lemma_parse_args_fail(s: Seq<u8>, start: int, i: nat, count: nat)
    requires
        i <= count,
        parse_args(s, start, i) is None,
    ensures
        parse_args(s, start, count) is None,
    decreases count - i,
{
    if i < count {
        lemma_parse_args_fail(s, start, i + 1, count);
    }
}

impl CoreTerm {
    /// Parse a term from its canonical bytes: the term and the number of
    /// bytes it took, or `None` when the bytes do not start with one.
    pub fn from_bytes(data: &[u8]) -> (r: Option<(CoreTerm, usize)>)
        ensures
            match parse_term(data@, 0) {
                None => r is None,
                Some((t, n)) => r matches Some((term, m)) && term@ == t && m == n,
            },
            data@.len() == 0 || !(0x01 <= data@[0] <= 0x0B) ==> r is None,
            r matches Some((_, n)) ==> 1 <= n <= data@.len() && parse_term(data@.subrange(0, n as int), 0)
                == parse_term(data@, 0),
    {
        if data.len() == 0 {
            return None;
        }
        let r = parse_at(data, 0);
        proof {
            if let Some((_, n)) = r {
                let pre = data@.subrange(0, n as int);
                lemma_parse_term_prefix(data@, pre, 0);
            }
        }
        r
    }
}

fn parse_at(data: &[u8], pos: usize) -> (r: Option<(CoreTerm, usize)>)
    requires
        pos <= data@.len(),
    ensures
        match parse_term(data@, pos as int) {
            None => r is None,
            Some((t, e)) => r matches Some((term, m)) && term@ == t && m == e,
        },
        r matches Some((_, m)) ==> pos < m <= data@.len(),
    decreases data@.len() - pos, 0int,
{
    let ghost s = data@;
    let len = data.len();
    if pos >= len {
        return None;
    }
    let tag = data[pos];
    let p = pos + 1;
    if tag == 0x01 {
        if len - p < 4 {
            return None;
        }
        Some((CoreTerm::Type(read_u32(data, p)), p + 4))
    } else if tag == 0x02 {
        Some((CoreTerm::Prop, p))
    } else if tag == 0x03 {
        if len - p < 8 {
            return None;
        }
        let i = read_u64(data, p) as usize;
        Some((CoreTerm::Var(i), p + 8))
    } else if tag == 0x04 || tag == 0x05 || tag == 0x06 {
        let (a, e1) = match parse_at(data, p) {
            None => return None,
            Some(x) => x,
        };
        let (b, e2) = match parse_at(data, e1) {
            None => return None,
            Some(x) => x,
        };
        let t = if tag == 0x04 {
            CoreTerm::Lam { param_type: Box::new(a), body: Box::new(b) }
        } else if tag == 0x05 {
            CoreTerm::Pi { param_type: Box::new(a), body: Box::new(b) }
        } else {
            CoreTerm::App { func: Box::new(a), arg: Box::new(b) }
        };
        Some((t, e2))
    } else if tag == 0x07 {
        let (a, e1) = match parse_at(data, p) {
            None => return None,
            Some(x) => x,
        };
        let (b, e2) = match parse_at(data, e1) {
            None => return None,
            Some(x) => x,
        };
        let (c, e3) = match parse_at(data, e2) {
            None => return None,
            Some(x) => x,
        };
        Some((CoreTerm::Let { bound_type: Box::new(a), value: Box::new(b), body: Box::new(c) }, e3))
    } else if tag == 0x08 {
        let (name, q) = match read_str(data, p) {
            None => return None,
            Some(x) => x,
        };
        let count = read_u32(data, q);
        if (len as u128) < (q as u128) + 4 + 4 * (count as u128) {
            return None;
        }
        let mut levels: Vec<u32> = Vec::new();
        let mut k: usize = 0;
        let cu = count as usize;
        while k < cu
            invariant
                k <= cu,
                cu == count,
                q + 4 + 4 * cu <= len,
                len == s.len(),
                s == data@,
                levels@ =~= Seq::new(k as nat, |j: int| u32_at(s, q + 4 + 4 * j)),
            decreases cu - k,
        {
            let x = read_u32(data, q + 4 + 4 * k);
            levels.push(x);
            k = k + 1;
        }
        let t = CoreTerm::Const { name, levels };
        Some((t, q + 4 + 4 * cu))
    } else if tag == 0x09 {
        if len - p < 8 {
            return None;
        }
        Some((CoreTerm::NatLit(read_u64(data, p)), p + 8))
    } else if tag == 0x0A {
        let (inductive, q1) = match read_str(data, p) {
            None => return None,
            Some(x) => x,
        };
        let (ctor_name, q2) = match read_str(data, q1) {
            None => return None,
            Some(x) => x,
        };
        let count = read_u32(data, q2);
        let (args, e) = match parse_args_at(data, q2 + 4, count) {
            None => return None,
            Some(x) => x,
        };
        let t = CoreTerm::Constructor { inductive, ctor_name, args };
        proof {
            lemma_args_model(&t);
        }
        Some((t, e))
    } else if tag == 0x0B {
        let (inductive, q) = match read_str(data, p) {
            None => return None,
            Some(x) => x,
        };
        let count = read_u32(data, q);
        let (args, e) = match parse_args_at(data, q + 4, count) {
            None => return None,
            Some(x) => x,
        };
        let t = CoreTerm::Recursor { inductive, args };
        proof {
            lemma_args_model(&t);
        }
        Some((t, e))
    } else {
        None
    }
}

fn parse_args_at(data: &[u8], start: usize, count: u32) -> (r: Option<(Vec<CoreTerm>, usize)>)
    requires
        start <= data@.len(),
    ensures
        match parse_args(data@, start as int, count as nat) {
            None => r is None,
            Some((ts, e)) => r matches Some((v, m)) && models(v@) == ts && m == e,
        },
        r matches Some((_, m)) ==> start <= m <= data@.len(),
    decreases data@.len() - start, count,
{
    let ghost s = data@;
    let mut out: Vec<CoreTerm> = Vec::new();
    let mut e = start;
    let mut i: u32 = 0;
    while i < count
        invariant
            i <= count,
            start <= e <= s.len(),
            s == data@,
            start <= s.len(),
            parse_args(s, start as int, i as nat) == Some((models(out@), e as int)),
        decreases count - i,
    {
        match parse_at(data, e) {
            None => {
                proof {
                    lemma_parse_args_fail(s, start as int, (i + 1) as nat, count as nat);
                }
                return None;
            },
            Some((t, e2)) => {
                let ghost prev = out@;
                out.push(t);
                proof {
                    assert(models(out@) =~= models(prev).push(t@));
                }
                e = e2;
            },
        }
        i = i + 1;
    }
    Some((out, e))
}

// ── Round trip ──────────────────────────────────────────────────────────

/// Strings have fewer than 2^32 bytes and lists fewer than 2^32 items, so
/// that every length field holds the true length.
pub open spec fn serializable(t: Term) -> bool
    decreases t,
{
    match t {
        Term::Lam(a, b) | Term::Pi(a, b) | Term::App(a, b) => serializable(*a) && serializable(*b),
        Term::Let(a, b, c) => serializable(*a) && serializable(*b) && serializable(*c),
        Term::Const(name, levels) => encode_utf8(name).len() <= u32::MAX && levels.len() <= u32::MAX,
        Term::Constructor(tn, cn, args) => encode_utf8(tn).len() <= u32::MAX && encode_utf8(cn).len()
            <= u32::MAX && args.len() <= u32::MAX && args_serializable(args),
        Term::Recursor(tn, args) => encode_utf8(tn).len() <= u32::MAX && args.len() <= u32::MAX
            && args_serializable(args),
        _ => true,
    }
}

pub open spec fn args_serializable(args: Seq<Term>) -> bool
    decreases args,
{
    if args.len() == 0 {
        true
    } else {
        args_serializable(args.drop_last()) && serializable(args.last())
    }
}

/// `x` sits in `s` at `pos`.
pub open spec fn occurs_at(s: Seq<u8>, pos: int, x: Seq<u8>) -> bool {
    0 <= pos && pos + x.len() <= s.len() && s.subrange(pos, pos + x.len()) == x
}

proof fn lemma_occurs_split(s: Seq<u8>, pos: int, a: Seq<u8>, b: Seq<u8>)
    requires
        occurs_at(s, pos, a + b),
    ensures
        occurs_at(s, pos, a),
        occurs_at(s, pos + a.len(), b),
{
    let whole = s.subrange(pos, pos + a.len() + b.len());
    assert(whole == a + b);
    assert forall|k: int| 0 <= k < a.len() implies #[trigger] s.subrange(pos, pos + a.len())[k]
        == a[k] by {
        assert(whole[k] == s[pos + k]);
        assert((a + b)[k] == a[k]);
    }
    assert forall|k: int| 0 <= k < b.len() implies #[trigger] s.subrange(
        pos + a.len(),
        pos + a.len() + b.len(),
    )[k] == b[k] by {
        assert(whole[a.len() + k] == s[pos + a.len() + k]);
        assert((a + b)[a.len() + k] == b[k]);
    }
    assert(s.subrange(pos, pos + a.len()) =~= a);
    assert(s.subrange(pos + a.len(), pos + a.len() + b.len()) =~= b);
}

proof fn lemma_u32_at(s: Seq<u8>, pos: int, x: u32)
    requires
        occurs_at(s, pos, spec_u32_to_le_bytes(x)),
    ensures
        spec_u32_to_le_bytes(x).len() == 4,
        u32_at(s, pos) == x,
{
    vstd::bytes::lemma_auto_spec_u32_to_from_le_bytes();
}

proof fn lemma_u64_at(s: Seq<u8>, pos: int, x: u64)
    requires
        occurs_at(s, pos, spec_u64_to_le_bytes(x)),
    ensures
        spec_u64_to_le_bytes(x).len() == 8,
        u64_at(s, pos) == x,
{
    vstd::bytes::lemma_auto_spec_u64_to_from_le_bytes();
}

proof fn lemma_parse_str(s: Seq<u8>, pos: int, name: Seq<char>)
    requires
        encode_utf8(name).len() <= u32::MAX,
        occurs_at(s, pos, str_bytes(name)),
        pos + str_bytes(name).len() + 4 <= s.len(),
    ensures
        str_bytes(name).len() == 4 + encode_utf8(name).len(),
        parse_str(s, pos) == Some((name, pos + str_bytes(name).len())),
{
    let enc = encode_utf8(name);
    lemma_occurs_split(s, pos, spec_u32_to_le_bytes(enc.len() as u32), enc);
    lemma_u32_at(s, pos, enc.len() as u32);
    vstd::utf8::encode_utf8_valid_utf8(name);
    vstd::utf8::encode_utf8_decode_utf8(name);
}

proof fn lemma_levels_body(levels: Seq<u32>)
    ensures
        levels_body(levels).len() == 4 * levels.len(),
        forall|k: int|
            0 <= k < levels.len() ==> #[trigger] levels_body(levels).subrange(4 * k, 4 * k + 4)
                == spec_u32_to_le_bytes(levels[k]),
    decreases levels.len(),
{
    vstd::bytes::lemma_auto_spec_u32_to_from_le_bytes();
    if levels.len() > 0 {
        let init = levels.drop_last();
        lemma_levels_body(init);
        let body = levels_body(levels);
        assert(body == levels_body(init) + spec_u32_to_le_bytes(levels.last()));
        assert forall|k: int| 0 <= k < levels.len() implies #[trigger] body.subrange(4 * k, 4 * k + 4)
            == spec_u32_to_le_bytes(levels[k]) by {
            if k < init.len() {
                assert(body.subrange(4 * k, 4 * k + 4) =~= levels_body(init).subrange(4 * k, 4 * k + 4));
            } else {
                assert(body.subrange(4 * k, 4 * k + 4) =~= spec_u32_to_le_bytes(levels.last()));
            }
        }
    }
}

proof fn lemma_parse_levels(s: Seq<u8>, q: int, levels: Seq<u32>)
    requires
        levels.len() <= u32::MAX,
        occurs_at(s, q, levels_bytes(levels)),
    ensures
        levels_bytes(levels).len() == 4 + 4 * levels.len(),
        u32_at(s, q) == levels.len(),
        Seq::new(levels.len(), |k: int| u32_at(s, q + 4 + 4 * k)) == levels,
{
    let body = levels_body(levels);
    lemma_occurs_split(s, q, spec_u32_to_le_bytes(levels.len() as u32), body);
    lemma_u32_at(s, q, levels.len() as u32);
    lemma_levels_body(levels);
    assert forall|k: int| 0 <= k < levels.len() implies u32_at(s, q + 4 + 4 * k) == levels[k] by {
        assert(s.subrange(q + 4 + 4 * k, q + 4 + 4 * k + 4) =~= body.subrange(4 * k, 4 * k + 4));
        lemma_u32_at(s, q + 4 + 4 * k, levels[k]);
    }
    assert(Seq::new(levels.len(), |k: int| u32_at(s, q + 4 + 4 * k)) =~= levels);
}

/// Parsing the serialization of a term gives the term back, and the
/// position just after it.
pub proof fn lemma_parse_serialize(t: Term, s: Seq<u8>, pos: int)
    requires
        serializable(t),
        occurs_at(s, pos, serialize(t)),
    ensures
        parse_term(s, pos) == Some((t, pos + serialize(t).len())),
    decreases t, 1int,
{
    match t {
        Term::Lam(..) | Term::Pi(..) | Term::App(..) => lemma_parse_binary(t, s, pos),
        Term::Let(..) => lemma_parse_let(t, s, pos),
        Term::Const(..) => lemma_parse_const(t, s, pos),
        Term::Constructor(..) | Term::Recursor(..) => lemma_parse_apps(t, s, pos),
        _ => lemma_parse_leaf(t, s, pos),
    }
}

proof fn lemma_parse_leaf(t: Term, s: Seq<u8>, pos: int)
    requires
        occurs_at(s, pos, serialize(t)),
        t is Type || t is Prop || t is Var || t is NatLit,
    ensures
        parse_term(s, pos) == Some((t, pos + serialize(t).len())),
{
    let p = pos + 1;
    assert(s[pos] == s.subrange(pos, pos + serialize(t).len())[0]);
    match t {
        Term::Type(u) => {
            lemma_occurs_split(s, pos, seq![0x01u8], spec_u32_to_le_bytes(u));
            lemma_u32_at(s, p, u);
        },
        Term::Var(i) => {
            lemma_occurs_split(s, pos, seq![0x03u8], spec_u64_to_le_bytes(i as u64));
            lemma_u64_at(s, p, i as u64);
        },
        Term::NatLit(n) => {
            lemma_occurs_split(s, pos, seq![0x09u8], spec_u64_to_le_bytes(n));
            lemma_u64_at(s, p, n);
        },
        _ => {},
    }
}

proof fn lemma_parse_binary(t: Term, s: Seq<u8>, pos: int)
    requires
        serializable(t),
        occurs_at(s, pos, serialize(t)),
        t is Lam || t is Pi || t is App,
    ensures
        parse_term(s, pos) == Some((t, pos + serialize(t).len())),
    decreases t, 0int,
{
    let p = pos + 1;
    let (tag, a, b) = match t {
        Term::Lam(a, b) => (0x04u8, *a, *b),
        Term::Pi(a, b) => (0x05u8, *a, *b),
        Term::App(a, b) => (0x06u8, *a, *b),
        _ => (0u8, t, t),
    };
    let sa = serialize(a);
    let sb = serialize(b);
    assert(serialize(t) == seq![tag] + sa + sb);
    lemma_occurs_split(s, pos, seq![tag] + sa, sb);
    lemma_occurs_split(s, pos, seq![tag], sa);
    assert(s[pos] == s.subrange(pos, pos + 1)[0]);
    lemma_parse_serialize(a, s, p);
    lemma_parse_serialize(b, s, p + sa.len());
    assert(binary_term(tag, a, b) == t);
}

proof fn lemma_parse_let(t: Term, s: Seq<u8>, pos: int)
    requires
        serializable(t),
        occurs_at(s, pos, serialize(t)),
        t is Let,
    ensures
        parse_term(s, pos) == Some((t, pos + serialize(t).len())),
    decreases t, 0int,
{
    let p = pos + 1;
    if let Term::Let(a, b, c) = t {
        let sa = serialize(*a);
        let sb = serialize(*b);
        let sc = serialize(*c);
        lemma_occurs_split(s, pos, seq![0x07u8] + sa + sb, sc);
        lemma_occurs_split(s, pos, seq![0x07u8] + sa, sb);
        lemma_occurs_split(s, pos, seq![0x07u8], sa);
        assert(s[pos] == s.subrange(pos, pos + 1)[0]);
        lemma_parse_serialize(*a, s, p);
        lemma_parse_serialize(*b, s, p + sa.len());
        lemma_parse_serialize(*c, s, p + sa.len() + sb.len());
    }
}

proof fn lemma_parse_const(t: Term, s: Seq<u8>, pos: int)
    requires
        serializable(t),
        occurs_at(s, pos, serialize(t)),
        t is Const,
    ensures
        parse_term(s, pos) == Some((t, pos + serialize(t).len())),
{
    let p = pos + 1;
    if let Term::Const(name, levels) = t {
        let sn = str_bytes(name);
        let sl = levels_bytes(levels);
        lemma_occurs_split(s, pos, seq![0x08u8] + sn, sl);
        lemma_occurs_split(s, pos, seq![0x08u8], sn);
        assert(s[pos] == s.subrange(pos, pos + 1)[0]);
        lemma_parse_levels(s, p + sn.len(), levels);
        lemma_parse_str(s, p, name);
    }
}

proof fn lemma_parse_apps(t: Term, s: Seq<u8>, pos: int)
    requires
        serializable(t),
        occurs_at(s, pos, serialize(t)),
        t is Constructor || t is Recursor,
    ensures
        parse_term(s, pos) == Some((t, pos + serialize(t).len())),
    decreases t, 0int,
{
    let p = pos + 1;
    match t {
        Term::Constructor(tn, cn, args) => {
            let st = str_bytes(tn);
            let sc = str_bytes(cn);
            let sk = spec_u32_to_le_bytes(args.len() as u32);
            let sa = serialize_args(args);
            assert(serialize(t) == seq![0x0Au8] + st + sc + sk + sa);
            lemma_occurs_split(s, pos, seq![0x0Au8] + st + sc + sk, sa);
            lemma_occurs_split(s, pos, seq![0x0Au8] + st + sc, sk);
            lemma_occurs_split(s, pos, seq![0x0Au8] + st, sc);
            lemma_occurs_split(s, pos, seq![0x0Au8], st);
            assert(s[pos] == s.subrange(pos, pos + 1)[0]);
            lemma_u32_at(s, p + st.len() + sc.len(), args.len() as u32);
            lemma_parse_str(s, p, tn);
            lemma_parse_str(s, p + st.len(), cn);
            lemma_parse_args_serialize(args, s, p + st.len() + sc.len() + 4, args.len() as int);
            assert(args.take(args.len() as int) =~= args);
        },
        Term::Recursor(tn, args) => {
            let st = str_bytes(tn);
            let sk = spec_u32_to_le_bytes(args.len() as u32);
            let sa = serialize_args(args);
            assert(serialize(t) == seq![0x0Bu8] + st + sk + sa);
            lemma_occurs_split(s, pos, seq![0x0Bu8] + st + sk, sa);
            lemma_occurs_split(s, pos, seq![0x0Bu8] + st, sk);
            lemma_occurs_split(s, pos, seq![0x0Bu8], st);
            assert(s[pos] == s.subrange(pos, pos + 1)[0]);
            lemma_u32_at(s, p + st.len(), args.len() as u32);
            lemma_parse_str(s, p, tn);
            lemma_parse_args_serialize(args, s, p + st.len() + 4, args.len() as int);
            assert(args.take(args.len() as int) =~= args);
        },
        _ => {},
    }
}

proof fn lemma_parse_args_serialize(args: Seq<Term>, s: Seq<u8>, start: int, k: int)
    requires
        args_serializable(args),
        occurs_at(s, start, serialize_args(args)),
        0 <= k <= args.len(),
    ensures
        parse_args(s, start, k as nat) == Some(
            (args.take(k), start + serialize_args(args.take(k)).len()),
        ),
    decreases args, k,
{
    if k == 0 {
        assert(args.take(0) =~= Seq::<Term>::empty());
    } else {
        lemma_parse_args_serialize(args, s, start, k - 1);
        lemma_take_step(args, k - 1);
        lemma_args_prefix(args, k);
        let pre = serialize_args(args.take(k - 1));
        let item = serialize(args[k - 1]);
        assert(serialize_args(args.take(k)) == pre + item);
        lemma_occurs_split(s, start, serialize_args(args.take(k)), serialize_args(args).subrange(
            serialize_args(args.take(k)).len() as int,
            serialize_args(args).len() as int,
        ));
        lemma_occurs_split(s, start, pre, item);
        lemma_parse_serialize(args[k - 1], s, start + pre.len());
        assert(args.take(k - 1).push(args[k - 1]) =~= args.take(k));
    }
}

/// A prefix of an argument list is serializable, and its serialization is a
/// prefix of the whole.
proof fn lemma_args_prefix(args: Seq<Term>, k: int)
    requires
        args_serializable(args),
        0 <= k <= args.len(),
    ensures
        args_serializable(args.take(k)),
        k >= 1 ==> serializable(args[k - 1]),
        serialize_args(args.take(k)) + serialize_args(args).subrange(
            serialize_args(args.take(k)).len() as int,
            serialize_args(args).len() as int,
        ) == serialize_args(args),
        serialize_args(args.take(k)).len() <= serialize_args(args).len(),
    decreases args.len(),
{
    if k == args.len() {
        assert(args.take(k) =~= args);
        assert(serialize_args(args) + serialize_args(args).subrange(
            serialize_args(args).len() as int,
            serialize_args(args).len() as int,
        ) =~= serialize_args(args));
    } else {
        let init = args.drop_last();
        lemma_take_of_drop_last(args, k);
        lemma_args_prefix(init, k);
        let whole = serialize_args(args);
        let pre = serialize_args(args.take(k));
        assert(whole == serialize_args(init) + serialize(args.last()));
        assert(pre + whole.subrange(pre.len() as int, whole.len() as int) =~= whole);
        if k >= 1 {
            assert(init[k - 1] == args[k - 1]);
        }
    }
}

/// `s2` holds the bytes of `s` below `e`.
pub open spec fn agree_below(s: Seq<u8>, s2: Seq<u8>, e: int) -> bool {
    &&& 0 <= e <= s.len()
    &&& e <= s2.len()
    &&& forall|i: int| 0 <= i < e ==> #[trigger] s2[i] == s[i]
}

proof fn lemma_subrange_agree(s: Seq<u8>, s2: Seq<u8>, e: int, a: int, b: int)
    requires
        agree_below(s, s2, e),
        0 <= a <= b <= e,
    ensures
        s2.subrange(a, b) == s.subrange(a, b),
{
    assert(s2.subrange(a, b) =~= s.subrange(a, b));
}

proof fn lemma_parse_str_prefix(s: Seq<u8>, s2: Seq<u8>, p: int)
    requires
        0 <= p,
        parse_str(s, p) is Some,
        agree_below(s, s2, parse_str(s, p).unwrap().1 + 4),
    ensures
        p + 4 <= parse_str(s, p).unwrap().1,
        parse_str(s, p).unwrap().1 + 4 <= s.len(),
        parse_str(s2, p) == parse_str(s, p),
{
    let q = parse_str(s, p).unwrap().1;
    lemma_subrange_agree(s, s2, q + 4, p, p + 4);
    let n = u32_at(s, p) as int;
    lemma_subrange_agree(s, s2, q + 4, p + 4, p + 4 + n);
}

/// Parsing a term reads no byte past the end of the term: it ends inside
/// the data, after its start, and gives the same result on any data that
/// agrees with it up to that end.
pub proof fn lemma_parse_term_prefix(s: Seq<u8>, s2: Seq<u8>, pos: int)
    requires
        parse_term(s, pos) is Some,
        agree_below(s, s2, parse_term(s, pos).unwrap().1),
    ensures
        pos < parse_term(s, pos).unwrap().1 <= s.len(),
        parse_term(s2, pos) == parse_term(s, pos),
    decreases s.len() - pos, 0int,
{
    let e = parse_term(s, pos).unwrap().1;
    let tag = s[pos];
    let p = pos + 1;
    if tag == 0x01 {
        lemma_subrange_agree(s, s2, e, p, p + 4);
    } else if tag == 0x02 {
    } else if tag == 0x03 || tag == 0x09 {
        lemma_subrange_agree(s, s2, e, p, p + 8);
    } else if tag == 0x04 || tag == 0x05 || tag == 0x06 {
        let e1 = parse_term(s, p).unwrap().1;
        lemma_parse_term_prefix(s, s2, e1);
        lemma_parse_term_prefix(s, s2, p);
    } else if tag == 0x07 {
        let e1 = parse_term(s, p).unwrap().1;
        let e2 = parse_term(s, e1).unwrap().1;
        lemma_parse_term_prefix(s, s2, e2);
        lemma_parse_term_prefix(s, s2, e1);
        lemma_parse_term_prefix(s, s2, p);
    } else if tag == 0x08 {
        let q = parse_str(s, p).unwrap().1;
        let count = u32_at(s, q) as int;
        assert(e == q + 4 + 4 * count);
        lemma_parse_str_prefix(s, s2, p);
        lemma_subrange_agree(s, s2, e, q, q + 4);
        assert forall|k: int| 0 <= k < count implies #[trigger] u32_at(s2, q + 4 + 4 * k) == u32_at(s, q + 4 + 4 * k) by {
            lemma_subrange_agree(s, s2, e, q + 4 + 4 * k, q + 4 + 4 * k + 4);
        }
        assert(Seq::new(count as nat, |k: int| u32_at(s2, q + 4 + 4 * k)) =~= Seq::new(
            count as nat,
            |k: int| u32_at(s, q + 4 + 4 * k),
        ));
    } else if tag == 0x0A {
        let q1 = parse_str(s, p).unwrap().1;
        let q2 = parse_str(s, q1).unwrap().1;
        lemma_parse_args_prefix(s, s2, q2 + 4, u32_at(s, q2) as nat);
        lemma_parse_str_prefix(s, s2, q1);
        lemma_parse_str_prefix(s, s2, p);
        lemma_subrange_agree(s, s2, e, q2, q2 + 4);
    } else {
        let q = parse_str(s, p).unwrap().1;
        lemma_parse_args_prefix(s, s2, q + 4, u32_at(s, q) as nat);
        lemma_parse_str_prefix(s, s2, p);
        lemma_subrange_agree(s, s2, e, q, q + 4);
    }
    assert(pos < e);
    assert(s2[pos] == tag);
}

/// Parsing `count` terms reads no byte past their end.
pub proof fn lemma_parse_args_prefix(s: Seq<u8>, s2: Seq<u8>, start: int, count: nat)
    requires
        parse_args(s, start, count) is Some,
        agree_below(s, s2, parse_args(s, start, count).unwrap().1),
    ensures
        start <= parse_args(s, start, count).unwrap().1 <= s.len(),
        parse_args(s2, start, count) == parse_args(s, start, count),
    decreases s.len() - start, count,
{
    if count > 0 {
        let e1 = parse_args(s, start, (count - 1) as nat).unwrap().1;
        lemma_parse_term_prefix(s, s2, e1);
        lemma_parse_args_prefix(s, s2, start, (count - 1) as nat);
    }
}

/// Parsing what `to_bytes` wrote, followed by anything, gives the term back
/// together with the number of bytes it took.
pub proof fn lemma_from_bytes_to_bytes(t: Term, rest: Seq<u8>)
    requires
        serializable(t),
    ensures
        parse_term(serialize(t) + rest, 0) == Some((t, serialize(t).len() as int)),
{
    let s = serialize(t) + rest;
    assert(s.subrange(0, serialize(t).len() as int) =~= serialize(t));
    lemma_parse_serialize(t, s, 0);
}

} // verus!
