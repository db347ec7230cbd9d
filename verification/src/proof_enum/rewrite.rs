//! Rewrite rules: structural pattern matching of terms, and instantiation of
//! a rule's right-hand side with the bindings that a match produced.
//!
//! In a pattern, a variable matches any subterm; a variable that occurs
//! twice must match equal subterms. Universes, `Prop`, literals and constants
//! match themselves; applications, binders and constructor applications
//! match position by position. `let` and recursor patterns match nothing.

use super::core_term::{
    lemma_args_model, lemma_take_of_drop_last, lemma_take_step, models, CoreEnv, CoreTerm, Term,
};
use super::reduce::{reduce_step, step, step_ok};
use super::type_check::{levels_equal, term_eq};
use vstd::prelude::*;

verus! {

broadcast use vstd::string::group_string_axioms;

/// Whether a rewrite step used core reduction or a rule of the basis.
#[derive(Debug, Clone, Copy, PartialEq, Eq, Structural)]
pub enum RewriteStepKind {
    /// Core beta, delta, iota or zeta reduction (always available).
    CoreReduction,
    /// A rule from the rewrite basis.
    BasisRule,
}

/// The bindings of a substitution, as pairs of a variable index and the model
/// of the bound term.
pub open spec fn bindings(v: Seq<(usize, CoreTerm)>) -> Seq<(usize, Term)> {
    Seq::new(v.len(), |k: int| (v[k].0, v[k].1@))
}

/// The term bound to variable `i` by the first binding of `i` at position
/// `k` or later.
pub open spec fn binding_from(subs: Seq<(usize, Term)>, i: usize, k: int) -> Option<Term>
    decreases subs.len() - k,
{
    if k < 0 || k >= subs.len() {
        None
    } else if subs[k].0 == i {
        Some(subs[k].1)
    } else {
        binding_from(subs, i, k + 1)
    }
}

/// The term bound to variable `i`: that of its first binding.
pub open spec fn lookup_binding(subs: Seq<(usize, Term)>, i: usize) -> Option<Term> {
    binding_from(subs, i, 0)
}

/// Matching of pattern `p` against term `t`, extending the bindings `subs`:
/// `None` where the match fails, else the extended bindings.
pub open spec fn match_term(p: Term, t: Term, subs: Seq<(usize, Term)>) -> Option<
    Seq<(usize, Term)>,
>
    decreases p,
{
    match p {
        Term::Var(i) => match lookup_binding(subs, i) {
            Some(e) => if e == t {
                Some(subs)
            } else {
                None
            },
            None => Some(subs.push((i, t))),
        },
        Term::Type(u) => if t == Term::Type(u) {
            Some(subs)
        } else {
            None
        },
        Term::Prop => if t == Term::Prop {
            Some(subs)
        } else {
            None
        },
        Term::NatLit(n) => if t == Term::NatLit(n) {
            Some(subs)
        } else {
            None
        },
        Term::Const(n, l) => if t == Term::Const(n, l) {
            Some(subs)
        } else {
            None
        },
        Term::App(f, a) => match t {
            Term::App(f2, a2) => match match_term(*f, *f2, subs) {
                Some(s) => match_term(*a, *a2, s),
                None => None,
            },
            _ => None,
        },
        Term::Lam(f, a) => match t {
            Term::Lam(f2, a2) => match match_term(*f, *f2, subs) {
                Some(s) => match_term(*a, *a2, s),
                None => None,
            },
            _ => None,
        },
        Term::Pi(f, a) => match t {
            Term::Pi(f2, a2) => match match_term(*f, *f2, subs) {
                Some(s) => match_term(*a, *a2, s),
                None => None,
            },
            _ => None,
        },
        Term::Constructor(ty, c, ps) => match t {
            Term::Constructor(ty2, c2, ts) => if ty == ty2 && c == c2 && ps.len() == ts.len() {
                match_args(ps, ts, subs)
            } else {
                None
            },
            _ => None,
        },
        _ => None,
    }
}

/// Matching of the patterns `ps` against the terms of `ts` at the same
/// positions, left to right.
pub open spec fn match_args(ps: Seq<Term>, ts: Seq<Term>, subs: Seq<(usize, Term)>) -> Option<
    Seq<(usize, Term)>,
>
    decreases ps,
{
    if ps.len() == 0 {
        Some(subs)
    } else {
        match match_args(ps.drop_last(), ts, subs) {
            Some(s) => match_term(ps.last(), ts[ps.len() - 1], s),
            None => None,
        }
    }
}

/// The term `t` with each variable that `subs` binds replaced by its bound
/// term. `let` and recursor applications are left as they are.
pub open spec fn apply_subst(t: Term, subs: Seq<(usize, Term)>) -> Term
    decreases t,
{
    match t {
        Term::Var(i) => match lookup_binding(subs, i) {
            Some(r) => r,
            None => t,
        },
        Term::App(a, b) => Term::App(
            Box::new(apply_subst(*a, subs)),
            Box::new(apply_subst(*b, subs)),
        ),
        Term::Lam(a, b) => Term::Lam(
            Box::new(apply_subst(*a, subs)),
            Box::new(apply_subst(*b, subs)),
        ),
        Term::Pi(a, b) => Term::Pi(
            Box::new(apply_subst(*a, subs)),
            Box::new(apply_subst(*b, subs)),
        ),
        Term::Constructor(ty, c, args) => Term::Constructor(ty, c, apply_subst_args(args, subs)),
        _ => t,
    }
}

pub open spec fn apply_subst_args(args: Seq<Term>, subs: Seq<(usize, Term)>) -> Seq<Term>
    decreases args,
{
    if args.len() == 0 {
        args
    } else {
        apply_subst_args(args.drop_last(), subs).push(apply_subst(args.last(), subs))
    }
}

proof fn lemma_bindings_push(v: Seq<(usize, CoreTerm)>, x: (usize, CoreTerm))
    ensures
        bindings(v.push(x)) == bindings(v).push((x.0, x.1@)),
{
    assert(bindings(v.push(x)) =~= bindings(v).push((x.0, x.1@)));
}

proof fn lemma_match_args_prefix_fail(
    ps: Seq<Term>,
    ts: Seq<Term>,
    subs: Seq<(usize, Term)>,
    k: int,
)
    requires
        0 <= k <= ps.len(),
        match_args(ps.take(k), ts, subs) is None,
    ensures
        match_args(ps, ts, subs) is None,
    decreases ps.len(),
{
    if k == ps.len() {
        assert(ps.take(k) =~= ps);
    } else {
        lemma_take_of_drop_last(ps, k);
        lemma_match_args_prefix_fail(ps.drop_last(), ts, subs, k);
    }
}

/// Matches `pattern` against `term`, extending `subs`. Where the match fails,
/// `subs` holds no promise: callers drop it.
fn do_match(pattern: &CoreTerm, term: &CoreTerm, subs: &mut Vec<(usize, CoreTerm)>) -> (r: bool)
    ensures
        r == match_term(pattern@, term@, bindings(old(subs)@)) is Some,
        r ==> match_term(pattern@, term@, bindings(old(subs)@)) == Some(bindings(final(subs)@)),
    decreases pattern,
{
    proof {
        lemma_args_model(pattern);
        lemma_args_model(term);
    }
    match pattern {
        CoreTerm::Var(i) => {
            let ghost b = bindings(subs@);
            let mut k: usize = 0;
            while k < subs.len()
                invariant
                    k <= subs@.len(),
                    b == bindings(subs@),
                    b == bindings(old(subs)@),
                    pattern@ == Term::Var(*i),
                    lookup_binding(b, *i) == binding_from(b, *i, k as int),
                decreases subs@.len() - k,
            {
                if subs[k].0 == *i {
                    proof {
                        assert(b[k as int] == (subs@[k as int].0, subs@[k as int].1@));
                        assert(lookup_binding(b, *i) == Some(subs@[k as int].1@));
                    }
                    return term_eq(&subs[k].1, term);
                }
                k = k + 1;
            }
            let c = term.clone();
            proof {
                lemma_bindings_push(subs@, (*i, c));
            }
            subs.push((*i, c));
            true
        },
        CoreTerm::Type(u1) => match term {
            CoreTerm::Type(u2) => *u1 == *u2,
            _ => false,
        },
        CoreTerm::Prop => match term {
            CoreTerm::Prop => true,
            _ => false,
        },
        CoreTerm::NatLit(n1) => match term {
            CoreTerm::NatLit(n2) => *n1 == *n2,
            _ => false,
        },
        CoreTerm::Const { name: n1, levels: l1 } => match term {
            CoreTerm::Const { name: n2, levels: l2 } => *n1 == *n2 && levels_equal(l1, l2),
            _ => false,
        },
        CoreTerm::App { func: f1, arg: a1 } => match term {
            CoreTerm::App { func: f2, arg: a2 } => {
                if !do_match(f1, f2, subs) {
                    return false;
                }
                do_match(a1, a2, subs)
            },
            _ => false,
        },
        CoreTerm::Lam { param_type: f1, body: a1 } => match term {
            CoreTerm::Lam { param_type: f2, body: a2 } => {
                if !do_match(f1, f2, subs) {
                    return false;
                }
                do_match(a1, a2, subs)
            },
            _ => false,
        },
        CoreTerm::Pi { param_type: f1, body: a1 } => match term {
            CoreTerm::Pi { param_type: f2, body: a2 } => {
                if !do_match(f1, f2, subs) {
                    return false;
                }
                do_match(a1, a2, subs)
            },
            _ => false,
        },
        CoreTerm::Constructor { inductive: t1, ctor_name: c1, args: a1 } => match term {
            CoreTerm::Constructor { inductive: t2, ctor_name: c2, args: a2 } => {
                if !(*t1 == *t2 && *c1 == *c2 && a1.len() == a2.len()) {
                    return false;
                }
                match_all(a1, a2, subs)
            },
            _ => false,
        },
        _ => false,
    }
}

fn match_all(ps: &Vec<CoreTerm>, ts: &Vec<CoreTerm>, subs: &mut Vec<(usize, CoreTerm)>) -> (r:
    bool)
    requires
        ps@.len() == ts@.len(),
    ensures
        r == match_args(models(ps@), models(ts@), bindings(old(subs)@)) is Some,
        r ==> match_args(models(ps@), models(ts@), bindings(old(subs)@)) == Some(
            bindings(final(subs)@),
        ),
    decreases ps,
{
    let ghost pm = models(ps@);
    let ghost tm = models(ts@);
    let ghost s0 = bindings(subs@);
    let mut i: usize = 0;
    while i < ps.len()
        invariant
            i <= ps@.len(),
            ps@.len() == ts@.len(),
            pm == models(ps@),
            tm == models(ts@),
            s0 == bindings(old(subs)@),
            match_args(pm.take(i as int), tm, s0) == Some(bindings(subs@)),
        decreases ps@.len() - i,
    {
        proof {
            lemma_take_step(pm, i as int);
            assert(pm[i as int] == ps@[i as int]@);
            assert(tm[i as int] == ts@[i as int]@);
        }
        let ghost before = bindings(subs@);
        if !do_match(&ps[i], &ts[i], subs) {
            proof {
                assert(match_term(pm[i as int], tm[i as int], before) is None);
                assert(match_args(pm.take(i as int), tm, s0) == Some(before));
                assert(match_args(pm.take(i + 1), tm, s0) is None);
                lemma_match_args_prefix_fail(pm, tm, s0, i + 1);
            }
            return false;
        }
        i = i + 1;
    }
    assert(pm.take(i as int) =~= pm);
    true
}

/// Matches `pattern` against `term`: `Some` of the bindings, in the order in
/// which the pattern's variables were first met, where the match succeeds.
pub fn pattern_match(pattern: &CoreTerm, term: &CoreTerm) -> (r: Option<Vec<(usize, CoreTerm)>>)
    ensures
        match r {
            Some(v) => match_term(pattern@, term@, Seq::empty()) == Some(bindings(v@)),
            None => match_term(pattern@, term@, Seq::empty()) is None,
        },
{
    let mut substitution: Vec<(usize, CoreTerm)> = Vec::new();
    proof {
        assert(bindings(substitution@) =~= Seq::<(usize, Term)>::empty());
    }
    if do_match(pattern, term, &mut substitution) {
        Some(substitution)
    } else {
        None
    }
}

/// The term with each variable that `subs` binds replaced by a copy of the
/// term of its first binding. `let` and recursor applications are copied as
/// they are.
pub fn apply_substitution(term: &CoreTerm, subs: &[(usize, CoreTerm)]) -> (r: CoreTerm)
    ensures
        r@ == apply_subst(term@, bindings(subs@)),
    decreases term,
{
    proof {
        lemma_args_model(term);
    }
    match term {
        CoreTerm::Var(i) => {
            let ghost b = bindings(subs@);
            let mut k: usize = 0;
            while k < subs.len()
                invariant
                    k <= subs@.len(),
                    b == bindings(subs@),
                    term@ == Term::Var(*i),
                    lookup_binding(b, *i) == binding_from(b, *i, k as int),
                decreases subs@.len() - k,
            {
                if subs[k].0 == *i {
                    proof {
                        assert(b[k as int] == (subs@[k as int].0, subs@[k as int].1@));
                    }
                    return subs[k].1.clone();
                }
                k = k + 1;
            }
            CoreTerm::Var(*i)
        },
        CoreTerm::App { func, arg } => CoreTerm::App {
            func: Box::new(apply_substitution(func, subs)),
            arg: Box::new(apply_substitution(arg, subs)),
        },
        CoreTerm::Lam { param_type, body } => CoreTerm::Lam {
            param_type: Box::new(apply_substitution(param_type, subs)),
            body: Box::new(apply_substitution(body, subs)),
        },
        CoreTerm::Pi { param_type, body } => CoreTerm::Pi {
            param_type: Box::new(apply_substitution(param_type, subs)),
            body: Box::new(apply_substitution(body, subs)),
        },
        CoreTerm::Constructor { inductive, ctor_name, args } => {
            let out = apply_all(args, subs);
            let r = CoreTerm::Constructor {
                inductive: inductive.clone(),
                ctor_name: ctor_name.clone(),
                args: out,
            };
            proof {
                lemma_args_model(&r);
            }
            r
        },
        _ => term.clone(),
    }
}

fn apply_all(args: &Vec<CoreTerm>, subs: &[(usize, CoreTerm)]) -> (r: Vec<CoreTerm>)
    ensures
        models(r@) == apply_subst_args(models(args@), bindings(subs@)),
    decreases args,
{
    let ghost ms = models(args@);
    let mut out: Vec<CoreTerm> = Vec::new();
    let mut i: usize = 0;
    while i < args.len()
        invariant
            i <= args@.len(),
            out@.len() == i,
            ms == models(args@),
            models(out@) == apply_subst_args(ms.take(i as int), bindings(subs@)),
        decreases args@.len() - i,
    {
        proof {
            lemma_take_step(ms, i as int);
        }
        let c = apply_substitution(&args[i], subs);
        let ghost prev = out@;
        out.push(c);
        proof {
            assert(models(out@) =~= models(prev).push(c@));
        }
        i = i + 1;
    }
    assert(ms.take(i as int) =~= ms);
    out
}

/// `longer` begins with `shorter`.
pub open spec fn extends(longer: Seq<(usize, Term)>, shorter: Seq<(usize, Term)>) -> bool {
    shorter.len() <= longer.len() && longer.take(shorter.len() as int) == shorter
}

proof fn lemma_extends_refl(s: Seq<(usize, Term)>)
    ensures
        extends(s, s),
{
    assert(s.take(s.len() as int) =~= s);
}

proof fn lemma_extends_trans(s3: Seq<(usize, Term)>, s2: Seq<(usize, Term)>, s1: Seq<(usize, Term)>)
    requires
        extends(s3, s2),
        extends(s2, s1),
    ensures
        extends(s3, s1),
{
    assert(s3.take(s1.len() as int) =~= s1) by {
        assert forall|k: int| 0 <= k < s1.len() implies s3.take(s1.len() as int)[k] == s1[k] by {
            assert(s3.take(s2.len() as int)[k] == s2[k]);
            assert(s2.take(s1.len() as int)[k] == s1[k]);
        }
    }
}

proof fn lemma_binding_extends(s: Seq<(usize, Term)>, s2: Seq<(usize, Term)>, i: usize, k: int)
    requires
        0 <= k,
        extends(s2, s),
        binding_from(s, i, k) is Some,
    ensures
        binding_from(s2, i, k) == binding_from(s, i, k),
    decreases s.len() - k,
{
    assert(s2.take(s.len() as int)[k] == s[k]);
    if s[k].0 != i {
        lemma_binding_extends(s, s2, i, k + 1);
    }
}

proof fn lemma_binding_push(s: Seq<(usize, Term)>, x: (usize, Term), i: usize, k: int)
    requires
        0 <= k <= s.len(),
        binding_from(s, i, k) is None,
        x.0 == i,
    ensures
        binding_from(s.push(x), i, k) == Some(x.1),
    decreases s.len() - k,
{
    if k < s.len() {
        assert(s.push(x)[k] == s[k]);
        lemma_binding_push(s, x, i, k + 1);
    } else {
        assert(s.push(x)[k] == x);
    }
}

proof fn lemma_match_sound(p: Term, t: Term, s: Seq<(usize, Term)>, s2: Seq<(usize, Term)>)
    requires
        match_term(p, t, s) is Some,
        extends(s2, match_term(p, t, s).unwrap()),
    ensures
        extends(match_term(p, t, s).unwrap(), s),
        apply_subst(p, s2) == t,
    decreases p,
{
    match p {
        Term::Var(i) => {
            match lookup_binding(s, i) {
                Some(e) => {
                    lemma_extends_refl(s);
                    lemma_binding_extends(s, s2, i, 0);
                },
                None => {
                    let s1 = s.push((i, t));
                    lemma_binding_push(s, (i, t), i, 0);
                    lemma_binding_extends(s1, s2, i, 0);
                    assert(s1.take(s.len() as int) =~= s);
                },
            }
        },
        Term::App(f, a) => {
            if let Term::App(f2, a2) = t {
                let s1 = match_term(*f, *f2, s).unwrap();
                lemma_match_sound(*a, *a2, s1, s2);
                lemma_extends_trans(s2, match_term(p, t, s).unwrap(), s1);
                lemma_match_sound(*f, *f2, s, s2);
                lemma_extends_trans(match_term(p, t, s).unwrap(), s1, s);
            }
        },
        Term::Lam(f, a) => {
            if let Term::Lam(f2, a2) = t {
                let s1 = match_term(*f, *f2, s).unwrap();
                lemma_match_sound(*a, *a2, s1, s2);
                lemma_extends_trans(s2, match_term(p, t, s).unwrap(), s1);
                lemma_match_sound(*f, *f2, s, s2);
                lemma_extends_trans(match_term(p, t, s).unwrap(), s1, s);
            }
        },
        Term::Pi(f, a) => {
            if let Term::Pi(f2, a2) = t {
                let s1 = match_term(*f, *f2, s).unwrap();
                lemma_match_sound(*a, *a2, s1, s2);
                lemma_extends_trans(s2, match_term(p, t, s).unwrap(), s1);
                lemma_match_sound(*f, *f2, s, s2);
                lemma_extends_trans(match_term(p, t, s).unwrap(), s1, s);
            }
        },
        Term::Constructor(ty, c, ps) => {
            if let Term::Constructor(ty2, c2, ts) = t {
                lemma_match_args_sound(ps, ts, s, s2);
                assert(ts.take(ps.len() as int) =~= ts);
            }
        },
        _ => {
            lemma_extends_refl(s);
        },
    }
}

proof fn lemma_match_args_sound(
    ps: Seq<Term>,
    ts: Seq<Term>,
    s: Seq<(usize, Term)>,
    s2: Seq<(usize, Term)>,
)
    requires
        ps.len() <= ts.len(),
        match_args(ps, ts, s) is Some,
        extends(s2, match_args(ps, ts, s).unwrap()),
    ensures
        extends(match_args(ps, ts, s).unwrap(), s),
        apply_subst_args(ps, s2) == ts.take(ps.len() as int),
    decreases ps,
{
    if ps.len() == 0 {
        lemma_extends_refl(s);
        assert(ts.take(0) =~= ps);
    } else {
        let n = ps.len() - 1;
        let s1 = match_args(ps.drop_last(), ts, s).unwrap();
        let s3 = match_args(ps, ts, s).unwrap();
        lemma_match_sound(ps.last(), ts[n], s1, s2);
        lemma_extends_trans(s2, s3, s1);
        lemma_match_args_sound(ps.drop_last(), ts, s, s2);
        lemma_extends_trans(s3, s1, s);
        assert(ts.take(ps.len() as int) =~= ts.take(n).push(ts[n]));
    }
}

/// A successful match instantiates back to the matched term: applying to a
/// pattern the bindings that matching it against a term produced gives that
/// term.
pub proof fn lemma_match_instantiates(pattern: Term, term: Term)
    requires
        match_term(pattern, term, Seq::empty()) is Some,
    ensures
        apply_subst(pattern, match_term(pattern, term, Seq::empty()).unwrap()) == term,
{
    let s = match_term(pattern, term, Seq::empty()).unwrap();
    lemma_extends_refl(s);
    lemma_match_sound(pattern, term, Seq::empty(), s);
}

/// A rewrite rule `lhs → rhs` with its soundness proof (the serialized
/// witness that the two sides are equal) and how often it was applied.
#[derive(Debug)]
pub struct RewriteRule {
    pub lhs: CoreTerm,
    pub rhs: CoreTerm,
    pub soundness_proof: Vec<u8>,
    pub application_count: u64,
}

/// Model of a rule.
pub struct RuleModel {
    pub lhs: Term,
    pub rhs: Term,
    pub proof: Seq<u8>,
    pub count: nat,
}

impl View for RewriteRule {
    type V = RuleModel;

    open spec fn view(&self) -> RuleModel {
        RuleModel {
            lhs: self.lhs@,
            rhs: self.rhs@,
            proof: self.soundness_proof@,
            count: self.application_count as nat,
        }
    }
}

/// Models of rules.
pub open spec fn rule_models(rules: Seq<RewriteRule>) -> Seq<RuleModel> {
    Seq::new(rules.len(), |i: int| rules[i]@)
}

/// The two sides of each rule.
pub open spec fn sides(rules: Seq<RuleModel>) -> Seq<(Term, Term)> {
    Seq::new(rules.len(), |i: int| (rules[i].lhs, rules[i].rhs))
}

/// One step of a normalization.
#[derive(Debug, Clone, Copy)]
pub struct RewriteStep {
    pub kind: RewriteStepKind,
}

/// The steps of a normalization, and whether it reached a normal form.
#[derive(Debug)]
pub struct ProofTrace {
    pub steps: Vec<RewriteStep>,
    pub is_complete: bool,
}

/// The kinds of the steps.
pub open spec fn step_kinds(steps: Seq<RewriteStep>) -> Seq<RewriteStepKind> {
    Seq::new(steps.len(), |i: int| steps[i].kind)
}

/// How many of `kinds` are `kind`.
pub open spec fn count_kind(kinds: Seq<RewriteStepKind>, kind: RewriteStepKind) -> nat
    decreases kinds.len(),
{
    if kinds.len() == 0 {
        0
    } else {
        count_kind(kinds.drop_last(), kind) + if kinds.last() == kind {
            1nat
        } else {
            0nat
        }
    }
}

impl ProofTrace {
    /// Total number of rewrite steps.
    pub fn len(&self) -> (n: usize)
        ensures
            n == self.steps@.len(),
    {
        self.steps.len()
    }

    /// Is the trace empty (the term was already in normal form)?
    pub fn is_empty(&self) -> (b: bool)
        ensures
            b == (self.steps@.len() == 0),
    {
        self.steps.len() == 0
    }

    fn count_steps(&self, kind: RewriteStepKind) -> (n: usize)
        ensures
            n == count_kind(step_kinds(self.steps@), kind),
    {
        let mut n: usize = 0;
        let mut i: usize = 0;
        while i < self.steps.len()
            invariant
                i <= self.steps@.len(),
                n == count_kind(step_kinds(self.steps@).take(i as int), kind),
                n <= i,
            decreases self.steps@.len() - i,
        {
            let ghost ks = step_kinds(self.steps@);
            assert(ks.take(i + 1).drop_last() =~= ks.take(i as int));
            if self.steps[i].kind == kind {
                n = n + 1;
            }
            i = i + 1;
        }
        assert(step_kinds(self.steps@).take(i as int) =~= step_kinds(self.steps@));
        n
    }

    /// How many core reduction steps were used.
    pub fn core_steps(&self) -> (n: usize)
        ensures
            n == count_kind(step_kinds(self.steps@), RewriteStepKind::CoreReduction),
    {
        self.count_steps(RewriteStepKind::CoreReduction)
    }

    /// How many basis rule steps were used.
    pub fn basis_steps(&self) -> (n: usize)
        ensures
            n == count_kind(step_kinds(self.steps@), RewriteStepKind::BasisRule),
    {
        self.count_steps(RewriteStepKind::BasisRule)
    }
}

/// The first rule at or after `i` whose left side matches `t`: its index
/// and the instantiated right side.
pub open spec fn first_rule(rules: Seq<(Term, Term)>, t: Term, i: nat) -> Option<(nat, Term)>
    decreases rules.len() - i,
{
    if i >= rules.len() {
        None
    } else {
        match match_term(rules[i as int].0, t, Seq::empty()) {
            Some(subs) => Some((i, apply_subst(rules[i as int].1, subs))),
            None => first_rule(rules, t, i + 1),
        }
    }
}

proof fn lemma_first_rule_index(rules: Seq<(Term, Term)>, t: Term, k: nat)
    ensures
        first_rule(rules, t, k) matches Some((i, u)) ==> k <= i < rules.len(),
    decreases rules.len() - k,
{
    if k < rules.len() {
        lemma_first_rule_index(rules, t, k + 1);
    }
}

/// Normalization of `t` with the rules first and core reduction second, for
/// at most `fuel` steps: the final term, the kinds of the steps, the rules
/// applied in turn, and whether a normal form was reached.
pub open spec fn rewrite_run(rules: Seq<(Term, Term)>, t: Term, env: CoreEnv, fuel: nat) -> (
    Term,
    Seq<RewriteStepKind>,
    Seq<nat>,
    bool,
)
    decreases fuel,
{
    if fuel == 0 {
        (t, Seq::empty(), Seq::empty(), false)
    } else {
        match first_rule(rules, t, 0) {
            Some((i, u)) => {
                let r = rewrite_run(rules, u, env, (fuel - 1) as nat);
                (r.0, seq![RewriteStepKind::BasisRule] + r.1, seq![i] + r.2, r.3)
            },
            None => match step(t, env) {
                Some((u, _)) => {
                    let r = rewrite_run(rules, u, env, (fuel - 1) as nat);
                    (r.0, seq![RewriteStepKind::CoreReduction] + r.1, r.2, r.3)
                },
                None => (t, Seq::empty(), Seq::empty(), true),
            },
        }
    }
}

/// Every core reduction the run tries stays within machine integers.
pub open spec fn rewrite_run_ok(rules: Seq<(Term, Term)>, t: Term, env: CoreEnv, fuel: nat) -> bool
    decreases fuel,
{
    fuel == 0 || match first_rule(rules, t, 0) {
        Some((i, u)) => rewrite_run_ok(rules, u, env, (fuel - 1) as nat),
        None => step_ok(t, env) && match step(t, env) {
            Some((u, _)) => rewrite_run_ok(rules, u, env, (fuel - 1) as nat),
            None => true,
        },
    }
}

/// How often `i` occurs in `s`.
pub open spec fn occurrences(s: Seq<nat>, i: nat) -> nat
    decreases s.len(),
{
    if s.len() == 0 {
        0
    } else {
        occurrences(s.drop_last(), i) + if s.last() == i {
            1nat
        } else {
            0nat
        }
    }
}

proof fn lemma_occurrences_append(a: Seq<nat>, b: Seq<nat>, i: nat)
    ensures
        occurrences(a + b, i) == occurrences(a, i) + occurrences(b, i),
    decreases b.len(),
{
    if b.len() == 0 {
        assert(a + b =~= a);
    } else {
        assert((a + b).drop_last() =~= a + b.drop_last());
        lemma_occurrences_append(a, b.drop_last(), i);
    }
}

/// The sum of the application counts.
pub open spec fn total_count(rules: Seq<RuleModel>) -> nat
    decreases rules.len(),
{
    if rules.len() == 0 {
        0
    } else {
        total_count(rules.drop_last()) + rules.last().count
    }
}

/// The rewrite basis: rules in order of discovery. It only grows.
pub struct RewriteBasis {
    rules: Vec<RewriteRule>,
}

impl View for RewriteBasis {
    type V = Seq<RuleModel>;

    closed spec fn view(&self) -> Seq<RuleModel> {
        rule_models(self.rules@)
    }
}

/// A rule made from a verified proof, not yet applied.
pub fn make_rule(lhs: CoreTerm, rhs: CoreTerm, witness_bytes: &[u8]) -> (r: RewriteRule)
    ensures
        r@ == (RuleModel { lhs: lhs@, rhs: rhs@, proof: witness_bytes@, count: 0 }),
{
    let mut proof: Vec<u8> = Vec::new();
    let mut i: usize = 0;
    while i < witness_bytes.len()
        invariant
            i <= witness_bytes@.len(),
            proof@ == witness_bytes@.take(i as int),
        decreases witness_bytes@.len() - i,
    {
        proof.push(witness_bytes[i]);
        i = i + 1;
        assert(proof@ =~= witness_bytes@.take(i as int));
    }
    assert(witness_bytes@.take(i as int) =~= witness_bytes@);
    RewriteRule { lhs, rhs, soundness_proof: proof, application_count: 0 }
}

impl RewriteBasis {
    /// An empty basis: only core reduction applies.
    pub fn new() -> (b: RewriteBasis)
        ensures
            b@ == Seq::<RuleModel>::empty(),
    {
        let b = RewriteBasis { rules: Vec::new() };
        assert(b@ =~= Seq::<RuleModel>::empty());
        b
    }

    /// Add a rule, unless a rule with the same two sides is already there.
    pub fn add_rule(&mut self, rule: RewriteRule)
        ensures
            (exists|i: int|
                0 <= i < old(self)@.len() && #[trigger] old(self)@[i].lhs == rule@.lhs && old(self)@[i].rhs
                    == rule@.rhs) ==> final(self)@ == old(self)@,
            !(exists|i: int|
                0 <= i < old(self)@.len() && #[trigger] old(self)@[i].lhs == rule@.lhs && old(self)@[i].rhs
                    == rule@.rhs) ==> final(self)@ == old(self)@.push(rule@),
    {
        let mut i: usize = 0;
        while i < self.rules.len()
            invariant
                i <= self.rules@.len(),
                self@ == old(self)@,
                forall|j: int|
                    0 <= j < i ==> !(#[trigger] old(self)@[j].lhs == rule@.lhs && old(self)@[j].rhs
                        == rule@.rhs),
            decreases self.rules@.len() - i,
        {
            assert(self@[i as int] == self.rules@[i as int]@);
            if term_eq(&self.rules[i].lhs, &rule.lhs) && term_eq(&self.rules[i].rhs, &rule.rhs) {
                assert(old(self)@[i as int].lhs == rule@.lhs && old(self)@[i as int].rhs == rule@.rhs);
                return;
            }
            i = i + 1;
        }
        let ghost before = self.rules@;
        self.rules.push(rule);
        assert(self@ =~= old(self)@.push(rule@)) by {
            assert(forall|j: int| 0 <= j < before.len() ==> self.rules@[j] == before[j]);
        }
    }

    /// Number of rules.
    pub fn len(&self) -> (n: usize)
        ensures
            n == self@.len(),
    {
        self.rules.len()
    }

    /// Is the basis empty?
    pub fn is_empty(&self) -> (b: bool)
        ensures
            b == (self@.len() == 0),
    {
        self.rules.len() == 0
    }

    /// How many rules were added after the first `since_count`.
    pub fn rules_since(&self, since_count: usize) -> (n: usize)
        ensures
            n == (if self@.len() > since_count {
                self@.len() - since_count
            } else {
                0
            }),
    {
        if self.rules.len() > since_count {
            self.rules.len() - since_count
        } else {
            0
        }
    }

    /// Total applications of all rules.
    pub fn total_applications(&self) -> (n: u64)
        requires
            total_count(self@) <= u64::MAX,
        ensures
            n == total_count(self@),
    {
        let mut n: u64 = 0;
        let mut i: usize = 0;
        while i < self.rules.len()
            invariant
                i <= self@.len(),
                self@.len() == self.rules@.len(),
                total_count(self@) <= u64::MAX,
                n == total_count(self@.take(i as int)),
            decreases self.rules@.len() - i,
        {
            proof {
                assert(self@.take(i + 1).drop_last() =~= self@.take(i as int));
                lemma_total_count_prefix(self@, i + 1);
            }
            assert(self@[i as int] == self.rules@[i as int]@);
            n = n + self.rules[i].application_count;
            i = i + 1;
        }
        assert(self@.take(i as int) =~= self@);
        n
    }

    /// The rules.
    pub fn rules(&self) -> (r: &[RewriteRule])
        ensures
            rule_models(r@) == self@,
    {
        self.rules.as_slice()
    }
}

impl RewriteBasis {
    /// The first rule whose left side matches `term`, with its right side
    /// instantiated.
    fn find_rule(&self, term: &CoreTerm) -> (r: Option<(CoreTerm, usize)>)
        ensures
            match first_rule(sides(self@), term@, 0) {
                None => r is None,
                Some((i, u)) => r matches Some((v, j)) && j == i && v@ == u,
            },
    {
        let ghost sd = sides(self@);
        let mut i: usize = 0;
        while i < self.rules.len()
            invariant
                i <= self.rules@.len(),
                sd == sides(self@),
                sd.len() == self.rules@.len(),
                first_rule(sd, term@, 0) == first_rule(sd, term@, i as nat),
            decreases self.rules@.len() - i,
        {
            assert(sd[i as int] == (self.rules@[i as int].lhs@, self.rules@[i as int].rhs@));
            match pattern_match(&self.rules[i].lhs, term) {
                Some(subs) => {
                    let v = apply_substitution(&self.rules[i].rhs, subs.as_slice());
                    return Some((v, i));
                },
                None => {},
            }
            i = i + 1;
        }
        None
    }

    /// Count one more application of rule `i`.
    fn bump(&mut self, i: usize)
        requires
            i < old(self)@.len(),
            old(self)@[i as int].count < u64::MAX,
        ensures
            final(self)@ == old(self)@.update(
                i as int,
                RuleModel { count: old(self)@[i as int].count + 1, ..old(self)@[i as int] },
            ),
    {
        let ghost before = self.rules@;
        assert(old(self)@[i as int] == before[i as int]@);
        let r = self.rules.remove(i);
        let bumped = RewriteRule {
            lhs: r.lhs,
            rhs: r.rhs,
            soundness_proof: r.soundness_proof,
            application_count: r.application_count + 1,
        };
        self.rules.insert(i, bumped);
        assert(self.rules@ =~= before.update(i as int, bumped));
        assert(self@ =~= old(self)@.update(
            i as int,
            RuleModel { count: old(self)@[i as int].count + 1, ..old(self)@[i as int] },
        ));
    }

    /// Normalize `term` for at most `max_steps` steps, trying the rules in
    /// order before core reduction: the final term and the trace of steps.
    /// Each rule application is counted on its rule.
    #[verifier::rlimit(40)]
    pub fn normalize(&mut self, term: &CoreTerm, env: &CoreEnv, max_steps: u64) -> (r: (CoreTerm, ProofTrace))
        requires
            rewrite_run_ok(sides(old(self)@), term@, *env, max_steps as nat),
            forall|i: int|
                0 <= i < old(self)@.len() ==> #[trigger] old(self)@[i].count + occurrences(
                    rewrite_run(sides(old(self)@), term@, *env, max_steps as nat).2,
                    i as nat,
                ) <= u64::MAX,
        ensures
            ({
                let run = rewrite_run(sides(old(self)@), term@, *env, max_steps as nat);
                &&& r.0@ == run.0
                &&& step_kinds(r.1.steps@) == run.1
                &&& r.1.is_complete == run.3
                &&& final(self)@.len() == old(self)@.len()
                &&& forall|i: int|
                    0 <= i < old(self)@.len() ==> #[trigger] final(self)@[i] == (RuleModel {
                        count: old(self)@[i].count + occurrences(run.2, i as nat),
                        ..old(self)@[i]
                    })
            }),
    {
        let ghost sd = sides(self@);
        let ghost n = max_steps as nat;
        let ghost run = rewrite_run(sd, term@, *env, n);
        let ghost mut done_uses: Seq<nat> = Seq::empty();
        let mut current = term.clone();
        let mut steps: Vec<RewriteStep> = Vec::new();
        let mut count: u64 = 0;
        while count < max_steps
            invariant
                count <= max_steps,
                sd == sides(old(self)@),
                n == max_steps as nat,
                run == rewrite_run(sd, term@, *env, n),
                self@.len() == old(self)@.len(),
                sides(self@) == sd,
                forall|i: int|
                    0 <= i < old(self)@.len() ==> #[trigger] self@[i] == (RuleModel {
                        count: old(self)@[i].count + occurrences(done_uses, i as nat),
                        ..old(self)@[i]
                    }),
                forall|i: int|
                    0 <= i < old(self)@.len() ==> #[trigger] old(self)@[i].count + occurrences(run.2, i as nat)
                        <= u64::MAX,
                rewrite_run_ok(sd, current@, *env, (n - count) as nat),
                ({
                    let rest = rewrite_run(sd, current@, *env, (n - count) as nat);
                    run == (rest.0, step_kinds(steps@) + rest.1, done_uses + rest.2, rest.3)
                }),
            decreases max_steps - count,
        {
            let ghost fuel = (n - count) as nat;
            let ghost rest = rewrite_run(sd, current@, *env, fuel);
            match self.find_rule(&current) {
                Some((rewritten, i)) => {
                    let ghost next = rewrite_run(sd, rewritten@, *env, (fuel - 1) as nat);
                    assert(rest == (next.0, seq![RewriteStepKind::BasisRule] + next.1, seq![i as nat]
                        + next.2, next.3));
                    proof {
                        lemma_occurrences_append(done_uses, rest.2, i as nat);
                        lemma_occurrences_append(seq![i as nat], next.2, i as nat);
                        lemma_first_rule_index(sd, current@, 0);
                        assert(seq![i as nat].drop_last() =~= Seq::<nat>::empty());
                        reveal_with_fuel(occurrences, 2);
                        assert(occurrences(seq![i as nat], i as nat) == 1);
                        assert(old(self)@[i as int].count + occurrences(run.2, i as nat) <= u64::MAX);
                        assert(self@[i as int].count == old(self)@[i as int].count + occurrences(
                            done_uses,
                            i as nat,
                        ));
                    }
                    self.bump(i);
                    proof {
                        let old_done = done_uses;
                        done_uses = done_uses.push(i as nat);
                        assert forall|j: int| 0 <= j < old(self)@.len() implies #[trigger] self@[j] == (
                        RuleModel {
                            count: old(self)@[j].count + occurrences(done_uses, j as nat),
                            ..old(self)@[j]
                        }) by {
                            assert(done_uses.drop_last() =~= old_done);
                        }
                        assert(sides(self@) =~= sd);
                    }
                    let ghost old_steps = steps@;
                    steps.push(RewriteStep { kind: RewriteStepKind::BasisRule });
                    assert(step_kinds(steps@) =~= step_kinds(old_steps).push(RewriteStepKind::BasisRule));
                    assert(done_uses + next.2 =~= (done_uses.drop_last()) + (seq![i as nat] + next.2));
                    assert(step_kinds(steps@) + next.1 =~= step_kinds(old_steps) + (
                    seq![RewriteStepKind::BasisRule] + next.1));
                    current = rewritten;
                },
                None => {
                    match reduce_step(&current, env) {
                        Some((reduced, _)) => {
                            let ghost next = rewrite_run(sd, reduced@, *env, (fuel - 1) as nat);
                            assert(rest == (next.0, seq![RewriteStepKind::CoreReduction] + next.1, next.2, next.3));
                            let ghost old_steps = steps@;
                            steps.push(RewriteStep { kind: RewriteStepKind::CoreReduction });
                            assert(step_kinds(steps@) =~= step_kinds(old_steps).push(
                                RewriteStepKind::CoreReduction,
                            ));
                            assert(step_kinds(steps@) + next.1 =~= step_kinds(old_steps) + (
                            seq![RewriteStepKind::CoreReduction] + next.1));
                            current = reduced;
                        },
                        None => {
                            assert(rest == (current@, Seq::<RewriteStepKind>::empty(), Seq::<nat>::empty(), true));
                            assert(step_kinds(steps@) + Seq::<RewriteStepKind>::empty() =~= step_kinds(steps@));
                            assert(done_uses + Seq::<nat>::empty() =~= done_uses);
                            return (current, ProofTrace { steps, is_complete: true });
                        },
                    }
                },
            }
            count = count + 1;
        }
        assert(step_kinds(steps@) + Seq::<RewriteStepKind>::empty() =~= step_kinds(steps@));
        assert(done_uses + Seq::<nat>::empty() =~= done_uses);
        (current, ProofTrace { steps, is_complete: false })
    }
}

/// The basis after adding `r` unless a rule with its two sides is there.
pub open spec fn add_one(b: Seq<RuleModel>, r: RuleModel) -> Seq<RuleModel> {
    if exists|i: int| 0 <= i < b.len() && #[trigger] b[i].lhs == r.lhs && b[i].rhs == r.rhs {
        b
    } else {
        b.push(r)
    }
}

/// The basis after adding the rules `rs` in turn.
pub open spec fn add_all(b: Seq<RuleModel>, rs: Seq<RuleModel>) -> Seq<RuleModel>
    decreases rs.len(),
{
    if rs.len() == 0 {
        b
    } else {
        add_one(add_all(b, rs.drop_last()), rs.last())
    }
}

/// The basis after a normalization of `t`: each rule's count grows by the
/// times the run applied it.
pub open spec fn basis_after_run(b: Seq<RuleModel>, t: Term, env: CoreEnv, fuel: nat) -> Seq<RuleModel> {
    Seq::new(
        b.len(),
        |i: int|
            RuleModel { count: b[i].count + occurrences(rewrite_run(sides(b), t, env, fuel).2, i as nat), ..b[i] },
    )
}

/// The counts stay within `u64` over a normalization of `t`.
pub open spec fn run_counts_fit(b: Seq<RuleModel>, t: Term, env: CoreEnv, fuel: nat) -> bool {
    forall|i: int|
        0 <= i < b.len() ==> #[trigger] b[i].count + occurrences(rewrite_run(sides(b), t, env, fuel).2, i as nat)
            <= u64::MAX
}

impl RewriteBasis {
    /// Add the rules in turn.
    pub(crate) fn add_rules(&mut self, rules: Vec<RewriteRule>)
        ensures
            final(self)@ == add_all(old(self)@, rule_models(rules@)),
    {
        let ghost all = rule_models(rules@);
        let mut rest = rules;
        let ghost mut k: int = 0;
        assert(all.take(0) =~= Seq::<RuleModel>::empty());
        assert(rule_models(rest@) =~= all.skip(0));
        while rest.len() > 0
            invariant
                0 <= k <= all.len(),
                k + rest@.len() == all.len(),
                self@ == add_all(old(self)@, all.take(k)),
                rule_models(rest@) == all.skip(k),
            decreases rest@.len(),
        {
            let ghost before = rest@;
            let r = rest.remove(0);
            assert(rule_models(before)[0] == before[0]@);
            assert(all.skip(k)[0] == all[k]);
            assert(r@ == all[k]);
            assert forall|j: int| 0 <= j < rest@.len() implies rule_models(rest@)[j] == all.skip(k + 1)[j] by {
                assert(rest@[j] == before[j + 1]);
                assert(rule_models(before)[j + 1] == all.skip(k)[j + 1]);
            }
            let ghost prev = self@;
            self.add_rule(r);
            assert(self@ == add_one(prev, all[k]));
            proof {
                assert(all.take(k + 1).drop_last() =~= all.take(k));
                assert(rule_models(rest@) =~= all.skip(k + 1));
                k = k + 1;
            }
        }
        assert(all.take(k) =~= all);
    }
}

/// The basis only grows: adding rules keeps every rule in its place, and
/// afterwards each added rule's two sides are in the basis.
pub proof fn lemma_add_all_grows(b: Seq<RuleModel>, rs: Seq<RuleModel>)
    ensures
        add_all(b, rs).len() >= b.len(),
        forall|i: int| 0 <= i < b.len() ==> #[trigger] add_all(b, rs)[i] == b[i],
        forall|j: int|
            0 <= j < rs.len() ==> exists|i: int|
                0 <= i < add_all(b, rs).len() && #[trigger] add_all(b, rs)[i].lhs == rs[j].lhs && add_all(
                    b,
                    rs,
                )[i].rhs == (#[trigger] rs[j]).rhs,
    decreases rs.len(),
{
    if rs.len() > 0 {
        let pre = rs.drop_last();
        lemma_add_all_grows(b, pre);
        let a = add_all(b, pre);
        let r = rs.last();
        let c = add_one(a, r);
        assert(add_all(b, rs) == c);
        assert forall|j: int| 0 <= j < rs.len() implies exists|i: int|
            0 <= i < c.len() && #[trigger] c[i].lhs == rs[j].lhs && c[i].rhs == (#[trigger] rs[j]).rhs by {
            if j < rs.len() - 1 {
                assert(rs[j] == pre[j]);
                let i = choose|i: int| 0 <= i < a.len() && #[trigger] a[i].lhs == pre[j].lhs && a[i].rhs == pre[j].rhs;
                assert(c[i] == a[i]);
            } else {
                if exists|i: int| 0 <= i < a.len() && #[trigger] a[i].lhs == r.lhs && a[i].rhs == r.rhs {
                    let i = choose|i: int| 0 <= i < a.len() && #[trigger] a[i].lhs == r.lhs && a[i].rhs == r.rhs;
                    assert(c[i] == a[i]);
                } else {
                    assert(c[a.len() as int] == r);
                }
            }
        }
    }
}

proof fn lemma_total_count_prefix(rules: Seq<RuleModel>, k: int)
    requires
        0 <= k <= rules.len(),
    ensures
        total_count(rules.take(k)) <= total_count(rules),
    decreases rules.len(),
{
    if k < rules.len() {
        assert(rules.drop_last().take(k) =~= rules.take(k));
        lemma_total_count_prefix(rules.drop_last(), k);
    } else {
        assert(rules.take(k) =~= rules);
    }
}

} // verus!
