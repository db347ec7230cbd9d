use kernel_frc::proof_enum::core_term::{CoreEnv, CoreTerm};
use kernel_frc::proof_enum::rewrite::{apply_substitution, make_rule, pattern_match, RewriteBasis, RewriteStepKind};

fn app(f: CoreTerm, a: CoreTerm) -> CoreTerm {
    CoreTerm::App { func: Box::new(f), arg: Box::new(a) }
}

fn konst(name: &str) -> CoreTerm {
    CoreTerm::Const { name: name.into(), levels: vec![] }
}

#[test]
fn pattern_match_var() {
    // Pattern Var(0) matches anything
    let subs = pattern_match(&CoreTerm::Var(0), &CoreTerm::NatLit(42)).unwrap();
    assert_eq!(subs.len(), 1);
    assert_eq!(subs[0], (0, CoreTerm::NatLit(42)));
}

#[test]
fn pattern_match_exact() {
    // Pattern NatLit(5) matches NatLit(5) but not NatLit(6)
    assert!(pattern_match(&CoreTerm::NatLit(5), &CoreTerm::NatLit(5)).is_some());
    assert!(pattern_match(&CoreTerm::NatLit(5), &CoreTerm::NatLit(6)).is_none());
}

#[test]
fn pattern_match_app() {
    // Pattern App(Var(0), NatLit(1)) matches App(f, NatLit(1)) for any f
    let pattern = app(CoreTerm::Var(0), CoreTerm::NatLit(1));
    let term = app(konst("f"), CoreTerm::NatLit(1));
    let subs = pattern_match(&pattern, &term).unwrap();
    assert_eq!(subs[0].1, konst("f"));
}

#[test]
fn pattern_match_consistency() {
    // Var(0) must match the same thing in both positions
    let pattern = app(CoreTerm::Var(0), CoreTerm::Var(0));
    let term_ok = app(CoreTerm::NatLit(5), CoreTerm::NatLit(5));
    assert!(pattern_match(&pattern, &term_ok).is_some());
    let term_bad = app(CoreTerm::NatLit(5), CoreTerm::NatLit(6));
    assert!(pattern_match(&pattern, &term_bad).is_none());
}

#[test]
fn pattern_match_binds_in_order_of_first_occurrence() {
    let pattern = app(app(CoreTerm::Var(3), CoreTerm::Var(1)), CoreTerm::Var(3));
    let term = app(app(konst("g"), CoreTerm::NatLit(7)), konst("g"));
    let subs = pattern_match(&pattern, &term).unwrap();
    assert_eq!(subs, vec![(3, konst("g")), (1, CoreTerm::NatLit(7))]);
}

#[test]
fn pattern_match_let_and_recursor_patterns_match_nothing() {
    let l = CoreTerm::Let {
        bound_type: Box::new(konst("Nat")),
        value: Box::new(CoreTerm::NatLit(1)),
        body: Box::new(CoreTerm::Var(0)),
    };
    assert!(pattern_match(&l, &l).is_none());
    let r = CoreTerm::Recursor { inductive: "Nat".into(), args: vec![] };
    assert!(pattern_match(&r, &r).is_none());
}

#[test]
fn pattern_match_constructor_arity_and_names() {
    let pat = CoreTerm::Constructor {
        inductive: "Nat".into(),
        ctor_name: "succ".into(),
        args: vec![CoreTerm::Var(0)],
    };
    let ok = CoreTerm::Constructor {
        inductive: "Nat".into(),
        ctor_name: "succ".into(),
        args: vec![CoreTerm::NatLit(4)],
    };
    assert_eq!(pattern_match(&pat, &ok).unwrap(), vec![(0, CoreTerm::NatLit(4))]);
    let other = CoreTerm::Constructor {
        inductive: "Nat".into(),
        ctor_name: "zero".into(),
        args: vec![CoreTerm::NatLit(4)],
    };
    assert!(pattern_match(&pat, &other).is_none());
    let longer = CoreTerm::Constructor {
        inductive: "Nat".into(),
        ctor_name: "succ".into(),
        args: vec![CoreTerm::NatLit(4), CoreTerm::NatLit(5)],
    };
    assert!(pattern_match(&pat, &longer).is_none());
}

#[test]
fn apply_substitution_replaces_bound_variables() {
    let subs = vec![(0, konst("f")), (2, CoreTerm::NatLit(9))];
    let t = app(CoreTerm::Var(0), app(CoreTerm::Var(2), CoreTerm::Var(1)));
    let r = apply_substitution(&t, &subs);
    assert_eq!(r, app(konst("f"), app(CoreTerm::NatLit(9), CoreTerm::Var(1))));
}

#[test]
fn apply_substitution_uses_first_binding() {
    let subs = vec![(0, CoreTerm::NatLit(1)), (0, CoreTerm::NatLit(2))];
    assert_eq!(apply_substitution(&CoreTerm::Var(0), &subs), CoreTerm::NatLit(1));
}

#[test]
fn apply_substitution_leaves_let_untouched() {
    let l = CoreTerm::Let {
        bound_type: Box::new(konst("Nat")),
        value: Box::new(CoreTerm::Var(0)),
        body: Box::new(CoreTerm::Var(0)),
    };
    let subs = vec![(0, CoreTerm::NatLit(1))];
    assert_eq!(apply_substitution(&l, &subs), l);
}

#[test]
fn match_then_instantiate_gives_back_the_term() {
    let pattern = CoreTerm::Lam {
        param_type: Box::new(CoreTerm::Var(1)),
        body: Box::new(app(CoreTerm::Var(0), CoreTerm::Var(1))),
    };
    let term = CoreTerm::Lam {
        param_type: Box::new(konst("Nat")),
        body: Box::new(app(CoreTerm::NatLit(3), konst("Nat"))),
    };
    let subs = pattern_match(&pattern, &term).unwrap();
    assert_eq!(apply_substitution(&pattern, &subs), term);
}

#[test]
fn rewrite_step_kinds_differ() {
    assert_ne!(RewriteStepKind::CoreReduction, RewriteStepKind::BasisRule);
}

fn nat_const() -> CoreTerm {
    CoreTerm::Const { name: "Nat".into(), levels: vec![] }
}

#[test]
fn empty_basis() {
    let basis = RewriteBasis::new();
    assert_eq!(basis.len(), 0);
    assert!(basis.is_empty());
}

#[test]
fn add_rule() {
    let mut basis = RewriteBasis::new();
    let rule = make_rule(
        CoreTerm::NatLit(0),
        CoreTerm::Constructor { inductive: "Nat".into(), ctor_name: "zero".into(), args: vec![] },
        b"proof",
    );
    basis.add_rule(rule);
    assert_eq!(basis.len(), 1);
}

#[test]
fn deduplication() {
    let mut basis = RewriteBasis::new();
    let rule1 = make_rule(CoreTerm::NatLit(0), CoreTerm::NatLit(0), b"p");
    let rule2 = make_rule(CoreTerm::NatLit(0), CoreTerm::NatLit(0), b"p");
    basis.add_rule(rule1);
    basis.add_rule(rule2);
    assert_eq!(basis.len(), 1, "duplicate rules should be deduplicated");
}

#[test]
fn normalize_with_core_only() {
    // Without basis rules, normalization uses only core reduction
    let mut basis = RewriteBasis::new();
    let env = CoreEnv::new();
    // (λ Nat. Var(0)) 42 should β-reduce to 42
    let term = CoreTerm::App {
        func: Box::new(CoreTerm::Lam { param_type: Box::new(nat_const()), body: Box::new(CoreTerm::Var(0)) }),
        arg: Box::new(CoreTerm::NatLit(42)),
    };
    let (nf, trace) = basis.normalize(&term, &env, 100);
    assert_eq!(nf, CoreTerm::NatLit(42));
    assert!(trace.is_complete);
    assert_eq!(trace.core_steps(), 1);
    assert_eq!(trace.basis_steps(), 0);
}

#[test]
fn normalize_with_basis_rule() {
    // Add a rule: NatLit(0) → Constructor(Nat, zero, [])
    let mut basis = RewriteBasis::new();
    let env = CoreEnv::new();
    let rule = make_rule(
        CoreTerm::NatLit(0),
        CoreTerm::Constructor { inductive: "Nat".into(), ctor_name: "zero".into(), args: vec![] },
        b"proof_zero",
    );
    basis.add_rule(rule);
    let (nf, trace) = basis.normalize(&CoreTerm::NatLit(0), &env, 100);
    assert_eq!(nf, CoreTerm::Constructor { inductive: "Nat".into(), ctor_name: "zero".into(), args: vec![] });
    assert!(trace.is_complete);
    assert_eq!(trace.basis_steps(), 1);
}

#[test]
fn normalize_basis_then_core() {
    // Rule: Const("double") x → App(App(Nat.add, x), x); then Nat.add 5 5 → 10
    let mut basis = RewriteBasis::new();
    let env = CoreEnv::new();
    let rule = make_rule(
        app(konst("double"), CoreTerm::Var(0)),
        app(app(konst("Nat.add"), CoreTerm::Var(0)), CoreTerm::Var(0)),
        b"proof_double",
    );
    basis.add_rule(rule);
    let term = app(konst("double"), CoreTerm::NatLit(5));
    let (nf, trace) = basis.normalize(&term, &env, 100);
    assert_eq!(nf, CoreTerm::NatLit(10));
    assert!(trace.is_complete);
    assert!(trace.basis_steps() >= 1, "should use at least 1 basis rule");
    assert!(trace.core_steps() >= 1, "should use at least 1 core reduction");
}

#[test]
fn fixed_point_detection() {
    let mut basis = RewriteBasis::new();
    let before = basis.len();
    let rule = make_rule(CoreTerm::NatLit(0), CoreTerm::NatLit(0), b"p");
    basis.add_rule(rule);
    assert_eq!(basis.rules_since(before), 1, "1 new rule");
    assert_eq!(basis.rules_since(basis.len()), 0, "no new rules = fixed point");
}

#[test]
fn application_count() {
    let mut basis = RewriteBasis::new();
    let env = CoreEnv::new();
    let rule = make_rule(CoreTerm::NatLit(99), CoreTerm::NatLit(100), b"proof");
    basis.add_rule(rule);
    assert_eq!(basis.total_applications(), 0);
    // Apply the rule
    basis.normalize(&CoreTerm::NatLit(99), &env, 10);
    assert_eq!(basis.total_applications(), 1);
    // Apply again
    basis.normalize(&CoreTerm::NatLit(99), &env, 10);
    assert_eq!(basis.total_applications(), 2);
}

#[test]
fn normalize_stops_at_budget_incomplete() {
    // A rule that rewrites a term to itself never reaches a normal form.
    let mut basis = RewriteBasis::new();
    let env = CoreEnv::new();
    basis.add_rule(make_rule(CoreTerm::NatLit(0), CoreTerm::NatLit(0), b"p"));
    let (nf, trace) = basis.normalize(&CoreTerm::NatLit(0), &env, 3);
    assert_eq!(nf, CoreTerm::NatLit(0));
    assert!(!trace.is_complete);
    assert_eq!(trace.len(), 3);
    assert_eq!(basis.rules()[0].application_count, 3);
}
