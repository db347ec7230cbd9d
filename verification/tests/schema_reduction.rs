use kernel_frc::schema::{SchemaResult, StatementDesc, StatementKind, VariableDesc};
use kernel_frc::schemas::algebraic_decision::AlgebraicDecisionSchema;
use kernel_frc::schemas::bounded_counterexample::BoundedCounterexampleSchema;
use kernel_frc::schemas::certified_numerics::CertifiedNumericsSchema;
use kernel_frc::schemas::effective_compactness::EffectiveCompactnessSchema;
use kernel_frc::schemas::finite_search::FiniteSearchSchema;
use kernel_frc::schemas::proof_mining::ProofMiningSchema;
use kernel_frc::vm::{Vm, VmOutcome};

const MAX_VM_STEPS: u64 = 1_000_000;

fn var(name: &str, lo: Option<i64>, hi: Option<i64>, is_finite: bool) -> VariableDesc {
    VariableDesc { name: name.to_string(), domain_lo: lo, domain_hi: hi, is_finite }
}

fn desc(kind: StatementKind, text: &str, variables: Vec<VariableDesc>, predicate: &str, params: Vec<(String, i64)>) -> StatementDesc {
    StatementDesc { kind, text: text.to_string(), variables, predicate: predicate.to_string(), params }
}

fn runs_to(result: SchemaResult, expected: VmOutcome) {
    match result {
        SchemaResult::Success { program, b_star } => {
            let (outcome, _) = Vm::run(&program, b_star);
            assert_eq!(outcome, expected);
        }
        other => panic!("Expected Success, got {:?}", other),
    }
}

#[test]
fn algebraic_finds_root() {
    let stmt = desc(
        StatementKind::Algebraic,
        "x^2 - 4 = 0",
        vec![var("x", Some(-10), Some(10), true)],
        "x^2 - 4 = 0",
        vec![("c0".to_string(), -4), ("c1".to_string(), 0), ("c2".to_string(), 1)],
    );
    // x=-2 or x=2 satisfies x^2-4=0
    runs_to(AlgebraicDecisionSchema::attempt_reduction(&stmt, MAX_VM_STEPS), VmOutcome::Halted(1));
}

#[test]
fn algebraic_not_applicable_to_bool() {
    let stmt = desc(StatementKind::BoolSat, "bool", vec![], "P", vec![]);
    assert!(matches!(AlgebraicDecisionSchema::attempt_reduction(&stmt, MAX_VM_STEPS), SchemaResult::NotApplicable));
}

#[test]
fn algebraic_derived_range_and_gaps() {
    // No domain: degree 2, max |c| = 4 gives [-9, 9]; the coefficients c0 and
    // c2 make f(x) = -4 + x, and B* = 19 * (2 * 10 + 20) + 10.
    let stmt = desc(
        StatementKind::Algebraic,
        "x^2 - 4 = 0",
        vec![],
        "P",
        vec![("degree".to_string(), 2), ("c0".to_string(), -4), ("c2".to_string(), 1)],
    );
    match AlgebraicDecisionSchema::attempt_reduction(&stmt, MAX_VM_STEPS) {
        SchemaResult::Success { program, b_star } => {
            assert_eq!(b_star, 19 * 40 + 10);
            let (outcome, state) = Vm::run(&program, b_star);
            assert_eq!(outcome, VmOutcome::Halted(1));
            assert_eq!(state.memory[&0], 4);
        }
        other => panic!("Expected Success, got {:?}", other),
    }
    match AlgebraicDecisionSchema::attempt_reduction(&stmt, 100) {
        SchemaResult::Failure { goal_statement, unresolved_bound } => {
            assert_eq!(goal_statement, "Algebraic bound B*=770 exceeds budget");
            assert_eq!(unresolved_bound, Some("B* = 770".to_string()));
        }
        other => panic!("Expected Failure, got {:?}", other),
    }
    let no_degree = desc(StatementKind::Algebraic, "p", vec![], "P", vec![]);
    match AlgebraicDecisionSchema::attempt_reduction(&no_degree, MAX_VM_STEPS) {
        SchemaResult::Failure { goal_statement, .. } => {
            assert_eq!(goal_statement, "No effective bound: need degree or explicit domain");
        }
        other => panic!("Expected Failure, got {:?}", other),
    }
}

#[test]
fn finite_search_bool_sat() {
    let stmt = desc(
        StatementKind::BoolSat,
        "SAT",
        vec![var("x0", Some(0), Some(1), true), var("x1", Some(0), Some(1), true)],
        "CNF",
        vec![],
    );
    // Should find a satisfying assignment (x != 0)
    runs_to(FiniteSearchSchema::attempt_reduction(&stmt, MAX_VM_STEPS), VmOutcome::Halted(1));
}

#[test]
fn finite_search_arith_find() {
    let stmt = desc(
        StatementKind::ArithFind,
        "find x: 2x + 1 = 5",
        vec![var("x", Some(0), Some(10), true)],
        "2x + 1 = 5",
        vec![("c0".to_string(), 1), ("c1".to_string(), 2), ("target".to_string(), 5)],
    );
    // x=2: 1 + 2*2 = 5
    runs_to(FiniteSearchSchema::attempt_reduction(&stmt, MAX_VM_STEPS), VmOutcome::Halted(1));
}

#[test]
fn finite_search_not_applicable_to_infinite() {
    let stmt = desc(StatementKind::UniversalInfinite, "infinite", vec![], "P", vec![]);
    assert!(matches!(FiniteSearchSchema::attempt_reduction(&stmt, MAX_VM_STEPS), SchemaResult::NotApplicable));
}

#[test]
fn finite_search_too_many_vars_returns_gap() {
    let vars: Vec<VariableDesc> = (0..25).map(|i| var(&format!("x{}", i), Some(0), Some(1), true)).collect();
    let stmt = desc(StatementKind::BoolSat, "25 vars", vars, "CNF", vec![]);
    match FiniteSearchSchema::attempt_reduction(&stmt, MAX_VM_STEPS) {
        SchemaResult::Failure { goal_statement, unresolved_bound } => {
            assert_eq!(goal_statement, "BoolSat with 25 vars exceeds tractable bound");
            assert_eq!(unresolved_bound, Some("2^25 = 33554432 assignments".to_string()));
        }
        other => panic!("Expected Failure, got {:?}", other),
    }
}

#[test]
fn certified_numerics_interval_check() {
    let stmt = desc(
        StatementKind::Analytic,
        "f(x) bounded",
        vec![var("x", Some(0), Some(100), true)],
        "f(x) in [0, 1]",
        vec![("n_intervals".to_string(), 10)],
    );
    runs_to(CertifiedNumericsSchema::attempt_reduction(&stmt, MAX_VM_STEPS), VmOutcome::Halted(1));
}

#[test]
fn certified_numerics_no_intervals_returns_gap() {
    let stmt = desc(StatementKind::Analytic, "no intervals", vec![], "P", vec![]);
    assert!(matches!(CertifiedNumericsSchema::attempt_reduction(&stmt, MAX_VM_STEPS), SchemaResult::Failure { .. }));
}

#[test]
fn certified_numerics_not_applicable_to_algebraic() {
    let stmt = desc(StatementKind::Algebraic, "algebraic", vec![], "P", vec![]);
    assert!(matches!(CertifiedNumericsSchema::attempt_reduction(&stmt, MAX_VM_STEPS), SchemaResult::NotApplicable));
}

#[test]
fn certified_numerics_empty_domain() {
    let stmt = desc(
        StatementKind::Analytic,
        "empty",
        vec![var("x", Some(5), Some(5), true)],
        "P",
        vec![("n_intervals".to_string(), 3)],
    );
    match CertifiedNumericsSchema::attempt_reduction(&stmt, MAX_VM_STEPS) {
        SchemaResult::Failure { goal_statement, unresolved_bound } => {
            assert_eq!(goal_statement, "Empty domain");
            assert_eq!(unresolved_bound, None);
        }
        other => panic!("Expected Failure, got {:?}", other),
    }
}

#[test]
fn compactness_with_modulus() {
    let stmt = desc(
        StatementKind::UniversalInfinite,
        "continuous function bounded on compact set",
        vec![var("x", None, None, false)],
        "|f(x)| ≤ M",
        vec![("epsilon_net_size".to_string(), 100)],
    );
    runs_to(EffectiveCompactnessSchema::attempt_reduction(&stmt, MAX_VM_STEPS), VmOutcome::Halted(1));
}

#[test]
fn compactness_no_modulus_returns_gap() {
    let stmt = desc(StatementKind::UniversalInfinite, "no modulus", vec![], "P", vec![]);
    assert!(matches!(EffectiveCompactnessSchema::attempt_reduction(&stmt, MAX_VM_STEPS), SchemaResult::Failure { .. }));
}

#[test]
fn compactness_not_applicable_to_finite() {
    let stmt = desc(StatementKind::UniversalFinite, "finite", vec![], "P", vec![]);
    assert!(matches!(EffectiveCompactnessSchema::attempt_reduction(&stmt, MAX_VM_STEPS), SchemaResult::NotApplicable));
}

#[test]
fn compactness_budget_failure_text() {
    let stmt = desc(StatementKind::Analytic, "big", vec![], "P", vec![("modulus".to_string(), 1000)]);
    match EffectiveCompactnessSchema::attempt_reduction(&stmt, 100) {
        SchemaResult::Failure { goal_statement, unresolved_bound } => {
            assert_eq!(goal_statement, "ε-net size 1000 too large for budget");
            assert_eq!(unresolved_bound, Some("B* = 15010".to_string()));
        }
        other => panic!("Expected Failure, got {:?}", other),
    }
}

#[test]
fn proof_mining_with_bounds() {
    let stmt = desc(
        StatementKind::UniversalInfinite,
        "sequence converges",
        vec![],
        "stable window",
        vec![("metastability_bound".to_string(), 10), ("window_size".to_string(), 5)],
    );
    runs_to(ProofMiningSchema::attempt_reduction(&stmt, MAX_VM_STEPS), VmOutcome::Halted(1));
}

#[test]
fn proof_mining_no_bounds_returns_gap() {
    let stmt = desc(StatementKind::UniversalInfinite, "no bounds", vec![], "P", vec![]);
    assert!(matches!(ProofMiningSchema::attempt_reduction(&stmt, MAX_VM_STEPS), SchemaResult::Failure { .. }));
}

#[test]
fn proof_mining_budget_failure_text() {
    let stmt = desc(
        StatementKind::Analytic,
        "big",
        vec![],
        "P",
        vec![("metastability_bound".to_string(), 10), ("window_size".to_string(), 5)],
    );
    match ProofMiningSchema::attempt_reduction(&stmt, 100) {
        SchemaResult::Failure { goal_statement, unresolved_bound } => {
            assert_eq!(goal_statement, "Metastability bound too large: B*=770");
            assert_eq!(unresolved_bound, Some("B* = 10 × 5 × 15 = 770".to_string()));
        }
        other => panic!("Expected Failure, got {:?}", other),
    }
}

#[test]
fn bounded_search_finds_no_counterexample() {
    let stmt = desc(
        StatementKind::UniversalFinite,
        "forall x in [0,10], P(x)",
        vec![var("x", Some(0), Some(10), true)],
        "P(x)",
        vec![], // no polynomial => trivially true
    );
    runs_to(BoundedCounterexampleSchema::attempt_reduction(&stmt, MAX_VM_STEPS), VmOutcome::Halted(1));
}

#[test]
fn bounded_not_applicable_to_infinite() {
    let stmt = desc(
        StatementKind::UniversalInfinite,
        "forall x, P(x)",
        vec![var("x", None, None, false)],
        "P(x)",
        vec![],
    );
    match BoundedCounterexampleSchema::attempt_reduction(&stmt, MAX_VM_STEPS) {
        SchemaResult::NotApplicable => {}
        other => panic!("Expected NotApplicable, got {:?}", other),
    }
}

#[test]
fn bounded_frc_deterministic() {
    let stmt = desc(StatementKind::UniversalFinite, "test", vec![var("x", Some(0), Some(5), true)], "P", vec![]);
    let r1 = BoundedCounterexampleSchema::attempt_reduction(&stmt, MAX_VM_STEPS);
    let r2 = BoundedCounterexampleSchema::attempt_reduction(&stmt, MAX_VM_STEPS);
    match (r1, r2) {
        (SchemaResult::Success { program: p1, b_star: b1 }, SchemaResult::Success { program: p2, b_star: b2 }) => {
            assert_eq!(p1, p2);
            assert_eq!(b1, b2);
        }
        _ => panic!("Both should succeed"),
    }
}

#[test]
fn bounded_budget_failure_text() {
    let stmt = desc(StatementKind::UniversalFinite, "wide", vec![var("x", Some(-3), Some(10), true)], "P", vec![]);
    match BoundedCounterexampleSchema::attempt_reduction(&stmt, 100) {
        SchemaResult::Failure { goal_statement, unresolved_bound } => {
            assert_eq!(goal_statement, "Bound B*=700 exceeds max_vm_steps=100");
            assert_eq!(unresolved_bound, Some("B* = 700 (domain [-3, 10])".to_string()));
        }
        other => panic!("Expected Failure, got {:?}", other),
    }
}
