use kernel_frc::schemas::algebraic_decision::AlgebraicDecisionSchema;
use kernel_frc::schemas::bounded_counterexample::BoundedCounterexampleSchema;
use kernel_frc::schemas::certified_numerics::CertifiedNumericsSchema;
use kernel_frc::schemas::effective_compactness::EffectiveCompactnessSchema;
use kernel_frc::schemas::finite_search::FiniteSearchSchema;
use kernel_frc::schemas::proof_mining::ProofMiningSchema;
use kernel_frc::vm::{Vm, VmOutcome};

#[test]
fn bool_search_two_vars_finds_assignment() {
    let (program, b_star) = FiniteSearchSchema::build_bool_search_program(2);
    assert_eq!(b_star, 80);
    let (outcome, _) = Vm::run(&program, b_star);
    assert_eq!(outcome, VmOutcome::Halted(1));
}

#[test]
fn bool_search_no_vars_has_only_zero() {
    let (program, b_star) = FiniteSearchSchema::build_bool_search_program(0);
    assert_eq!(b_star, 20);
    let (outcome, _) = Vm::run(&program, 1_000);
    assert_eq!(outcome, VmOutcome::Halted(0));
}

#[test]
fn arith_search_finds_two_x_plus_one_is_five() {
    // 1 + 2x = 5 at x = 2
    let (program, b_star) = FiniteSearchSchema::build_arith_search_program(0, 10, &[1, 2], 5);
    assert_eq!(b_star, 11 * 40 + 10);
    let (outcome, state) = Vm::run(&program, b_star);
    assert_eq!(outcome, VmOutcome::Halted(1));
    assert_eq!(state.memory[&0], 2);
}

#[test]
fn arith_search_without_solution_halts_zero() {
    // 1 + 2x = 4 has no integer solution
    let (program, b_star) = FiniteSearchSchema::build_arith_search_program(0, 10, &[1, 2], 4);
    let (outcome, _) = Vm::run(&program, b_star);
    assert_eq!(outcome, VmOutcome::Halted(0));
}

#[test]
fn polynomial_check_finds_root_of_x_squared_minus_four() {
    let program = AlgebraicDecisionSchema::build_polynomial_check_program(-10, 10, &[-4, 0, 1]);
    let b_star = 21 * (3 * 10 + 20) + 10;
    let (outcome, state) = Vm::run(&program, b_star);
    assert_eq!(outcome, VmOutcome::Halted(1));
    assert_eq!(state.memory[&0], -2);
}

#[test]
fn polynomial_check_without_root_halts_zero() {
    // x^2 + 1 has no real root
    let program = AlgebraicDecisionSchema::build_polynomial_check_program(-5, 5, &[1, 0, 1]);
    let (outcome, _) = Vm::run(&program, 11 * 50 + 10);
    assert_eq!(outcome, VmOutcome::Halted(0));
}

#[test]
fn counterexample_search_without_polynomial_passes() {
    let program = BoundedCounterexampleSchema::build_search_program(0, 10, &[]);
    let (outcome, _) = Vm::run(&program, 11 * 50);
    assert_eq!(outcome, VmOutcome::Halted(1));
}

#[test]
fn counterexample_search_reports_root() {
    // P(x) = x - 3 vanishes at 3: a counterexample to P(x) != 0
    let coefficients = vec![("c0".to_string(), -3), ("c1".to_string(), 1)];
    let program = BoundedCounterexampleSchema::build_search_program(0, 10, &coefficients);
    let (outcome, state) = Vm::run(&program, 11 * 50);
    assert_eq!(outcome, VmOutcome::Halted(0));
    assert_eq!(state.memory[&0], 3);
}

#[test]
fn interval_check_ten_intervals_passes() {
    let program = CertifiedNumericsSchema::build_interval_check_program(0, 100, 10);
    let (outcome, _) = Vm::run(&program, 10_000);
    assert_eq!(outcome, VmOutcome::Halted(1));
}

#[test]
fn epsilon_net_hundred_points_passes() {
    let program = EffectiveCompactnessSchema::build_epsilon_net_program(100);
    let (outcome, _) = Vm::run(&program, 10_000);
    assert_eq!(outcome, VmOutcome::Halted(1));
}

#[test]
fn metastability_bound_ten_window_five_passes() {
    let program = ProofMiningSchema::build_metastability_program(10, 5);
    let (outcome, _) = Vm::run(&program, 10_000);
    assert_eq!(outcome, VmOutcome::Halted(1));
}
