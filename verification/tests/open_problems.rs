use kernel_frc::open_problems::{
    build_bertrand, build_bsd_ec_count, build_collatz, build_erdos_straus, build_flt,
    build_goldbach, build_lagrange_four_squares, build_legendre, build_mersenne, build_mertens,
    build_odd_perfect, build_twin_prime_search, build_weak_goldbach, build_zero_ne_one,
};
use kernel_frc::vm::{Vm, VmOutcome};

#[test]
fn goldbach_small() {
    let (prog, b_star, desc) = build_goldbach(100);
    let (outcome, state) = Vm::run(&prog, b_star);
    assert_eq!(outcome, VmOutcome::Halted(1),
        "Goldbach failed for n_max=100: {:?} after {} steps", outcome, state.steps_taken);
    assert!(desc.contains("Goldbach"));
}

#[test]
fn goldbach_1000() {
    let (prog, b_star, _) = build_goldbach(1000);
    let (outcome, state) = Vm::run(&prog, b_star);
    assert_eq!(outcome, VmOutcome::Halted(1),
        "Goldbach failed for n_max=1000 after {} steps (B*={})", state.steps_taken, b_star);
}

#[test]
fn collatz_small() {
    let (prog, b_star, desc) = build_collatz(100, 500);
    let (outcome, _) = Vm::run(&prog, b_star);
    assert_eq!(outcome, VmOutcome::Halted(1));
    assert!(desc.contains("Collatz"));
}

#[test]
fn collatz_5000() {
    let (prog, b_star, _) = build_collatz(5000, 1000);
    let (outcome, state) = Vm::run(&prog, b_star);
    assert_eq!(outcome, VmOutcome::Halted(1),
        "Collatz failed for n_max=5000 after {} steps (B*={})", state.steps_taken, b_star);
}

#[test]
fn twin_primes_found() {
    let (prog, b_star, desc) = build_twin_prime_search(10000);
    let (outcome, state) = Vm::run(&prog, b_star);
    assert_eq!(outcome, VmOutcome::Halted(1)); // 3,5 are twin primes
    // Should exit very quickly (p=3)
    assert!(state.steps_taken < 200, "Should find twin primes quickly, took {} steps", state.steps_taken);
    assert!(desc.contains("Twin prime"));
}

#[test]
fn flt_small() {
    let (prog, b_star, desc) = build_flt(5, 20);
    let (outcome, state) = Vm::run(&prog, b_star);
    assert_eq!(outcome, VmOutcome::Halted(1),
        "FLT failed for exp=5,base=20 after {} steps", state.steps_taken);
    assert!(desc.contains("FLT"));
}

#[test]
fn flt_7_40() {
    let (prog, b_star, _) = build_flt(7, 40);
    let (outcome, state) = Vm::run(&prog, b_star);
    assert_eq!(outcome, VmOutcome::Halted(1),
        "FLT failed for exp=7,base=40 after {} steps (B*={})", state.steps_taken, b_star);
}

#[test]
fn odd_perfect_small() {
    let (prog, b_star, desc) = build_odd_perfect(100);
    let (outcome, _) = Vm::run(&prog, b_star);
    assert_eq!(outcome, VmOutcome::Halted(1));
    assert!(desc.contains("odd perfect"));
}

#[test]
fn odd_perfect_5000() {
    let (prog, b_star, _) = build_odd_perfect(5000);
    let (outcome, state) = Vm::run(&prog, b_star);
    assert_eq!(outcome, VmOutcome::Halted(1),
        "Odd perfect failed for n_max=5000 after {} steps (B*={})", state.steps_taken, b_star);
}

#[test]
fn mersenne_found() {
    let (prog, b_star, desc) = build_mersenne(31);
    let (outcome, state) = Vm::run(&prog, b_star);
    assert_eq!(outcome, VmOutcome::Halted(1)); // 2^2-1=3 is prime
    assert!(state.steps_taken < 200, "Should find Mersenne prime quickly, took {} steps", state.steps_taken);
    assert!(desc.contains("Mersenne"));
}

#[test]
fn zfc_zero_ne_one() {
    let (prog, b_star, desc) = build_zero_ne_one();
    let (outcome, state) = Vm::run(&prog, b_star);
    assert_eq!(outcome, VmOutcome::Halted(1));
    assert!(state.steps_taken <= 6);
    assert!(desc.contains("0 ≠ 1"));
}

#[test]
fn mertens_small() {
    let (prog, b_star, desc) = build_mertens(100);
    let (outcome, state) = Vm::run(&prog, b_star);
    assert_eq!(outcome, VmOutcome::Halted(1),
        "Mertens failed for n_max=100: {:?} after {} steps", outcome, state.steps_taken);
    assert!(desc.contains("Mertens"));
}

#[test]
fn mertens_1000() {
    let (prog, b_star, _) = build_mertens(1000);
    let (outcome, state) = Vm::run(&prog, b_star);
    assert_eq!(outcome, VmOutcome::Halted(1),
        "Mertens failed for n_max=1000 after {} steps (B*={})", state.steps_taken, b_star);
}

#[test]
fn legendre_small() {
    let (prog, b_star, desc) = build_legendre(50);
    let (outcome, state) = Vm::run(&prog, b_star);
    assert_eq!(outcome, VmOutcome::Halted(1),
        "Legendre failed for n_max=50: {:?} after {} steps", outcome, state.steps_taken);
    assert!(desc.contains("Legendre"));
}

#[test]
fn legendre_100() {
    let (prog, b_star, _) = build_legendre(100);
    let (outcome, state) = Vm::run(&prog, b_star);
    assert_eq!(outcome, VmOutcome::Halted(1),
        "Legendre failed for n_max=100 after {} steps (B*={})", state.steps_taken, b_star);
}

#[test]
fn erdos_straus_small() {
    let (prog, b_star, desc) = build_erdos_straus(100);
    let (outcome, state) = Vm::run(&prog, b_star);
    assert_eq!(outcome, VmOutcome::Halted(1),
        "Erdos-Straus failed for n_max=100: {:?} after {} steps", outcome, state.steps_taken);
    assert!(desc.contains("Straus"));
}

#[test]
fn erdos_straus_1000() {
    let (prog, b_star, _) = build_erdos_straus(1000);
    let (outcome, state) = Vm::run(&prog, b_star);
    assert_eq!(outcome, VmOutcome::Halted(1),
        "Erdos-Straus failed for n_max=1000 after {} steps (B*={})", state.steps_taken, b_star);
}

#[test]
fn bsd_ec_count_p7() {
    let (prog, b_star, desc) = build_bsd_ec_count(7, 0);
    let (outcome, state) = Vm::run(&prog, b_star);
    assert_eq!(outcome, VmOutcome::Halted(1),
        "BSD EC count failed for p=7: {:?} after {} steps", outcome, state.steps_taken);
    assert!(desc.contains("BSD"));
}

#[test]
fn bsd_ec_count_p97() {
    let (prog, b_star, _) = build_bsd_ec_count(97, 0);
    let (outcome, state) = Vm::run(&prog, b_star);
    assert_eq!(outcome, VmOutcome::Halted(1),
        "BSD EC count failed for p=97 after {} steps (B*={})", state.steps_taken, b_star);
}

#[test]
fn bsd_ec_count_curve1() {
    // y² = x³ + 1
    let (prog, b_star, _) = build_bsd_ec_count(97, 1);
    let (outcome, _) = Vm::run(&prog, b_star);
    assert_eq!(outcome, VmOutcome::Halted(1));
}

#[test]
fn bsd_ec_count_curve2() {
    // y² = x³ - x + 1 (conductor 37, rank 1)
    let (prog, b_star, _) = build_bsd_ec_count(97, 2);
    let (outcome, _) = Vm::run(&prog, b_star);
    assert_eq!(outcome, VmOutcome::Halted(1));
}

#[test]
fn weak_goldbach_small() {
    let (prog, b_star, desc) = build_weak_goldbach(101);
    let (outcome, state) = Vm::run(&prog, b_star);
    assert_eq!(outcome, VmOutcome::Halted(1),
        "Weak Goldbach failed for n_max=101: {:?} after {} steps", outcome, state.steps_taken);
    assert!(desc.contains("Goldbach"));
}

#[test]
fn bertrand_small() {
    let (prog, b_star, desc) = build_bertrand(100);
    let (outcome, state) = Vm::run(&prog, b_star);
    assert_eq!(outcome, VmOutcome::Halted(1),
        "Bertrand failed for n_max=100: {:?} after {} steps", outcome, state.steps_taken);
    assert!(desc.contains("Bertrand"));
}

#[test]
fn bertrand_1000() {
    let (prog, b_star, _) = build_bertrand(1000);
    let (outcome, state) = Vm::run(&prog, b_star);
    assert_eq!(outcome, VmOutcome::Halted(1),
        "Bertrand failed for n_max=1000 after {} steps (B*={})", state.steps_taken, b_star);
}

#[test]
fn lagrange_four_squares_small() {
    let (prog, b_star, desc) = build_lagrange_four_squares(100);
    let (outcome, state) = Vm::run(&prog, b_star);
    assert_eq!(outcome, VmOutcome::Halted(1),
        "Lagrange failed for n_max=100: {:?} after {} steps", outcome, state.steps_taken);
    assert!(desc.contains("Lagrange"));
}

#[test]
fn lagrange_four_squares_500() {
    let (prog, b_star, _) = build_lagrange_four_squares(500);
    let (outcome, state) = Vm::run(&prog, b_star);
    assert_eq!(outcome, VmOutcome::Halted(1),
        "Lagrange failed for n_max=500 after {} steps (B*={})", state.steps_taken, b_star);
}


#[test]
fn bsd_hasse_bound_fails_mod_eight() {
    // y² = x³ + 1 over Z/8 has 21 points, and (21 - 9)² > 4·8.
    let (prog, b_star, _) = build_bsd_ec_count(8, 1);
    let (outcome, _) = Vm::run(&prog, b_star);
    assert_eq!(outcome, VmOutcome::Halted(0));
}

#[test]
fn bsd_hasse_bound_mod_one() {
    let (prog, b_star, _) = build_bsd_ec_count(1, 0);
    let (outcome, _) = Vm::run(&prog, b_star);
    assert_eq!(outcome, VmOutcome::Halted(1));
}

#[test]
fn flt_without_bases_finds_nothing() {
    let (prog, b_star, _) = build_flt(6, 0);
    let (outcome, _) = Vm::run(&prog, b_star);
    assert_eq!(outcome, VmOutcome::Halted(1));
}

#[test]
fn mertens_bound_one() {
    let (prog, b_star, _) = build_mertens(1);
    let (outcome, _) = Vm::run(&prog, b_star);
    assert_eq!(outcome, VmOutcome::Halted(1));
}

#[test]
fn erdos_straus_up_to_two() {
    let (prog, b_star, _) = build_erdos_straus(2);
    let (outcome, _) = Vm::run(&prog, b_star);
    assert_eq!(outcome, VmOutcome::Halted(1));
}

#[test]
fn lagrange_four_squares_one() {
    let (prog, b_star, _) = build_lagrange_four_squares(1);
    let (outcome, _) = Vm::run(&prog, b_star);
    assert_eq!(outcome, VmOutcome::Halted(1));
}

#[test]
fn weak_goldbach_below_seven() {
    let (prog, b_star, _) = build_weak_goldbach(5);
    let (outcome, _) = Vm::run(&prog, b_star);
    assert_eq!(outcome, VmOutcome::Halted(1));
}
