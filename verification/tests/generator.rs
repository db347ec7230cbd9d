use kernel_frc::proof_enum::core_term::CoreTerm;
use kernel_frc::proof_enum::elab::{elab_problem, ElabResult};
use kernel_frc::proof_enum::generator::{Generator, GeneratorResult};
use kernel_frc::proof_enum::rewrite::make_rule;

#[test]
fn generator_testing() {
    let g = Generator::testing(100);
    assert_eq!(g.snapshot_budget, 100);
    assert_eq!(g.basis.len(), 0);
}

#[test]
fn g_not_in_universe_for_stubs() {
    // Use a truly unknown problem (falls through to "True" default)
    let mut g = Generator::testing(10);
    let result = g.generate("nonexistent_stub_xyz");
    match &result {
        GeneratorResult::NotInUniverse { reason, .. } => {
            assert!(reason.contains("placeholder"));
        }
        other => panic!("stub problem should be NotInUniverse, got {:?}", other),
    }
}

#[test]
fn g_computing_for_open() {
    let mut g = Generator::testing(10);
    let result = g.generate("goldbach");
    // With budget=10, G snapshots as Computing (not Frontier!)
    match &result {
        GeneratorResult::Computing { candidates_computed, .. } => {
            assert!(*candidates_computed <= 10);
        }
        GeneratorResult::Proved { .. } => {
            // If G found it, even better
        }
        other => panic!("expected Computing or Proved, got {:?}", other),
    }
}

#[test]
fn g_never_returns_frontier() {
    let mut g = Generator::testing(5);
    for id in &["goldbach", "collatz", "twin_primes"] {
        let result = g.generate(id);
        match &result {
            GeneratorResult::Proved { .. } => {}
            GeneratorResult::Computing { .. } => {}
            GeneratorResult::NotInUniverse { .. } => {}
        }
    }
}

#[test]
fn g_rules_grow_across_problems() {
    let mut g = Generator::testing(5);
    g.generate("zfc_zero_ne_one");
    let r1 = g.basis.len();
    g.generate("lagrange");
    let r2 = g.basis.len();
    assert!(r2 >= r1, "R should grow as more proofs are found");
}

#[test]
fn g_answers_from_the_basis() {
    let goal = match elab_problem("goldbach") {
        ElabResult::Elaborated { goal, .. } => goal,
        other => panic!("expected a goal, got {:?}", other),
    };
    let marker = CoreTerm::Constructor { inductive: "Proved".into(), ctor_name: "mk".into(), args: vec![goal.clone()] };
    let mut g = Generator::testing(5);
    g.basis.add_rule(make_rule(goal, marker.clone(), b"cached"));
    match g.generate("goldbach") {
        GeneratorResult::Proved { witness, method, rank, rules_extracted, statement_id, witness_bytes } => {
            assert_eq!(witness, marker);
            assert_eq!(witness_bytes, marker.to_bytes());
            assert_eq!(method, "R_cache");
            assert_eq!(rank, 0);
            assert_eq!(rules_extracted, 0);
            assert_eq!(statement_id, "goldbach");
        }
        other => panic!("expected the cached proof, got {:?}", other),
    }
    assert_eq!(g.basis.rules()[0].application_count, 1);
}

#[test]
fn g_snapshot_reports_budget() {
    let mut g = Generator::testing(7);
    match g.generate("goldbach") {
        GeneratorResult::Computing { candidates_computed, current_rank, statement_id } => {
            assert_eq!(candidates_computed, 7);
            assert_eq!(current_rank, 7);
            assert_eq!(statement_id, "goldbach");
        }
        other => panic!("expected a snapshot, got {:?}", other),
    }
    assert_eq!(g.basis.len(), 0);
}

#[test]
fn g_stub_reason_text() {
    let mut g = Generator::testing(1);
    match g.generate("nonexistent_stub_xyz") {
        GeneratorResult::NotInUniverse { statement_id, reason } => {
            assert_eq!(statement_id, "nonexistent_stub_xyz");
            assert_eq!(reason, "'nonexistent_stub_xyz' has placeholder formalization (True)");
        }
        other => panic!("expected NotInUniverse, got {:?}", other),
    }
}
