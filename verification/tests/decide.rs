use kernel_frc::proof_enum::core_term::{CoreCtx, CoreEnv, CoreTerm};
use kernel_frc::proof_enum::decide::{
    classify_candidate, decide_by_enumeration, independence_type, negate, Classification, Decision, PiDecide,
    WitnessSearch,
};
use kernel_frc::proof_enum::generator::generate_by_enumeration;

#[test]
fn negate_constructs_pi_to_false() {
    let goal = CoreTerm::Const { name: "Nat".into(), levels: vec![] };
    let neg = negate(&goal);
    match neg {
        CoreTerm::Pi { param_type, body } => {
            assert_eq!(*param_type, goal);
            assert_eq!(*body, CoreTerm::Const { name: "False".into(), levels: vec![] });
        }
        other => panic!("expected Pi, got {:?}", other),
    }
}

#[test]
fn independence_type_is_constructor() {
    let goal = CoreTerm::Prop;
    let ind = independence_type(&goal);
    match ind {
        CoreTerm::Constructor { inductive, ctor_name, args } => {
            assert_eq!(inductive, "Independent");
            assert_eq!(ctor_name, "mk");
            assert_eq!(args.len(), 1);
        }
        other => panic!("expected Constructor, got {:?}", other),
    }
}

#[test]
fn classify_candidate_first_passing_goal() {
    let ctx = CoreCtx::new();
    let env = CoreEnv::new();
    let nat = CoreTerm::Const { name: "Nat".into(), levels: vec![] };
    assert_eq!(
        classify_candidate(&ctx, &CoreTerm::NatLit(1), &nat, &env),
        Some(Classification::ProvedTrue)
    );
    assert_eq!(classify_candidate(&ctx, &CoreTerm::NatLit(1), &CoreTerm::Prop, &env), None);
    // λ (p : Nat). p has type Nat → Nat; against the goal S = Nat it is no
    // proof of S, and ¬S = Nat → False differs from Nat → Nat.
    let id = CoreTerm::Lam { param_type: Box::new(nat.clone()), body: Box::new(CoreTerm::Var(0)) };
    assert_eq!(classify_candidate(&ctx, &id, &nat, &env), None);
}

#[test]
fn decide_by_enumeration_finds_least_witness() {
    let env = CoreEnv::new();
    let nat = CoreTerm::Const { name: "Nat".into(), levels: vec![] };
    // The byte 0x02 (rank 3) is the term Prop, of type Type(0).
    match decide_by_enumeration(&CoreTerm::Type(0), &env, 100) {
        WitnessSearch::Found { rank, candidate, classification, .. } => {
            assert_eq!(rank, 3);
            assert_eq!(candidate, CoreTerm::Prop);
            assert_eq!(classification, Classification::ProvedTrue);
        }
        other => panic!("expected a witness, got {:?}", other),
    }
    // The text "0" (the byte 48, rank 49) is the first proof of Nat.
    match decide_by_enumeration(&nat, &env, 100) {
        WitnessSearch::Found { rank, candidate, .. } => {
            assert_eq!(rank, 49);
            assert_eq!(candidate, CoreTerm::NatLit(0));
        }
        other => panic!("expected a witness, got {:?}", other),
    }
    assert!(matches!(
        decide_by_enumeration(&nat, &env, 49),
        WitnessSearch::Computing { candidates_computed: 49, current_rank: 49 }
    ));
}

#[test]
fn generate_by_enumeration_finds_nat_literal() {
    let env = CoreEnv::new();
    let nat = CoreTerm::Const { name: "Nat".into(), levels: vec![] };
    match generate_by_enumeration(&nat, &env, 1000) {
        WitnessSearch::Found { rank, candidate, classification, .. } => {
            assert_eq!(rank, 49);
            assert_eq!(candidate, CoreTerm::NatLit(0));
            assert_eq!(classification, Classification::ProvedTrue);
        }
        other => panic!("expected a witness, got {:?}", other),
    }
}

#[test]
fn decide_open_is_computing() {
    let mut d = PiDecide::testing(10);
    let result = d.decide("goldbach");
    // With budget=10, G hasn't found a witness in any of the three spaces
    match &result {
        Decision::Computing { candidates_computed, .. } => {
            assert!(*candidates_computed <= 10);
        }
        Decision::ProvedTrue { .. } | Decision::ProvedFalse { .. } | Decision::ProvedIndependent { .. } => {
            // If G decided it, even better
        }
        other => panic!("expected Computing or decided, got {:?}", other.status_str()),
    }
}

#[test]
fn decide_never_returns_frontier() {
    let mut d = PiDecide::testing(5);
    for id in &["goldbach", "collatz", "p_vs_np"] {
        let result = d.decide(id);
        let status = result.status_str();
        assert!(
            status == "PROVED(S)" || status == "PROVED(¬S)" || status == "PROVED(IND)" || status == "COMPUTING" || status == "NOT_IN_𝒰",
            "unexpected status '{}' for {}", status, id
        );
    }
}

#[test]
fn decide_stub_is_not_in_universe() {
    let mut d = PiDecide::testing(10);
    let result = d.decide("nonexistent_stub_xyz");
    match &result {
        Decision::NotInUniverse { reason, .. } => {
            assert!(reason.contains("placeholder"));
        }
        other => panic!("expected NotInUniverse, got {:?}", other.status_str()),
    }
}

#[test]
fn decide_deterministic() {
    let mut d1 = PiDecide::testing(5);
    let mut d2 = PiDecide::testing(5);
    let r1 = d1.decide("zfc_zero_ne_one");
    let r2 = d2.decide("zfc_zero_ne_one");
    assert_eq!(r1.status_str(), r2.status_str(), "Π_decide must be deterministic");
}

#[test]
fn decide_r_grows() {
    let mut d = PiDecide::testing(5);
    d.decide("zfc_zero_ne_one");
    let r1 = d.basis.len();
    d.decide("lagrange");
    let r2 = d.basis.len();
    assert!(r2 >= r1, "R should grow as more problems are decided");
}

#[test]
fn decide_snapshot_and_reason() {
    let mut d = PiDecide::testing(4);
    match d.decide("goldbach") {
        Decision::Computing { candidates_computed, current_rank, .. } => {
            assert_eq!(candidates_computed, 4);
            assert_eq!(current_rank, 4);
        }
        other => panic!("expected a snapshot, got {:?}", other.status_str()),
    }
    match d.decide("nonexistent_stub_xyz") {
        Decision::NotInUniverse { statement_id, reason } => {
            assert_eq!(statement_id, "nonexistent_stub_xyz");
            assert_eq!(reason, "'nonexistent_stub_xyz' has placeholder formalization");
        }
        other => panic!("expected NotInUniverse, got {:?}", other.status_str()),
    }
}
