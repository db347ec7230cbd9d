use kernel_frc::proof_enum::core_term::CoreTerm;
use kernel_frc::proof_enum::extract::extract_rules;

#[test]
fn extract_from_simple_proof() {
    let witness = CoreTerm::NatLit(42);
    let goal = CoreTerm::Const { name: "Nat".into(), levels: vec![] };
    let rules = extract_rules(&witness, &goal);
    // Should have at least the full-proof rule
    assert!(!rules.is_empty(), "should extract at least 1 rule");
    // First rule: goal → PROVED
    assert_eq!(rules[0].lhs, goal);
}

#[test]
fn extract_from_compound_proof() {
    // A proof with application structure: (f a) b
    let witness = CoreTerm::App {
        func: Box::new(CoreTerm::App {
            func: Box::new(CoreTerm::Const { name: "lemma1".into(), levels: vec![] }),
            arg: Box::new(CoreTerm::NatLit(5)),
        }),
        arg: Box::new(CoreTerm::NatLit(10)),
    };
    let goal = CoreTerm::Prop;
    let rules = extract_rules(&witness, &goal);
    // Should have the full-proof rule + extracted sub-lemmas
    assert!(rules.len() >= 1);
    assert_eq!(rules.len(), 2);
    assert_eq!(rules[1].lhs, witness);
    assert_eq!(rules[1].rhs, witness);
}

#[test]
fn extract_preserves_soundness_proof() {
    let witness = CoreTerm::NatLit(0);
    let goal = CoreTerm::Prop;
    let rules = extract_rules(&witness, &goal);
    for rule in &rules {
        // Every rule should carry the witness bytes as soundness proof
        assert!(!rule.soundness_proof.is_empty());
        assert_eq!(rule.soundness_proof, witness.to_bytes());
        assert_eq!(rule.application_count, 0);
    }
}

#[test]
fn extract_from_lambda_proof() {
    // λ (n : Nat). Constructor(Exists, intro, [n, proof_n])
    let witness = CoreTerm::Lam {
        param_type: Box::new(CoreTerm::Const { name: "Nat".into(), levels: vec![] }),
        body: Box::new(CoreTerm::Constructor {
            inductive: "Exists".into(),
            ctor_name: "intro".into(),
            args: vec![
                CoreTerm::Var(0),
                CoreTerm::App {
                    func: Box::new(CoreTerm::Const { name: "proof_p".into(), levels: vec![] }),
                    arg: Box::new(CoreTerm::Var(0)),
                },
            ],
        }),
    };
    let goal = CoreTerm::Pi {
        param_type: Box::new(CoreTerm::Const { name: "Nat".into(), levels: vec![] }),
        body: Box::new(CoreTerm::Prop),
    };
    let rules = extract_rules(&witness, &goal);
    assert!(!rules.is_empty());
    assert_eq!(
        rules[0].rhs,
        CoreTerm::Constructor { inductive: "Proved".into(), ctor_name: "mk".into(), args: vec![goal.clone()] }
    );
}
