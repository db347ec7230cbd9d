use kernel_frc::proof_enum::core_term::CoreTerm;
use kernel_frc::proof_enum::elab::{elab_problem, elab_witness_bytes, parse_lean_prop_to_core, ElabResult};

fn konst(name: &str) -> CoreTerm {
    CoreTerm::Const { name: name.into(), levels: vec![] }
}

fn binary(f: &str, a: CoreTerm, b: CoreTerm) -> CoreTerm {
    CoreTerm::App {
        func: Box::new(CoreTerm::App { func: Box::new(konst(f)), arg: Box::new(a) }),
        arg: Box::new(b),
    }
}

#[test]
fn elab_witness_bytes_natlit() {
    let term = CoreTerm::NatLit(42);
    let bytes = term.to_bytes();
    let parsed = elab_witness_bytes(&bytes).unwrap();
    assert_eq!(parsed, term);
}

#[test]
fn elab_witness_bytes_text() {
    let bytes = b"42";
    let parsed = elab_witness_bytes(bytes).unwrap();
    assert_eq!(parsed, CoreTerm::NatLit(42));
}

#[test]
fn elab_witness_bytes_invalid() {
    let bytes = &[0xFF, 0xFE, 0xFD]; // not valid CoreTerm or UTF-8
    assert!(elab_witness_bytes(bytes).is_none());
}

#[test]
fn elab_witness_bytes_identifier_and_rejects() {
    assert_eq!(elab_witness_bytes(b"  Nat.succ_le ").unwrap(), konst("Nat.succ_le"));
    assert!(elab_witness_bytes(b"a b").is_none());
    assert!(elab_witness_bytes(b"   ").is_none());
}

#[test]
fn parse_simple_prop() {
    let goal = parse_lean_prop_to_core("(0 : Nat) ≠ 1");
    // Should produce Ne(0, 1) structure
    match &goal {
        CoreTerm::App { func, .. } => match func.as_ref() {
            CoreTerm::App { func: inner, .. } => match inner.as_ref() {
                CoreTerm::Const { name, .. } => assert_eq!(name, "Ne"),
                other => panic!("expected Ne const, got {:?}", other),
            },
            other => panic!("expected App, got {:?}", other),
        },
        other => panic!("expected App for Ne, got {:?}", other),
    }
}

#[test]
fn parse_prop_ne_exact() {
    let goal = parse_lean_prop_to_core("(0 : Nat) ≠ 1");
    assert_eq!(goal, binary("Ne", konst("Nat"), CoreTerm::NatLit(1)));
}

#[test]
fn parse_prop_forall_and_implication() {
    let goal = parse_lean_prop_to_core("∀ n : Nat, n ≥ 2 → P n");
    let expected = CoreTerm::Pi {
        param_type: Box::new(konst("Nat")),
        body: Box::new(CoreTerm::Pi {
            param_type: Box::new(binary("Ge", konst("n"), CoreTerm::NatLit(2))),
            body: Box::new(konst("P n")),
        }),
    };
    assert_eq!(goal, expected);
}

#[test]
fn parse_prop_forall_word_untyped_binder_and_prop() {
    let goal = parse_lean_prop_to_core("forall x, x");
    assert_eq!(
        goal,
        CoreTerm::Pi { param_type: Box::new(konst("Nat")), body: Box::new(konst("x")) }
    );
    let goal = parse_lean_prop_to_core("∀ p : Prop, p");
    assert_eq!(goal, CoreTerm::Pi { param_type: Box::new(CoreTerm::Prop), body: Box::new(konst("p")) });
}

#[test]
fn parse_prop_exists_kept_whole() {
    let goal = parse_lean_prop_to_core("  ∃ p, p > 5 ");
    assert_eq!(goal, konst("Exists(∃ p, p > 5)"));
}

#[test]
fn parse_prop_conjunction_negation() {
    let goal = parse_lean_prop_to_core("¬ A ∧ (B ∧ C)");
    let expected = binary(
        "And",
        CoreTerm::App { func: Box::new(konst("Not")), arg: Box::new(konst("A")) },
        binary("And", konst("B"), konst("C")),
    );
    assert_eq!(goal, expected);
}

#[test]
fn parse_prop_brackets_hide_operators() {
    // The comma inside brackets is not the binder's end.
    let goal = parse_lean_prop_to_core("∀ x, f (a, b)");
    assert_eq!(
        goal,
        CoreTerm::Pi { param_type: Box::new(konst("Nat")), body: Box::new(konst("f (a, b)")) }
    );
    // A literal too large for u64 stays a name.
    let goal = parse_lean_prop_to_core("18446744073709551616");
    assert_eq!(goal, konst("18446744073709551616"));
}

#[test]
fn elab_known_problem() {
    let result = elab_problem("zfc_zero_ne_one");
    assert!(result.is_ok(), "known problem should elaborate");
}

#[test]
fn elab_open_problem() {
    let result = elab_problem("goldbach");
    assert!(result.is_ok(), "formalized open problem should elaborate");
}

#[test]
fn elab_stub_problem_is_ill_typed() {
    // Use a truly unknown problem (falls through to "True" default)
    let result = elab_problem("nonexistent_stub_xyz");
    assert!(!result.is_ok(), "stub (True) problem should be ill-typed");
}

#[test]
fn elab_produces_goal() {
    match elab_problem("goldbach") {
        ElabResult::Elaborated { goal, .. } => match &goal {
            CoreTerm::Pi { .. } => {}
            other => panic!("expected Pi type for ∀, got {:?}", other),
        },
        other => panic!("expected a goal, got {:?}", other),
    }
}

#[test]
fn elab_stub_names_statement_and_hole_is_var_zero() {
    match elab_problem("nonexistent_stub_xyz") {
        ElabResult::IllTyped { statement_id } => assert_eq!(statement_id, "nonexistent_stub_xyz"),
        other => panic!("expected ill-typed, got {:?}", other),
    }
    match elab_problem("zfc_zero_ne_one") {
        ElabResult::Elaborated { term, .. } => assert_eq!(term, CoreTerm::Var(0)),
        other => panic!("expected a goal, got {:?}", other),
    }
}
