use kernel_frc::proof_enum::statement::{get_all_statements, get_statement, is_formalized, Difficulty};

#[test]
fn all_20_statements_exist() {
    let stmts = get_all_statements();
    assert_eq!(stmts.len(), 20);
}

#[test]
fn known_problems_have_real_props() {
    for id in &["zfc_zero_ne_one", "lagrange", "flt"] {
        let stmt = get_statement(id);
        assert_ne!(stmt.lean_prop, "True", "{} should have a real Lean prop", id);
        assert_eq!(stmt.difficulty, Difficulty::Known);
    }
}

#[test]
fn open_problems_classified() {
    for id in &["goldbach", "collatz", "twin_primes"] {
        let stmt = get_statement(id);
        assert_eq!(stmt.difficulty, Difficulty::Open);
    }
}

#[test]
fn millennium_problems_classified() {
    for id in &["p_vs_np", "riemann_full", "navier_stokes", "yang_mills", "hodge", "bsd_full"] {
        let stmt = get_statement(id);
        assert_eq!(stmt.difficulty, Difficulty::Millennium);
    }
}

#[test]
fn formalized_count() {
    let stmts = get_all_statements();
    let formalized = stmts.iter().filter(|s| is_formalized(s)).count();
    // 13 problems have real Lean formalization (7 Known + 6 Open with real statements)
    // 7 pending formalization: mertens + 6 Millennium (p_vs_np, riemann_full, navier_stokes, yang_mills, hodge, bsd_full)
    assert_eq!(formalized, 13, "13 problems should be formalized, got {}", formalized);
}

#[test]
fn pending_formalization_are_true() {
    // 7 problems with pending formalization have honest "True" stubs
    let pending = ["mertens", "p_vs_np", "riemann_full", "navier_stokes", "yang_mills", "hodge", "bsd_full"];
    for id in &pending {
        let stmt = get_statement(id);
        assert_eq!(stmt.lean_prop, "True",
            "{} should have 'True' (formalization pending)", id);
    }
}

#[test]
fn namespaces_are_valid() {
    for stmt in get_all_statements() {
        assert!(stmt.namespace.starts_with("ProofEnum."), "{} namespace invalid", stmt.id);
        // No spaces or hyphens in namespace
        assert!(!stmt.namespace.contains(' '), "{} namespace has spaces", stmt.id);
        assert!(!stmt.namespace.contains('-'), "{} namespace has hyphens", stmt.id);
    }
}
