use kernel_frc::proof_enum::core_term::{CoreDef, CoreEnv, CoreTerm};
use kernel_frc::proof_enum::reduce::{reduce_step, ReductionKind};

fn nat_const() -> CoreTerm {
    CoreTerm::Const { name: "Nat".into(), levels: vec![] }
}

#[test]
fn beta_reduction() {
    // (λ Nat. Var(0)) 42 → 42
    let term = CoreTerm::App {
        func: Box::new(CoreTerm::Lam {
            param_type: Box::new(nat_const()),
            body: Box::new(CoreTerm::Var(0)),
        }),
        arg: Box::new(CoreTerm::NatLit(42)),
    };

    let env = CoreEnv::new();
    let (reduced, kind) = reduce_step(&term, &env).unwrap();
    assert_eq!(kind, ReductionKind::Beta);
    assert_eq!(reduced, CoreTerm::NatLit(42));
}

#[test]
fn zeta_reduction() {
    // let x : Nat := 5 in Var(0) → 5
    let term = CoreTerm::Let {
        bound_type: Box::new(nat_const()),
        value: Box::new(CoreTerm::NatLit(5)),
        body: Box::new(CoreTerm::Var(0)),
    };

    let env = CoreEnv::new();
    let (reduced, kind) = reduce_step(&term, &env).unwrap();
    assert_eq!(kind, ReductionKind::Zeta);
    assert_eq!(reduced, CoreTerm::NatLit(5));
}

#[test]
fn delta_reduction() {
    // Const("myval") with env[myval := 99] → 99
    let term = CoreTerm::Const { name: "myval".into(), levels: vec![] };

    let mut env = CoreEnv::new();
    env.add_def(CoreDef {
        name: "myval".into(),
        ty: nat_const(),
        value: Some(CoreTerm::NatLit(99)),
        universe_params: vec![],
    });

    let (reduced, kind) = reduce_step(&term, &env).unwrap();
    assert_eq!(kind, ReductionKind::Delta("myval".into()));
    assert_eq!(reduced, CoreTerm::NatLit(99));
}

#[test]
fn nat_add() {
    // Nat.add 3 4 → 7
    let term = CoreTerm::App {
        func: Box::new(CoreTerm::App {
            func: Box::new(CoreTerm::Const { name: "Nat.add".into(), levels: vec![] }),
            arg: Box::new(CoreTerm::NatLit(3)),
        }),
        arg: Box::new(CoreTerm::NatLit(4)),
    };

    let env = CoreEnv::new();
    let (reduced, kind) = reduce_step(&term, &env).unwrap();
    assert_eq!(kind, ReductionKind::NatCompute);
    assert_eq!(reduced, CoreTerm::NatLit(7));
}

#[test]
fn nat_mul() {
    // Nat.mul 6 7 → 42
    let term = CoreTerm::App {
        func: Box::new(CoreTerm::App {
            func: Box::new(CoreTerm::Const { name: "Nat.mul".into(), levels: vec![] }),
            arg: Box::new(CoreTerm::NatLit(6)),
        }),
        arg: Box::new(CoreTerm::NatLit(7)),
    };

    let env = CoreEnv::new();
    let (reduced, kind) = reduce_step(&term, &env).unwrap();
    assert_eq!(kind, ReductionKind::NatCompute);
    assert_eq!(reduced, CoreTerm::NatLit(42));
}

#[test]
fn nat_beq() {
    // Nat.beq 5 5 → Bool.true
    let term = CoreTerm::App {
        func: Box::new(CoreTerm::App {
            func: Box::new(CoreTerm::Const { name: "Nat.beq".into(), levels: vec![] }),
            arg: Box::new(CoreTerm::NatLit(5)),
        }),
        arg: Box::new(CoreTerm::NatLit(5)),
    };

    let env = CoreEnv::new();
    let (reduced, kind) = reduce_step(&term, &env).unwrap();
    assert_eq!(kind, ReductionKind::NatCompute);
    assert_eq!(reduced, CoreTerm::Constructor {
        inductive: "Bool".into(),
        ctor_name: "true".into(),
        args: vec![],
    });
}

#[test]
fn iota_nat_zero() {
    // Nat.rec motive zero_case succ_case 0 → zero_case
    let term = CoreTerm::Recursor {
        inductive: "Nat".into(),
        args: vec![
            CoreTerm::Prop,           // motive
            CoreTerm::NatLit(100),    // zero_case
            CoreTerm::Var(0),         // succ_case
            CoreTerm::NatLit(0),      // target = 0
        ],
    };

    let env = CoreEnv::new();
    let (reduced, kind) = reduce_step(&term, &env).unwrap();
    assert_eq!(kind, ReductionKind::Iota);
    assert_eq!(reduced, CoreTerm::NatLit(100));
}
