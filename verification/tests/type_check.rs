use kernel_frc::proof_enum::core_term::{CoreCtx, CoreDef, CoreEnv, CoreTerm};
use kernel_frc::proof_enum::type_check::{infer_type, type_check, CheckFailure, CheckResult, TypeError};

fn nat_type() -> CoreTerm {
    CoreTerm::Const { name: "Nat".into(), levels: vec![] }
}

fn nat_binop_type() -> CoreTerm {
    let nat = CoreTerm::Const { name: "Nat".into(), levels: vec![] };
    CoreTerm::Pi {
        param_type: Box::new(nat.clone()),
        body: Box::new(CoreTerm::Pi { param_type: Box::new(nat.clone()), body: Box::new(nat) }),
    }
}

#[test]
fn check_nat_lit() {
    let ctx = CoreCtx::new();
    let env = CoreEnv::new();
    let result = type_check(&ctx, &CoreTerm::NatLit(42), &nat_type(), &env);
    assert!(result.is_pass());
}

#[test]
fn check_nat_lit_wrong_type() {
    let ctx = CoreCtx::new();
    let env = CoreEnv::new();
    let result = type_check(&ctx, &CoreTerm::NatLit(42), &CoreTerm::Prop, &env);
    assert!(result.is_fail());
}

#[test]
fn check_var_in_context() {
    let mut ctx = CoreCtx::new();
    ctx.push(Some("n".into()), nat_type());
    let env = CoreEnv::new();
    let result = type_check(&ctx, &CoreTerm::Var(0), &nat_type(), &env);
    assert!(result.is_pass());
}

#[test]
fn check_unbound_var() {
    let ctx = CoreCtx::new();
    let env = CoreEnv::new();
    let result = type_check(&ctx, &CoreTerm::Var(0), &nat_type(), &env);
    assert!(result.is_fail());
}

#[test]
fn check_identity_lambda() {
    // λ (n : Nat). n  :  Nat → Nat
    let ctx = CoreCtx::new();
    let env = CoreEnv::new();
    let identity = CoreTerm::Lam { param_type: Box::new(nat_type()), body: Box::new(CoreTerm::Var(0)) };
    let expected_type = CoreTerm::Pi { param_type: Box::new(nat_type()), body: Box::new(nat_type()) };
    let result = type_check(&ctx, &identity, &expected_type, &env);
    assert!(result.is_pass(), "identity should have type Nat → Nat: {:?}", result);
}

#[test]
fn check_const_lambda() {
    // λ (n : Nat). 0  :  Nat → Nat
    let ctx = CoreCtx::new();
    let env = CoreEnv::new();
    let const_fn = CoreTerm::Lam { param_type: Box::new(nat_type()), body: Box::new(CoreTerm::NatLit(0)) };
    let expected_type = CoreTerm::Pi { param_type: Box::new(nat_type()), body: Box::new(nat_type()) };
    let result = type_check(&ctx, &const_fn, &expected_type, &env);
    assert!(result.is_pass());
}

#[test]
fn check_application() {
    // (λ (n : Nat). n) 42  :  Nat
    let ctx = CoreCtx::new();
    let env = CoreEnv::new();
    let app = CoreTerm::App {
        func: Box::new(CoreTerm::Lam { param_type: Box::new(nat_type()), body: Box::new(CoreTerm::Var(0)) }),
        arg: Box::new(CoreTerm::NatLit(42)),
    };
    let result = type_check(&ctx, &app, &nat_type(), &env);
    assert!(result.is_pass(), "id(42) should have type Nat: {:?}", result);
}

#[test]
fn check_nat_zero_constructor() {
    let ctx = CoreCtx::new();
    let env = CoreEnv::new();
    let zero = CoreTerm::Constructor { inductive: "Nat".into(), ctor_name: "zero".into(), args: vec![] };
    let result = type_check(&ctx, &zero, &nat_type(), &env);
    assert!(result.is_pass());
}

#[test]
fn check_nat_succ_constructor() {
    let ctx = CoreCtx::new();
    let env = CoreEnv::new();
    let one = CoreTerm::Constructor {
        inductive: "Nat".into(),
        ctor_name: "succ".into(),
        args: vec![CoreTerm::NatLit(0)],
    };
    let result = type_check(&ctx, &one, &nat_type(), &env);
    assert!(result.is_pass());
}

#[test]
fn check_let_binding() {
    // let x : Nat := 5 in x  :  Nat
    let ctx = CoreCtx::new();
    let env = CoreEnv::new();
    let term = CoreTerm::Let {
        bound_type: Box::new(nat_type()),
        value: Box::new(CoreTerm::NatLit(5)),
        body: Box::new(CoreTerm::Var(0)),
    };
    let result = type_check(&ctx, &term, &nat_type(), &env);
    assert!(result.is_pass());
}

#[test]
fn check_let_type_mismatch() {
    // let x : Nat := Prop in x  — type error (Prop is not Nat)
    let ctx = CoreCtx::new();
    let env = CoreEnv::new();
    let term = CoreTerm::Let {
        bound_type: Box::new(nat_type()),
        value: Box::new(CoreTerm::Prop),
        body: Box::new(CoreTerm::Var(0)),
    };
    let result = type_check(&ctx, &term, &nat_type(), &env);
    assert!(result.is_fail());
}

#[test]
fn check_prop_type() {
    // Prop : Type(0)
    let ctx = CoreCtx::new();
    let env = CoreEnv::new();
    let result = type_check(&ctx, &CoreTerm::Prop, &CoreTerm::Type(0), &env);
    assert!(result.is_pass());
}

#[test]
fn check_type_universe() {
    // Type(0) : Type(1)
    let ctx = CoreCtx::new();
    let env = CoreEnv::new();
    let result = type_check(&ctx, &CoreTerm::Type(0), &CoreTerm::Type(1), &env);
    assert!(result.is_pass());
}

#[test]
fn check_env_constant() {
    let ctx = CoreCtx::new();
    let mut env = CoreEnv::new();
    env.add_def(CoreDef {
        name: "my_val".into(),
        ty: nat_type(),
        value: Some(CoreTerm::NatLit(99)),
        universe_params: vec![],
    });
    let result = type_check(&ctx, &CoreTerm::Const { name: "my_val".into(), levels: vec![] }, &nat_type(), &env);
    assert!(result.is_pass());
}

#[test]
fn check_nat_add_type() {
    // Nat.add : Nat → Nat → Nat
    let ctx = CoreCtx::new();
    let env = CoreEnv::new();
    let result = type_check(&ctx, &CoreTerm::Const { name: "Nat.add".into(), levels: vec![] }, &nat_binop_type(), &env);
    assert!(result.is_pass());
}

#[test]
fn check_bool_constructor() {
    let ctx = CoreCtx::new();
    let env = CoreEnv::new();
    let bool_type = CoreTerm::Const { name: "Bool".into(), levels: vec![] };
    let t = CoreTerm::Constructor { inductive: "Bool".into(), ctor_name: "true".into(), args: vec![] };
    let result = type_check(&ctx, &t, &bool_type, &env);
    assert!(result.is_pass());
}

#[test]
fn check_failure_reports_types() {
    let ctx = CoreCtx::new();
    let env = CoreEnv::new();
    match type_check(&ctx, &CoreTerm::NatLit(1), &CoreTerm::Prop, &env) {
        CheckResult::Fail { reason: CheckFailure::TypeMismatch { inferred, expected } } => {
            assert_eq!(inferred, nat_type());
            assert_eq!(expected, CoreTerm::Prop);
        }
        other => panic!("expected a type mismatch, got {:?}", other),
    }
    match type_check(&ctx, &CoreTerm::Var(3), &nat_type(), &env) {
        CheckResult::Fail { reason: CheckFailure::IllTyped(TypeError::UnboundVariable(3)) } => {}
        other => panic!("expected an unbound variable, got {:?}", other),
    }
}

#[test]
fn infer_pi_type() {
    // Nat → Nat  :  Type(0)
    let ctx = CoreCtx::new();
    let env = CoreEnv::new();

    let pi = CoreTerm::Pi {
        param_type: Box::new(nat_type()),
        body: Box::new(nat_type()),
    };

    let inferred = infer_type(&ctx, &pi, &env).unwrap();
    assert_eq!(inferred, CoreTerm::Type(0));
}

#[test]
fn infer_identity_lambda_type() {
    // λ (x : Nat). x  :  Nat → Nat
    let ctx = CoreCtx::new();
    let env = CoreEnv::new();
    let id = CoreTerm::Lam { param_type: Box::new(nat_type()), body: Box::new(CoreTerm::Var(0)) };
    let inferred = infer_type(&ctx, &id, &env).unwrap();
    assert_eq!(inferred, CoreTerm::Pi { param_type: Box::new(nat_type()), body: Box::new(nat_type()) });
}

#[test]
fn infer_application_type() {
    // (λ (x : Nat). x) 5  :  Nat
    let ctx = CoreCtx::new();
    let env = CoreEnv::new();
    let app = CoreTerm::App {
        func: Box::new(CoreTerm::Lam { param_type: Box::new(nat_type()), body: Box::new(CoreTerm::Var(0)) }),
        arg: Box::new(CoreTerm::NatLit(5)),
    };
    assert_eq!(infer_type(&ctx, &app, &env).unwrap(), nat_type());
}

#[test]
fn infer_unbound_variable_fails() {
    let ctx = CoreCtx::new();
    let env = CoreEnv::new();
    match infer_type(&ctx, &CoreTerm::Var(0), &env) {
        Err(TypeError::UnboundVariable(0)) => {}
        other => panic!("expected unbound variable, got {:?}", other),
    }
}

#[test]
fn infer_let_type_mismatch_fails() {
    // let x : Bool := 5 in x  is ill-typed
    let ctx = CoreCtx::new();
    let env = CoreEnv::new();
    let t = CoreTerm::Let {
        bound_type: Box::new(CoreTerm::Const { name: "Bool".into(), levels: vec![] }),
        value: Box::new(CoreTerm::NatLit(5)),
        body: Box::new(CoreTerm::Var(0)),
    };
    assert!(matches!(infer_type(&ctx, &t, &env), Err(TypeError::LetMismatch { .. })));
}

#[test]
fn infer_env_constant_and_builtins() {
    let ctx = CoreCtx::new();
    let mut env = CoreEnv::new();
    env.add_def(CoreDef {
        name: "two".into(),
        ty: nat_type(),
        value: Some(CoreTerm::NatLit(2)),
        universe_params: vec![],
    });
    let two = CoreTerm::Const { name: "two".into(), levels: vec![] };
    assert_eq!(infer_type(&ctx, &two, &env).unwrap(), nat_type());
    let prop = CoreTerm::Prop;
    assert_eq!(infer_type(&ctx, &prop, &env).unwrap(), CoreTerm::Type(0));
    let unknown = CoreTerm::Const { name: "Mystery".into(), levels: vec![] };
    assert!(matches!(infer_type(&ctx, &unknown, &env), Err(TypeError::UnknownConstant(_))));
}
