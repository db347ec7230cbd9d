use kernel_frc::proof_enum::core_term::{CoreCtx, CoreDef, CoreEnv, CoreTerm};

#[test]
fn empty_context() {
    let ctx = CoreCtx::new();
    assert_eq!(ctx.len(), 0);
    assert!(ctx.is_empty());
    assert!(ctx.lookup(0).is_none());
}

#[test]
fn context_push_lookup() {
    let mut ctx = CoreCtx::new();
    ctx.push(Some("n".into()), CoreTerm::Const { name: "Nat".into(), levels: vec![] });
    ctx.push(Some("h".into()), CoreTerm::Prop);

    assert_eq!(ctx.len(), 2);
    // Index 0 = most recent = "h"
    assert_eq!(ctx.lookup(0).unwrap().name.as_deref(), Some("h"));
    // Index 1 = older = "n"
    assert_eq!(ctx.lookup(1).unwrap().name.as_deref(), Some("n"));
}

#[test]
fn term_size() {
    assert_eq!(CoreTerm::Prop.size(), 1);
    assert_eq!(CoreTerm::NatLit(42).size(), 1);
    assert_eq!(CoreTerm::Var(0).size(), 1);

    let app = CoreTerm::App {
        func: Box::new(CoreTerm::Var(0)),
        arg: Box::new(CoreTerm::NatLit(1)),
    };
    assert_eq!(app.size(), 3);

    let lam = CoreTerm::Lam {
        param_type: Box::new(CoreTerm::Const { name: "Nat".into(), levels: vec![] }),
        body: Box::new(app),
    };
    assert_eq!(lam.size(), 5);
}

#[test]
fn byte_roundtrip_simple() {
    let terms = vec![
        CoreTerm::Type(0),
        CoreTerm::Prop,
        CoreTerm::Var(3),
        CoreTerm::NatLit(42),
        CoreTerm::Const { name: "Nat".into(), levels: vec![0] },
    ];

    for term in &terms {
        let bytes = term.to_bytes();
        let (parsed, len) = CoreTerm::from_bytes(&bytes).unwrap();
        assert_eq!(&parsed, term, "roundtrip failed for {:?}", term);
        assert_eq!(len, bytes.len());
    }
}

#[test]
fn byte_roundtrip_compound() {
    let term = CoreTerm::Lam {
        param_type: Box::new(CoreTerm::Const { name: "Nat".into(), levels: vec![] }),
        body: Box::new(CoreTerm::App {
            func: Box::new(CoreTerm::Var(1)),
            arg: Box::new(CoreTerm::Var(0)),
        }),
    };

    let bytes = term.to_bytes();
    let (parsed, len) = CoreTerm::from_bytes(&bytes).unwrap();
    assert_eq!(parsed, term);
    assert_eq!(len, bytes.len());
}

#[test]
fn byte_roundtrip_constructor() {
    let term = CoreTerm::Constructor {
        inductive: "Nat".into(),
        ctor_name: "succ".into(),
        args: vec![CoreTerm::NatLit(0)],
    };

    let bytes = term.to_bytes();
    let (parsed, len) = CoreTerm::from_bytes(&bytes).unwrap();
    assert_eq!(parsed, term);
    assert_eq!(len, bytes.len());
}

#[test]
fn substitute_var() {
    // Var(0)[0 := NatLit(5)] = NatLit(5)
    let result = CoreTerm::Var(0).substitute(0, &CoreTerm::NatLit(5));
    assert_eq!(result, CoreTerm::NatLit(5));

    // Var(1)[0 := NatLit(5)] = Var(0) (shifted down)
    let result = CoreTerm::Var(1).substitute(0, &CoreTerm::NatLit(5));
    assert_eq!(result, CoreTerm::Var(0));

    // Var(0)[1 := NatLit(5)] = Var(0) (not affected)
    let result = CoreTerm::Var(0).substitute(1, &CoreTerm::NatLit(5));
    assert_eq!(result, CoreTerm::Var(0));
}

#[test]
fn substitute_under_binder() {
    // (λ Nat. Var(1))[0 := NatLit(5)]
    // Var(1) inside the lambda refers to the outer variable at index 0
    // After substitution: λ Nat. NatLit(5)
    let lam = CoreTerm::Lam {
        param_type: Box::new(CoreTerm::Const { name: "Nat".into(), levels: vec![] }),
        body: Box::new(CoreTerm::Var(1)), // refers to outer var 0
    };
    let result = lam.substitute(0, &CoreTerm::NatLit(5));
    match result {
        CoreTerm::Lam { body, .. } => {
            assert_eq!(*body, CoreTerm::NatLit(5));
        }
        _ => panic!("expected Lam"),
    }
}

#[test]
fn is_value() {
    assert!(CoreTerm::Prop.is_value());
    assert!(CoreTerm::NatLit(0).is_value());
    assert!(CoreTerm::Var(0).is_value());
    assert!(CoreTerm::Lam {
        param_type: Box::new(CoreTerm::Prop),
        body: Box::new(CoreTerm::Var(0)),
    }.is_value());

    // App is not a value (potentially reducible)
    assert!(!CoreTerm::App {
        func: Box::new(CoreTerm::Lam {
            param_type: Box::new(CoreTerm::Prop),
            body: Box::new(CoreTerm::Var(0)),
        }),
        arg: Box::new(CoreTerm::NatLit(0)),
    }.is_value());
}

#[test]
fn empty_env() {
    let env = CoreEnv::new();
    assert_eq!(env.len(), 0);
    assert!(env.is_empty());
    assert!(env.lookup("Nat").is_none());
}

#[test]
fn env_add_lookup() {
    let mut env = CoreEnv::new();
    env.add_def(CoreDef {
        name: "Nat.zero".into(),
        ty: CoreTerm::Const { name: "Nat".into(), levels: vec![] },
        value: Some(CoreTerm::NatLit(0)),
        universe_params: vec![],
    });

    assert_eq!(env.len(), 1);
    let def = env.lookup("Nat.zero").unwrap();
    assert_eq!(def.value, Some(CoreTerm::NatLit(0)));
}

#[test]
fn from_bytes_reads_only_its_prefix() {
    let t = CoreTerm::App {
        func: Box::new(CoreTerm::Const { name: "Nat.succ".into(), levels: vec![3] }),
        arg: Box::new(CoreTerm::NatLit(7)),
    };
    let mut data = t.to_bytes();
    let n0 = data.len();
    data.extend_from_slice(&[0xFF, 0x00, 0x42]);
    let (parsed, n) = CoreTerm::from_bytes(&data).unwrap();
    assert_eq!(parsed, t);
    assert_eq!(n, n0);
    assert!(1 <= n && n <= data.len());
    assert_eq!(CoreTerm::from_bytes(&data[..n]), Some((t, n)));
    assert_eq!(CoreTerm::from_bytes(&[]), None);
    assert_eq!(CoreTerm::from_bytes(&[0x0C, 1, 2]), None);
}
