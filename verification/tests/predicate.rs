use kernel_frc::predicate::{cnf_to_pred, poly_eq_pred, CompileError, Expr, Pred, PredicateCompiler, VarEnv};
use kernel_frc::vm::{Instruction, Program, Vm, VmOutcome, VmState};


/// Helper: compile a predicate and run it in the VM with given variable bindings.
fn eval_pred(pred: &Pred, bindings: &[(&str, i64)]) -> i64 {
    let mut env = VarEnv::new(0);
    for &(name, _) in bindings {
        env.bind(name);
    }
    let compiler = PredicateCompiler::new(env.clone());
    let mut instrs = compiler.compile_pred(pred).unwrap();
    instrs.push(Instruction::Halt(0)); // halt after pushing result

    let program = Program::new(instrs);
    let mut state = VmState::initial();
    // Set variable values in memory
    for &(name, val) in bindings {
        let slot = env.lookup(name).unwrap();
        state.memory.insert(slot, val);
    }

    // Run manually
    while Vm::step(&program, &mut state) {}

    // The predicate result is on top of the stack
    *state.stack.last().unwrap_or(&-1)
}

/// Helper: compile an expression and run it in the VM.
fn eval_expr(expr: &Expr, bindings: &[(&str, i64)]) -> i64 {
    let mut env = VarEnv::new(0);
    for &(name, _) in bindings {
        env.bind(name);
    }
    let compiler = PredicateCompiler::new(env.clone());
    let mut instrs = compiler.compile_expr(expr).unwrap();
    instrs.push(Instruction::Halt(0));

    let program = Program::new(instrs);
    let mut state = VmState::initial();
    for &(name, val) in bindings {
        let slot = env.lookup(name).unwrap();
        state.memory.insert(slot, val);
    }

    while Vm::step(&program, &mut state) {}
    *state.stack.last().unwrap_or(&-1)
}

// --- Expr compilation tests ---

#[test]
fn expr_lit() {
    assert_eq!(eval_expr(&Expr::Lit(42), &[]), 42);
    assert_eq!(eval_expr(&Expr::Lit(-7), &[]), -7);
    assert_eq!(eval_expr(&Expr::Lit(0), &[]), 0);
}

#[test]
fn expr_var() {
    assert_eq!(eval_expr(&Expr::Var("x".into()), &[("x", 10)]), 10);
    assert_eq!(eval_expr(&Expr::Var("y".into()), &[("x", 3), ("y", 7)]), 7);
}

#[test]
fn expr_add() {
    let e = Expr::Add(Box::new(Expr::Lit(3)), Box::new(Expr::Lit(4)));
    assert_eq!(eval_expr(&e, &[]), 7);
}

#[test]
fn expr_sub() {
    let e = Expr::Sub(Box::new(Expr::Lit(10)), Box::new(Expr::Lit(3)));
    assert_eq!(eval_expr(&e, &[]), 7);
}

#[test]
fn expr_mul() {
    let e = Expr::Mul(Box::new(Expr::Lit(6)), Box::new(Expr::Lit(7)));
    assert_eq!(eval_expr(&e, &[]), 42);
}

#[test]
fn expr_div() {
    let e = Expr::Div(Box::new(Expr::Lit(10)), Box::new(Expr::Lit(3)));
    assert_eq!(eval_expr(&e, &[]), 3); // floor division
}

#[test]
fn expr_mod() {
    let e = Expr::Mod(Box::new(Expr::Lit(10)), Box::new(Expr::Lit(3)));
    assert_eq!(eval_expr(&e, &[]), 1);
}

#[test]
fn expr_neg() {
    let e = Expr::Neg(Box::new(Expr::Lit(5)));
    assert_eq!(eval_expr(&e, &[]), -5);
}

#[test]
fn expr_nested_arithmetic() {
    // (x + 3) * (y - 1) where x=5, y=4 → 8*3 = 24
    let e = Expr::Mul(
        Box::new(Expr::Add(
            Box::new(Expr::Var("x".into())),
            Box::new(Expr::Lit(3)),
        )),
        Box::new(Expr::Sub(
            Box::new(Expr::Var("y".into())),
            Box::new(Expr::Lit(1)),
        )),
    );
    assert_eq!(eval_expr(&e, &[("x", 5), ("y", 4)]), 24);
}

// --- Pred compilation tests ---

#[test]
fn pred_true_false() {
    assert_eq!(eval_pred(&Pred::True, &[]), 1);
    assert_eq!(eval_pred(&Pred::False, &[]), 0);
}

#[test]
fn pred_eq() {
    let p = Pred::Eq(Expr::Lit(5), Expr::Lit(5));
    assert_eq!(eval_pred(&p, &[]), 1);
    let p = Pred::Eq(Expr::Lit(5), Expr::Lit(6));
    assert_eq!(eval_pred(&p, &[]), 0);
}

#[test]
fn pred_ne() {
    let p = Pred::Ne(Expr::Lit(5), Expr::Lit(6));
    assert_eq!(eval_pred(&p, &[]), 1);
    let p = Pred::Ne(Expr::Lit(5), Expr::Lit(5));
    assert_eq!(eval_pred(&p, &[]), 0);
}

#[test]
fn pred_lt() {
    let p = Pred::Lt(Expr::Lit(3), Expr::Lit(5));
    assert_eq!(eval_pred(&p, &[]), 1);
    let p = Pred::Lt(Expr::Lit(5), Expr::Lit(5));
    assert_eq!(eval_pred(&p, &[]), 0);
    let p = Pred::Lt(Expr::Lit(7), Expr::Lit(5));
    assert_eq!(eval_pred(&p, &[]), 0);
}

#[test]
fn pred_le() {
    let p = Pred::Le(Expr::Lit(3), Expr::Lit(5));
    assert_eq!(eval_pred(&p, &[]), 1);
    let p = Pred::Le(Expr::Lit(5), Expr::Lit(5));
    assert_eq!(eval_pred(&p, &[]), 1); // equal values
    let p = Pred::Le(Expr::Lit(7), Expr::Lit(5));
    assert_eq!(eval_pred(&p, &[]), 0);
}

#[test]
fn pred_gt() {
    let p = Pred::Gt(Expr::Lit(7), Expr::Lit(5));
    assert_eq!(eval_pred(&p, &[]), 1);
    let p = Pred::Gt(Expr::Lit(5), Expr::Lit(5));
    assert_eq!(eval_pred(&p, &[]), 0);
    let p = Pred::Gt(Expr::Lit(3), Expr::Lit(5));
    assert_eq!(eval_pred(&p, &[]), 0);
}

#[test]
fn pred_ge() {
    let p = Pred::Ge(Expr::Lit(7), Expr::Lit(5));
    assert_eq!(eval_pred(&p, &[]), 1);
    let p = Pred::Ge(Expr::Lit(5), Expr::Lit(5));
    assert_eq!(eval_pred(&p, &[]), 1); // equal values
    let p = Pred::Ge(Expr::Lit(3), Expr::Lit(5));
    assert_eq!(eval_pred(&p, &[]), 0);
}

#[test]
fn pred_and() {
    let p = Pred::And(Box::new(Pred::True), Box::new(Pred::True));
    assert_eq!(eval_pred(&p, &[]), 1);
    let p = Pred::And(Box::new(Pred::True), Box::new(Pred::False));
    assert_eq!(eval_pred(&p, &[]), 0);
}

#[test]
fn pred_or() {
    let p = Pred::Or(Box::new(Pred::False), Box::new(Pred::True));
    assert_eq!(eval_pred(&p, &[]), 1);
    let p = Pred::Or(Box::new(Pred::False), Box::new(Pred::False));
    assert_eq!(eval_pred(&p, &[]), 0);
}

#[test]
fn pred_not() {
    let p = Pred::Not(Box::new(Pred::True));
    assert_eq!(eval_pred(&p, &[]), 0);
    let p = Pred::Not(Box::new(Pred::False));
    assert_eq!(eval_pred(&p, &[]), 1);
}

#[test]
fn pred_le_ge_boundary() {
    // Le and Ge at boundary: a=0, b=0
    let p = Pred::Le(Expr::Lit(0), Expr::Lit(0));
    assert_eq!(eval_pred(&p, &[]), 1);
    let p = Pred::Ge(Expr::Lit(0), Expr::Lit(0));
    assert_eq!(eval_pred(&p, &[]), 1);
    // Negative values
    let p = Pred::Le(Expr::Lit(-1), Expr::Lit(0));
    assert_eq!(eval_pred(&p, &[]), 1);
    let p = Pred::Ge(Expr::Lit(-1), Expr::Lit(0));
    assert_eq!(eval_pred(&p, &[]), 0);
}

// --- VarEnv tests ---

#[test]
fn var_env_bind_and_lookup() {
    let mut env = VarEnv::new(0);
    assert_eq!(env.bind("x"), 0);
    assert_eq!(env.bind("y"), 1);
    assert_eq!(env.bind("x"), 0); // re-bind returns same slot
    assert_eq!(env.lookup("x"), Some(0));
    assert_eq!(env.lookup("y"), Some(1));
    assert_eq!(env.lookup("z"), None);
    assert_eq!(env.len(), 2);
}

#[test]
fn var_env_deterministic() {
    // BTreeMap ensures deterministic ordering regardless of insertion order.
    let mut env1 = VarEnv::new(0);
    env1.bind("b");
    env1.bind("a");

    let mut env2 = VarEnv::new(0);
    env2.bind("b");
    env2.bind("a");

    // Same insertion order → same slots
    assert_eq!(env1.lookup("a"), env2.lookup("a"));
    assert_eq!(env1.lookup("b"), env2.lookup("b"));
}

#[test]
fn var_env_custom_start_slot() {
    let mut env = VarEnv::new(4);
    assert_eq!(env.bind("x"), 4);
    assert_eq!(env.bind("y"), 5);
    assert_eq!(env.next_slot(), 6);
}

// --- cnf_to_pred tests ---

#[test]
fn cnf_empty_clauses() {
    // Empty CNF is vacuously true.
    let pred = cnf_to_pred(&[]);
    assert_eq!(pred, Pred::True);
}

#[test]
fn cnf_single_clause() {
    // (x1) — clause with one positive literal
    let pred = cnf_to_pred(&[vec![1]]);
    // For a=1 (bit 0 set), should be satisfied
    assert_eq!(eval_pred(&pred, &[("a", 1)]), 1);
    // For a=0 (bit 0 not set), should not be satisfied
    assert_eq!(eval_pred(&pred, &[("a", 0)]), 0);
}

#[test]
fn cnf_multi_clause() {
    // (x1 OR x2) AND (NOT x1 OR x2) AND (NOT x2)
    // This is UNSAT: clause 3 forces x2=0, then clause 2 forces x1=0,
    // but clause 1 needs x1=1 or x2=1.
    let clauses = vec![vec![1, 2], vec![-1, 2], vec![-2]];
    let pred = cnf_to_pred(&clauses);
    // Check all 4 assignments: none should satisfy
    for a in 0..4i64 {
        assert_eq!(eval_pred(&pred, &[("a", a)]), 0,
            "assignment {} should not satisfy", a);
    }
}

#[test]
fn cnf_satisfiable() {
    // (x1 OR x2) — satisfied by a=1,2,3
    let pred = cnf_to_pred(&[vec![1, 2]]);
    assert_eq!(eval_pred(&pred, &[("a", 0)]), 0); // both false
    assert_eq!(eval_pred(&pred, &[("a", 1)]), 1); // x1=true
    assert_eq!(eval_pred(&pred, &[("a", 2)]), 1); // x2=true
    assert_eq!(eval_pred(&pred, &[("a", 3)]), 1); // both true
}

#[test]
fn cnf_negative_literal() {
    // (NOT x1) — satisfied only when x1=false (a=0 or a=2)
    let pred = cnf_to_pred(&[vec![-1]]);
    assert_eq!(eval_pred(&pred, &[("a", 0)]), 1); // bit 0 = 0 → NOT x1 true
    assert_eq!(eval_pred(&pred, &[("a", 1)]), 0); // bit 0 = 1 → NOT x1 false
}

// --- poly_eq_pred tests ---

#[test]
fn poly_constant() {
    // f(x) = 5, target = 5 → always true
    let pred = poly_eq_pred(&[5], 5);
    assert_eq!(eval_pred(&pred, &[("x", 0)]), 1);
    assert_eq!(eval_pred(&pred, &[("x", 100)]), 1);
}

#[test]
fn poly_linear() {
    // f(x) = 3 + 2*x, target = 7 → x=2
    let pred = poly_eq_pred(&[3, 2], 7);
    assert_eq!(eval_pred(&pred, &[("x", 2)]), 1);
    assert_eq!(eval_pred(&pred, &[("x", 1)]), 0);
    assert_eq!(eval_pred(&pred, &[("x", 3)]), 0);
}

#[test]
fn poly_quadratic() {
    // f(x) = x^2 = 0 + 0*x + 1*x^2, target = 49 → x=7 or x=-7
    let pred = poly_eq_pred(&[0, 0, 1], 49);
    assert_eq!(eval_pred(&pred, &[("x", 7)]), 1);
    assert_eq!(eval_pred(&pred, &[("x", -7)]), 1);
    assert_eq!(eval_pred(&pred, &[("x", 6)]), 0);
}

// --- Instruction count tests ---

#[test]
fn instruction_count_expr() {
    assert_eq!(PredicateCompiler::expr_instruction_count(&Expr::Lit(1)), 1);
    assert_eq!(PredicateCompiler::expr_instruction_count(&Expr::Var("x".into())), 1);
    let add = Expr::Add(Box::new(Expr::Lit(1)), Box::new(Expr::Lit(2)));
    assert_eq!(PredicateCompiler::expr_instruction_count(&add), 3); // Push, Push, Add
}

#[test]
fn instruction_count_pred() {
    assert_eq!(PredicateCompiler::pred_instruction_count(&Pred::True), 1);
    let eq = Pred::Eq(Expr::Lit(1), Expr::Lit(2));
    assert_eq!(PredicateCompiler::pred_instruction_count(&eq), 3); // Push, Push, Eq
    let ne = Pred::Ne(Expr::Lit(1), Expr::Lit(2));
    assert_eq!(PredicateCompiler::pred_instruction_count(&ne), 4); // Push, Push, Eq, Not
}

#[test]
fn instruction_count_matches_actual() {
    // Verify that instruction_count matches actual compiled length
    let pred = Pred::And(
        Box::new(Pred::Lt(Expr::Var("x".into()), Expr::Lit(10))),
        Box::new(Pred::Ge(Expr::Var("x".into()), Expr::Lit(0))),
    );
    let expected_count = PredicateCompiler::pred_instruction_count(&pred);

    let mut env = VarEnv::new(0);
    env.bind("x");
    let compiler = PredicateCompiler::new(env);
    let instrs = compiler.compile_pred(&pred).unwrap();

    assert_eq!(instrs.len(), expected_count);
}

// --- Integration: compile pred → run in VM → check result ---

#[test]
fn integration_compile_and_run_cnf() {
    // (x1 OR x2) AND (NOT x1 OR x2) → x2 must be true
    // Assignment a=2 (x1=false, x2=true) should satisfy
    // Assignment a=3 (x1=true, x2=true) should satisfy
    let pred = cnf_to_pred(&[vec![1, 2], vec![-1, 2]]);

    let mut env = VarEnv::new(0);
    env.bind("a");
    let compiler = PredicateCompiler::new(env);
    let mut instrs = compiler.compile_pred(&pred).unwrap();
    instrs.push(Instruction::Halt(0));

    let program = Program::new(instrs);

    // Test a=2 (x2=true, x1=false)
    let (outcome, _state) = Vm::run(&program, 1000);
    assert_eq!(outcome, VmOutcome::Halted(0));
    // Memory slot 0 wasn't initialized, defaults to 0 → a=0
    // With a=0: clause 1 is (false OR false) = false → not satisfied
    // Let's manually set memory
    let mut state = VmState::initial();
    state.memory.insert(0, 2); // a=2
    while Vm::step(&program, &mut state) {}
    assert_eq!(*state.stack.last().unwrap(), 1); // satisfied

    let mut state = VmState::initial();
    state.memory.insert(0, 0); // a=0
    while Vm::step(&program, &mut state) {}
    assert_eq!(*state.stack.last().unwrap(), 0); // not satisfied
}

#[test]
fn integration_compile_and_run_poly() {
    // f(x) = 2x + 3, target = 7 → x=2
    let pred = poly_eq_pred(&[3, 2], 7);

    let mut env = VarEnv::new(0);
    env.bind("x");
    let compiler = PredicateCompiler::new(env);
    let mut instrs = compiler.compile_pred(&pred).unwrap();
    instrs.push(Instruction::Halt(0));

    let program = Program::new(instrs);

    let mut state = VmState::initial();
    state.memory.insert(0, 2); // x=2
    while Vm::step(&program, &mut state) {}
    assert_eq!(*state.stack.last().unwrap(), 1); // 2*2+3=7 ✓

    let mut state = VmState::initial();
    state.memory.insert(0, 3); // x=3
    while Vm::step(&program, &mut state) {}
    assert_eq!(*state.stack.last().unwrap(), 0); // 2*3+3=9≠7
}

#[test]
fn unbound_variable_error() {
    let env = VarEnv::new(0);
    let compiler = PredicateCompiler::new(env);
    let result = compiler.compile_expr(&Expr::Var("missing".into()));
    assert_eq!(result, Err(CompileError::UnboundVariable("missing".into())));
}

#[test]
fn poly_empty_coefficients() {
    // f(x) = 0, target = 0 → always true
    let pred = poly_eq_pred(&[], 0);
    assert_eq!(eval_pred(&pred, &[("x", 42)]), 1);
    // f(x) = 0, target = 1 → always false
    let pred = poly_eq_pred(&[], 1);
    assert_eq!(eval_pred(&pred, &[("x", 42)]), 0);
}
