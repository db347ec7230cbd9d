use kernel_frc::predicate::{Expr, Pred};
use kernel_frc::program_builder::{build_program, BoundedVar, BuildError, SearchProblem};
use kernel_frc::vm::{Vm, VmOutcome};


// --- Test 1: exists x in [0,100]: x*x == 49 ---
#[test]
fn exists_x_squared_eq_49() {
    let problem = SearchProblem::Exists {
        variables: vec![BoundedVar { name: "x".into(), lo: 0, hi: 100 }],
        predicate: Pred::Eq(
            Expr::Mul(Box::new(Expr::Var("x".into())), Box::new(Expr::Var("x".into()))),
            Expr::Lit(49),
        ),
    };
    let (program, b_star) = build_program(&problem).unwrap();
    let (outcome, state) = Vm::run(&program, b_star);
    assert_eq!(outcome, VmOutcome::Halted(1));
    assert_eq!(state.memory[&0], 7); // x = 7
}

// --- Test 2: forall x in [0,5]: x*(x+1) % 2 == 0 ---
#[test]
fn forall_product_consecutive_even() {
    let problem = SearchProblem::ForAll {
        variables: vec![BoundedVar { name: "x".into(), lo: 0, hi: 5 }],
        predicate: Pred::Eq(
            Expr::Mod(
                Box::new(Expr::Mul(
                    Box::new(Expr::Var("x".into())),
                    Box::new(Expr::Add(
                        Box::new(Expr::Var("x".into())),
                        Box::new(Expr::Lit(1)),
                    )),
                )),
                Box::new(Expr::Lit(2)),
            ),
            Expr::Lit(0),
        ),
    };
    let (program, b_star) = build_program(&problem).unwrap();
    let (outcome, _) = Vm::run(&program, b_star);
    assert_eq!(outcome, VmOutcome::Halted(1)); // all pass
}

// --- Test 3: SAT (x0|x1) & (!x0|x1) & (!x1) → UNSAT ---
#[test]
fn sat_unsat() {
    let problem = SearchProblem::Sat {
        num_vars: 2,
        clauses: vec![vec![1, 2], vec![-1, 2], vec![-2]],
    };
    let (program, b_star) = build_program(&problem).unwrap();
    let (outcome, _) = Vm::run(&program, b_star);
    assert_eq!(outcome, VmOutcome::Halted(0)); // UNSAT
}

// --- Test 4: exists x,y in [0,10]: x*x + y*y == 100 ---
#[test]
fn exists_two_var_pythagorean() {
    let problem = SearchProblem::Exists {
        variables: vec![
            BoundedVar { name: "x".into(), lo: 0, hi: 10 },
            BoundedVar { name: "y".into(), lo: 0, hi: 10 },
        ],
        predicate: Pred::Eq(
            Expr::Add(
                Box::new(Expr::Mul(Box::new(Expr::Var("x".into())), Box::new(Expr::Var("x".into())))),
                Box::new(Expr::Mul(Box::new(Expr::Var("y".into())), Box::new(Expr::Var("y".into())))),
            ),
            Expr::Lit(100),
        ),
    };
    let (program, b_star) = build_program(&problem).unwrap();
    let (outcome, state) = Vm::run(&program, b_star);
    assert_eq!(outcome, VmOutcome::Halted(1));
    // Should find (0,10) or (6,8) or (8,6) or (10,0)
    let x = state.memory[&0];
    let y = state.memory[&1];
    assert_eq!(x * x + y * y, 100);
}

// --- Test 5: exists x in [0,100]: x*x == 50 → Halted(0) (no integer sqrt) ---
#[test]
fn exists_no_integer_sqrt() {
    let problem = SearchProblem::Exists {
        variables: vec![BoundedVar { name: "x".into(), lo: 0, hi: 100 }],
        predicate: Pred::Eq(
            Expr::Mul(Box::new(Expr::Var("x".into())), Box::new(Expr::Var("x".into()))),
            Expr::Lit(50),
        ),
    };
    let (program, b_star) = build_program(&problem).unwrap();
    let (outcome, _) = Vm::run(&program, b_star);
    assert_eq!(outcome, VmOutcome::Halted(0));
}

// --- Test 6: forall x in [0,6]: x*x < 26 → Halted(0) (counterexample x=6) ---
#[test]
fn forall_counterexample() {
    let problem = SearchProblem::ForAll {
        variables: vec![BoundedVar { name: "x".into(), lo: 0, hi: 6 }],
        predicate: Pred::Lt(
            Expr::Mul(Box::new(Expr::Var("x".into())), Box::new(Expr::Var("x".into()))),
            Expr::Lit(26),
        ),
    };
    let (program, b_star) = build_program(&problem).unwrap();
    let (outcome, _) = Vm::run(&program, b_star);
    assert_eq!(outcome, VmOutcome::Halted(0)); // counterexample: 6*6=36 >= 26
}

// --- Test 7: SAT (x0|x1) → SAT ---
#[test]
fn sat_satisfiable() {
    let problem = SearchProblem::Sat {
        num_vars: 2,
        clauses: vec![vec![1, 2]],
    };
    let (program, b_star) = build_program(&problem).unwrap();
    let (outcome, _) = Vm::run(&program, b_star);
    assert_eq!(outcome, VmOutcome::Halted(1)); // SAT
}

// --- Test 8: exists x in [-5,5]: x*x*x == -8 → x=-2 ---
#[test]
fn exists_negative_domain() {
    let problem = SearchProblem::Exists {
        variables: vec![BoundedVar { name: "x".into(), lo: -5, hi: 5 }],
        predicate: Pred::Eq(
            Expr::Mul(
                Box::new(Expr::Mul(Box::new(Expr::Var("x".into())), Box::new(Expr::Var("x".into())))),
                Box::new(Expr::Var("x".into())),
            ),
            Expr::Lit(-8),
        ),
    };
    let (program, b_star) = build_program(&problem).unwrap();
    let (outcome, state) = Vm::run(&program, b_star);
    assert_eq!(outcome, VmOutcome::Halted(1));
    assert_eq!(state.memory[&0], -2);
}

// --- Test 9: empty domain exists → Halted(0) ---
#[test]
fn exists_empty_domain() {
    let problem = SearchProblem::Exists {
        variables: vec![BoundedVar { name: "x".into(), lo: 10, hi: 5 }], // hi < lo
        predicate: Pred::True,
    };
    let (program, b_star) = build_program(&problem).unwrap();
    let (outcome, _) = Vm::run(&program, b_star);
    assert_eq!(outcome, VmOutcome::Halted(0));
}

// --- Test 10: empty domain forall → Halted(1) (vacuous truth) ---
#[test]
fn forall_empty_domain() {
    let problem = SearchProblem::ForAll {
        variables: vec![BoundedVar { name: "x".into(), lo: 10, hi: 5 }],
        predicate: Pred::False, // doesn't matter; domain is empty
    };
    let (program, b_star) = build_program(&problem).unwrap();
    let (outcome, _) = Vm::run(&program, b_star);
    assert_eq!(outcome, VmOutcome::Halted(1)); // vacuous
}

// --- Test 11: single element domain ---
#[test]
fn exists_single_element() {
    let problem = SearchProblem::Exists {
        variables: vec![BoundedVar { name: "x".into(), lo: 42, hi: 42 }],
        predicate: Pred::Eq(Expr::Var("x".into()), Expr::Lit(42)),
    };
    let (program, b_star) = build_program(&problem).unwrap();
    let (outcome, state) = Vm::run(&program, b_star);
    assert_eq!(outcome, VmOutcome::Halted(1));
    assert_eq!(state.memory[&0], 42);
}

// --- Test 12: B* sufficient (halts within budget) ---
#[test]
fn b_star_sufficient() {
    // Search 101 elements, should halt within b_star
    let problem = SearchProblem::Exists {
        variables: vec![BoundedVar { name: "x".into(), lo: 0, hi: 100 }],
        predicate: Pred::Eq(Expr::Var("x".into()), Expr::Lit(100)), // found at last element
    };
    let (program, b_star) = build_program(&problem).unwrap();
    let (outcome, state) = Vm::run(&program, b_star);
    assert_eq!(outcome, VmOutcome::Halted(1));
    assert!(state.steps_taken <= b_star);
}

// --- Test 13: B* tight (budget-1 causes BudgetExhausted for worst case) ---
#[test]
fn b_star_tight() {
    // For exhaustive search (no match), the program halts at exactly the end
    let problem = SearchProblem::Exists {
        variables: vec![BoundedVar { name: "x".into(), lo: 0, hi: 5 }],
        predicate: Pred::False, // never satisfied → exhausts entire domain
    };
    let (program, b_star) = build_program(&problem).unwrap();

    // With full budget: should halt
    let (outcome, state) = Vm::run(&program, b_star);
    assert_eq!(outcome, VmOutcome::Halted(0));
    let actual_steps = state.steps_taken;

    // Actual steps should be <= b_star
    assert!(actual_steps <= b_star, "actual {} > b_star {}", actual_steps, b_star);

    // With less budget than actual steps: should exhaust
    if actual_steps > 1 {
        let (outcome2, _) = Vm::run(&program, actual_steps - 1);
        assert_eq!(outcome2, VmOutcome::BudgetExhausted);
    }
}


// --- Test 15: forall x in [0,10]: x + 1 > x ---
#[test]
fn forall_successor_greater() {
    let problem = SearchProblem::ForAll {
        variables: vec![BoundedVar { name: "x".into(), lo: 0, hi: 10 }],
        predicate: Pred::Gt(
            Expr::Add(Box::new(Expr::Var("x".into())), Box::new(Expr::Lit(1))),
            Expr::Var("x".into()),
        ),
    };
    let (program, b_star) = build_program(&problem).unwrap();
    let (outcome, _) = Vm::run(&program, b_star);
    assert_eq!(outcome, VmOutcome::Halted(1));
}

// --- Error cases ---
#[test]
fn error_no_variables() {
    let problem = SearchProblem::Exists {
        variables: vec![],
        predicate: Pred::True,
    };
    assert!(matches!(build_program(&problem), Err(BuildError::NoVariables)));
}

#[test]
fn error_too_many_sat_vars() {
    let problem = SearchProblem::Sat {
        num_vars: 25,
        clauses: vec![vec![1]],
    };
    assert!(matches!(build_program(&problem), Err(BuildError::TooManyVars(25))));
}

fn var(name: &str, lo: i64, hi: i64) -> BoundedVar {
    BoundedVar { name: name.into(), lo, hi }
}

fn v(name: &str) -> Expr {
    Expr::Var(name.into())
}

#[test]
fn forall_two_vars_all_pass_and_counterexample() {
    // forall x in [0,6], y in [0,6]: x + y < 13
    let ok = SearchProblem::ForAll {
        variables: vec![var("x", 0, 6), var("y", 0, 6)],
        predicate: Pred::Lt(Expr::Add(Box::new(v("x")), Box::new(v("y"))), Expr::Lit(13)),
    };
    let (program, b_star) = build_program(&ok).unwrap();
    assert_eq!(Vm::run(&program, b_star).0, VmOutcome::Halted(1));

    // forall x in [0,6], y in [0,6]: x * y != 12  (fails at x=2, y=6)
    let bad = SearchProblem::ForAll {
        variables: vec![var("x", 0, 6), var("y", 0, 6)],
        predicate: Pred::Ne(Expr::Mul(Box::new(v("x")), Box::new(v("y"))), Expr::Lit(12)),
    };
    let (program, b_star) = build_program(&bad).unwrap();
    let (outcome, state) = Vm::run(&program, b_star);
    assert_eq!(outcome, VmOutcome::Halted(0));
    assert_eq!((state.memory[&0], state.memory[&1]), (2, 6));
}

#[test]
fn exists_three_vars_odometer_order() {
    // exists a, b, c in [1,5]: a * b * c == 12, searched with a outermost.
    let problem = SearchProblem::Exists {
        variables: vec![var("a", 1, 5), var("b", 1, 5), var("c", 1, 5)],
        predicate: Pred::Eq(
            Expr::Mul(Box::new(Expr::Mul(Box::new(v("a")), Box::new(v("b")))), Box::new(v("c"))),
            Expr::Lit(12),
        ),
    };
    let (program, b_star) = build_program(&problem).unwrap();
    let (outcome, state) = Vm::run(&program, b_star);
    assert_eq!(outcome, VmOutcome::Halted(1));
    // a = 1 is tried first: b = 3, c = 4 is the first product of 12.
    assert_eq!((state.memory[&0], state.memory[&1], state.memory[&2]), (1, 3, 4));
}

#[test]
fn nested_budget_short_of_a_long_outer_loop() {
    // An outer domain of 1000 values around an inner domain of one value:
    // the exhaustive run needs 8 + 26 * 1000 + 5 steps, more than B*.
    let problem = SearchProblem::Exists {
        variables: vec![var("x", 0, 999), var("y", 0, 0)],
        predicate: Pred::False,
    };
    let (program, b_star) = build_program(&problem).unwrap();
    assert_eq!(b_star, 8 + 1000 * 22 + 23);
    assert_eq!(Vm::run(&program, b_star).0, VmOutcome::BudgetExhausted);
    let (outcome, state) = Vm::run(&program, 26013);
    assert_eq!(outcome, VmOutcome::Halted(0));
    assert_eq!(state.steps_taken, 26013);
}

#[test]
fn nested_empty_inner_domain() {
    // With an empty inner domain nothing is satisfiable.
    let problem = SearchProblem::Exists {
        variables: vec![var("x", 0, 3), var("y", 5, 4)],
        predicate: Pred::True,
    };
    let (program, b_star) = build_program(&problem).unwrap();
    let (outcome, _) = Vm::run(&program, 1000);
    assert_eq!(outcome, VmOutcome::Halted(0));
    assert_eq!(b_star, 8 + 0 + 23);
}
