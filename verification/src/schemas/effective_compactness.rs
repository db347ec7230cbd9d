//! The effective-compactness schema's program: a pass over the points of
//! an ε-net.

use super::root_search::{lemma_compare, lemma_increment, lemma_load_push_op, lemma_two_sets};
use super::{failure_is, find_param_either, param_value_either};
use crate::proof_enum::solve::{decimal, decimal_string};
use crate::schema::{DescModel, SchemaResult, StatementDesc, StatementKind};
use crate::trial_division::running;
use crate::twin_primes::lemma_step_on;
use crate::vm::{
    binary_value, flag, initial_state, lemma_run_straight, read_cell, reported_outcome, spec_run,
    spec_run_from, spec_step, Fault, Instruction, Program, VmOutcome,
};
use vstd::prelude::*;

verus! {

/// The effective-compactness schema.
pub struct EffectiveCompactnessSchema;

/// The program that visits the points `0 .. n_points` of an ε-net, halts
/// with 0 at a point below 0 and with 1 past the last point.
pub open spec fn epsilon_net_program(n_points: i64) -> Seq<Instruction> {
    seq![
        Instruction::Push(0),
        Instruction::Store(0),
        Instruction::Push(n_points),
        Instruction::Store(1),
        // 4: loop
        Instruction::Load(0),
        Instruction::Load(1),
        Instruction::Lt,
        Instruction::Jz(18),
        Instruction::Load(0),
        Instruction::Push(0),
        Instruction::Lt,
        Instruction::Jz(13),
        Instruction::Halt(0),
        // 13: next point
        Instruction::Load(0),
        Instruction::Push(1),
        Instruction::Add,
        Instruction::Store(0),
        Instruction::Jmp(4),
        // 18: all points checked
        Instruction::Halt(1),
    ]
}

impl EffectiveCompactnessSchema {
    /// The ε-net program for `n_points` points.
    pub fn build_epsilon_net_program(n_points: i64) -> (r: Program)
        ensures
            r@ == epsilon_net_program(n_points),
    {
        let instrs: Vec<Instruction> = vec![
            Instruction::Push(0),
            Instruction::Store(0),
            Instruction::Push(n_points),
            Instruction::Store(1),
            Instruction::Load(0),
            Instruction::Load(1),
            Instruction::Lt,
            Instruction::Jz(18),
            Instruction::Load(0),
            Instruction::Push(0),
            Instruction::Lt,
            Instruction::Jz(13),
            Instruction::Halt(0),
            Instruction::Load(0),
            Instruction::Push(1),
            Instruction::Add,
            Instruction::Store(0),
            Instruction::Jmp(4),
            Instruction::Halt(1),
        ];
        assert(instrs@ =~= epsilon_net_program(n_points));
        Program::new(instrs)
    }
}

/// The ε-net size a statement gives, if it gives a positive one.
pub open spec fn net_size(d: DescModel) -> Option<i64> {
    match param_value_either(d.params, "modulus"@, "epsilon_net_size"@) {
        Some(n) => if n > 0 {
            Some(n)
        } else {
            None
        },
        None => None,
    }
}

impl EffectiveCompactnessSchema {
    /// Reduce a statement with an effective modulus to a pass over a finite
    /// ε-net, or say why it cannot be.
    pub fn attempt_reduction(statement: &StatementDesc, max_vm_steps: u64) -> (r: SchemaResult)
        requires
            net_size(statement@) matches Some(n) ==> n * 15 + 10 <= u64::MAX,
        ensures
            ({
                let d = statement@;
                if !(d.kind == StatementKind::UniversalInfinite || d.kind == StatementKind::Analytic) {
                    r is NotApplicable
                } else {
                    match net_size(d) {
                        None => failure_is(
                            r,
                            "No effective modulus found; need explicit ε-net size"@,
                            Some("Need: modulus of continuity → finite ε-net size"@),
                        ),
                        Some(n) => if n * 15 + 10 > max_vm_steps {
                            failure_is(
                                r,
                                "ε-net size "@ + decimal(n as nat) + " too large for budget"@,
                                Some("B* = "@ + decimal((n * 15 + 10) as nat)),
                            )
                        } else {
                            r matches SchemaResult::Success { program, b_star } && b_star == n * 15 + 10
                                && program@ == epsilon_net_program(n)
                        },
                    }
                }
            }),
    {
        match statement.kind {
            StatementKind::UniversalInfinite | StatementKind::Analytic => {},
            _ => return SchemaResult::NotApplicable,
        }
        assert(statement@.params =~= Seq::new(
            statement.params@.len(),
            |i: int| (statement.params@[i].0@, statement.params@[i].1),
        ));
        let n_points = match find_param_either(&statement.params, "modulus", "epsilon_net_size") {
            Some(n) if n > 0 => n,
            _ => {
                return SchemaResult::Failure {
                    goal_statement: "No effective modulus found; need explicit ε-net size".to_string(),
                    unresolved_bound: Some("Need: modulus of continuity → finite ε-net size".to_string()),
                };
            },
        };
        let b_star = (n_points as u64) * 15 + 10;
        if b_star > max_vm_steps {
            return SchemaResult::Failure {
                goal_statement: "ε-net size ".to_string().concat(decimal_string(n_points as u64).as_str()).concat(
                    " too large for budget",
                ),
                unresolved_bound: Some("B* = ".to_string().concat(decimal_string(b_star).as_str())),
            };
        }
        SchemaResult::Success { program: Self::build_epsilon_net_program(n_points), b_star }
    }
}

/// From the loop head at point `x >= 0` of `n`, the pass ends with 1.
proof fn lemma_net_loop(n: i64, m: Map<usize, i64>, steps: nat, fuel: nat)
    requires
        read_cell(m, 1) == n,
        0 <= read_cell(m, 0),
        fuel >= 13 * (if read_cell(m, 0) < n {
            n - read_cell(m, 0)
        } else {
            0
        }) + 5,
    ensures
        reported_outcome(spec_run_from(epsilon_net_program(n), running(4, Seq::empty(), m, steps), fuel))
            == VmOutcome::Halted(1),
    decreases n - read_cell(m, 0),
{
    let prog = epsilon_net_program(n);
    let x = read_cell(m, 0);
    let e = Seq::<i64>::empty();
    let hdr = seq![Instruction::Load(0), Instruction::Load(1), Instruction::Lt];
    assert(prog.subrange(4, 7) =~= hdr);
    lemma_compare(m, 0, 1);
    lemma_run_straight(prog, running(4, e, m, steps), hdr, fuel);
    let f = flag(x < n);
    let s7 = running(7, seq![f], m, steps + 3);
    lemma_step_on(prog, s7, (fuel - 3) as nat);
    assert(seq![f].drop_last() =~= e);
    if x >= n {
        let s = running(18, e, m, steps + 4);
        assert(spec_step(prog, s7) == s);
        lemma_step_on(prog, s, (fuel - 4) as nat);
        let h = spec_step(prog, s);
        assert(h.outcome == Some(VmOutcome::Halted(1)));
        assert(spec_run_from(prog, h, (fuel - 5) as nat) == h);
        return;
    }
    let s8 = running(8, e, m, steps + 4);
    assert(spec_step(prog, s7) == s8);
    let chk = seq![Instruction::Load(0), Instruction::Push(0), Instruction::Lt];
    assert(prog.subrange(8, 11) =~= chk);
    assert(binary_value(Instruction::Lt, x, 0) == Ok::<i64, Fault>(0));
    lemma_load_push_op(m, 0, 0, Instruction::Lt);
    lemma_run_straight(prog, s8, chk, (fuel - 4) as nat);
    let s11 = running(11, seq![0i64], m, steps + 7);
    lemma_step_on(prog, s11, (fuel - 7) as nat);
    assert(seq![0i64].drop_last() =~= e);
    let s13 = running(13, e, m, steps + 8);
    assert(spec_step(prog, s11) == s13);
    let inc = seq![Instruction::Load(0), Instruction::Push(1), Instruction::Add, Instruction::Store(0)];
    assert(prog.subrange(13, 17) =~= inc);
    lemma_increment(m);
    lemma_run_straight(prog, s13, inc, (fuel - 8) as nat);
    let m1 = m.insert(0, (x + 1) as i64);
    let s17 = running(17, e, m1, steps + 12);
    lemma_step_on(prog, s17, (fuel - 12) as nat);
    assert(spec_step(prog, s17) == running(4, e, m1, steps + 13));
    assert(read_cell(m1, 0) == x + 1 && read_cell(m1, 1) == n);
    lemma_net_loop(n, m1, steps + 13, (fuel - 13) as nat);
}

/// The ε-net program visits its `n` points and halts with 1, within
/// `13 n + 9` steps: no point of `0 .. n` lies below 0.
pub proof fn lemma_epsilon_net_program_passes(n: i64, fuel: nat)
    requires
        fuel >= 13 * (if n > 0 {
            n as int
        } else {
            0
        }) + 9,
    ensures
        reported_outcome(spec_run(epsilon_net_program(n), fuel)) == VmOutcome::Halted(1),
{
    let prog = epsilon_net_program(n);
    let init = seq![Instruction::Push(0), Instruction::Store(0), Instruction::Push(n), Instruction::Store(1)];
    assert(prog.subrange(0, 4) =~= init);
    lemma_two_sets(Map::empty(), 0, 0, n, 1);
    lemma_run_straight(prog, initial_state(), init, fuel);
    let m0 = Map::<usize, i64>::empty().insert(0, 0).insert(1, n);
    assert(read_cell(m0, 0) == 0 && read_cell(m0, 1) == n);
    lemma_net_loop(n, m0, 4, (fuel - 4) as nat);
}

} // verus!
