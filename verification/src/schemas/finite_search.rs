//! The finite-search schema's programs: exhaustive search over the
//! assignments of `n` boolean variables, and over an integer range for an
//! `x` with `f(x) = target`, `f` a polynomial.

use super::root_search::{lemma_compare, lemma_increment, lemma_load_push_op, lemma_two_sets};
use super::{
    coefficient_list, coefficients_of, emit_root_search, failure_is, find_param, param_value, root_search_program,
};
use crate::proof_enum::solve::{decimal, decimal_string};
use crate::schema::{DescModel, SchemaResult, StatementDesc, StatementKind};
use crate::trial_division::running;
use crate::twin_primes::lemma_step_on;
use crate::vm::{
    binary_value, flag, initial_state, lemma_run_straight, read_cell, reported_outcome, spec_run,
    spec_run_from, spec_step, Fault, Instruction, Program, VmOutcome,
};
use vstd::arithmetic::power2::pow2;
use vstd::prelude::*;

verus! {

/// The finite-search schema.
pub struct FiniteSearchSchema;

/// The boolean search program over `domain` assignments.
pub open spec fn bool_search_program(domain: i64) -> Seq<Instruction> {
    seq![
        Instruction::Push(0),
        Instruction::Store(0),
        Instruction::Push(domain),
        Instruction::Store(1),
        // 4: loop
        Instruction::Load(0),
        Instruction::Load(1),
        Instruction::Lt,
        Instruction::Jz(19),
        Instruction::Load(0),
        Instruction::Push(0),
        Instruction::Eq,
        Instruction::Not,
        Instruction::Jz(14),
        Instruction::Halt(1),
        // 14: next assignment
        Instruction::Load(0),
        Instruction::Push(1),
        Instruction::Add,
        Instruction::Store(0),
        Instruction::Jmp(4),
        // 19: exhausted
        Instruction::Halt(0),
    ]
}

impl FiniteSearchSchema {
    /// The program that counts `x` through the `2^n` assignments of `n`
    /// boolean variables and halts with 1 at the first `x != 0`, with 0
    /// when they are exhausted; and its step budget, 20 per assignment.
    pub fn build_bool_search_program(num_vars: usize) -> (r: (Program, u64))
        requires
            (num_vars as u32) < 60,
        ensures
            r.0@ == bool_search_program(pow2((num_vars as u32) as nat) as i64),
            r.1 == pow2((num_vars as u32) as nat) * 20,
    {
        let bits = num_vars as u32;
        let shift = bits as u64;
        proof {
            vstd::bits::lemma_u64_pow2_no_overflow(shift as nat);
            vstd::bits::lemma_u64_shl_is_mul(1, shift);
        }
        let shifted: u64 = 1u64 << shift;
        proof {
            vstd::arithmetic::power2::lemma_pow2_pos(bits as nat);
            if bits < 59 {
                vstd::arithmetic::power2::lemma_pow2_strictly_increases(bits as nat, 59);
            }
            vstd::arithmetic::power2::lemma2_to64_rest();
        }
        let domain_size: i64 = shifted as i64;
        let instrs: Vec<Instruction> = vec![
            Instruction::Push(0),
            Instruction::Store(0),
            Instruction::Push(domain_size),
            Instruction::Store(1),
            Instruction::Load(0),
            Instruction::Load(1),
            Instruction::Lt,
            Instruction::Jz(19),
            Instruction::Load(0),
            Instruction::Push(0),
            Instruction::Eq,
            Instruction::Not,
            Instruction::Jz(14),
            Instruction::Halt(1),
            Instruction::Load(0),
            Instruction::Push(1),
            Instruction::Add,
            Instruction::Store(0),
            Instruction::Jmp(4),
            Instruction::Halt(0),
        ];
        assert(instrs@ =~= bool_search_program(domain_size));
        let b_star = domain_size as u64 * 20;
        (Program::new(instrs), b_star)
    }

    /// The program that runs `x` through `[lo, hi]` and halts with 1 at the
    /// first `x` with `f(x) = target`, with 0 when there is none; and its
    /// step budget, `(hi - lo + 1)(10 · #coefficients + 20) + 10`.
    pub fn build_arith_search_program(lo: i64, hi: i64, coefficients: &[i64], target: i64) -> (r: (Program, u64))
        requires
            hi < i64::MAX,
            i64::MIN <= hi - lo,
            hi - lo + 1 <= i64::MAX,
            coefficients@.len() * 10 + 20 <= u64::MAX,
            ((hi - lo + 1) as u64) * (coefficients@.len() * 10 + 20) + 10 <= u64::MAX,
        ensures
            r.0@ == root_search_program(lo, hi, coefficients@, target),
            r.1 == ((hi - lo + 1) as u64) * (coefficients@.len() * 10 + 20) + 10,
    {
        let instrs = emit_root_search(lo, hi, coefficients, target);
        let domain_size = (hi - lo + 1) as u64;
        let len = coefficients.len() as u64;
        assert(len == coefficients@.len());
        let steps_per_iter = (len * 10) + 20;
        let b_star = domain_size * steps_per_iter + 10;
        (Program::new(instrs), b_star)
    }
}

/// The outcome `r` for a program with step bound `b`: the program where
/// `b` fits the budget, else a failure that reports `b`.
pub open spec fn budget_outcome(r: SchemaResult, prog: Seq<Instruction>, b: int, max_steps: u64) -> bool {
    if b > max_steps {
        failure_is(
            r,
            "B*="@ + decimal(b as nat) + " exceeds max_vm_steps="@ + decimal(max_steps as nat),
            Some("B* = "@ + decimal(b as nat)),
        )
    } else {
        r matches SchemaResult::Success { program, b_star } && b_star == b && program@ == prog
    }
}

/// The number of boolean variables, at least one.
pub open spec fn bool_var_count(d: DescModel) -> nat {
    if d.variables.len() > 1 {
        d.variables.len()
    } else {
        1
    }
}

/// The search range of a finite variable: its bounds, or 0 and 100.
pub open spec fn finite_range(d: DescModel) -> (i64, i64) {
    (
        match d.variables[0].domain_lo {
            Some(x) => x,
            None => 0,
        },
        match d.variables[0].domain_hi {
            Some(x) => x,
            None => 100,
        },
    )
}

/// The coefficients and target of the search: from the parameters for a
/// search for `f(x) = target`, none and 0 otherwise.
pub open spec fn search_terms(d: DescModel) -> (Seq<i64>, i64) {
    if d.kind == StatementKind::ArithFind {
        (
            coefficient_list(d.params),
            match param_value(d.params, "target"@) {
                Some(t) => t,
                None => 0,
            },
        )
    } else {
        (Seq::empty(), 0)
    }
}

/// The reduction's arithmetic stays within machine integers.
pub open spec fn finite_fits(d: DescModel) -> bool {
    if d.kind == StatementKind::BoolSat {
        bool_var_count(d) > 20 ==> bool_var_count(d) < 64
    } else if (d.kind == StatementKind::ExistentialFinite || d.kind == StatementKind::ArithFind)
        && d.variables.len() > 0 && d.variables[0].is_finite {
        let (lo, hi) = finite_range(d);
        let n = search_terms(d).0.len();
        &&& hi < i64::MAX
        &&& 0 <= hi - lo + 1 <= i64::MAX
        &&& n * 10 + 20 <= u64::MAX
        &&& (hi - lo + 1) * (n * 10 + 20) + 10 <= u64::MAX
    } else {
        true
    }
}

impl FiniteSearchSchema {
    /// Reduce a statement over a finite domain to an exhaustive search, or
    /// say why it cannot be.
    pub fn attempt_reduction(statement: &StatementDesc, max_vm_steps: u64) -> (r: SchemaResult)
        requires
            finite_fits(statement@),
        ensures
            ({
                let d = statement@;
                if !(d.kind == StatementKind::ExistentialFinite || d.kind == StatementKind::BoolSat || d.kind
                    == StatementKind::ArithFind) {
                    r is NotApplicable
                } else if d.kind == StatementKind::BoolSat {
                    let n = bool_var_count(d);
                    if n > 20 {
                        failure_is(
                            r,
                            "BoolSat with "@ + decimal(n) + " vars exceeds tractable bound"@,
                            Some("2^"@ + decimal(n) + " = "@ + decimal(pow2(n)) + " assignments"@),
                        )
                    } else {
                        budget_outcome(r, bool_search_program(pow2(n) as i64), (pow2(n) * 20) as int, max_vm_steps)
                    }
                } else if !(d.variables.len() > 0 && d.variables[0].is_finite) {
                    r is NotApplicable
                } else {
                    let (lo, hi) = finite_range(d);
                    let (cs, target) = search_terms(d);
                    budget_outcome(
                        r,
                        root_search_program(lo, hi, cs, target),
                        (hi - lo + 1) * (cs.len() * 10 + 20) + 10,
                        max_vm_steps,
                    )
                }
            }),
    {
        let ghost d = statement@;
        let (program, b_star) = match statement.kind {
            StatementKind::ExistentialFinite | StatementKind::BoolSat | StatementKind::ArithFind => {
                if let StatementKind::BoolSat = statement.kind {
                    let num_vars: usize = if statement.variables.len() > 1 {
                        statement.variables.len()
                    } else {
                        1
                    };
                    if num_vars > 20 {
                        let shift = num_vars as u64;
                        proof {
                            vstd::bits::lemma_u64_pow2_no_overflow(shift as nat);
                            vstd::bits::lemma_u64_shl_is_mul(1, shift);
                        }
                        let count: u64 = 1u64 << shift;
                        let n_text = decimal_string(num_vars as u64);
                        return SchemaResult::Failure {
                            goal_statement: "BoolSat with ".to_string().concat(n_text.as_str()).concat(
                                " vars exceeds tractable bound",
                            ),
                            unresolved_bound: Some(
                                "2^".to_string().concat(n_text.as_str()).concat(" = ").concat(
                                    decimal_string(count).as_str(),
                                ).concat(" assignments"),
                            ),
                        };
                    }
                    Self::build_bool_search_program(num_vars)
                } else {
                    let finite = if statement.variables.len() > 0 {
                        assert(d.variables[0] == statement.variables@[0]@);
                        statement.variables[0].is_finite
                    } else {
                        false
                    };
                    if !finite {
                        return SchemaResult::NotApplicable;
                    }
                    assert(d.variables[0] == statement.variables@[0]@);
                    let lo = match statement.variables[0].domain_lo {
                        Some(x) => x,
                        None => 0,
                    };
                    let hi = match statement.variables[0].domain_hi {
                        Some(x) => x,
                        None => 100,
                    };
                    assert(d.params =~= Seq::new(
                        statement.params@.len(),
                        |i: int| (statement.params@[i].0@, statement.params@[i].1),
                    ));
                    if let StatementKind::ArithFind = statement.kind {
                        let coefficients = coefficients_of(&statement.params);
                        let target = match find_param(&statement.params, "target") {
                            Some(t) => t,
                            None => 0,
                        };
                        Self::build_arith_search_program(lo, hi, coefficients.as_slice(), target)
                    } else {
                        let none: Vec<i64> = Vec::new();
                        assert(none@ =~= Seq::<i64>::empty());
                        Self::build_arith_search_program(lo, hi, none.as_slice(), 0)
                    }
                }
            },
            _ => return SchemaResult::NotApplicable,
        };
        if b_star > max_vm_steps {
            let text = decimal_string(b_star);
            return SchemaResult::Failure {
                goal_statement: "B*=".to_string().concat(text.as_str()).concat(" exceeds max_vm_steps=").concat(
                    decimal_string(max_vm_steps).as_str(),
                ),
                unresolved_bound: Some("B* = ".to_string().concat(text.as_str())),
            };
        }
        SchemaResult::Success { program, b_star }
    }
}

/// From the loop head with assignment `x` in cell 0 and `x < domain`:
/// the test of `x`, which ends at the next assignment or at `Halt(1)`.
proof fn lemma_bool_round(domain: i64, m: Map<usize, i64>, steps: nat, fuel: nat)
    requires
        read_cell(m, 1) == domain,
        0 <= read_cell(m, 0) < domain,
        fuel >= if read_cell(m, 0) == 0 {
            14nat
        } else {
            10nat
        },
    ensures
        read_cell(m, 0) != 0 ==> reported_outcome(
            spec_run_from(bool_search_program(domain), running(4, Seq::empty(), m, steps), fuel),
        ) == VmOutcome::Halted(1),
        read_cell(m, 0) == 0 ==> spec_run_from(bool_search_program(domain), running(4, Seq::empty(), m, steps), fuel)
            == spec_run_from(
            bool_search_program(domain),
            running(4, Seq::empty(), m.insert(0, 1), steps + 14),
            (fuel - 14) as nat,
        ),
{
    let prog = bool_search_program(domain);
    let x = read_cell(m, 0);
    let e = Seq::<i64>::empty();
    let hdr = seq![Instruction::Load(0), Instruction::Load(1), Instruction::Lt];
    assert(prog.subrange(4, 7) =~= hdr);
    lemma_compare(m, 0, 1);
    lemma_run_straight(prog, running(4, e, m, steps), hdr, fuel);
    let s7 = running(7, seq![1i64], m, steps + 3);
    lemma_step_on(prog, s7, (fuel - 3) as nat);
    assert(seq![1i64].drop_last() =~= e);
    let s8 = running(8, e, m, steps + 4);
    assert(spec_step(prog, s7) == s8);
    let chk = seq![Instruction::Load(0), Instruction::Push(0), Instruction::Eq];
    assert(prog.subrange(8, 11) =~= chk);
    let q = flag(x == 0);
    assert(binary_value(Instruction::Eq, x, 0) == Ok::<i64, Fault>(q));
    lemma_load_push_op(m, 0, 0, Instruction::Eq);
    lemma_run_straight(prog, s8, chk, (fuel - 4) as nat);
    let s11 = running(11, seq![q], m, steps + 7);
    lemma_step_on(prog, s11, (fuel - 7) as nat);
    let nq = flag(q == 0);
    assert(seq![q].drop_last().push(nq) =~= seq![nq]);
    let s12 = running(12, seq![nq], m, steps + 8);
    assert(spec_step(prog, s11) == s12);
    lemma_step_on(prog, s12, (fuel - 8) as nat);
    assert(seq![nq].drop_last() =~= e);
    if x != 0 {
        let s13 = running(13, e, m, steps + 9);
        assert(spec_step(prog, s12) == s13);
        lemma_step_on(prog, s13, (fuel - 9) as nat);
        let h = spec_step(prog, s13);
        assert(h.outcome == Some(VmOutcome::Halted(1)));
        assert(spec_run_from(prog, h, (fuel - 10) as nat) == h);
    } else {
        let s14 = running(14, e, m, steps + 9);
        assert(spec_step(prog, s12) == s14);
        let inc = seq![Instruction::Load(0), Instruction::Push(1), Instruction::Add, Instruction::Store(0)];
        assert(prog.subrange(14, 18) =~= inc);
        lemma_increment(m);
        lemma_run_straight(prog, s14, inc, (fuel - 9) as nat);
        let m1 = m.insert(0, 1);
        let s18 = running(18, e, m1, steps + 13);
        lemma_step_on(prog, s18, (fuel - 13) as nat);
        assert(spec_step(prog, s18) == running(4, e, m1, steps + 14));
    }
}

/// With at least two assignments the boolean search reaches the
/// assignment 1, which is not all-false, and halts with 1 within 28 steps.
pub proof fn lemma_bool_search_program_finds(domain: i64, fuel: nat)
    requires
        domain >= 2,
        fuel >= 28,
    ensures
        reported_outcome(spec_run(bool_search_program(domain), fuel)) == VmOutcome::Halted(1),
{
    let prog = bool_search_program(domain);
    let init = seq![Instruction::Push(0), Instruction::Store(0), Instruction::Push(domain), Instruction::Store(1)];
    assert(prog.subrange(0, 4) =~= init);
    lemma_two_sets(Map::empty(), 0, 0, domain, 1);
    lemma_run_straight(prog, initial_state(), init, fuel);
    let m0 = Map::<usize, i64>::empty().insert(0, 0).insert(1, domain);
    assert(read_cell(m0, 0) == 0 && read_cell(m0, 1) == domain);
    lemma_bool_round(domain, m0, 4, (fuel - 4) as nat);
    let m1 = m0.insert(0, 1);
    assert(read_cell(m1, 0) == 1 && read_cell(m1, 1) == domain);
    lemma_bool_round(domain, m1, 18, (fuel - 18) as nat);
}

} // verus!
