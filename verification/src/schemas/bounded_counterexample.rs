//! The bounded-counterexample schema's program: a search of `[lo, hi]` for
//! a counterexample to `P(x) != 0`, `P` a polynomial.

use super::algebraic_decision::explicit_domain;
use super::{emit_power_terms, failure_is, lemma_power_terms_len, power_terms, signed_decimal, signed_decimal_string};
use crate::proof_enum::solve::{decimal, decimal_string};
use crate::schema::{SchemaResult, StatementDesc, StatementKind};
use crate::vm::{Instruction, Program};
use vstd::prelude::*;

verus! {

/// The bounded-counterexample schema.
pub struct BoundedCounterexampleSchema;

/// The coefficients of named polynomial terms.
pub open spec fn coefficient_values(cs: Seq<(String, i64)>) -> Seq<i64> {
    cs.map_values(|p: (String, i64)| p.1)
}

/// The program that runs `x` through `[lo, hi]`, halts with 0 at the first
/// root of `P(x) = c0 + c1 x + c2 x² + ...` (a counterexample) and with 1
/// when there is none; without coefficients every `x` passes.
pub open spec fn counterexample_search_program(lo: i64, hi: i64, cs: Seq<i64>) -> Seq<Instruction> {
    let all_pass: usize = if cs.len() == 0 {
        17
    } else {
        (16 + 10 * (cs.len() - 1) + 10) as usize
    };
    let head = seq![
        Instruction::Push(lo),
        Instruction::Store(0),
        Instruction::Push(hi),
        Instruction::Store(1),
        // 4: loop
        Instruction::Load(0),
        Instruction::Load(1),
        Instruction::Push(1),
        Instruction::Add,
        Instruction::Lt,
        Instruction::Jz(all_pass),
        Instruction::Load(0),
    ];
    let step = seq![
        Instruction::Load(0),
        Instruction::Push(1),
        Instruction::Add,
        Instruction::Store(0),
        Instruction::Jmp(4),
        Instruction::Halt(1),
    ];
    if cs.len() == 0 {
        head + seq![Instruction::Drop] + step
    } else {
        let q = 16 + 10 * (cs.len() - 1);
        head + seq![
            Instruction::Store(3),
            Instruction::Push(cs[0]),
            Instruction::Store(2),
            Instruction::Push(1),
            Instruction::Store(4),
        ] + power_terms(cs.skip(1), 2, 4, 3) + seq![
            Instruction::Load(2),
            Instruction::Push(0),
            Instruction::Eq,
            Instruction::Jz((q + 5) as usize),
            Instruction::Halt(0),
        ] + step
    }
}

impl BoundedCounterexampleSchema {
    /// The counterexample search over `[lo, hi]` for the polynomial with
    /// the given named coefficients.
    pub fn build_search_program(lo: i64, hi: i64, coefficients: &[(String, i64)]) -> (r: Program)
        ensures
            r@ == counterexample_search_program(lo, hi, coefficient_values(coefficients@)),
    {
        let mut values: Vec<i64> = Vec::new();
        let mut k: usize = 0;
        while k < coefficients.len()
            invariant
                k <= coefficients@.len(),
                values@ == coefficient_values(coefficients@.subrange(0, k as int)),
            decreases coefficients@.len() - k,
        {
            values.push(coefficients[k].1);
            proof {
                assert(coefficient_values(coefficients@.subrange(0, k + 1)) =~= coefficient_values(
                    coefficients@.subrange(0, k as int),
                ).push(coefficients@[k as int].1));
            }
            k = k + 1;
        }
        assert(coefficients@.subrange(0, coefficients@.len() as int) =~= coefficients@);
        let ghost cs = values@;
        let mut instrs: Vec<Instruction> = vec![
            Instruction::Push(lo),
            Instruction::Store(0),
            Instruction::Push(hi),
            Instruction::Store(1),
            Instruction::Load(0),
            Instruction::Load(1),
            Instruction::Push(1),
            Instruction::Add,
            Instruction::Lt,
            Instruction::Jz(0),
            Instruction::Load(0),
        ];
        let ghost head = instrs@;
        if values.len() == 0 {
            instrs.push(Instruction::Drop);
        } else {
            instrs.push(Instruction::Store(3));
            instrs.push(Instruction::Push(values[0]));
            instrs.push(Instruction::Store(2));
            instrs.push(Instruction::Push(1));
            instrs.push(Instruction::Store(4));
            let ghost before = instrs@;
            emit_power_terms(&mut instrs, values.as_slice(), 1, 2, 4, 3);
            proof {
                lemma_power_terms_len(cs.skip(1), 2, 4, 3);
                assert(cs.subrange(1, cs.len() as int) =~= cs.skip(1));
            }
            let jz_no_counter = instrs.len() + 3;
            instrs.push(Instruction::Load(2));
            instrs.push(Instruction::Push(0));
            instrs.push(Instruction::Eq);
            instrs.push(Instruction::Jz(0));
            instrs.push(Instruction::Halt(0));
            let after_halt = instrs.len();
            instrs.set(jz_no_counter, Instruction::Jz(after_halt));
        }
        instrs.push(Instruction::Load(0));
        instrs.push(Instruction::Push(1));
        instrs.push(Instruction::Add);
        instrs.push(Instruction::Store(0));
        instrs.push(Instruction::Jmp(4));
        let all_pass = instrs.len();
        instrs.push(Instruction::Halt(1));
        instrs.set(9, Instruction::Jz(all_pass));
        proof {
            let step = seq![
                Instruction::Load(0),
                Instruction::Push(1),
                Instruction::Add,
                Instruction::Store(0),
                Instruction::Jmp(4),
                Instruction::Halt(1),
            ];
            let new_head = head.update(9, Instruction::Jz(all_pass));
            if cs.len() == 0 {
                assert(instrs@ =~= new_head + seq![Instruction::Drop] + step);
            } else {
                let q = 16 + 10 * (cs.len() - 1);
                assert(instrs@ =~= new_head + seq![
                    Instruction::Store(3),
                    Instruction::Push(cs[0]),
                    Instruction::Store(2),
                    Instruction::Push(1),
                    Instruction::Store(4),
                ] + power_terms(cs.skip(1), 2, 4, 3) + seq![
                    Instruction::Load(2),
                    Instruction::Push(0),
                    Instruction::Eq,
                    Instruction::Jz((q + 5) as usize),
                    Instruction::Halt(0),
                ] + step);
            }
            assert(instrs@ =~= counterexample_search_program(lo, hi, cs));
        }
        Program::new(instrs)
    }
}

impl BoundedCounterexampleSchema {
    /// Reduce a universal statement over a finite range to a search for a
    /// counterexample, or say why it cannot be.
    pub fn attempt_reduction(statement: &StatementDesc, max_vm_steps: u64) -> (r: SchemaResult)
        requires
            explicit_domain(statement@) matches Some((lo, hi)) ==> 0 <= hi - lo + 1 && (hi - lo + 1) * 50
                <= u64::MAX,
        ensures
            ({
                let d = statement@;
                if !(d.kind == StatementKind::UniversalFinite || d.kind == StatementKind::BoolSat) {
                    r is NotApplicable
                } else {
                    match explicit_domain(d) {
                        None => r is NotApplicable,
                        Some((lo, hi)) => {
                            let b = (hi - lo + 1) * 50;
                            if b > max_vm_steps {
                                failure_is(
                                    r,
                                    "Bound B*="@ + decimal(b as nat) + " exceeds max_vm_steps="@ + decimal(
                                        max_vm_steps as nat,
                                    ),
                                    Some(
                                        "B* = "@ + decimal(b as nat) + " (domain ["@ + signed_decimal(lo as int)
                                            + ", "@ + signed_decimal(hi as int) + "])"@,
                                    ),
                                )
                            } else {
                                r matches SchemaResult::Success { program, b_star } && b_star == b && program@
                                    == counterexample_search_program(lo, hi, coefficient_values(statement.params@))
                            }
                        },
                    }
                }
            }),
    {
        match statement.kind {
            StatementKind::UniversalFinite | StatementKind::BoolSat => {},
            _ => return SchemaResult::NotApplicable,
        }
        let explicit = if statement.variables.len() > 0 {
            let v = &statement.variables[0];
            assert(statement@.variables[0] == v@);
            v.is_finite && v.domain_lo.is_some() && v.domain_hi.is_some()
        } else {
            false
        };
        if !explicit {
            return SchemaResult::NotApplicable;
        }
        let lo = match statement.variables[0].domain_lo {
            Some(x) => x,
            None => 0,
        };
        let hi = match statement.variables[0].domain_hi {
            Some(x) => x,
            None => 0,
        };
        let b_star = ((hi - lo + 1) as u64) * 50;
        if b_star > max_vm_steps {
            let text = decimal_string(b_star);
            return SchemaResult::Failure {
                goal_statement: "Bound B*=".to_string().concat(text.as_str()).concat(" exceeds max_vm_steps=").concat(
                    decimal_string(max_vm_steps).as_str(),
                ),
                unresolved_bound: Some(
                    "B* = ".to_string().concat(text.as_str()).concat(" (domain [").concat(
                        signed_decimal_string(lo).as_str(),
                    ).concat(", ").concat(signed_decimal_string(hi).as_str()).concat("])"),
                ),
            };
        }
        SchemaResult::Success { program: Self::build_search_program(lo, hi, statement.params.as_slice()), b_star }
    }
}

} // verus!
