//! What the Mersenne prime search program decides.
//!
//! The program tries p = 2, 3, ... up to its bound P: for a prime p it
//! computes 2^p - 1 and tests it, halting with 1 at the first Mersenne
//! prime; past the bound it halts with 0.

use crate::open_problems::{
    mersenne_budget, mersenne_part_0, mersenne_part_1, mersenne_part_2, mersenne_program,
    primality_block,
};
use crate::trial_division::{
    is_prime, lemma_primality_run_correct, lemma_primality_test, primality_run, running,
    test_placed, trial_from,
};
use crate::twin_primes::{lemma_bound_check, lemma_copy, lemma_step_on};
use crate::vm::{
    binary_value, exec_straight, flag, initial_state, lemma_run_straight, read_cell,
    reported_outcome, spec_run, spec_run_from, spec_step, Instruction, VmOutcome,
};
use vstd::arithmetic::power2::pow2;
use vstd::prelude::*;

verus! {

/// Some prime `p` in `[2, p_max]` has `2^p - 1` prime.
pub open spec fn mersenne_prime_up_to(p_max: int) -> bool {
    exists|p: nat| 2 <= p <= p_max && #[trigger] is_prime(p as int) && is_prime(pow2(p) - 1)
}

#[verifier::spinoff_prover]
#[verifier::rlimit(80)]
proof fn lemma_layout(p_max: i64)
    ensures
        ({
            let prog = mersenne_program(p_max);
            &&& prog.len() == 122
            &&& prog.subrange(0, 12) == mersenne_part_0(p_max)
            &&& test_placed(prog, 10, 11, 12, 52, 51)
            &&& prog.subrange(51, 76) == mersenne_part_1()
            &&& test_placed(prog, 12, 13, 76, 116, 115)
            &&& prog.subrange(115, 122) == mersenne_part_2()
        }),
{
    let prog = mersenne_program(p_max);
    let a = mersenne_part_0(p_max);
    let b = primality_block(10, 11, 12, 52, 51);
    let c = mersenne_part_1();
    let d = primality_block(12, 13, 76, 116, 115);
    let e = mersenne_part_2();
    assert(prog == a + b + c + d + e);
    assert(prog.subrange(0, 12) =~= a);
    assert(prog.subrange(12, 51) =~= b);
    assert(prog.subrange(51, 76) =~= c);
    assert(prog.subrange(76, 115) =~= d);
    assert(prog.subrange(115, 122) =~= e);
}

/// `code` sits at `start`, inside one of the straight-line parts.
proof fn lemma_code_at(p_max: i64, start: int, code: Seq<Instruction>)
    requires
        (0 <= start && start + code.len() <= 12) || (51 <= start && start + code.len() <= 76) || (115
            <= start && start + code.len() <= 122),
        forall|j: int|
            0 <= j < code.len() ==> #[trigger] code[j] == (if start < 12 {
                mersenne_part_0(p_max)[start + j]
            } else if start < 76 {
                mersenne_part_1()[start + j - 51]
            } else {
                mersenne_part_2()[start + j - 115]
            }),
    ensures
        mersenne_program(p_max).subrange(start, start + code.len()) == code,
{
    let prog = mersenne_program(p_max);
    lemma_layout(p_max);
    assert forall|j: int| 0 <= j < code.len() implies prog[start + j] == code[j] by {
        if start < 12 {
            assert(prog.subrange(0, 12)[start + j] == prog[start + j]);
        } else if start < 76 {
            assert(prog.subrange(51, 76)[start + j - 51] == prog[start + j]);
        } else {
            assert(prog.subrange(115, 122)[start + j - 115] == prog[start + j]);
        }
    }
    assert(prog.subrange(start, start + code.len()) =~= code);
}

/// The instruction at `k`, inside one of the straight-line parts.
proof fn lemma_instr_at(p_max: i64, k: int)
    requires
        (0 <= k < 12) || (51 <= k < 76) || (115 <= k < 122),
    ensures
        mersenne_program(p_max)[k] == (if k < 12 {
            mersenne_part_0(p_max)[k]
        } else if k < 76 {
            mersenne_part_1()[k - 51]
        } else {
            mersenne_part_2()[k - 115]
        }),
{
    let prog = mersenne_program(p_max);
    lemma_layout(p_max);
    if k < 12 {
        assert(prog.subrange(0, 12)[k] == prog[k]);
    } else if k < 76 {
        assert(prog.subrange(51, 76)[k - 51] == prog[k]);
    } else {
        assert(prog.subrange(115, 122)[k - 115] == prog[k]);
    }
}

/// `Push(v), Store(slot)`.
proof fn lemma_set(m: Map<usize, i64>, v: i64, slot: usize)
    ensures
        exec_straight(seq![Instruction::Push(v), Instruction::Store(slot)], Seq::empty(), m) == Ok::<
            (Seq<i64>, Map<usize, i64>),
            crate::vm::Fault,
        >((Seq::empty(), m.insert(slot, v))),
{
    reveal_with_fuel(exec_straight, 3);
    let code = seq![Instruction::Push(v), Instruction::Store(slot)];
    assert(code.skip(1) =~= seq![Instruction::Store(slot)]);
    assert(code.skip(1).skip(1) =~= Seq::<Instruction>::empty());
    assert(Seq::<i64>::empty().push(v).drop_last() =~= Seq::<i64>::empty());
}

/// `Load(src), Push(c), op, Store(dst)` for an arithmetic `op` that
/// evaluates.
proof fn lemma_op_store(m: Map<usize, i64>, src: usize, c: i64, op: Instruction, dst: usize)
    requires
        op == Instruction::Add || op == Instruction::Sub || op == Instruction::Mul,
        binary_value(op, read_cell(m, src), c) is Ok,
    ensures
        exec_straight(seq![Instruction::Load(src), Instruction::Push(c), op, Instruction::Store(dst)], Seq::empty(), m)
            == Ok::<(Seq<i64>, Map<usize, i64>), crate::vm::Fault>(
            (Seq::empty(), m.insert(dst, binary_value(op, read_cell(m, src), c)->Ok_0)),
        ),
{
    reveal_with_fuel(exec_straight, 5);
    let x = read_cell(m, src);
    let v = binary_value(op, x, c)->Ok_0;
    let code = seq![Instruction::Load(src), Instruction::Push(c), op, Instruction::Store(dst)];
    assert(code.skip(1) =~= seq![Instruction::Push(c), op, Instruction::Store(dst)]);
    assert(code.skip(1).skip(1) =~= seq![op, Instruction::Store(dst)]);
    assert(code.skip(1).skip(1).skip(1) =~= seq![Instruction::Store(dst)]);
    assert(code.skip(1).skip(1).skip(1).skip(1) =~= Seq::<Instruction>::empty());
    let s2 = Seq::<i64>::empty().push(x).push(c);
    assert(s2[s2.len() - 2] == x);
    assert(s2.drop_last().drop_last().push(v) =~= seq![v]);
    assert(seq![v].drop_last() =~= Seq::<i64>::empty());
}

/// `Load(14), Push(0), Eq` pushes whether the exponent is 0.
proof fn lemma_exponent_check(m: Map<usize, i64>)
    ensures
        exec_straight(seq![Instruction::Load(14), Instruction::Push(0), Instruction::Eq], Seq::empty(), m)
            == Ok::<(Seq<i64>, Map<usize, i64>), crate::vm::Fault>((seq![flag(read_cell(m, 14) == 0)], m)),
{
    reveal_with_fuel(exec_straight, 4);
    let x = read_cell(m, 14);
    let code = seq![Instruction::Load(14), Instruction::Push(0), Instruction::Eq];
    assert(code.skip(1) =~= seq![Instruction::Push(0), Instruction::Eq]);
    assert(code.skip(1).skip(1) =~= seq![Instruction::Eq]);
    assert(code.skip(1).skip(1).skip(1) =~= Seq::<Instruction>::empty());
    let s2 = Seq::<i64>::empty().push(x).push(0);
    assert(s2[s2.len() - 2] == x);
    assert(s2.drop_last().drop_last().push(flag(x == 0)) =~= seq![flag(x == 0)]);
}

/// One round of the power loop: with the exponent not 0, the value
/// doubles and the exponent drops by one, in 13 steps.
proof fn lemma_power_round(p_max: i64, m: Map<usize, i64>, steps: nat, fuel: nat)
    requires
        1 <= read_cell(m, 14),
        0 <= read_cell(m, 2) <= 0x1000,
        fuel >= 13,
    ensures
        spec_run_from(mersenne_program(p_max), running(56, Seq::empty(), m, steps), fuel)
            == spec_run_from(
            mersenne_program(p_max),
            running(
                56,
                Seq::empty(),
                m.insert(2, (2 * read_cell(m, 2)) as i64).insert(14, (read_cell(m, 14) - 1) as i64),
                steps + 13,
            ),
            (fuel - 13) as nat,
        ),
{
    let prog = mersenne_program(p_max);
    let x = read_cell(m, 2);
    let e = read_cell(m, 14);
    let chk = seq![Instruction::Load(14), Instruction::Push(0), Instruction::Eq];
    lemma_code_at(p_max, 56, chk);
    lemma_exponent_check(m);
    lemma_run_straight(prog, running(56, Seq::empty(), m, steps), chk, fuel);
    lemma_instr_at(p_max, 59);
    let s3 = running(59, seq![0i64], m, steps + 3);
    lemma_step_on(prog, s3, (fuel - 3) as nat);
    assert(seq![0i64].drop_last() =~= Seq::<i64>::empty());
    let s4 = running(61, Seq::empty(), m, steps + 4);
    assert(spec_step(prog, s3) == s4);
    let dbl = seq![Instruction::Load(2), Instruction::Push(2), Instruction::Mul, Instruction::Store(2)];
    lemma_code_at(p_max, 61, dbl);
    assert(binary_value(Instruction::Mul, x, 2) == Ok::<i64, crate::vm::Fault>((x * 2) as i64));
    lemma_op_store(m, 2, 2, Instruction::Mul, 2);
    lemma_run_straight(prog, s4, dbl, (fuel - 4) as nat);
    let m1 = m.insert(2, (2 * x) as i64);
    assert(read_cell(m1, 14) == e);
    let dec = seq![Instruction::Load(14), Instruction::Push(1), Instruction::Sub, Instruction::Store(14)];
    lemma_code_at(p_max, 65, dec);
    assert(binary_value(Instruction::Sub, e, 1) == Ok::<i64, crate::vm::Fault>((e - 1) as i64));
    lemma_op_store(m1, 14, 1, Instruction::Sub, 14);
    lemma_run_straight(prog, running(65, Seq::empty(), m1, steps + 8), dec, (fuel - 8) as nat);
    let m2 = m1.insert(14, (e - 1) as i64);
    lemma_instr_at(p_max, 69);
    let s12 = running(69, Seq::empty(), m2, steps + 12);
    lemma_step_on(prog, s12, (fuel - 12) as nat);
    assert(spec_step(prog, s12) == running(56, Seq::empty(), m2, steps + 13));
}

/// The Mersenne program for a bound P, run for its budget, halts with 1
/// exactly when some prime p in `[2, P]` has `2^p - 1` prime, and with 0
/// otherwise.
#[verifier::rlimit(60)]
pub proof fn lemma_mersenne_program_decides(p_max: i64)
    ensures
        reported_outcome(spec_run(mersenne_program(p_max), mersenne_budget(p_max) as nat))
            == VmOutcome::Halted(if mersenne_prime_up_to(p_max as int) { 1u8 } else { 0u8 }),
{
    let prog = mersenne_program(p_max);
    let budget = mersenne_budget(p_max);
    assert(budget >= 1_000_000);
    lemma_layout(p_max);
    let a = seq![Instruction::Push(2), Instruction::Store(0)];
    let b = seq![Instruction::Push(p_max), Instruction::Store(1)];
    lemma_code_at(p_max, 0, a + b);
    lemma_set(Map::empty(), 2, 0);
    lemma_set(Map::<usize, i64>::empty().insert(0, 2), p_max, 1);
    crate::vm::lemma_exec_straight_append(a, b, Seq::empty(), Map::empty());
    let m0 = Map::<usize, i64>::empty().insert(0, 2).insert(1, p_max);
    lemma_run_straight(prog, initial_state(), a + b, budget as nat);
    assert(read_cell(m0, 0) == 2 && read_cell(m0, 1) == p_max);
    // The bound check.
    let hdr = seq![Instruction::Load(0), Instruction::Load(1), Instruction::Swap, Instruction::Lt];
    lemma_code_at(p_max, 4, hdr);
    lemma_bound_check(m0);
    lemma_run_straight(prog, running(4, Seq::empty(), m0, 4), hdr, (budget - 4) as nat);
    lemma_instr_at(p_max, 8);
    lemma_instr_at(p_max, 9);
    if p_max < 2 {
        let s8 = running(8, seq![1i64], m0, 8);
        lemma_step_on(prog, s8, (budget - 8) as nat);
        assert(seq![1i64].drop_last() =~= Seq::<i64>::empty());
        let s9 = running(9, Seq::empty(), m0, 9);
        assert(spec_step(prog, s8) == s9);
        lemma_step_on(prog, s9, (budget - 9) as nat);
        let s10 = spec_step(prog, s9);
        assert(s10.outcome == Some(VmOutcome::Halted(0)));
        assert(spec_run_from(prog, s10, (budget - 10) as nat) == s10);
        assert(!mersenne_prime_up_to(p_max as int));
        return;
    }
    let s8 = running(8, seq![0i64], m0, 8);
    lemma_step_on(prog, s8, (budget - 8) as nat);
    assert(seq![0i64].drop_last() =~= Seq::<i64>::empty());
    let s9 = running(10, Seq::empty(), m0, 9);
    assert(spec_step(prog, s8) == s9);
    // Test p = 2.
    let cp = seq![Instruction::Load(0), Instruction::Store(10)];
    lemma_code_at(p_max, 10, cp);
    lemma_copy(m0, 0, 10);
    lemma_run_straight(prog, s9, cp, (budget - 9) as nat);
    let m1 = m0.insert(10, 2);
    assert(read_cell(m1, 10) == 2);
    lemma_primality_run_correct(2);
    assert(primality_run(2) == (true, None::<int>, 9nat));
    lemma_primality_test(prog, 10, 11, 12, 52, 51, Seq::empty(), m1, 11, (budget - 11) as nat);
    // x := 1, e := p.
    let one = seq![Instruction::Push(1), Instruction::Store(2)];
    lemma_code_at(p_max, 52, one);
    lemma_set(m1, 1, 2);
    lemma_run_straight(prog, running(52, Seq::empty(), m1, 20), one, (budget - 20) as nat);
    let m2 = m1.insert(2, 1);
    let ex = seq![Instruction::Load(0), Instruction::Store(14)];
    lemma_code_at(p_max, 54, ex);
    lemma_copy(m2, 0, 14);
    lemma_run_straight(prog, running(54, Seq::empty(), m2, 22), ex, (budget - 22) as nat);
    let m3 = m2.insert(14, 2);
    assert(read_cell(m3, 2) == 1 && read_cell(m3, 14) == 2);
    // Two rounds of the power loop.
    lemma_power_round(p_max, m3, 24, (budget - 24) as nat);
    let m4 = m3.insert(2, 2).insert(14, 1);
    assert(read_cell(m4, 2) == 2 && read_cell(m4, 14) == 1);
    lemma_power_round(p_max, m4, 37, (budget - 37) as nat);
    let m5 = m4.insert(2, 4).insert(14, 0);
    assert(read_cell(m5, 2) == 4 && read_cell(m5, 14) == 0);
    // The exponent is 0: on to 70.
    let chk = seq![Instruction::Load(14), Instruction::Push(0), Instruction::Eq];
    lemma_code_at(p_max, 56, chk);
    lemma_exponent_check(m5);
    lemma_run_straight(prog, running(56, Seq::empty(), m5, 50), chk, (budget - 50) as nat);
    lemma_instr_at(p_max, 59);
    lemma_instr_at(p_max, 60);
    let t3 = running(59, seq![1i64], m5, 53);
    lemma_step_on(prog, t3, (budget - 53) as nat);
    assert(seq![1i64].drop_last() =~= Seq::<i64>::empty());
    let t4 = running(60, Seq::empty(), m5, 54);
    assert(spec_step(prog, t3) == t4);
    lemma_step_on(prog, t4, (budget - 54) as nat);
    let t5 = running(70, Seq::empty(), m5, 55);
    assert(spec_step(prog, t4) == t5);
    // 2^2 - 1 = 3, to the second test.
    let dec = seq![Instruction::Load(2), Instruction::Push(1), Instruction::Sub, Instruction::Store(2)];
    lemma_code_at(p_max, 70, dec);
    assert(binary_value(Instruction::Sub, 4, 1) == Ok::<i64, crate::vm::Fault>(3));
    lemma_op_store(m5, 2, 1, Instruction::Sub, 2);
    lemma_run_straight(prog, t5, dec, (budget - 55) as nat);
    let m6 = m5.insert(2, 3);
    let cq = seq![Instruction::Load(2), Instruction::Store(12)];
    lemma_code_at(p_max, 74, cq);
    lemma_copy(m6, 2, 12);
    lemma_run_straight(prog, running(74, Seq::empty(), m6, 59), cq, (budget - 59) as nat);
    let m7 = m6.insert(12, 3);
    assert(read_cell(m7, 12) == 3);
    lemma_primality_run_correct(3);
    assert(trial_from(3, 3).0);
    assert(primality_run(3).2 == 24);
    assert(is_prime(3));
    lemma_primality_test(prog, 12, 13, 76, 116, 115, Seq::empty(), m7, 61, (budget - 61) as nat);
    let mm = crate::trial_division::memory_after_test(m7, 13, 3);
    let t6 = running(116, Seq::empty(), mm, 85);
    lemma_instr_at(p_max, 116);
    lemma_step_on(prog, t6, (budget - 85) as nat);
    let t7 = spec_step(prog, t6);
    assert(t7.outcome == Some(VmOutcome::Halted(1)));
    assert(spec_run_from(prog, t7, (budget - 86) as nat) == t7);
    vstd::arithmetic::power2::lemma2_to64();
    assert(mersenne_prime_up_to(p_max as int)) by {
        assert(2 <= 2 <= p_max && is_prime(2nat as int) && is_prime(pow2(2nat) - 1));
    }
}

} // verus!
