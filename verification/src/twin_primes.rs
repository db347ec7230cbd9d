//! What the twin-prime search program decides.
//!
//! The program tries p = 2, 3, ... up to its bound N: it tests p for
//! primality, then p + 2, and halts with 1 at the first twin prime pair;
//! past the bound it halts with 0.

use crate::open_problems::{
    primality_block, twin_prime_budget, twin_prime_part_0, twin_prime_part_1, twin_prime_part_2,
    twin_prime_program,
};
use crate::trial_division::{
    is_prime, lemma_primality_run_correct, lemma_primality_test, memory_after_test, primality_run,
    running, test_fits, test_placed, trial_from,
};
use crate::vm::{
    exec_straight, flag, initial_state, lemma_run_straight, read_cell, reported_outcome, spec_run,
    spec_run_from, spec_step, Instruction, MachineState, VmOutcome,
};
use vstd::prelude::*;

verus! {

/// Some `p` in `[2, n_max]` has `p` and `p + 2` both prime.
pub open spec fn twin_pair_up_to(n_max: int) -> bool {
    exists|p: int| 2 <= p <= n_max && #[trigger] is_prime(p) && is_prime(p + 2)
}

pub(crate) proof fn lemma_step_on(prog: Seq<Instruction>, s: MachineState, fuel: nat)
    requires
        s.outcome is None,
        fuel >= 1,
    ensures
        spec_run_from(prog, s, fuel) == spec_run_from(prog, spec_step(prog, s), (fuel - 1) as nat),
{
}

proof fn lemma_layout(n_max: i64)
    ensures
        ({
            let prog = twin_prime_program(n_max);
            &&& prog.len() == 102
            &&& prog.subrange(0, 12) == twin_prime_part_0(n_max)
            &&& test_placed(prog, 10, 11, 12, 52, 51)
            &&& prog.subrange(51, 56) == twin_prime_part_1()
            &&& test_placed(prog, 12, 13, 56, 96, 95)
            &&& prog.subrange(95, 102) == twin_prime_part_2()
        }),
{
    let prog = twin_prime_program(n_max);
    let a = twin_prime_part_0(n_max);
    let b = primality_block(10, 11, 12, 52, 51);
    let c = twin_prime_part_1();
    let d = primality_block(12, 13, 56, 96, 95);
    let e = twin_prime_part_2();
    assert(prog == a + b + c + d + e);
    assert(prog.subrange(0, 12) =~= a);
    assert(prog.subrange(12, 51) =~= b);
    assert(prog.subrange(51, 56) =~= c);
    assert(prog.subrange(56, 95) =~= d);
    assert(prog.subrange(95, 102) =~= e);
}

/// `Load(0), Load(1), Swap, Lt` pushes whether the bound is below `p`.
pub(crate) proof fn lemma_bound_check(m: Map<usize, i64>)
    ensures
        exec_straight(
            seq![Instruction::Load(0), Instruction::Load(1), Instruction::Swap, Instruction::Lt],
            Seq::empty(),
            m,
        ) == Ok::<(Seq<i64>, Map<usize, i64>), crate::vm::Fault>(
            (seq![flag(read_cell(m, 1) < read_cell(m, 0))], m),
        ),
{
    reveal_with_fuel(exec_straight, 5);
    let p = read_cell(m, 0);
    let n = read_cell(m, 1);
    let code = seq![Instruction::Load(0), Instruction::Load(1), Instruction::Swap, Instruction::Lt];
    assert(code.skip(1) =~= seq![Instruction::Load(1), Instruction::Swap, Instruction::Lt]);
    assert(code.skip(1).skip(1) =~= seq![Instruction::Swap, Instruction::Lt]);
    assert(code.skip(1).skip(1).skip(1) =~= seq![Instruction::Lt]);
    assert(code.skip(1).skip(1).skip(1).skip(1) =~= Seq::<Instruction>::empty());
    let s2 = Seq::<i64>::empty().push(p).push(n);
    let s3 = s2.drop_last().drop_last().push(s2.last()).push(s2[s2.len() - 2]);
    assert(s3 =~= seq![n, p]);
    assert(s3.drop_last().drop_last().push(flag(n < p)) =~= seq![flag(n < p)]);
}

/// `Load(src), Push(c), Add, Store(dst)` stores the sum in `dst`.
pub(crate) proof fn lemma_add_store(m: Map<usize, i64>, src: usize, c: i64, dst: usize)
    requires
        i64::MIN <= read_cell(m, src) + c <= i64::MAX,
    ensures
        exec_straight(
            seq![Instruction::Load(src), Instruction::Push(c), Instruction::Add, Instruction::Store(dst)],
            Seq::empty(),
            m,
        ) == Ok::<(Seq<i64>, Map<usize, i64>), crate::vm::Fault>(
            (Seq::empty(), m.insert(dst, (read_cell(m, src) + c) as i64)),
        ),
{
    reveal_with_fuel(exec_straight, 5);
    let x = read_cell(m, src);
    let code = seq![Instruction::Load(src), Instruction::Push(c), Instruction::Add, Instruction::Store(dst)];
    assert(code.skip(1) =~= seq![Instruction::Push(c), Instruction::Add, Instruction::Store(dst)]);
    assert(code.skip(1).skip(1) =~= seq![Instruction::Add, Instruction::Store(dst)]);
    assert(code.skip(1).skip(1).skip(1) =~= seq![Instruction::Store(dst)]);
    assert(code.skip(1).skip(1).skip(1).skip(1) =~= Seq::<Instruction>::empty());
    let s2 = Seq::<i64>::empty().push(x).push(c);
    assert(s2[s2.len() - 2] == x);
    assert(s2.drop_last().drop_last().push((x + c) as i64) =~= seq![(x + c) as i64]);
    assert(seq![(x + c) as i64].drop_last() =~= Seq::<i64>::empty());
}

/// `Load(src), Store(dst)` copies a cell.
pub(crate) proof fn lemma_copy(m: Map<usize, i64>, src: usize, dst: usize)
    ensures
        exec_straight(seq![Instruction::Load(src), Instruction::Store(dst)], Seq::empty(), m) == Ok::<
            (Seq<i64>, Map<usize, i64>),
            crate::vm::Fault,
        >((Seq::empty(), m.insert(dst, read_cell(m, src)))),
{
    reveal_with_fuel(exec_straight, 3);
    let code = seq![Instruction::Load(src), Instruction::Store(dst)];
    assert(code.skip(1) =~= seq![Instruction::Store(dst)]);
    assert(code.skip(1).skip(1) =~= Seq::<Instruction>::empty());
    assert(Seq::<i64>::empty().push(read_cell(m, src)).drop_last() =~= Seq::<i64>::empty());
}

/// At the loop head with `p` past the bound, the program halts with 0.
proof fn lemma_past_bound(n_max: i64, m: Map<usize, i64>, steps: nat, fuel: nat)
    requires
        read_cell(m, 1) < read_cell(m, 0),
        fuel >= 6,
    ensures
        spec_run_from(twin_prime_program(n_max), running(4, Seq::empty(), m, steps), fuel).outcome
            == Some(VmOutcome::Halted(0)),
{
    let prog = twin_prime_program(n_max);
    lemma_layout(n_max);
    let hdr = seq![Instruction::Load(0), Instruction::Load(1), Instruction::Swap, Instruction::Lt];
    assert(prog.subrange(4, 8) =~= hdr) by {
        assert(prog.subrange(0, 12)[4] == prog[4]);
        assert(prog.subrange(0, 12)[5] == prog[5]);
        assert(prog.subrange(0, 12)[6] == prog[6]);
        assert(prog.subrange(0, 12)[7] == prog[7]);
    }
    lemma_bound_check(m);
    lemma_run_straight(prog, running(4, Seq::empty(), m, steps), hdr, fuel);
    let s4 = running(8, seq![1i64], m, steps + 4);
    assert(prog[8] == prog.subrange(0, 12)[8]);
    lemma_step_on(prog, s4, (fuel - 4) as nat);
    assert(seq![1i64].drop_last() =~= Seq::<i64>::empty());
    let s5 = running(9, Seq::empty(), m, steps + 5);
    assert(spec_step(prog, s4) == s5);
    assert(prog[9] == prog.subrange(0, 12)[9]);
    lemma_step_on(prog, s5, (fuel - 5) as nat);
    let s6 = spec_step(prog, s5);
    assert(s6.outcome == Some(VmOutcome::Halted(0)));
    assert(spec_run_from(prog, s6, (fuel - 6) as nat) == s6);
}

/// Steps of the round for candidate `p`: the bound check, the copy, the
/// test of `p`, and either the move to the next candidate or the test of
/// `p + 2` (then, unless it is prime, the move).
pub open spec fn round_steps(p: int) -> nat {
    7 + primality_run(p).2 + if is_prime(p) {
        4 + primality_run(p + 2).2 + if is_prime(p + 2) {
            0nat
        } else {
            6nat
        }
    } else {
        6nat
    }
}

/// Memory after the round for `p`, when it moves on to `p + 1`.
pub open spec fn round_memory(m: Map<usize, i64>, p: int) -> Map<usize, i64> {
    let m2 = memory_after_test(m.insert(10, p as i64), 11, p);
    if is_prime(p) {
        memory_after_test(m2.insert(12, (p + 2) as i64), 13, p + 2).insert(0, (p + 1) as i64)
    } else {
        m2.insert(0, (p + 1) as i64)
    }
}

/// One round of the search, for a candidate `p` within the bound: a twin
/// pair `(p, p + 2)` halts the program with 1; otherwise the program is
/// back at the loop head with `p + 1`.
#[verifier::rlimit(40)]
proof fn lemma_round(n_max: i64, m: Map<usize, i64>, steps: nat, fuel: nat)
    requires
        read_cell(m, 1) == n_max,
        2 <= read_cell(m, 0) <= n_max,
        read_cell(m, 0) + 2 <= i64::MAX,
        test_fits(read_cell(m, 0) as int),
        test_fits(read_cell(m, 0) + 2),
        fuel >= round_steps(read_cell(m, 0) as int) + 1,
    ensures
        ({
            let p = read_cell(m, 0) as int;
            let prog = twin_prime_program(n_max);
            &&& is_prime(p) && is_prime(p + 2) ==> spec_run_from(
                prog,
                running(4, Seq::empty(), m, steps),
                fuel,
            ).outcome == Some(VmOutcome::Halted(1))
            &&& !(is_prime(p) && is_prime(p + 2)) ==> spec_run_from(
                prog,
                running(4, Seq::empty(), m, steps),
                fuel,
            ) == spec_run_from(
                prog,
                running(4, Seq::empty(), round_memory(m, p), steps + round_steps(p)),
                (fuel - round_steps(p)) as nat,
            )
        }),
{
    let p = read_cell(m, 0);
    let prog = twin_prime_program(n_max);
    lemma_layout(n_max);
    let part0 = twin_prime_part_0(n_max);
    // Bound check: p is within the bound.
    let hdr = seq![Instruction::Load(0), Instruction::Load(1), Instruction::Swap, Instruction::Lt];
    assert(prog.subrange(4, 8) =~= hdr) by {
        assert forall|k: int| 4 <= k < 8 implies prog[k] == part0[k] by {
            assert(prog.subrange(0, 12)[k] == prog[k]);
        }
    }
    lemma_bound_check(m);
    lemma_run_straight(prog, running(4, Seq::empty(), m, steps), hdr, fuel);
    let s4 = running(8, seq![0i64], m, steps + 4);
    assert(prog[8] == prog.subrange(0, 12)[8]);
    lemma_step_on(prog, s4, (fuel - 4) as nat);
    assert(seq![0i64].drop_last() =~= Seq::<i64>::empty());
    let s5 = running(10, Seq::empty(), m, steps + 5);
    assert(spec_step(prog, s4) == s5);
    // Copy p to the test cell.
    let cp = seq![Instruction::Load(0), Instruction::Store(10)];
    assert(prog.subrange(10, 12) =~= cp) by {
        assert(prog.subrange(0, 12)[10] == prog[10]);
        assert(prog.subrange(0, 12)[11] == prog[11]);
    }
    lemma_copy(m, 0, 10);
    lemma_run_straight(prog, s5, cp, (fuel - 5) as nat);
    let m1 = m.insert(10, p);
    assert(read_cell(m1, 10) == p);
    // Test p.
    lemma_primality_run_correct(p as int);
    lemma_primality_test(prog, 10, 11, 12, 52, 51, Seq::empty(), m1, steps + 7, (fuel - 7) as nat);
    let c1 = primality_run(p as int).2;
    let m2 = memory_after_test(m1, 11, p as int);
    assert(read_cell(m2, 0) == p && read_cell(m2, 1) == n_max);
    let f2 = (fuel - 7 - c1) as nat;
    let part1 = twin_prime_part_1();
    let part2 = twin_prime_part_2();
    let next = seq![Instruction::Load(0), Instruction::Push(1), Instruction::Add, Instruction::Store(0)];
    assert(prog.subrange(97, 101) =~= next) by {
        assert forall|k: int| 97 <= k < 101 implies prog[k] == part2[k - 95] by {
            assert(prog.subrange(95, 102)[k - 95] == prog[k]);
        }
    }
    assert(prog[101] == Instruction::Jmp(4)) by {
        assert(prog.subrange(95, 102)[6] == prog[101]);
    }
    if !is_prime(p as int) {
        // 51: Jmp(97), then p := p + 1 and back to the head.
        let t0 = running(51, Seq::empty(), m2, steps + 7 + c1);
        assert(prog[51] == prog.subrange(51, 56)[0]);
        lemma_step_on(prog, t0, f2);
        let t1 = running(97, Seq::empty(), m2, steps + 8 + c1);
        assert(spec_step(prog, t0) == t1);
        lemma_add_store(m2, 0, 1, 0);
        lemma_run_straight(prog, t1, next, (f2 - 1) as nat);
        let m5 = m2.insert(0, (p + 1) as i64);
        let t5 = running(101, Seq::empty(), m5, steps + 12 + c1);
        lemma_step_on(prog, t5, (f2 - 5) as nat);
        assert(spec_step(prog, t5) == running(4, Seq::empty(), m5, steps + 13 + c1));
        assert(m5 == round_memory(m, p as int));
    } else {
        // 52: q := p + 2.
        let q = (p + 2) as i64;
        let t0 = running(52, Seq::empty(), m2, steps + 7 + c1);
        let mk = seq![Instruction::Load(0), Instruction::Push(2), Instruction::Add, Instruction::Store(12)];
        assert(prog.subrange(52, 56) =~= mk) by {
            assert forall|k: int| 52 <= k < 56 implies prog[k] == part1[k - 51] by {
                assert(prog.subrange(51, 56)[k - 51] == prog[k]);
            }
        }
        lemma_add_store(m2, 0, 2, 12);
        lemma_run_straight(prog, t0, mk, f2);
        let m3 = m2.insert(12, q);
        assert(read_cell(m3, 12) == q);
        // Test p + 2.
        lemma_primality_run_correct(q as int);
        lemma_primality_test(prog, 12, 13, 56, 96, 95, Seq::empty(), m3, steps + 11 + c1, (f2 - 4) as nat);
        let c2 = primality_run(q as int).2;
        let m4 = memory_after_test(m3, 13, q as int);
        let f4 = (f2 - 4 - c2) as nat;
        if is_prime(q as int) {
            let t1 = running(96, Seq::empty(), m4, steps + 11 + c1 + c2);
            assert(prog[96] == prog.subrange(95, 102)[1]);
            lemma_step_on(prog, t1, f4);
            let t2 = spec_step(prog, t1);
            assert(t2.outcome == Some(VmOutcome::Halted(1)));
            assert(spec_run_from(prog, t2, (f4 - 1) as nat) == t2);
        } else {
            assert(read_cell(m4, 0) == p);
            let t1 = running(95, Seq::empty(), m4, steps + 11 + c1 + c2);
            assert(prog[95] == prog.subrange(95, 102)[0]);
            lemma_step_on(prog, t1, f4);
            let t2 = running(97, Seq::empty(), m4, steps + 12 + c1 + c2);
            assert(spec_step(prog, t1) == t2);
            lemma_add_store(m4, 0, 1, 0);
            lemma_run_straight(prog, t2, next, (f4 - 1) as nat);
            let m5 = m4.insert(0, (p + 1) as i64);
            let t6 = running(101, Seq::empty(), m5, steps + 16 + c1 + c2);
            lemma_step_on(prog, t6, (f4 - 5) as nat);
            assert(spec_step(prog, t6) == running(4, Seq::empty(), m5, steps + 17 + c1 + c2));
            assert(m5 == round_memory(m, p as int));
        }
    }
}

/// The twin-prime search program, run for its budget, halts with 1
/// exactly when some `p` in `[2, N]` has `p` and `p + 2` both prime, and
/// with 0 otherwise.
pub proof fn lemma_twin_prime_program_decides(n_max: i64)
    ensures
        reported_outcome(spec_run(twin_prime_program(n_max), twin_prime_budget(n_max) as nat))
            == VmOutcome::Halted(if twin_pair_up_to(n_max as int) { 1u8 } else { 0u8 }),
{
    let prog = twin_prime_program(n_max);
    let budget = twin_prime_budget(n_max);
    assert(budget >= 1_000_000);
    lemma_layout(n_max);
    // Initialisation: p = 2, bound = N.
    let init = seq![Instruction::Push(2), Instruction::Store(0), Instruction::Push(n_max), Instruction::Store(1)];
    assert(prog.subrange(0, 4) =~= init) by {
        assert forall|k: int| 0 <= k < 4 implies prog[k] == twin_prime_part_0(n_max)[k] by {
            assert(prog.subrange(0, 12)[k] == prog[k]);
        }
    }
    let m0 = Map::<usize, i64>::empty().insert(0, 2).insert(1, n_max);
    assert(exec_straight(init, Seq::empty(), Map::empty()) == Ok::<
        (Seq<i64>, Map<usize, i64>),
        crate::vm::Fault,
    >((Seq::empty(), m0))) by {
        reveal_with_fuel(exec_straight, 5);
        assert(init.skip(1) =~= seq![Instruction::Store(0), Instruction::Push(n_max), Instruction::Store(1)]);
        assert(init.skip(1).skip(1) =~= seq![Instruction::Push(n_max), Instruction::Store(1)]);
        assert(init.skip(1).skip(1).skip(1) =~= seq![Instruction::Store(1)]);
        assert(init.skip(1).skip(1).skip(1).skip(1) =~= Seq::<Instruction>::empty());
        assert(Seq::<i64>::empty().push(2).drop_last() =~= Seq::<i64>::empty());
        assert(Seq::<i64>::empty().push(n_max).drop_last() =~= Seq::<i64>::empty());
    }
    lemma_run_straight(prog, initial_state(), init, budget as nat);
    let f0 = (budget - 4) as nat;
    assert(read_cell(m0, 0) == 2 && read_cell(m0, 1) == n_max);
    if n_max < 2 {
        lemma_past_bound(n_max, m0, 4, f0);
        assert(!twin_pair_up_to(n_max as int));
        return;
    }
    // The candidate 2: prime, but 4 is not.
    lemma_primality_run_correct(2);
    lemma_primality_run_correct(4);
    assert(!is_prime(4));
    assert(round_steps(2) == 41);
    lemma_round(n_max, m0, 4, f0);
    let m1 = round_memory(m0, 2);
    assert(read_cell(m1, 0) == 3 && read_cell(m1, 1) == n_max);
    let f1 = (f0 - 41) as nat;
    if n_max == 2 {
        lemma_past_bound(n_max, m1, 45, f1);
        assert(!twin_pair_up_to(n_max as int)) by {
            if twin_pair_up_to(n_max as int) {
                let p = choose|p: int| 2 <= p <= n_max && #[trigger] is_prime(p) && is_prime(p + 2);
                assert(p == 2);
            }
        }
        return;
    }
    // The candidate 3: 3 and 5 are prime.
    lemma_primality_run_correct(3);
    lemma_primality_run_correct(5);
    assert(trial_from(3, 3).0);
    assert(trial_from(5, 3).0);
    assert(is_prime(3) && is_prime(5));
    assert(primality_run(3).2 == 24);
    assert(primality_run(5).2 == 24);
    assert(round_steps(3) == 59);
    assert(test_fits(3) && test_fits(5));
    lemma_round(n_max, m1, 45, f1);
    assert(twin_pair_up_to(n_max as int)) by {
        assert(2 <= 3 <= n_max && is_prime(3int) && is_prime(3int + 2));
    }
}

} // verus!
