//! What the odd perfect number program decides.
//!
//! The program runs over the odd n = 1, 3, 5, ... up to its bound N; for
//! each it adds up the divisors d of n with 1 <= d <= n and halts with 0
//! when the sum is 2n. Past the bound it halts with 1.

use crate::open_problems::{odd_perfect_budget, odd_perfect_program};
use crate::trial_division::running;
use crate::twin_primes::{lemma_add_store, lemma_bound_check, lemma_step_on};
use crate::vm::{
    exec_straight, flag, initial_state, lemma_run_straight, read_cell, reported_outcome, spec_run,
    spec_run_from, spec_step, Instruction, VmOutcome,
};
use vstd::prelude::*;

verus! {

/// Sum of the divisors of `n` from `d` to `n`.
pub open spec fn divisor_sum_from(n: int, d: int) -> int
    decreases n + 1 - d,
{
    if d > n || d < 1 {
        0
    } else {
        (if n % d == 0 {
            d
        } else {
            0
        }) + divisor_sum_from(n, d + 1)
    }
}

/// Sum of the divisors of `n` (itself included).
pub open spec fn divisor_sum(n: int) -> int {
    divisor_sum_from(n, 1)
}

/// No odd `n` in `[1, n_max]` is perfect (has divisor sum `2n`).
pub open spec fn no_odd_perfect_up_to(n_max: int) -> bool {
    forall|n: int| 1 <= n <= n_max && n % 2 == 1 ==> #[trigger] divisor_sum(n) != 2 * n
}

/// Steps of the divisor loop from `d`, from its head (position 14) to the
/// perfection check (position 35).
pub open spec fn divisor_loop_steps(n: int, d: int) -> nat
    decreases n + 1 - d,
{
    if d > n || d < 1 {
        6
    } else {
        (if n % d == 0 {
            20nat
        } else {
            16nat
        }) + divisor_loop_steps(n, d + 1)
    }
}

/// Memory when the divisor loop from `d`, with running sum `s`, ends.
pub open spec fn divisor_loop_memory(m: Map<usize, i64>, n: int, d: int, s: int) -> Map<usize, i64>
    decreases n + 1 - d,
{
    if d > n || d < 1 {
        m
    } else if n % d == 0 {
        divisor_loop_memory(m.insert(3, (s + d) as i64).insert(2, (d + 1) as i64), n, d + 1, s + d)
    } else {
        divisor_loop_memory(m.insert(2, (d + 1) as i64), n, d + 1, s)
    }
}

/// The outer loop from `n`: whether no odd number from `n` to the bound is
/// perfect, and the steps to the halting instruction.
pub open spec fn outer_run(n_max: int, n: int) -> (bool, nat)
    decreases n_max + 2 - n,
{
    if n > n_max {
        (true, 5)
    } else {
        let c = 9 + divisor_loop_steps(n, 1);
        if divisor_sum(n) == 2 * n {
            (false, c + 6)
        } else {
            let o = outer_run(n_max, n + 2);
            (o.0, c + 11 + o.1)
        }
    }
}

// ── Arithmetic facts ────────────────────────────────────────────────

proof fn lemma_divisor_sum_bound(n: int, d: int)
    requires
        1 <= d,
        n >= 0,
    ensures
        0 <= divisor_sum_from(n, d) <= (if d <= n {
            n + 1 - d
        } else {
            0
        }) * n,
    decreases n + 1 - d,
{
    if d <= n {
        lemma_divisor_sum_bound(n, d + 1);
        let k = if d + 1 <= n {
            n - d
        } else {
            0
        };
        assert((n + 1 - d) * n == k * n + n) by (nonlinear_arith)
            requires
                k == (if d + 1 <= n {
                    n - d
                } else {
                    0
                }),
                d <= n,
        ;
        assert(k * n >= 0) by (nonlinear_arith)
            requires
                k >= 0,
                n >= 0,
        ;
    }
}

proof fn lemma_divisor_loop_steps(n: int, d: int)
    requires
        1 <= d,
    ensures
        divisor_loop_steps(n, d) <= 20 * (if d <= n {
            n + 1 - d
        } else {
            0
        }) + 6,
    decreases n + 1 - d,
{
    if d <= n {
        lemma_divisor_loop_steps(n, d + 1);
    }
}

proof fn lemma_outer_found(n_max: int, n: int)
    requires
        n >= 1,
        n % 2 == 1,
    ensures
        outer_run(n_max, n).0 == (forall|k: int|
            n <= k <= n_max && k % 2 == 1 ==> #[trigger] divisor_sum(k) != 2 * k),
    decreases n_max + 2 - n,
{
    if n <= n_max {
        if divisor_sum(n) == 2 * n {
            assert(!(n <= n <= n_max && n % 2 == 1 ==> divisor_sum(n) != 2 * n));
        } else {
            lemma_outer_found(n_max, n + 2);
            if outer_run(n_max, n + 2).0 {
                assert forall|k: int| n <= k <= n_max && k % 2 == 1 implies #[trigger] divisor_sum(k) != 2 * k by {
                    if k != n {
                        assert(n + 2 <= k);
                    }
                }
            } else {
                let k = choose|k: int| !(n + 2 <= k <= n_max && k % 2 == 1 ==> #[trigger] divisor_sum(k) != 2 * k);
                assert(!(n <= k <= n_max && k % 2 == 1 ==> divisor_sum(k) != 2 * k));
            }
        }
    }
}

/// Steps of the outer loop from an odd `n >= 1`, bounded by the number of
/// odd numbers left times the cost of the largest.
proof fn lemma_outer_steps(n_max: int, n: int)
    requires
        n >= 1,
        n_max >= 0,
    ensures
        outer_run(n_max, n).1 <= (if n <= n_max {
            (n_max - n) / 2 + 1
        } else {
            0
        }) * (20 * n_max + 26) + 5,
    decreases n_max + 2 - n,
{
    if n <= n_max {
        lemma_divisor_loop_steps(n, 1);
        lemma_outer_steps(n_max, n + 2);
        let k = if n + 2 <= n_max {
            (n_max - n - 2) / 2 + 1
        } else {
            0
        };
        assert(k + 1 == (n_max - n) / 2 + 1);
        assert(((n_max - n) / 2 + 1) * (20 * n_max + 26) == k * (20 * n_max + 26) + 20 * n_max + 26) by (nonlinear_arith)
            requires
                k + 1 == (n_max - n) / 2 + 1,
        ;
        assert(k * (20 * n_max + 26) >= 0) by (nonlinear_arith)
            requires
                k >= 0,
                n_max >= 0,
        ;
    }
}

// ── The program ─────────────────────────────────────────────────────

/// `code` sits at `start` in the program.
proof fn lemma_code_at(n_max: i64, start: int, code: Seq<Instruction>)
    requires
        0 <= start,
        start + code.len() <= 47,
        forall|j: int| 0 <= j < code.len() ==> odd_perfect_program(n_max)[start + j] == #[trigger] code[j],
    ensures
        odd_perfect_program(n_max).subrange(start, start + code.len()) == code,
{
    assert(odd_perfect_program(n_max).subrange(start, start + code.len()) =~= code);
}

/// `Push(v), Store(slot)`.
proof fn lemma_set(m: Map<usize, i64>, v: i64, slot: usize)
    ensures
        exec_straight(seq![Instruction::Push(v), Instruction::Store(slot)], Seq::empty(), m) == Ok::<
            (Seq<i64>, Map<usize, i64>),
            crate::vm::Fault,
        >((Seq::empty(), m.insert(slot, v))),
{
    reveal_with_fuel(exec_straight, 3);
    let code = seq![Instruction::Push(v), Instruction::Store(slot)];
    assert(code.skip(1) =~= seq![Instruction::Store(slot)]);
    assert(code.skip(1).skip(1) =~= Seq::<Instruction>::empty());
    assert(Seq::<i64>::empty().push(v).drop_last() =~= Seq::<i64>::empty());
}

/// `Load(2), Load(0), Swap, Lt` pushes whether `n < d`.
proof fn lemma_past_check(m: Map<usize, i64>)
    ensures
        exec_straight(
            seq![Instruction::Load(2), Instruction::Load(0), Instruction::Swap, Instruction::Lt],
            Seq::empty(),
            m,
        ) == Ok::<(Seq<i64>, Map<usize, i64>), crate::vm::Fault>(
            (seq![flag(read_cell(m, 0) < read_cell(m, 2))], m),
        ),
{
    reveal_with_fuel(exec_straight, 5);
    let x = read_cell(m, 2);
    let y = read_cell(m, 0);
    let code = seq![Instruction::Load(2), Instruction::Load(0), Instruction::Swap, Instruction::Lt];
    assert(code.skip(1) =~= seq![Instruction::Load(0), Instruction::Swap, Instruction::Lt]);
    assert(code.skip(1).skip(1) =~= seq![Instruction::Swap, Instruction::Lt]);
    assert(code.skip(1).skip(1).skip(1) =~= seq![Instruction::Lt]);
    assert(code.skip(1).skip(1).skip(1).skip(1) =~= Seq::<Instruction>::empty());
    let s2 = Seq::<i64>::empty().push(x).push(y);
    let s3 = s2.drop_last().drop_last().push(s2.last()).push(s2[s2.len() - 2]);
    assert(s3 =~= seq![y, x]);
    assert(s3.drop_last().drop_last().push(flag(y < x)) =~= seq![flag(y < x)]);
}

/// `Load(0), Load(2), Mod, Push(0), Eq` pushes whether `d` divides `n`.
proof fn lemma_divides(m: Map<usize, i64>)
    requires
        read_cell(m, 0) >= 1,
        read_cell(m, 2) >= 1,
    ensures
        exec_straight(
            seq![
                Instruction::Load(0),
                Instruction::Load(2),
                Instruction::Mod,
                Instruction::Push(0),
                Instruction::Eq,
            ],
            Seq::empty(),
            m,
        ) == Ok::<(Seq<i64>, Map<usize, i64>), crate::vm::Fault>(
            (seq![flag(read_cell(m, 0) % read_cell(m, 2) == 0)], m),
        ),
{
    reveal_with_fuel(exec_straight, 6);
    let n = read_cell(m, 0);
    let d = read_cell(m, 2);
    let r = (n % d) as i64;
    let code = seq![
        Instruction::Load(0),
        Instruction::Load(2),
        Instruction::Mod,
        Instruction::Push(0),
        Instruction::Eq,
    ];
    assert(code.skip(1) =~= seq![Instruction::Load(2), Instruction::Mod, Instruction::Push(0), Instruction::Eq]);
    assert(code.skip(1).skip(1) =~= seq![Instruction::Mod, Instruction::Push(0), Instruction::Eq]);
    assert(code.skip(1).skip(1).skip(1) =~= seq![Instruction::Push(0), Instruction::Eq]);
    assert(code.skip(1).skip(1).skip(1).skip(1) =~= seq![Instruction::Eq]);
    assert(code.skip(1).skip(1).skip(1).skip(1).skip(1) =~= Seq::<Instruction>::empty());
    let s2 = Seq::<i64>::empty().push(n).push(d);
    assert(s2[s2.len() - 2] == n);
    assert(s2.drop_last().drop_last().push(r) =~= seq![r]);
    let s4 = seq![r].push(0);
    assert(s4[s4.len() - 2] == r);
    assert(s4.drop_last().drop_last().push(flag(r == 0)) =~= seq![flag(r == 0)]);
}

/// `Load(3), Load(2), Add, Store(3)` adds `d` to the running sum.
proof fn lemma_accumulate(m: Map<usize, i64>)
    requires
        read_cell(m, 3) + read_cell(m, 2) <= i64::MAX,
        read_cell(m, 3) + read_cell(m, 2) >= i64::MIN,
    ensures
        exec_straight(
            seq![Instruction::Load(3), Instruction::Load(2), Instruction::Add, Instruction::Store(3)],
            Seq::empty(),
            m,
        ) == Ok::<(Seq<i64>, Map<usize, i64>), crate::vm::Fault>(
            (Seq::empty(), m.insert(3, (read_cell(m, 3) + read_cell(m, 2)) as i64)),
        ),
{
    reveal_with_fuel(exec_straight, 5);
    let a = read_cell(m, 3);
    let b = read_cell(m, 2);
    let code = seq![Instruction::Load(3), Instruction::Load(2), Instruction::Add, Instruction::Store(3)];
    assert(code.skip(1) =~= seq![Instruction::Load(2), Instruction::Add, Instruction::Store(3)]);
    assert(code.skip(1).skip(1) =~= seq![Instruction::Add, Instruction::Store(3)]);
    assert(code.skip(1).skip(1).skip(1) =~= seq![Instruction::Store(3)]);
    assert(code.skip(1).skip(1).skip(1).skip(1) =~= Seq::<Instruction>::empty());
    let s2 = Seq::<i64>::empty().push(a).push(b);
    assert(s2[s2.len() - 2] == a);
    assert(s2.drop_last().drop_last().push((a + b) as i64) =~= seq![(a + b) as i64]);
    assert(seq![(a + b) as i64].drop_last() =~= Seq::<i64>::empty());
}

/// `Load(3), Load(0), Push(2), Mul, Eq` pushes whether the sum is `2n`.
proof fn lemma_perfect_check(m: Map<usize, i64>)
    requires
        0 <= read_cell(m, 0) <= 0x3FFF_FFFF_FFFF_FFFF,
    ensures
        exec_straight(
            seq![
                Instruction::Load(3),
                Instruction::Load(0),
                Instruction::Push(2),
                Instruction::Mul,
                Instruction::Eq,
            ],
            Seq::empty(),
            m,
        ) == Ok::<(Seq<i64>, Map<usize, i64>), crate::vm::Fault>(
            (seq![flag(read_cell(m, 3) == 2 * read_cell(m, 0))], m),
        ),
{
    reveal_with_fuel(exec_straight, 6);
    let sgm = read_cell(m, 3);
    let n = read_cell(m, 0);
    let tw = (n * 2) as i64;
    let code = seq![
        Instruction::Load(3),
        Instruction::Load(0),
        Instruction::Push(2),
        Instruction::Mul,
        Instruction::Eq,
    ];
    assert(code.skip(1) =~= seq![Instruction::Load(0), Instruction::Push(2), Instruction::Mul, Instruction::Eq]);
    assert(code.skip(1).skip(1) =~= seq![Instruction::Push(2), Instruction::Mul, Instruction::Eq]);
    assert(code.skip(1).skip(1).skip(1) =~= seq![Instruction::Mul, Instruction::Eq]);
    assert(code.skip(1).skip(1).skip(1).skip(1) =~= seq![Instruction::Eq]);
    assert(code.skip(1).skip(1).skip(1).skip(1).skip(1) =~= Seq::<Instruction>::empty());
    let s3 = seq![sgm].push(n).push(2);
    assert(s3[s3.len() - 2] == n);
    assert(s3.drop_last().drop_last().push(tw) =~= seq![sgm, tw]);
    let s4 = seq![sgm, tw];
    assert(s4[s4.len() - 2] == sgm);
    assert(s4.drop_last().drop_last().push(flag(sgm == tw)) =~= seq![flag(sgm == tw)]);
    assert(Seq::<i64>::empty().push(sgm) =~= seq![sgm]);
}

/// The divisor loop from `d` with running sum `s`: after its steps the
/// machine is at the perfection check with `s` plus the divisor sum from
/// `d` in cell 3.
#[verifier::rlimit(40)]
proof fn lemma_divisor_loop(n_max: i64, m: Map<usize, i64>, steps: nat, fuel: nat)
    requires
        1 <= read_cell(m, 0) < i64::MAX,
        1 <= read_cell(m, 2),
        0 <= read_cell(m, 3),
        read_cell(m, 3) + divisor_sum_from(read_cell(m, 0) as int, read_cell(m, 2) as int) <= i64::MAX,
        fuel >= divisor_loop_steps(read_cell(m, 0) as int, read_cell(m, 2) as int),
    ensures
        ({
            let n = read_cell(m, 0) as int;
            let d = read_cell(m, 2) as int;
            let sm = read_cell(m, 3) as int;
            let lm = divisor_loop_memory(m, n, d, sm);
            let c = divisor_loop_steps(n, d);
            &&& read_cell(lm, 0) == n && read_cell(lm, 1) == read_cell(m, 1)
            &&& read_cell(lm, 3) == sm + divisor_sum_from(n, d)
            &&& spec_run_from(odd_perfect_program(n_max), running(14, Seq::empty(), m, steps), fuel)
                == spec_run_from(
                odd_perfect_program(n_max),
                running(35, Seq::empty(), lm, steps + c),
                (fuel - c) as nat,
            )
        }),
    decreases read_cell(m, 0) + 1 - read_cell(m, 2),
{
    let n = read_cell(m, 0);
    let d = read_cell(m, 2);
    let sm = read_cell(m, 3);
    let prog = odd_perfect_program(n_max);
    let hd = seq![Instruction::Load(2), Instruction::Load(0), Instruction::Swap, Instruction::Lt];
    lemma_code_at(n_max, 14, hd);
    lemma_past_check(m);
    lemma_run_straight(prog, running(14, Seq::empty(), m, steps), hd, fuel);
    let s4 = running(18, seq![flag(n < d)], m, steps + 4);
    lemma_step_on(prog, s4, (fuel - 4) as nat);
    assert(seq![flag(n < d)].drop_last() =~= Seq::<i64>::empty());
    if d > n {
        let s5 = running(19, Seq::empty(), m, steps + 5);
        assert(spec_step(prog, s4) == s5);
        lemma_step_on(prog, s5, (fuel - 5) as nat);
        assert(spec_step(prog, s5) == running(35, Seq::empty(), m, steps + 6));
        return;
    }
    let s5 = running(20, Seq::empty(), m, steps + 5);
    assert(spec_step(prog, s4) == s5);
    let dv = seq![
        Instruction::Load(0),
        Instruction::Load(2),
        Instruction::Mod,
        Instruction::Push(0),
        Instruction::Eq,
    ];
    lemma_code_at(n_max, 20, dv);
    lemma_divides(m);
    lemma_run_straight(prog, s5, dv, (fuel - 5) as nat);
    let divides = n % d == 0;
    let s10 = running(25, seq![flag(divides)], m, steps + 10);
    lemma_step_on(prog, s10, (fuel - 10) as nat);
    assert(seq![flag(divides)].drop_last() =~= Seq::<i64>::empty());
    lemma_divisor_sum_bound(n as int, d + 1);
    let nx = seq![Instruction::Load(2), Instruction::Push(1), Instruction::Add, Instruction::Store(2)];
    lemma_code_at(n_max, 30, nx);
    if divides {
        let s11 = running(26, Seq::empty(), m, steps + 11);
        assert(spec_step(prog, s10) == s11);
        let acc = seq![Instruction::Load(3), Instruction::Load(2), Instruction::Add, Instruction::Store(3)];
        lemma_code_at(n_max, 26, acc);
        lemma_accumulate(m);
        lemma_run_straight(prog, s11, acc, (fuel - 11) as nat);
        let m1 = m.insert(3, (sm + d) as i64);
        assert(read_cell(m1, 2) == d);
        lemma_add_store(m1, 2, 1, 2);
        lemma_run_straight(prog, running(30, Seq::empty(), m1, steps + 15), nx, (fuel - 15) as nat);
        let m2 = m1.insert(2, (d + 1) as i64);
        let s19 = running(34, Seq::empty(), m2, steps + 19);
        lemma_step_on(prog, s19, (fuel - 19) as nat);
        assert(spec_step(prog, s19) == running(14, Seq::empty(), m2, steps + 20));
        assert(read_cell(m2, 0) == n && read_cell(m2, 2) == d + 1 && read_cell(m2, 3) == sm + d);
        lemma_divisor_loop(n_max, m2, steps + 20, (fuel - 20) as nat);
    } else {
        let s11 = running(30, Seq::empty(), m, steps + 11);
        assert(spec_step(prog, s10) == s11);
        lemma_add_store(m, 2, 1, 2);
        lemma_run_straight(prog, s11, nx, (fuel - 11) as nat);
        let m2 = m.insert(2, (d + 1) as i64);
        let s15 = running(34, Seq::empty(), m2, steps + 15);
        lemma_step_on(prog, s15, (fuel - 15) as nat);
        assert(spec_step(prog, s15) == running(14, Seq::empty(), m2, steps + 16));
        assert(read_cell(m2, 0) == n && read_cell(m2, 2) == d + 1 && read_cell(m2, 3) == sm);
        lemma_divisor_loop(n_max, m2, steps + 16, (fuel - 16) as nat);
    }
}

/// The outer loop from an odd `n`: the program halts with 1 when no odd
/// number from `n` to the bound is perfect, and with 0 at the first that is.
proof fn lemma_outer(n_max: i64, m: Map<usize, i64>, steps: nat, fuel: nat)
    requires
        read_cell(m, 1) == n_max,
        n_max <= 0x4000_0000,
        1 <= read_cell(m, 0),
        read_cell(m, 0) % 2 == 1,
        fuel >= outer_run(n_max as int, read_cell(m, 0) as int).1 + 1,
    ensures
        spec_run_from(odd_perfect_program(n_max), running(4, Seq::empty(), m, steps), fuel).outcome
            == Some(
            VmOutcome::Halted(
                if outer_run(n_max as int, read_cell(m, 0) as int).0 {
                    1u8
                } else {
                    0u8
                },
            ),
        ),
    decreases (if read_cell(m, 0) <= n_max {
        n_max + 2 - read_cell(m, 0)
    } else {
        0
    }),
{
    let n = read_cell(m, 0);
    let prog = odd_perfect_program(n_max);
    let hdr = seq![Instruction::Load(0), Instruction::Load(1), Instruction::Swap, Instruction::Lt];
    lemma_code_at(n_max, 4, hdr);
    lemma_bound_check(m);
    lemma_run_straight(prog, running(4, Seq::empty(), m, steps), hdr, fuel);
    if n > n_max {
        let s4 = running(8, seq![1i64], m, steps + 4);
        lemma_step_on(prog, s4, (fuel - 4) as nat);
        assert(seq![1i64].drop_last() =~= Seq::<i64>::empty());
        let s5 = running(9, Seq::empty(), m, steps + 5);
        assert(spec_step(prog, s4) == s5);
        lemma_step_on(prog, s5, (fuel - 5) as nat);
        let s6 = spec_step(prog, s5);
        assert(s6.outcome == Some(VmOutcome::Halted(1)));
        assert(spec_run_from(prog, s6, (fuel - 6) as nat) == s6);
        return;
    }
    let s4 = running(8, seq![0i64], m, steps + 4);
    lemma_step_on(prog, s4, (fuel - 4) as nat);
    assert(seq![0i64].drop_last() =~= Seq::<i64>::empty());
    let s5 = running(10, Seq::empty(), m, steps + 5);
    assert(spec_step(prog, s4) == s5);
    let z = seq![Instruction::Push(0), Instruction::Store(3)];
    lemma_code_at(n_max, 10, z);
    lemma_set(m, 0, 3);
    lemma_run_straight(prog, s5, z, (fuel - 5) as nat);
    let m1 = m.insert(3, 0);
    let o = seq![Instruction::Push(1), Instruction::Store(2)];
    lemma_code_at(n_max, 12, o);
    lemma_set(m1, 1, 2);
    lemma_run_straight(prog, running(12, Seq::empty(), m1, steps + 7), o, (fuel - 7) as nat);
    let m2 = m1.insert(2, 1);
    assert(read_cell(m2, 0) == n && read_cell(m2, 1) == n_max && read_cell(m2, 2) == 1 && read_cell(m2, 3) == 0);
    lemma_divisor_sum_bound(n as int, 1);
    assert(n * n <= 0x1000_0000_0000_0000) by (nonlinear_arith)
        requires
            1 <= n <= 0x4000_0000,
    ;
    let c = divisor_loop_steps(n as int, 1);
    lemma_divisor_loop(n_max, m2, steps + 9, (fuel - 9) as nat);
    let lm = divisor_loop_memory(m2, n as int, 1, 0);
    assert(read_cell(lm, 3) == divisor_sum(n as int));
    let chk = seq![
        Instruction::Load(3),
        Instruction::Load(0),
        Instruction::Push(2),
        Instruction::Mul,
        Instruction::Eq,
    ];
    lemma_code_at(n_max, 35, chk);
    lemma_perfect_check(lm);
    let t0 = running(35, Seq::empty(), lm, steps + 9 + c);
    lemma_run_straight(prog, t0, chk, (fuel - 9 - c) as nat);
    let perfect = divisor_sum(n as int) == 2 * n;
    let t5 = running(40, seq![flag(perfect)], lm, steps + 14 + c);
    lemma_step_on(prog, t5, (fuel - 14 - c) as nat);
    assert(seq![flag(perfect)].drop_last() =~= Seq::<i64>::empty());
    if perfect {
        let t6 = running(41, Seq::empty(), lm, steps + 15 + c);
        assert(spec_step(prog, t5) == t6);
        lemma_step_on(prog, t6, (fuel - 15 - c) as nat);
        let t7 = spec_step(prog, t6);
        assert(t7.outcome == Some(VmOutcome::Halted(0)));
        assert(spec_run_from(prog, t7, (fuel - 16 - c) as nat) == t7);
    } else {
        let t6 = running(42, Seq::empty(), lm, steps + 15 + c);
        assert(spec_step(prog, t5) == t6);
        let nx = seq![Instruction::Load(0), Instruction::Push(2), Instruction::Add, Instruction::Store(0)];
        lemma_code_at(n_max, 42, nx);
        lemma_add_store(lm, 0, 2, 0);
        lemma_run_straight(prog, t6, nx, (fuel - 15 - c) as nat);
        let m3 = lm.insert(0, (n + 2) as i64);
        let t10 = running(46, Seq::empty(), m3, steps + 19 + c);
        lemma_step_on(prog, t10, (fuel - 19 - c) as nat);
        assert(spec_step(prog, t10) == running(4, Seq::empty(), m3, steps + 20 + c));
        assert(read_cell(m3, 0) == n + 2 && read_cell(m3, 1) == n_max);
        lemma_outer(n_max, m3, steps + 20 + c, (fuel - 20 - c) as nat);
    }
}

/// Steps the odd perfect program takes until it halts.
pub open spec fn odd_perfect_steps(n_max: int) -> nat {
    4 + outer_run(n_max, 1).1 + 1
}

/// The odd perfect program halts within its budget.
proof fn lemma_budget_suffices(n_max: i64)
    requires
        ((n_max as u64) / 2) * (n_max as u64) * 47 + 1_000_000 <= u64::MAX,
    ensures
        0 <= n_max <= 0x4000_0000,
        odd_perfect_steps(n_max as int) <= odd_perfect_budget(n_max),
{
    let nn = n_max as u64;
    let h = nn / 2;
    if n_max < 0 {
        assert(nn >= 0x8000_0000_0000_0000) by (bit_vector)
            requires
                n_max < 0,
                nn == n_max as u64,
        ;
        assert(h * nn * 47 > u64::MAX) by (nonlinear_arith)
            requires
                h >= 0x4000_0000_0000_0000,
                nn >= 0x8000_0000_0000_0000,
        ;
    }
    assert(nn == n_max);
    if n_max > 0x4000_0000 {
        assert(h * nn * 47 > u64::MAX) by (nonlinear_arith)
            requires
                h >= 0x2000_0000,
                nn > 0x4000_0000,
        ;
    }
    if n_max == 0 {
        assert(outer_run(0, 1).1 == 5);
    } else {
        lemma_outer_steps(n_max as int, 1);
        let k = (n_max - 1) / 2 + 1;
        assert(k <= h + 1);
        assert(k * (20 * n_max + 26) <= (h + 1) * (20 * n_max + 26)) by (nonlinear_arith)
            requires
                k <= h + 1,
                n_max >= 1,
        ;
        assert((h + 1) * (20 * n_max + 26) + 10 <= h * nn * 47 + 1_000_000) by (nonlinear_arith)
            requires
                n_max >= 1,
                nn == n_max,
                2 * h <= n_max <= 2 * h + 1,
                n_max <= 0x4000_0000,
        ;
    }
}

/// The odd perfect program for a bound N, run for its budget, halts with 1
/// exactly when no odd n from 1 to N has divisor sum 2n, and with 0
/// otherwise; for every bound the builder accepts.
pub proof fn lemma_odd_perfect_program_decides(n_max: i64)
    requires
        ((n_max as u64) / 2) * (n_max as u64) * 47 + 1_000_000 <= u64::MAX,
    ensures
        reported_outcome(spec_run(odd_perfect_program(n_max), odd_perfect_budget(n_max) as nat))
            == VmOutcome::Halted(if no_odd_perfect_up_to(n_max as int) { 1u8 } else { 0u8 }),
{
    let prog = odd_perfect_program(n_max);
    let budget = odd_perfect_budget(n_max);
    lemma_budget_suffices(n_max);
    let a = seq![Instruction::Push(1), Instruction::Store(0)];
    let b = seq![Instruction::Push(n_max), Instruction::Store(1)];
    lemma_code_at(n_max, 0, a + b);
    lemma_set(Map::empty(), 1, 0);
    lemma_set(Map::<usize, i64>::empty().insert(0, 1), n_max, 1);
    crate::vm::lemma_exec_straight_append(a, b, Seq::empty(), Map::empty());
    let m0 = Map::<usize, i64>::empty().insert(0, 1).insert(1, n_max);
    lemma_run_straight(prog, initial_state(), a + b, budget as nat);
    assert(read_cell(m0, 0) == 1 && read_cell(m0, 1) == n_max);
    lemma_outer(n_max, m0, 4, (budget - 4) as nat);
    lemma_outer_found(n_max as int, 1);
}

} // verus!
