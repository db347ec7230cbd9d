//! What the Bertrand postulate program decides.
//!
//! The program runs over n = 1, 2, ... up to its bound N; for each it tries
//! k = n + 1, n + 2, ... up to 2n and moves on to the next n at the first
//! prime k. An n without a prime in `(n, 2n]` halts the program with 0;
//! past the bound it halts with 1.

use crate::open_problems::{bertrand_budget, bertrand_part_0, bertrand_part_1, bertrand_program, primality_block};
use crate::trial_division::{
    is_prime, lemma_primality_run_correct, lemma_primality_test, lemma_test_fits_small,
    memory_after_test, primality_run, running, test_placed,
};
use crate::twin_primes::{lemma_add_store, lemma_bound_check, lemma_copy, lemma_step_on};
use crate::vm::{
    exec_straight, flag, initial_state, lemma_run_straight, read_cell, reported_outcome, spec_run,
    spec_run_from, spec_step, Instruction, VmOutcome,
};
use vstd::prelude::*;

verus! {

/// Some prime `p` has `n < p <= 2n`.
pub open spec fn prime_between(n: int) -> bool {
    exists|p: int| n < p <= 2 * n && #[trigger] is_prime(p)
}

/// Every `n` in `[1, n_max]` has a prime in `(n, 2n]`.
pub open spec fn bertrand_up_to(n_max: int) -> bool {
    forall|n: int| 1 <= n <= n_max ==> #[trigger] prime_between(n)
}

/// Some prime lies in `[k, 2n]`.
pub open spec fn prime_from(n: int, k: int) -> bool {
    exists|p: int| k <= p <= 2 * n && #[trigger] is_prime(p)
}

/// Steps of the round for candidate `k <= 2n`, from the search head
/// (position 18) to the next search head or the next `n`.
pub open spec fn round_steps(k: int) -> nat {
    12 + primality_run(k).2
}

/// Memory after the round for candidate `k`.
pub open spec fn round_memory(m: Map<usize, i64>, n: int, k: int) -> Map<usize, i64> {
    let m2 = memory_after_test(m.insert(10, k as i64), 11, k);
    if is_prime(k) {
        m2.insert(0, (n + 1) as i64)
    } else {
        m2.insert(2, (k + 1) as i64)
    }
}

/// The search for `n` from candidate `k`: whether it finds a prime, and its
/// steps to the next `n` (found) or to the `Halt(0)` instruction.
pub open spec fn search_run(n: int, k: int) -> (bool, nat)
    decreases 2 * n + 1 - k,
{
    if k > 2 * n {
        (false, 5)
    } else if is_prime(k) {
        (true, round_steps(k))
    } else {
        let r = search_run(n, k + 1);
        (r.0, round_steps(k) + r.1)
    }
}

/// Memory when the search for `n` from `k` reaches the next `n`.
pub open spec fn search_memory(m: Map<usize, i64>, n: int, k: int) -> Map<usize, i64>
    decreases 2 * n + 1 - k,
{
    if k > 2 * n {
        m
    } else if is_prime(k) {
        round_memory(m, n, k)
    } else {
        search_memory(round_memory(m, n, k), n, k + 1)
    }
}

/// The outer loop from `n`: whether every number from `n` to the bound
/// has a prime up to its double, and its steps to the halting instruction.
pub open spec fn outer_run(n_max: int, n: int) -> (bool, nat)
    decreases n_max + 1 - n,
{
    if n > n_max {
        (true, 5)
    } else {
        let r = search_run(n, n + 1);
        if r.0 {
            let o = outer_run(n_max, n + 1);
            (o.0, 13 + r.1 + o.1)
        } else {
            (false, 13 + r.1)
        }
    }
}

proof fn lemma_search_found(n: int, k: int)
    ensures
        search_run(n, k).0 == prime_from(n, k),
    decreases 2 * n + 1 - k,
{
    if k > 2 * n {
        if prime_from(n, k) {
            let w = choose|w: int| k <= w <= 2 * n && #[trigger] is_prime(w);
        }
    } else if is_prime(k) {
        assert(k <= k <= 2 * n && is_prime(k));
    } else {
        lemma_search_found(n, k + 1);
        if prime_from(n, k) {
            let w = choose|w: int| k <= w <= 2 * n && #[trigger] is_prime(w);
            assert(k + 1 <= w <= 2 * n && is_prime(w));
        }
        if prime_from(n, k + 1) {
            let w = choose|w: int| k + 1 <= w <= 2 * n && #[trigger] is_prime(w);
            assert(k <= w <= 2 * n && is_prime(w));
        }
    }
}

proof fn lemma_outer_found(n_max: int, n: int)
    ensures
        outer_run(n_max, n).0 == (forall|j: int| n <= j <= n_max ==> #[trigger] prime_between(j)),
    decreases n_max + 1 - n,
{
    if n <= n_max {
        lemma_search_found(n, n + 1);
        assert(prime_from(n, n + 1) == prime_between(n)) by {
            if prime_from(n, n + 1) {
                let w = choose|w: int| n + 1 <= w <= 2 * n && #[trigger] is_prime(w);
                assert(n < w <= 2 * n && is_prime(w));
            }
            if prime_between(n) {
                let w = choose|w: int| n < w <= 2 * n && #[trigger] is_prime(w);
                assert(n + 1 <= w <= 2 * n && is_prime(w));
            }
        }
        if search_run(n, n + 1).0 {
            lemma_outer_found(n_max, n + 1);
            if !outer_run(n_max, n + 1).0 {
                let j = choose|j: int| !(n + 1 <= j <= n_max ==> #[trigger] prime_between(j));
                assert(!(n <= j <= n_max ==> prime_between(j)));
            }
        } else {
            assert(!(n <= n <= n_max ==> prime_between(n)));
        }
    }
}

// ── The program ─────────────────────────────────────────────────────

#[verifier::spinoff_prover]
#[verifier::rlimit(80)]
proof fn lemma_layout(n_max: i64)
    ensures
        ({
            let prog = bertrand_program(n_max);
            &&& prog.len() == 75
            &&& prog.subrange(0, 26) == bertrand_part_0(n_max)
            &&& test_placed(prog, 10, 11, 26, 70, 65)
            &&& prog.subrange(65, 75) == bertrand_part_1()
        }),
{
    let prog = bertrand_program(n_max);
    let a = bertrand_part_0(n_max);
    let b = primality_block(10, 11, 26, 70, 65);
    let c = bertrand_part_1();
    assert(prog == a + b + c);
    assert(prog.subrange(0, 26) =~= a);
    assert(prog.subrange(26, 65) =~= b);
    assert(prog.subrange(65, 75) =~= c);
}

proof fn lemma_at(n_max: i64, k: int)
    requires
        0 <= k < 75,
    ensures
        0 <= k < 26 ==> bertrand_program(n_max)[k] == bertrand_part_0(n_max)[k],
        65 <= k < 75 ==> bertrand_program(n_max)[k] == bertrand_part_1()[k - 65],
{
    let prog = bertrand_program(n_max);
    lemma_layout(n_max);
    if 0 <= k < 26 {
        assert(prog.subrange(0, 26)[k] == prog[k]);
    }
    if 65 <= k < 75 {
        assert(prog.subrange(65, 75)[k - 65] == prog[k]);
    }
}

/// `Load(a), Load(b), Swap, Lt` pushes whether cell `b` is below cell `a`.
proof fn lemma_less_check(m: Map<usize, i64>, a: usize, b: usize)
    ensures
        exec_straight(
            seq![Instruction::Load(a), Instruction::Load(b), Instruction::Swap, Instruction::Lt],
            Seq::empty(),
            m,
        ) == Ok::<(Seq<i64>, Map<usize, i64>), crate::vm::Fault>(
            (seq![flag(read_cell(m, b) < read_cell(m, a))], m),
        ),
{
    reveal_with_fuel(exec_straight, 5);
    let x = read_cell(m, a);
    let y = read_cell(m, b);
    let code = seq![Instruction::Load(a), Instruction::Load(b), Instruction::Swap, Instruction::Lt];
    assert(code.skip(1) =~= seq![Instruction::Load(b), Instruction::Swap, Instruction::Lt]);
    assert(code.skip(1).skip(1) =~= seq![Instruction::Swap, Instruction::Lt]);
    assert(code.skip(1).skip(1).skip(1) =~= seq![Instruction::Lt]);
    assert(code.skip(1).skip(1).skip(1).skip(1) =~= Seq::<Instruction>::empty());
    let s2 = Seq::<i64>::empty().push(x).push(y);
    let s3 = s2.drop_last().drop_last().push(s2.last()).push(s2[s2.len() - 2]);
    assert(s3 =~= seq![y, x]);
    assert(s3.drop_last().drop_last().push(flag(y < x)) =~= seq![flag(y < x)]);
}

/// `Load(0), Push(2), Mul, Store(3)` stores `2n` in cell 3.
proof fn lemma_double(m: Map<usize, i64>)
    requires
        0 <= read_cell(m, 0) <= 0x1000_0000_0000,
    ensures
        exec_straight(
            seq![Instruction::Load(0), Instruction::Push(2), Instruction::Mul, Instruction::Store(3)],
            Seq::empty(),
            m,
        ) == Ok::<(Seq<i64>, Map<usize, i64>), crate::vm::Fault>(
            (Seq::empty(), m.insert(3, (2 * read_cell(m, 0)) as i64)),
        ),
{
    reveal_with_fuel(exec_straight, 5);
    let n = read_cell(m, 0);
    let code = seq![Instruction::Load(0), Instruction::Push(2), Instruction::Mul, Instruction::Store(3)];
    assert(code.skip(1) =~= seq![Instruction::Push(2), Instruction::Mul, Instruction::Store(3)]);
    assert(code.skip(1).skip(1) =~= seq![Instruction::Mul, Instruction::Store(3)]);
    assert(code.skip(1).skip(1).skip(1) =~= seq![Instruction::Store(3)]);
    assert(code.skip(1).skip(1).skip(1).skip(1) =~= Seq::<Instruction>::empty());
    let s2 = Seq::<i64>::empty().push(n).push(2);
    assert(s2[s2.len() - 2] == n);
    assert(n * 2 == 2 * n);
    assert(s2.drop_last().drop_last().push((2 * n) as i64) =~= seq![(2 * n) as i64]);
    assert(seq![(2 * n) as i64].drop_last() =~= Seq::<i64>::empty());
}

/// One round of the search for a candidate `k <= 2n`: a prime `k` moves on
/// to the next `n`, any other to `k + 1`.
#[verifier::rlimit(40)]
proof fn lemma_round(n_max: i64, m: Map<usize, i64>, steps: nat, fuel: nat)
    requires
        read_cell(m, 1) == n_max,
        1 <= read_cell(m, 0) <= n_max <= 0x100_0000_0000,
        read_cell(m, 3) == 2 * read_cell(m, 0),
        read_cell(m, 0) < read_cell(m, 2) <= read_cell(m, 3),
        fuel >= round_steps(read_cell(m, 2) as int),
    ensures
        ({
            let n = read_cell(m, 0) as int;
            let k = read_cell(m, 2) as int;
            spec_run_from(bertrand_program(n_max), running(18, Seq::empty(), m, steps), fuel)
                == spec_run_from(
                bertrand_program(n_max),
                running(
                    if is_prime(k) {
                        4
                    } else {
                        18
                    },
                    Seq::empty(),
                    round_memory(m, n, k),
                    steps + round_steps(k),
                ),
                (fuel - round_steps(k)) as nat,
            )
        }),
{
    let n = read_cell(m, 0);
    let k = read_cell(m, 2);
    let prog = bertrand_program(n_max);
    lemma_layout(n_max);
    let hd = seq![Instruction::Load(2), Instruction::Load(3), Instruction::Swap, Instruction::Lt];
    assert(prog.subrange(18, 22) =~= hd) by {
        assert forall|j: int| 18 <= j < 22 implies prog[j] == hd[j - 18] by {
            lemma_at(n_max, j);
        }
    }
    lemma_less_check(m, 2, 3);
    lemma_run_straight(prog, running(18, Seq::empty(), m, steps), hd, fuel);
    lemma_at(n_max, 22);
    let s4 = running(22, seq![0i64], m, steps + 4);
    lemma_step_on(prog, s4, (fuel - 4) as nat);
    assert(seq![0i64].drop_last() =~= Seq::<i64>::empty());
    let s5 = running(24, Seq::empty(), m, steps + 5);
    assert(spec_step(prog, s4) == s5);
    let cp = seq![Instruction::Load(2), Instruction::Store(10)];
    assert(prog.subrange(24, 26) =~= cp) by {
        lemma_at(n_max, 24);
        lemma_at(n_max, 25);
    }
    lemma_copy(m, 2, 10);
    lemma_run_straight(prog, s5, cp, (fuel - 5) as nat);
    let m1 = m.insert(10, k);
    assert(read_cell(m1, 10) == k);
    lemma_test_fits_small(k as int);
    lemma_primality_run_correct(k as int);
    lemma_primality_test(prog, 10, 11, 26, 70, 65, Seq::empty(), m1, steps + 7, (fuel - 7) as nat);
    let c1 = primality_run(k as int).2;
    let m2 = memory_after_test(m1, 11, k as int);
    assert(read_cell(m2, 0) == n && read_cell(m2, 2) == k);
    let f2 = (fuel - 7 - c1) as nat;
    if is_prime(k as int) {
        let nx = seq![Instruction::Load(0), Instruction::Push(1), Instruction::Add, Instruction::Store(0)];
        assert(prog.subrange(70, 74) =~= nx) by {
            assert forall|j: int| 70 <= j < 74 implies prog[j] == nx[j - 70] by {
                lemma_at(n_max, j);
            }
        }
        lemma_add_store(m2, 0, 1, 0);
        lemma_run_straight(prog, running(70, Seq::empty(), m2, steps + 7 + c1), nx, f2);
        let m5 = m2.insert(0, (n + 1) as i64);
        lemma_at(n_max, 74);
        let t4 = running(74, Seq::empty(), m5, steps + 11 + c1);
        lemma_step_on(prog, t4, (f2 - 4) as nat);
        assert(spec_step(prog, t4) == running(4, Seq::empty(), m5, steps + 12 + c1));
    } else {
        let nk = seq![Instruction::Load(2), Instruction::Push(1), Instruction::Add, Instruction::Store(2)];
        assert(prog.subrange(65, 69) =~= nk) by {
            assert forall|j: int| 65 <= j < 69 implies prog[j] == nk[j - 65] by {
                lemma_at(n_max, j);
            }
        }
        lemma_add_store(m2, 2, 1, 2);
        lemma_run_straight(prog, running(65, Seq::empty(), m2, steps + 7 + c1), nk, f2);
        let m5 = m2.insert(2, (k + 1) as i64);
        lemma_at(n_max, 69);
        let t4 = running(69, Seq::empty(), m5, steps + 11 + c1);
        lemma_step_on(prog, t4, (f2 - 4) as nat);
        assert(spec_step(prog, t4) == running(18, Seq::empty(), m5, steps + 12 + c1));
    }
}

/// The search for `n` from candidate `k`: a prime in `[k, 2n]` leads to
/// the head of the outer loop with `n + 1`; otherwise the program halts
/// with 0.
proof fn lemma_search(n_max: i64, m: Map<usize, i64>, steps: nat, fuel: nat)
    requires
        read_cell(m, 1) == n_max,
        1 <= read_cell(m, 0) <= n_max <= 0x100_0000_0000,
        read_cell(m, 3) == 2 * read_cell(m, 0),
        read_cell(m, 0) < read_cell(m, 2) <= read_cell(m, 3) + 1,
        fuel >= search_run(read_cell(m, 0) as int, read_cell(m, 2) as int).1 + 1,
    ensures
        ({
            let n = read_cell(m, 0) as int;
            let k = read_cell(m, 2) as int;
            let r = search_run(n, k);
            let prog = bertrand_program(n_max);
            &&& r.0 ==> read_cell(search_memory(m, n, k), 0) == n + 1
            &&& r.0 ==> read_cell(search_memory(m, n, k), 1) == n_max
            &&& r.0 ==> spec_run_from(prog, running(18, Seq::empty(), m, steps), fuel)
                == spec_run_from(
                prog,
                running(4, Seq::empty(), search_memory(m, n, k), steps + r.1),
                (fuel - r.1) as nat,
            )
            &&& !r.0 ==> spec_run_from(prog, running(18, Seq::empty(), m, steps), fuel).outcome
                == Some(VmOutcome::Halted(0))
        }),
    decreases read_cell(m, 3) + 1 - read_cell(m, 2),
{
    let n = read_cell(m, 0);
    let k = read_cell(m, 2);
    let prog = bertrand_program(n_max);
    if k > 2 * n {
        lemma_layout(n_max);
        let hd = seq![Instruction::Load(2), Instruction::Load(3), Instruction::Swap, Instruction::Lt];
        assert(prog.subrange(18, 22) =~= hd) by {
            assert forall|j: int| 18 <= j < 22 implies prog[j] == hd[j - 18] by {
                lemma_at(n_max, j);
            }
        }
        lemma_less_check(m, 2, 3);
        lemma_run_straight(prog, running(18, Seq::empty(), m, steps), hd, fuel);
        lemma_at(n_max, 22);
        lemma_at(n_max, 23);
        let s4 = running(22, seq![1i64], m, steps + 4);
        lemma_step_on(prog, s4, (fuel - 4) as nat);
        assert(seq![1i64].drop_last() =~= Seq::<i64>::empty());
        let s5 = running(23, Seq::empty(), m, steps + 5);
        assert(spec_step(prog, s4) == s5);
        lemma_step_on(prog, s5, (fuel - 5) as nat);
        let s6 = spec_step(prog, s5);
        assert(s6.outcome == Some(VmOutcome::Halted(0)));
        assert(spec_run_from(prog, s6, (fuel - 6) as nat) == s6);
    } else {
        let c = round_steps(k as int);
        lemma_round(n_max, m, steps, fuel);
        if !is_prime(k as int) {
            let m2 = round_memory(m, n as int, k as int);
            assert(read_cell(m2, 0) == n && read_cell(m2, 1) == n_max && read_cell(m2, 2) == k + 1
                && read_cell(m2, 3) == 2 * n);
            lemma_search(n_max, m2, steps + c, (fuel - c) as nat);
        }
    }
}

/// The outer loop from `n`: the program halts with 1 when every number from
/// `n` to the bound has a prime up to its double, and with 0 otherwise.
proof fn lemma_outer(n_max: i64, m: Map<usize, i64>, steps: nat, fuel: nat)
    requires
        read_cell(m, 1) == n_max,
        n_max <= 0x100_0000_0000,
        1 <= read_cell(m, 0),
        fuel >= outer_run(n_max as int, read_cell(m, 0) as int).1 + 1,
    ensures
        spec_run_from(bertrand_program(n_max), running(4, Seq::empty(), m, steps), fuel).outcome
            == Some(
            VmOutcome::Halted(
                if outer_run(n_max as int, read_cell(m, 0) as int).0 {
                    1u8
                } else {
                    0u8
                },
            ),
        ),
    decreases (if read_cell(m, 0) <= n_max {
        n_max + 1 - read_cell(m, 0)
    } else {
        0
    }),
{
    let n = read_cell(m, 0);
    let prog = bertrand_program(n_max);
    lemma_layout(n_max);
    let hdr = seq![Instruction::Load(0), Instruction::Load(1), Instruction::Swap, Instruction::Lt];
    assert(prog.subrange(4, 8) =~= hdr) by {
        assert forall|j: int| 4 <= j < 8 implies prog[j] == hdr[j - 4] by {
            lemma_at(n_max, j);
        }
    }
    lemma_bound_check(m);
    lemma_run_straight(prog, running(4, Seq::empty(), m, steps), hdr, fuel);
    lemma_at(n_max, 8);
    lemma_at(n_max, 9);
    if n > n_max {
        let s4 = running(8, seq![1i64], m, steps + 4);
        lemma_step_on(prog, s4, (fuel - 4) as nat);
        assert(seq![1i64].drop_last() =~= Seq::<i64>::empty());
        let s5 = running(9, Seq::empty(), m, steps + 5);
        assert(spec_step(prog, s4) == s5);
        lemma_step_on(prog, s5, (fuel - 5) as nat);
        let s6 = spec_step(prog, s5);
        assert(s6.outcome == Some(VmOutcome::Halted(1)));
        assert(spec_run_from(prog, s6, (fuel - 6) as nat) == s6);
    } else {
        let s4 = running(8, seq![0i64], m, steps + 4);
        lemma_step_on(prog, s4, (fuel - 4) as nat);
        assert(seq![0i64].drop_last() =~= Seq::<i64>::empty());
        let s5 = running(10, Seq::empty(), m, steps + 5);
        assert(spec_step(prog, s4) == s5);
        let first = seq![Instruction::Load(0), Instruction::Push(1), Instruction::Add, Instruction::Store(2)];
        assert(prog.subrange(10, 14) =~= first) by {
            assert forall|j: int| 10 <= j < 14 implies prog[j] == first[j - 10] by {
                lemma_at(n_max, j);
            }
        }
        lemma_add_store(m, 0, 1, 2);
        lemma_run_straight(prog, s5, first, (fuel - 5) as nat);
        let m1 = m.insert(2, (n + 1) as i64);
        let dbl = seq![Instruction::Load(0), Instruction::Push(2), Instruction::Mul, Instruction::Store(3)];
        assert(prog.subrange(14, 18) =~= dbl) by {
            assert forall|j: int| 14 <= j < 18 implies prog[j] == dbl[j - 14] by {
                lemma_at(n_max, j);
            }
        }
        assert(read_cell(m1, 0) == n);
        lemma_double(m1);
        lemma_run_straight(prog, running(14, Seq::empty(), m1, steps + 9), dbl, (fuel - 9) as nat);
        let m2 = m1.insert(3, (2 * n) as i64);
        assert(read_cell(m2, 0) == n && read_cell(m2, 1) == n_max && read_cell(m2, 2) == n + 1
            && read_cell(m2, 3) == 2 * n);
        let r = search_run(n as int, n + 1);
        lemma_search(n_max, m2, steps + 13, (fuel - 13) as nat);
        if r.0 {
            let m3 = search_memory(m2, n as int, n + 1);
            lemma_outer(n_max, m3, steps + 13 + r.1, (fuel - 13 - r.1) as nat);
        }
    }
}

/// Steps the Bertrand program takes until it halts.
pub open spec fn bertrand_steps(n_max: int) -> nat {
    4 + outer_run(n_max, 1).1 + 1
}

/// The Bertrand program for a bound N, run for its budget, halts with 1
/// exactly when every n from 1 to N has a prime p with n < p <= 2n, and
/// with 0 otherwise. This holds for the bounds the builder accepts, when
/// the program halts within its budget (`bertrand_steps`).
pub proof fn lemma_bertrand_program_decides(n_max: i64)
    requires
        (n_max as u64) * (n_max as u64) * 40 * 75 <= u64::MAX,
        bertrand_steps(n_max as int) <= bertrand_budget(n_max),
    ensures
        reported_outcome(spec_run(bertrand_program(n_max), bertrand_budget(n_max) as nat))
            == VmOutcome::Halted(if bertrand_up_to(n_max as int) { 1u8 } else { 0u8 }),
{
    let prog = bertrand_program(n_max);
    let budget = bertrand_budget(n_max);
    lemma_layout(n_max);
    assert(n_max <= 0x100_0000_0000) by {
        if n_max > 0x100_0000_0000 {
            let h = n_max as u64;
            assert(h * h * 40 * 75 > u64::MAX) by (nonlinear_arith)
                requires
                    h > 0x100_0000_0000,
            ;
        }
    }
    let init = seq![Instruction::Push(n_max), Instruction::Store(1), Instruction::Push(1), Instruction::Store(0)];
    assert(prog.subrange(0, 4) =~= init) by {
        assert forall|j: int| 0 <= j < 4 implies prog[j] == init[j] by {
            lemma_at(n_max, j);
        }
    }
    let m0 = Map::<usize, i64>::empty().insert(1, n_max).insert(0, 1);
    assert(exec_straight(init, Seq::empty(), Map::empty()) == Ok::<
        (Seq<i64>, Map<usize, i64>),
        crate::vm::Fault,
    >((Seq::empty(), m0))) by {
        reveal_with_fuel(exec_straight, 5);
        assert(init.skip(1) =~= seq![Instruction::Store(1), Instruction::Push(1), Instruction::Store(0)]);
        assert(init.skip(1).skip(1) =~= seq![Instruction::Push(1), Instruction::Store(0)]);
        assert(init.skip(1).skip(1).skip(1) =~= seq![Instruction::Store(0)]);
        assert(init.skip(1).skip(1).skip(1).skip(1) =~= Seq::<Instruction>::empty());
        assert(Seq::<i64>::empty().push(n_max).drop_last() =~= Seq::<i64>::empty());
        assert(Seq::<i64>::empty().push(1).drop_last() =~= Seq::<i64>::empty());
    }
    lemma_run_straight(prog, initial_state(), init, budget as nat);
    assert(read_cell(m0, 0) == 1 && read_cell(m0, 1) == n_max);
    lemma_outer(n_max, m0, 4, (budget - 4) as nat);
    lemma_outer_found(n_max as int, 1);
}

} // verus!
