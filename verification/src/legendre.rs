//! What the Legendre conjecture program decides.
//!
//! The program runs over n = 1, 2, ... up to its bound N; for each it tries
//! k = n^2 + 1, n^2 + 2, ... up to n^2 + 2n and moves on to the next n at
//! the first prime k. An n without a prime strictly between n^2 and
//! (n + 1)^2 halts the program with 0; past the bound it halts with 1.

use crate::open_problems::{legendre_budget, legendre_part_0, legendre_part_1, legendre_program, primality_block};
use crate::trial_division::{
    is_prime, lemma_primality_run_correct, lemma_primality_test, lemma_test_fits_small,
    memory_after_test, primality_run, running, test_placed,
};
use crate::twin_primes::{lemma_add_store, lemma_bound_check, lemma_copy, lemma_step_on};
use crate::vm::{
    exec_straight, flag, initial_state, lemma_run_straight, read_cell, reported_outcome, spec_run,
    spec_run_from, spec_step, Instruction, VmOutcome,
};
use vstd::prelude::*;

verus! {

/// Some prime `p` has `n^2 < p < (n + 1)^2`.
pub open spec fn prime_in_gap(n: int) -> bool {
    exists|p: int| n * n < p < (n + 1) * (n + 1) && #[trigger] is_prime(p)
}

/// Every `n` in `[1, n_max]` has a prime between its square and the next.
pub open spec fn legendre_up_to(n_max: int) -> bool {
    forall|n: int| 1 <= n <= n_max ==> #[trigger] prime_in_gap(n)
}

/// Some prime lies in `[k, hi]`.
pub open spec fn prime_within(k: int, hi: int) -> bool {
    exists|p: int| k <= p <= hi && #[trigger] is_prime(p)
}

/// Steps of the round for candidate `k`, from the search head (position
/// 26) to the next search head or the next `n`.
pub open spec fn round_steps(k: int) -> nat {
    12 + primality_run(k).2
}

/// Memory after the round for candidate `k`.
pub open spec fn round_memory(m: Map<usize, i64>, n: int, k: int) -> Map<usize, i64> {
    let m2 = memory_after_test(m.insert(10, k as i64), 11, k);
    if is_prime(k) {
        m2.insert(0, (n + 1) as i64)
    } else {
        m2.insert(4, (k + 1) as i64)
    }
}

/// The search from candidate `k` up to `hi`: whether it finds a prime, and
/// its steps to the next `n` (found) or to the `Halt(0)` instruction.
pub open spec fn search_run(k: int, hi: int) -> (bool, nat)
    decreases hi + 1 - k,
{
    if k > hi {
        (false, 5)
    } else if is_prime(k) {
        (true, round_steps(k))
    } else {
        let r = search_run(k + 1, hi);
        (r.0, round_steps(k) + r.1)
    }
}

/// Memory when the search for `n` from `k` reaches the next `n`.
pub open spec fn search_memory(m: Map<usize, i64>, n: int, k: int, hi: int) -> Map<usize, i64>
    decreases hi + 1 - k,
{
    if k > hi {
        m
    } else if is_prime(k) {
        round_memory(m, n, k)
    } else {
        search_memory(round_memory(m, n, k), n, k + 1, hi)
    }
}

/// The outer loop from `n`: whether every number from `n` to the bound has
/// a prime after its square, and its steps to the halting instruction.
pub open spec fn outer_run(n_max: int, n: int) -> (bool, nat)
    decreases n_max + 1 - n,
{
    if n > n_max {
        (true, 5)
    } else {
        let r = search_run(n * n + 1, n * n + 2 * n);
        if r.0 {
            let o = outer_run(n_max, n + 1);
            (o.0, 21 + r.1 + o.1)
        } else {
            (false, 21 + r.1)
        }
    }
}

proof fn lemma_search_found(k: int, hi: int)
    ensures
        search_run(k, hi).0 == prime_within(k, hi),
    decreases hi + 1 - k,
{
    if k > hi {
        if prime_within(k, hi) {
            let w = choose|w: int| k <= w <= hi && #[trigger] is_prime(w);
        }
    } else if is_prime(k) {
        assert(k <= k <= hi && is_prime(k));
    } else {
        lemma_search_found(k + 1, hi);
        if prime_within(k, hi) {
            let w = choose|w: int| k <= w <= hi && #[trigger] is_prime(w);
            assert(k + 1 <= w <= hi && is_prime(w));
        }
        if prime_within(k + 1, hi) {
            let w = choose|w: int| k + 1 <= w <= hi && #[trigger] is_prime(w);
            assert(k <= w <= hi && is_prime(w));
        }
    }
}

proof fn lemma_outer_found(n_max: int, n: int)
    ensures
        outer_run(n_max, n).0 == (forall|j: int| n <= j <= n_max ==> #[trigger] prime_in_gap(j)),
    decreases n_max + 1 - n,
{
    if n <= n_max {
        lemma_search_found(n * n + 1, n * n + 2 * n);
        assert(prime_within(n * n + 1, n * n + 2 * n) == prime_in_gap(n)) by {
            assert((n + 1) * (n + 1) == n * n + 2 * n + 1) by (nonlinear_arith);
            if prime_within(n * n + 1, n * n + 2 * n) {
                let w = choose|w: int| n * n + 1 <= w <= n * n + 2 * n && #[trigger] is_prime(w);
                assert(n * n < w < (n + 1) * (n + 1) && is_prime(w));
            }
            if prime_in_gap(n) {
                let w = choose|w: int| n * n < w < (n + 1) * (n + 1) && #[trigger] is_prime(w);
                assert(n * n + 1 <= w <= n * n + 2 * n && is_prime(w));
            }
        }
        if search_run(n * n + 1, n * n + 2 * n).0 {
            lemma_outer_found(n_max, n + 1);
            if !outer_run(n_max, n + 1).0 {
                let j = choose|j: int| !(n + 1 <= j <= n_max ==> #[trigger] prime_in_gap(j));
                assert(!(n <= j <= n_max ==> prime_in_gap(j)));
            }
        } else {
            assert(!(n <= n <= n_max ==> prime_in_gap(n)));
        }
    }
}

// ── The program ─────────────────────────────────────────────────────

#[verifier::spinoff_prover]
#[verifier::rlimit(80)]
proof fn lemma_layout(n_max: i64)
    ensures
        ({
            let prog = legendre_program(n_max);
            &&& prog.len() == 83
            &&& prog.subrange(0, 34) == legendre_part_0(n_max)
            &&& test_placed(prog, 10, 11, 34, 78, 73)
            &&& prog.subrange(73, 83) == legendre_part_1()
        }),
{
    let prog = legendre_program(n_max);
    let a = legendre_part_0(n_max);
    let b = primality_block(10, 11, 34, 78, 73);
    let c = legendre_part_1();
    assert(prog == a + b + c);
    assert(prog.subrange(0, 34) =~= a);
    assert(prog.subrange(34, 73) =~= b);
    assert(prog.subrange(73, 83) =~= c);
}

proof fn lemma_at(n_max: i64, k: int)
    requires
        0 <= k < 83,
    ensures
        0 <= k < 34 ==> legendre_program(n_max)[k] == legendre_part_0(n_max)[k],
        73 <= k < 83 ==> legendre_program(n_max)[k] == legendre_part_1()[k - 73],
{
    let prog = legendre_program(n_max);
    lemma_layout(n_max);
    if 0 <= k < 34 {
        assert(prog.subrange(0, 34)[k] == prog[k]);
    }
    if 73 <= k < 83 {
        assert(prog.subrange(73, 83)[k - 73] == prog[k]);
    }
}

/// `Load(a), Load(b), Swap, Lt` pushes whether cell `b` is below cell `a`.
proof fn lemma_less_check(m: Map<usize, i64>, a: usize, b: usize)
    ensures
        exec_straight(
            seq![Instruction::Load(a), Instruction::Load(b), Instruction::Swap, Instruction::Lt],
            Seq::empty(),
            m,
        ) == Ok::<(Seq<i64>, Map<usize, i64>), crate::vm::Fault>(
            (seq![flag(read_cell(m, b) < read_cell(m, a))], m),
        ),
{
    reveal_with_fuel(exec_straight, 5);
    let x = read_cell(m, a);
    let y = read_cell(m, b);
    let code = seq![Instruction::Load(a), Instruction::Load(b), Instruction::Swap, Instruction::Lt];
    assert(code.skip(1) =~= seq![Instruction::Load(b), Instruction::Swap, Instruction::Lt]);
    assert(code.skip(1).skip(1) =~= seq![Instruction::Swap, Instruction::Lt]);
    assert(code.skip(1).skip(1).skip(1) =~= seq![Instruction::Lt]);
    assert(code.skip(1).skip(1).skip(1).skip(1) =~= Seq::<Instruction>::empty());
    let s2 = Seq::<i64>::empty().push(x).push(y);
    let s3 = s2.drop_last().drop_last().push(s2.last()).push(s2[s2.len() - 2]);
    assert(s3 =~= seq![y, x]);
    assert(s3.drop_last().drop_last().push(flag(y < x)) =~= seq![flag(y < x)]);
}

/// `Load(0), Dup, Mul, Push(1), Add, Store(2)` stores `n^2 + 1` in cell 2.
proof fn lemma_gap_low(m: Map<usize, i64>)
    requires
        0 <= read_cell(m, 0) <= 0x400_0000,
    ensures
        exec_straight(
            seq![
                Instruction::Load(0),
                Instruction::Dup,
                Instruction::Mul,
                Instruction::Push(1),
                Instruction::Add,
                Instruction::Store(2),
            ],
            Seq::empty(),
            m,
        ) == Ok::<(Seq<i64>, Map<usize, i64>), crate::vm::Fault>(
            (Seq::empty(), m.insert(2, (read_cell(m, 0) * read_cell(m, 0) + 1) as i64)),
        ),
{
    reveal_with_fuel(exec_straight, 7);
    let n = read_cell(m, 0);
    assert(0 <= n * n <= 0x10_0000_0000_0000) by (nonlinear_arith)
        requires
            0 <= n <= 0x400_0000,
    ;
    let sq = (n * n) as i64;
    let code = seq![
        Instruction::Load(0),
        Instruction::Dup,
        Instruction::Mul,
        Instruction::Push(1),
        Instruction::Add,
        Instruction::Store(2),
    ];
    assert(code.skip(1) =~= seq![Instruction::Dup, Instruction::Mul, Instruction::Push(1), Instruction::Add, Instruction::Store(2)]);
    assert(code.skip(1).skip(1) =~= seq![Instruction::Mul, Instruction::Push(1), Instruction::Add, Instruction::Store(2)]);
    assert(code.skip(1).skip(1).skip(1) =~= seq![Instruction::Push(1), Instruction::Add, Instruction::Store(2)]);
    assert(code.skip(1).skip(1).skip(1).skip(1) =~= seq![Instruction::Add, Instruction::Store(2)]);
    assert(code.skip(1).skip(1).skip(1).skip(1).skip(1) =~= seq![Instruction::Store(2)]);
    assert(code.skip(1).skip(1).skip(1).skip(1).skip(1).skip(1) =~= Seq::<Instruction>::empty());
    let s2 = seq![n].push(seq![n].last());
    assert(s2 =~= seq![n, n]);
    assert(s2[s2.len() - 2] == n);
    assert(s2.drop_last().drop_last().push(sq) =~= seq![sq]);
    let s4 = seq![sq].push(1);
    assert(s4[s4.len() - 2] == sq);
    assert(s4.drop_last().drop_last().push((sq + 1) as i64) =~= seq![(sq + 1) as i64]);
    assert(seq![(sq + 1) as i64].drop_last() =~= Seq::<i64>::empty());
    assert(Seq::<i64>::empty().push(n) =~= seq![n]);
}

/// `Load(0), Dup, Mul, Load(0), Push(2), Mul, Add, Store(3)` stores
/// `n^2 + 2n` in cell 3.
proof fn lemma_gap_high(m: Map<usize, i64>)
    requires
        0 <= read_cell(m, 0) <= 0x400_0000,
    ensures
        exec_straight(
            seq![
                Instruction::Load(0),
                Instruction::Dup,
                Instruction::Mul,
                Instruction::Load(0),
                Instruction::Push(2),
                Instruction::Mul,
                Instruction::Add,
                Instruction::Store(3),
            ],
            Seq::empty(),
            m,
        ) == Ok::<(Seq<i64>, Map<usize, i64>), crate::vm::Fault>(
            (
                Seq::empty(),
                m.insert(3, (read_cell(m, 0) * read_cell(m, 0) + 2 * read_cell(m, 0)) as i64),
            ),
        ),
{
    reveal_with_fuel(exec_straight, 9);
    let n = read_cell(m, 0);
    assert(0 <= n * n <= 0x10_0000_0000_0000) by (nonlinear_arith)
        requires
            0 <= n <= 0x400_0000,
    ;
    let sq = (n * n) as i64;
    let tw = (n * 2) as i64;
    let code = seq![
        Instruction::Load(0),
        Instruction::Dup,
        Instruction::Mul,
        Instruction::Load(0),
        Instruction::Push(2),
        Instruction::Mul,
        Instruction::Add,
        Instruction::Store(3),
    ];
    assert(code.skip(1) =~= seq![
        Instruction::Dup,
        Instruction::Mul,
        Instruction::Load(0),
        Instruction::Push(2),
        Instruction::Mul,
        Instruction::Add,
        Instruction::Store(3),
    ]);
    assert(code.skip(1).skip(1) =~= seq![
        Instruction::Mul,
        Instruction::Load(0),
        Instruction::Push(2),
        Instruction::Mul,
        Instruction::Add,
        Instruction::Store(3),
    ]);
    assert(code.skip(1).skip(1).skip(1) =~= seq![
        Instruction::Load(0),
        Instruction::Push(2),
        Instruction::Mul,
        Instruction::Add,
        Instruction::Store(3),
    ]);
    assert(code.skip(1).skip(1).skip(1).skip(1) =~= seq![
        Instruction::Push(2),
        Instruction::Mul,
        Instruction::Add,
        Instruction::Store(3),
    ]);
    assert(code.skip(1).skip(1).skip(1).skip(1).skip(1) =~= seq![Instruction::Mul, Instruction::Add, Instruction::Store(3)]);
    assert(code.skip(1).skip(1).skip(1).skip(1).skip(1).skip(1) =~= seq![Instruction::Add, Instruction::Store(3)]);
    assert(code.skip(1).skip(1).skip(1).skip(1).skip(1).skip(1).skip(1) =~= seq![Instruction::Store(3)]);
    assert(code.skip(1).skip(1).skip(1).skip(1).skip(1).skip(1).skip(1).skip(1) =~= Seq::<Instruction>::empty());
    let s2 = seq![n].push(seq![n].last());
    assert(s2 =~= seq![n, n]);
    assert(s2[s2.len() - 2] == n);
    assert(s2.drop_last().drop_last().push(sq) =~= seq![sq]);
    let s5 = seq![sq].push(n).push(2);
    assert(s5[s5.len() - 2] == n);
    assert(s5.drop_last().drop_last().push(tw) =~= seq![sq, tw]);
    let s6 = seq![sq, tw];
    assert(s6[s6.len() - 2] == sq);
    assert(s6.drop_last().drop_last().push((sq + tw) as i64) =~= seq![(sq + tw) as i64]);
    assert(seq![(sq + tw) as i64].drop_last() =~= Seq::<i64>::empty());
    assert(Seq::<i64>::empty().push(n) =~= seq![n]);
}

/// One round of the search for a candidate `k <= hi`: a prime `k` moves on
/// to the next `n`, any other to `k + 1`.
#[verifier::rlimit(40)]
proof fn lemma_round(n_max: i64, m: Map<usize, i64>, steps: nat, fuel: nat)
    requires
        read_cell(m, 1) == n_max,
        1 <= read_cell(m, 0) <= n_max <= 0x3FF_0000,
        read_cell(m, 3) == read_cell(m, 0) * read_cell(m, 0) + 2 * read_cell(m, 0),
        2 <= read_cell(m, 4) <= read_cell(m, 3),
        fuel >= round_steps(read_cell(m, 4) as int),
    ensures
        ({
            let n = read_cell(m, 0) as int;
            let k = read_cell(m, 4) as int;
            spec_run_from(legendre_program(n_max), running(26, Seq::empty(), m, steps), fuel)
                == spec_run_from(
                legendre_program(n_max),
                running(
                    if is_prime(k) {
                        4
                    } else {
                        26
                    },
                    Seq::empty(),
                    round_memory(m, n, k),
                    steps + round_steps(k),
                ),
                (fuel - round_steps(k)) as nat,
            )
        }),
{
    let n = read_cell(m, 0);
    let k = read_cell(m, 4);
    let prog = legendre_program(n_max);
    assert(n * n + 2 * n <= 0x10_0000_0000_0000) by (nonlinear_arith)
        requires
            1 <= n <= 0x3FF_0000,
    ;
    lemma_layout(n_max);
    let hd = seq![Instruction::Load(4), Instruction::Load(3), Instruction::Swap, Instruction::Lt];
    assert(prog.subrange(26, 30) =~= hd) by {
        assert forall|j: int| 26 <= j < 30 implies prog[j] == hd[j - 26] by {
            lemma_at(n_max, j);
        }
    }
    lemma_less_check(m, 4, 3);
    lemma_run_straight(prog, running(26, Seq::empty(), m, steps), hd, fuel);
    lemma_at(n_max, 30);
    let s4 = running(30, seq![0i64], m, steps + 4);
    lemma_step_on(prog, s4, (fuel - 4) as nat);
    assert(seq![0i64].drop_last() =~= Seq::<i64>::empty());
    let s5 = running(32, Seq::empty(), m, steps + 5);
    assert(spec_step(prog, s4) == s5);
    let cp = seq![Instruction::Load(4), Instruction::Store(10)];
    assert(prog.subrange(32, 34) =~= cp) by {
        lemma_at(n_max, 32);
        lemma_at(n_max, 33);
    }
    lemma_copy(m, 4, 10);
    lemma_run_straight(prog, s5, cp, (fuel - 5) as nat);
    let m1 = m.insert(10, k);
    assert(read_cell(m1, 10) == k);
    lemma_test_fits_small(k as int);
    lemma_primality_run_correct(k as int);
    lemma_primality_test(prog, 10, 11, 34, 78, 73, Seq::empty(), m1, steps + 7, (fuel - 7) as nat);
    let c1 = primality_run(k as int).2;
    let m2 = memory_after_test(m1, 11, k as int);
    assert(read_cell(m2, 0) == n && read_cell(m2, 4) == k);
    let f2 = (fuel - 7 - c1) as nat;
    if is_prime(k as int) {
        let nx = seq![Instruction::Load(0), Instruction::Push(1), Instruction::Add, Instruction::Store(0)];
        assert(prog.subrange(78, 82) =~= nx) by {
            assert forall|j: int| 78 <= j < 82 implies prog[j] == nx[j - 78] by {
                lemma_at(n_max, j);
            }
        }
        lemma_add_store(m2, 0, 1, 0);
        lemma_run_straight(prog, running(78, Seq::empty(), m2, steps + 7 + c1), nx, f2);
        let m5 = m2.insert(0, (n + 1) as i64);
        lemma_at(n_max, 82);
        let t4 = running(82, Seq::empty(), m5, steps + 11 + c1);
        lemma_step_on(prog, t4, (f2 - 4) as nat);
        assert(spec_step(prog, t4) == running(4, Seq::empty(), m5, steps + 12 + c1));
    } else {
        let nk = seq![Instruction::Load(4), Instruction::Push(1), Instruction::Add, Instruction::Store(4)];
        assert(prog.subrange(73, 77) =~= nk) by {
            assert forall|j: int| 73 <= j < 77 implies prog[j] == nk[j - 73] by {
                lemma_at(n_max, j);
            }
        }
        lemma_add_store(m2, 4, 1, 4);
        lemma_run_straight(prog, running(73, Seq::empty(), m2, steps + 7 + c1), nk, f2);
        let m5 = m2.insert(4, (k + 1) as i64);
        lemma_at(n_max, 77);
        let t4 = running(77, Seq::empty(), m5, steps + 11 + c1);
        lemma_step_on(prog, t4, (f2 - 4) as nat);
        assert(spec_step(prog, t4) == running(26, Seq::empty(), m5, steps + 12 + c1));
    }
}

/// The search for `n` from candidate `k`: a prime in `[k, n^2 + 2n]` leads
/// to the head of the outer loop with `n + 1`; otherwise the program halts
/// with 0.
proof fn lemma_search(n_max: i64, m: Map<usize, i64>, steps: nat, fuel: nat)
    requires
        read_cell(m, 1) == n_max,
        1 <= read_cell(m, 0) <= n_max <= 0x3FF_0000,
        read_cell(m, 3) == read_cell(m, 0) * read_cell(m, 0) + 2 * read_cell(m, 0),
        2 <= read_cell(m, 4) <= read_cell(m, 3) + 1,
        fuel >= search_run(read_cell(m, 4) as int, read_cell(m, 3) as int).1 + 1,
    ensures
        ({
            let n = read_cell(m, 0) as int;
            let k = read_cell(m, 4) as int;
            let hi = read_cell(m, 3) as int;
            let r = search_run(k, hi);
            let prog = legendre_program(n_max);
            &&& r.0 ==> read_cell(search_memory(m, n, k, hi), 0) == n + 1
            &&& r.0 ==> read_cell(search_memory(m, n, k, hi), 1) == n_max
            &&& r.0 ==> spec_run_from(prog, running(26, Seq::empty(), m, steps), fuel)
                == spec_run_from(
                prog,
                running(4, Seq::empty(), search_memory(m, n, k, hi), steps + r.1),
                (fuel - r.1) as nat,
            )
            &&& !r.0 ==> spec_run_from(prog, running(26, Seq::empty(), m, steps), fuel).outcome
                == Some(VmOutcome::Halted(0))
        }),
    decreases read_cell(m, 3) + 1 - read_cell(m, 4),
{
    let n = read_cell(m, 0);
    let k = read_cell(m, 4);
    let hi = read_cell(m, 3);
    let prog = legendre_program(n_max);
    assert(n * n + 2 * n <= 0x10_0000_0000_0000) by (nonlinear_arith)
        requires
            1 <= n <= 0x3FF_0000,
    ;
    if k > hi {
        lemma_layout(n_max);
        let hd = seq![Instruction::Load(4), Instruction::Load(3), Instruction::Swap, Instruction::Lt];
        assert(prog.subrange(26, 30) =~= hd) by {
            assert forall|j: int| 26 <= j < 30 implies prog[j] == hd[j - 26] by {
                lemma_at(n_max, j);
            }
        }
        lemma_less_check(m, 4, 3);
        lemma_run_straight(prog, running(26, Seq::empty(), m, steps), hd, fuel);
        lemma_at(n_max, 30);
        lemma_at(n_max, 31);
        let s4 = running(30, seq![1i64], m, steps + 4);
        lemma_step_on(prog, s4, (fuel - 4) as nat);
        assert(seq![1i64].drop_last() =~= Seq::<i64>::empty());
        let s5 = running(31, Seq::empty(), m, steps + 5);
        assert(spec_step(prog, s4) == s5);
        lemma_step_on(prog, s5, (fuel - 5) as nat);
        let s6 = spec_step(prog, s5);
        assert(s6.outcome == Some(VmOutcome::Halted(0)));
        assert(spec_run_from(prog, s6, (fuel - 6) as nat) == s6);
    } else {
        let c = round_steps(k as int);
        lemma_round(n_max, m, steps, fuel);
        if !is_prime(k as int) {
            let m2 = round_memory(m, n as int, k as int);
            assert(read_cell(m2, 0) == n && read_cell(m2, 1) == n_max && read_cell(m2, 4) == k + 1
                && read_cell(m2, 3) == hi);
            lemma_search(n_max, m2, steps + c, (fuel - c) as nat);
        }
    }
}

/// The outer loop from `n`: the program halts with 1 when every number from
/// `n` to the bound has a prime after its square, and with 0 otherwise.
proof fn lemma_outer(n_max: i64, m: Map<usize, i64>, steps: nat, fuel: nat)
    requires
        read_cell(m, 1) == n_max,
        n_max <= 0x3FF_0000,
        1 <= read_cell(m, 0),
        fuel >= outer_run(n_max as int, read_cell(m, 0) as int).1 + 1,
    ensures
        spec_run_from(legendre_program(n_max), running(4, Seq::empty(), m, steps), fuel).outcome
            == Some(
            VmOutcome::Halted(
                if outer_run(n_max as int, read_cell(m, 0) as int).0 {
                    1u8
                } else {
                    0u8
                },
            ),
        ),
    decreases (if read_cell(m, 0) <= n_max {
        n_max + 1 - read_cell(m, 0)
    } else {
        0
    }),
{
    let n = read_cell(m, 0);
    let prog = legendre_program(n_max);
    lemma_layout(n_max);
    let hdr = seq![Instruction::Load(0), Instruction::Load(1), Instruction::Swap, Instruction::Lt];
    assert(prog.subrange(4, 8) =~= hdr) by {
        assert forall|j: int| 4 <= j < 8 implies prog[j] == hdr[j - 4] by {
            lemma_at(n_max, j);
        }
    }
    lemma_bound_check(m);
    lemma_run_straight(prog, running(4, Seq::empty(), m, steps), hdr, fuel);
    lemma_at(n_max, 8);
    lemma_at(n_max, 9);
    if n > n_max {
        let s4 = running(8, seq![1i64], m, steps + 4);
        lemma_step_on(prog, s4, (fuel - 4) as nat);
        assert(seq![1i64].drop_last() =~= Seq::<i64>::empty());
        let s5 = running(9, Seq::empty(), m, steps + 5);
        assert(spec_step(prog, s4) == s5);
        lemma_step_on(prog, s5, (fuel - 5) as nat);
        let s6 = spec_step(prog, s5);
        assert(s6.outcome == Some(VmOutcome::Halted(1)));
        assert(spec_run_from(prog, s6, (fuel - 6) as nat) == s6);
    } else {
        let s4 = running(8, seq![0i64], m, steps + 4);
        lemma_step_on(prog, s4, (fuel - 4) as nat);
        assert(seq![0i64].drop_last() =~= Seq::<i64>::empty());
        let s5 = running(10, Seq::empty(), m, steps + 5);
        assert(spec_step(prog, s4) == s5);
        let low = seq![
            Instruction::Load(0),
            Instruction::Dup,
            Instruction::Mul,
            Instruction::Push(1),
            Instruction::Add,
            Instruction::Store(2),
        ];
        assert(prog.subrange(10, 16) =~= low) by {
            assert forall|j: int| 10 <= j < 16 implies prog[j] == low[j - 10] by {
                lemma_at(n_max, j);
            }
        }
        lemma_gap_low(m);
        lemma_run_straight(prog, s5, low, (fuel - 5) as nat);
        let m1 = m.insert(2, (n * n + 1) as i64);
        let high = seq![
            Instruction::Load(0),
            Instruction::Dup,
            Instruction::Mul,
            Instruction::Load(0),
            Instruction::Push(2),
            Instruction::Mul,
            Instruction::Add,
            Instruction::Store(3),
        ];
        assert(prog.subrange(16, 24) =~= high) by {
            assert forall|j: int| 16 <= j < 24 implies prog[j] == high[j - 16] by {
                lemma_at(n_max, j);
            }
        }
        assert(read_cell(m1, 0) == n);
        lemma_gap_high(m1);
        lemma_run_straight(prog, running(16, Seq::empty(), m1, steps + 11), high, (fuel - 11) as nat);
        let m2 = m1.insert(3, (n * n + 2 * n) as i64);
        let cp = seq![Instruction::Load(2), Instruction::Store(4)];
        assert(prog.subrange(24, 26) =~= cp) by {
            lemma_at(n_max, 24);
            lemma_at(n_max, 25);
        }
        lemma_copy(m2, 2, 4);
        lemma_run_straight(prog, running(24, Seq::empty(), m2, steps + 19), cp, (fuel - 19) as nat);
        let m3 = m2.insert(4, (n * n + 1) as i64);
        assert(n * n >= 1) by (nonlinear_arith)
            requires
                n >= 1,
        ;
        assert(n * n + 2 * n <= 0x10_0000_0000_0000) by (nonlinear_arith)
            requires
                1 <= n <= 0x3FF_0000,
        ;
        assert(read_cell(m3, 0) == n && read_cell(m3, 1) == n_max && read_cell(m3, 4) == n * n + 1
            && read_cell(m3, 3) == n * n + 2 * n);
        let r = search_run(n * n + 1, n * n + 2 * n);
        lemma_search(n_max, m3, steps + 21, (fuel - 21) as nat);
        if r.0 {
            let m4 = search_memory(m3, n as int, n * n + 1, n * n + 2 * n);
            lemma_outer(n_max, m4, steps + 21 + r.1, (fuel - 21 - r.1) as nat);
        }
    }
}

/// Steps the Legendre program takes until it halts.
pub open spec fn legendre_steps(n_max: int) -> nat {
    4 + outer_run(n_max, 1).1 + 1
}

/// The Legendre program for a bound N, run for its budget, halts with 1
/// exactly when every n from 1 to N has a prime strictly between n^2 and
/// (n + 1)^2, and with 0 otherwise. This holds for the bounds the builder
/// accepts, when the program halts within its budget (`legendre_steps`).
pub proof fn lemma_legendre_program_decides(n_max: i64)
    requires
        (n_max as u64) * (n_max as u64) * 2 * 40 * 83 <= u64::MAX,
        legendre_steps(n_max as int) <= legendre_budget(n_max),
    ensures
        reported_outcome(spec_run(legendre_program(n_max), legendre_budget(n_max) as nat))
            == VmOutcome::Halted(if legendre_up_to(n_max as int) { 1u8 } else { 0u8 }),
{
    let prog = legendre_program(n_max);
    let budget = legendre_budget(n_max);
    lemma_layout(n_max);
    assert(n_max <= 0x3FF_0000) by {
        if n_max > 0x3FF_0000 {
            let h = n_max as u64;
            assert(h * h * 2 * 40 * 83 > u64::MAX) by (nonlinear_arith)
                requires
                    h > 0x3FF_0000,
            ;
        }
    }
    let init = seq![Instruction::Push(n_max), Instruction::Store(1), Instruction::Push(1), Instruction::Store(0)];
    assert(prog.subrange(0, 4) =~= init) by {
        assert forall|j: int| 0 <= j < 4 implies prog[j] == init[j] by {
            lemma_at(n_max, j);
        }
    }
    let m0 = Map::<usize, i64>::empty().insert(1, n_max).insert(0, 1);
    assert(exec_straight(init, Seq::empty(), Map::empty()) == Ok::<
        (Seq<i64>, Map<usize, i64>),
        crate::vm::Fault,
    >((Seq::empty(), m0))) by {
        reveal_with_fuel(exec_straight, 5);
        assert(init.skip(1) =~= seq![Instruction::Store(1), Instruction::Push(1), Instruction::Store(0)]);
        assert(init.skip(1).skip(1) =~= seq![Instruction::Push(1), Instruction::Store(0)]);
        assert(init.skip(1).skip(1).skip(1) =~= seq![Instruction::Store(0)]);
        assert(init.skip(1).skip(1).skip(1).skip(1) =~= Seq::<Instruction>::empty());
        assert(Seq::<i64>::empty().push(n_max).drop_last() =~= Seq::<i64>::empty());
        assert(Seq::<i64>::empty().push(1).drop_last() =~= Seq::<i64>::empty());
    }
    lemma_run_straight(prog, initial_state(), init, budget as nat);
    assert(read_cell(m0, 0) == 1 && read_cell(m0, 1) == n_max);
    lemma_outer(n_max, m0, 4, (budget - 4) as nat);
    lemma_outer_found(n_max as int, 1);
}

} // verus!
