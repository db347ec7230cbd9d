//! What the Goldbach verification program decides.
//!
//! The program runs over the even n = 4, 6, ... up to its bound N; for each
//! it tries p = 2, 3, ... up to n / 2 and moves on to the next n at the
//! first p with p and n - p both prime. An n without such a p halts the
//! program with 0; past the bound it halts with 1.

use crate::open_problems::{
    goldbach_budget, goldbach_part_0, goldbach_part_1, goldbach_part_2, goldbach_program,
    primality_block,
};
use crate::trial_division::{
    is_prime, lemma_primality_run_correct, lemma_primality_test, lemma_test_fits_small,
    memory_after_test, primality_run, running, test_placed,
};
use crate::twin_primes::{lemma_add_store, lemma_bound_check, lemma_copy, lemma_step_on};
use crate::vm::{
    exec_straight, flag, initial_state, lemma_run_straight, read_cell, reported_outcome, spec_run,
    spec_run_from, spec_step, Instruction, VmOutcome,
};
use vstd::prelude::*;

verus! {

/// `n` is the sum of two primes.
pub open spec fn sum_of_two_primes(n: int) -> bool {
    exists|p: int, q: int| #[trigger] is_prime(p) && #[trigger] is_prime(q) && p + q == n
}

/// Every even `n` in `[4, n_max]` is the sum of two primes.
pub open spec fn goldbach_up_to(n_max: int) -> bool {
    forall|n: int| 4 <= n <= n_max && n % 2 == 0 ==> #[trigger] sum_of_two_primes(n)
}

/// Some `p` from `p0` to `n / 2` has `p` and `n - p` both prime.
pub open spec fn split_from(n: int, p0: int) -> bool {
    exists|p: int| p0 <= p <= n / 2 && #[trigger] is_prime(p) && is_prime(n - p)
}

/// Steps of one round of the inner loop for `p <= n / 2`, from its head
/// (position 12) to the head of the next round or of the next `n`.
pub open spec fn round_steps(n: int, p: int) -> nat {
    13 + primality_run(p).2 + if is_prime(p) {
        2 + primality_run(n - p).2 + if is_prime(n - p) {
            5nat
        } else {
            6nat
        }
    } else {
        6nat
    }
}

/// Memory after the round for `p`.
pub open spec fn round_memory(m: Map<usize, i64>, n: int, p: int) -> Map<usize, i64> {
    let m2 = memory_after_test(m.insert(3, (n - p) as i64).insert(10, p as i64), 11, p);
    if is_prime(p) {
        let m4 = memory_after_test(m2.insert(12, (n - p) as i64), 13, n - p);
        if is_prime(n - p) {
            m4.insert(0, (n + 2) as i64)
        } else {
            m4.insert(2, (p + 1) as i64)
        }
    } else {
        m2.insert(2, (p + 1) as i64)
    }
}

/// The inner loop for `n` from candidate `p`: whether it finds a split,
/// and its steps from the loop head to the head of the next `n` (found) or
/// to the `Halt(0)` instruction (not found).
pub open spec fn inner_run(n: int, p: int) -> (bool, nat)
    decreases n / 2 + 1 - p,
{
    if p > n / 2 {
        (false, 7)
    } else if is_prime(p) && is_prime(n - p) {
        (true, round_steps(n, p))
    } else {
        let r = inner_run(n, p + 1);
        (r.0, round_steps(n, p) + r.1)
    }
}

/// Memory when the inner loop for `n` from `p` reaches the next `n`.
pub open spec fn inner_memory(m: Map<usize, i64>, n: int, p: int) -> Map<usize, i64>
    decreases n / 2 + 1 - p,
{
    if p > n / 2 {
        m
    } else if is_prime(p) && is_prime(n - p) {
        round_memory(m, n, p)
    } else {
        inner_memory(round_memory(m, n, p), n, p + 1)
    }
}

/// The outer loop from `n`: whether every even number from `n` to the
/// bound splits, and its steps from the loop head to the halting
/// instruction.
pub open spec fn outer_run(n_max: int, n: int) -> (bool, nat)
    decreases n_max + 2 - n,
{
    if n > n_max {
        (true, 5)
    } else {
        let r = inner_run(n, 2);
        if r.0 {
            let o = outer_run(n_max, n + 2);
            (o.0, 7 + r.1 + o.1)
        } else {
            (false, 7 + r.1)
        }
    }
}

// ── Arithmetic facts ────────────────────────────────────────────────

/// The inner loop from `p` finds a split exactly when one exists from `p`.
proof fn lemma_inner_found(n: int, p: int)
    ensures
        inner_run(n, p).0 == split_from(n, p),
    decreases n / 2 + 1 - p,
{
    if p > n / 2 {
        if split_from(n, p) {
            let w = choose|w: int| p <= w <= n / 2 && #[trigger] is_prime(w) && is_prime(n - w);
        }
    } else if is_prime(p) && is_prime(n - p) {
        assert(p <= p <= n / 2 && is_prime(p) && is_prime(n - p));
    } else {
        lemma_inner_found(n, p + 1);
        if split_from(n, p) {
            let w = choose|w: int| p <= w <= n / 2 && #[trigger] is_prime(w) && is_prime(n - w);
            assert(w != p);
            assert(p + 1 <= w <= n / 2 && is_prime(w) && is_prime(n - w));
        }
        if split_from(n, p + 1) {
            let w = choose|w: int| p + 1 <= w <= n / 2 && #[trigger] is_prime(w) && is_prime(n - w);
            assert(p <= w <= n / 2 && is_prime(w) && is_prime(n - w));
        }
    }
}

/// An even `n` is the sum of two primes exactly when it splits from 2.
proof fn lemma_split_is_sum(n: int)
    ensures
        split_from(n, 2) == sum_of_two_primes(n),
{
    if split_from(n, 2) {
        let p = choose|p: int| 2 <= p <= n / 2 && #[trigger] is_prime(p) && is_prime(n - p);
        assert(is_prime(p) && is_prime(n - p) && p + (n - p) == n);
    }
    if sum_of_two_primes(n) {
        let (p, q) = choose|p: int, q: int| #[trigger] is_prime(p) && #[trigger] is_prime(q) && p + q == n;
        if p <= q {
            assert(p <= n / 2);
            assert(2 <= p <= n / 2 && is_prime(p) && is_prime(n - p));
        } else {
            assert(q <= n / 2);
            assert(n - q == p);
            assert(2 <= q <= n / 2 && is_prime(q) && is_prime(n - q));
        }
    }
}

/// The outer loop from an even `n` reports success exactly when every
/// even number from `n` to the bound is the sum of two primes.
proof fn lemma_outer_found(n_max: int, n: int)
    requires
        n % 2 == 0,
    ensures
        outer_run(n_max, n).0 == (forall|k: int|
            n <= k <= n_max && k % 2 == 0 ==> #[trigger] sum_of_two_primes(k)),
    decreases n_max + 2 - n,
{
    if n <= n_max {
        lemma_inner_found(n, 2);
        lemma_split_is_sum(n);
        if inner_run(n, 2).0 {
            lemma_outer_found(n_max, n + 2);
            if outer_run(n_max, n + 2).0 {
                assert forall|k: int| n <= k <= n_max && k % 2 == 0 implies #[trigger] sum_of_two_primes(k) by {
                    if k != n {
                        assert(n + 2 <= k);
                    }
                }
            } else {
                let k = choose|k: int| !(n + 2 <= k <= n_max && k % 2 == 0 ==> #[trigger] sum_of_two_primes(k));
                assert(!(n <= k <= n_max && k % 2 == 0 ==> sum_of_two_primes(k)));
            }
        } else {
            assert(!(n <= n <= n_max && n % 2 == 0 ==> sum_of_two_primes(n)));
        }
    }
}

// ── The program ─────────────────────────────────────────────────────

#[verifier::spinoff_prover]
#[verifier::rlimit(80)]
proof fn lemma_layout(n_max: i64)
    ensures
        ({
            let prog = goldbach_program(n_max);
            &&& prog.len() == 118
            &&& prog.subrange(0, 26) == goldbach_part_0(n_max)
            &&& test_placed(prog, 10, 11, 26, 66, 65)
            &&& prog.subrange(65, 68) == goldbach_part_1()
            &&& test_placed(prog, 12, 13, 68, 108, 107)
            &&& prog.subrange(107, 118) == goldbach_part_2()
        }),
{
    let prog = goldbach_program(n_max);
    let a = goldbach_part_0(n_max);
    let b = primality_block(10, 11, 26, 66, 65);
    let c = goldbach_part_1();
    let d = primality_block(12, 13, 68, 108, 107);
    let e = goldbach_part_2();
    assert(prog == a + b + c + d + e);
    assert(prog.subrange(0, 26) =~= a);
    assert(prog.subrange(26, 65) =~= b);
    assert(prog.subrange(65, 68) =~= c);
    assert(prog.subrange(68, 107) =~= d);
    assert(prog.subrange(107, 118) =~= e);
}

/// Instructions of the program by position.
proof fn lemma_at(n_max: i64, k: int)
    requires
        0 <= k < 118,
    ensures
        0 <= k < 26 ==> goldbach_program(n_max)[k] == goldbach_part_0(n_max)[k],
        65 <= k < 68 ==> goldbach_program(n_max)[k] == goldbach_part_1()[k - 65],
        107 <= k < 118 ==> goldbach_program(n_max)[k] == goldbach_part_2()[k - 107],
{
    let prog = goldbach_program(n_max);
    lemma_layout(n_max);
    if 0 <= k < 26 {
        assert(prog.subrange(0, 26)[k] == prog[k]);
    }
    if 65 <= k < 68 {
        assert(prog.subrange(65, 68)[k - 65] == prog[k]);
    }
    if 107 <= k < 118 {
        assert(prog.subrange(107, 118)[k - 107] == prog[k]);
    }
}

/// `Load(2), Load(0), Push(2), Div, Swap, Lt` pushes whether `n / 2 < p`.
proof fn lemma_half_check(m: Map<usize, i64>)
    requires
        read_cell(m, 0) > 0,
    ensures
        exec_straight(
            seq![
                Instruction::Load(2),
                Instruction::Load(0),
                Instruction::Push(2),
                Instruction::Div,
                Instruction::Swap,
                Instruction::Lt,
            ],
            Seq::empty(),
            m,
        ) == Ok::<(Seq<i64>, Map<usize, i64>), crate::vm::Fault>(
            (seq![flag(read_cell(m, 0) / 2 < read_cell(m, 2))], m),
        ),
{
    reveal_with_fuel(exec_straight, 7);
    let p = read_cell(m, 2);
    let n = read_cell(m, 0);
    let h = (n / 2) as i64;
    let code = seq![
        Instruction::Load(2),
        Instruction::Load(0),
        Instruction::Push(2),
        Instruction::Div,
        Instruction::Swap,
        Instruction::Lt,
    ];
    assert(code.skip(1) =~= seq![
        Instruction::Load(0),
        Instruction::Push(2),
        Instruction::Div,
        Instruction::Swap,
        Instruction::Lt,
    ]);
    assert(code.skip(1).skip(1) =~= seq![Instruction::Push(2), Instruction::Div, Instruction::Swap, Instruction::Lt]);
    assert(code.skip(1).skip(1).skip(1) =~= seq![Instruction::Div, Instruction::Swap, Instruction::Lt]);
    assert(code.skip(1).skip(1).skip(1).skip(1) =~= seq![Instruction::Swap, Instruction::Lt]);
    assert(code.skip(1).skip(1).skip(1).skip(1).skip(1) =~= seq![Instruction::Lt]);
    assert(code.skip(1).skip(1).skip(1).skip(1).skip(1).skip(1) =~= Seq::<Instruction>::empty());
    let s3 = seq![p].push(n).push(2);
    assert(s3[s3.len() - 2] == n);
    assert(s3.drop_last().drop_last().push(h) =~= seq![p, h]);
    let s4 = seq![p, h];
    let s5 = s4.drop_last().drop_last().push(s4.last()).push(s4[s4.len() - 2]);
    assert(s5 =~= seq![h, p]);
    assert(s5.drop_last().drop_last().push(flag(h < p)) =~= seq![flag(h < p)]);
    assert(Seq::<i64>::empty().push(p) =~= seq![p]);
}

/// `Load(0), Load(2), Sub, Store(3)` stores `n - p` in cell 3.
proof fn lemma_difference(m: Map<usize, i64>)
    requires
        0 <= read_cell(m, 0),
        0 <= read_cell(m, 2),
    ensures
        exec_straight(
            seq![Instruction::Load(0), Instruction::Load(2), Instruction::Sub, Instruction::Store(3)],
            Seq::empty(),
            m,
        ) == Ok::<(Seq<i64>, Map<usize, i64>), crate::vm::Fault>(
            (Seq::empty(), m.insert(3, (read_cell(m, 0) - read_cell(m, 2)) as i64)),
        ),
{
    reveal_with_fuel(exec_straight, 5);
    let n = read_cell(m, 0);
    let p = read_cell(m, 2);
    let code = seq![Instruction::Load(0), Instruction::Load(2), Instruction::Sub, Instruction::Store(3)];
    assert(code.skip(1) =~= seq![Instruction::Load(2), Instruction::Sub, Instruction::Store(3)]);
    assert(code.skip(1).skip(1) =~= seq![Instruction::Sub, Instruction::Store(3)]);
    assert(code.skip(1).skip(1).skip(1) =~= seq![Instruction::Store(3)]);
    assert(code.skip(1).skip(1).skip(1).skip(1) =~= Seq::<Instruction>::empty());
    let s2 = Seq::<i64>::empty().push(n).push(p);
    assert(s2[s2.len() - 2] == n);
    assert(s2.drop_last().drop_last().push((n - p) as i64) =~= seq![(n - p) as i64]);
    assert(seq![(n - p) as i64].drop_last() =~= Seq::<i64>::empty());
}

/// `Push(v), Store(slot)`.
pub(crate) proof fn lemma_set(m: Map<usize, i64>, v: i64, slot: usize)
    ensures
        exec_straight(seq![Instruction::Push(v), Instruction::Store(slot)], Seq::empty(), m) == Ok::<
            (Seq<i64>, Map<usize, i64>),
            crate::vm::Fault,
        >((Seq::empty(), m.insert(slot, v))),
{
    reveal_with_fuel(exec_straight, 3);
    let code = seq![Instruction::Push(v), Instruction::Store(slot)];
    assert(code.skip(1) =~= seq![Instruction::Store(slot)]);
    assert(code.skip(1).skip(1) =~= Seq::<Instruction>::empty());
    assert(Seq::<i64>::empty().push(v).drop_last() =~= Seq::<i64>::empty());
}

/// One round of the inner loop for `p <= n / 2`: the program computes
/// `n - p`, tests `p` and then `n - p`, and moves on to the next `n` when
/// both are prime, else to `p + 1`.
#[verifier::rlimit(60)]
proof fn lemma_round(n_max: i64, m: Map<usize, i64>, steps: nat, fuel: nat)
    requires
        read_cell(m, 1) == n_max,
        4 <= read_cell(m, 0) <= n_max <= 0x100_0000_0000,
        2 <= read_cell(m, 2) <= read_cell(m, 0) / 2,
        fuel >= round_steps(read_cell(m, 0) as int, read_cell(m, 2) as int),
    ensures
        ({
            let n = read_cell(m, 0) as int;
            let p = read_cell(m, 2) as int;
            spec_run_from(goldbach_program(n_max), running(12, Seq::empty(), m, steps), fuel)
                == spec_run_from(
                goldbach_program(n_max),
                running(
                    if is_prime(p) && is_prime(n - p) {
                        4
                    } else {
                        12
                    },
                    Seq::empty(),
                    round_memory(m, n, p),
                    steps + round_steps(n, p),
                ),
                (fuel - round_steps(n, p)) as nat,
            )
        }),
{
    let n = read_cell(m, 0);
    let p = read_cell(m, 2);
    let q = (n - p) as i64;
    let prog = goldbach_program(n_max);
    lemma_layout(n_max);
    // Inner head: p <= n / 2.
    let hd = seq![
        Instruction::Load(2),
        Instruction::Load(0),
        Instruction::Push(2),
        Instruction::Div,
        Instruction::Swap,
        Instruction::Lt,
    ];
    assert(prog.subrange(12, 18) =~= hd) by {
        assert forall|k: int| 12 <= k < 18 implies prog[k] == hd[k - 12] by {
            lemma_at(n_max, k);
        }
    }
    lemma_half_check(m);
    lemma_run_straight(prog, running(12, Seq::empty(), m, steps), hd, fuel);
    lemma_at(n_max, 18);
    let s6 = running(18, seq![0i64], m, steps + 6);
    lemma_step_on(prog, s6, (fuel - 6) as nat);
    assert(seq![0i64].drop_last() =~= Seq::<i64>::empty());
    let s7 = running(20, Seq::empty(), m, steps + 7);
    assert(spec_step(prog, s6) == s7);
    // q := n - p, then copy p to the test cell.
    let df = seq![Instruction::Load(0), Instruction::Load(2), Instruction::Sub, Instruction::Store(3)];
    assert(prog.subrange(20, 24) =~= df) by {
        assert forall|k: int| 20 <= k < 24 implies prog[k] == df[k - 20] by {
            lemma_at(n_max, k);
        }
    }
    lemma_difference(m);
    lemma_run_straight(prog, s7, df, (fuel - 7) as nat);
    let ma = m.insert(3, q);
    let cp = seq![Instruction::Load(2), Instruction::Store(10)];
    assert(prog.subrange(24, 26) =~= cp) by {
        lemma_at(n_max, 24);
        lemma_at(n_max, 25);
    }
    lemma_copy(ma, 2, 10);
    lemma_run_straight(prog, running(24, Seq::empty(), ma, steps + 11), cp, (fuel - 11) as nat);
    let m1 = ma.insert(10, p);
    assert(read_cell(m1, 10) == p);
    // Test p.
    lemma_test_fits_small(p as int);
    lemma_primality_run_correct(p as int);
    lemma_primality_test(prog, 10, 11, 26, 66, 65, Seq::empty(), m1, steps + 13, (fuel - 13) as nat);
    let c1 = primality_run(p as int).2;
    let m2 = memory_after_test(m1, 11, p as int);
    assert(read_cell(m2, 0) == n && read_cell(m2, 1) == n_max && read_cell(m2, 2) == p && read_cell(m2, 3) == q);
    let f2 = (fuel - 13 - c1) as nat;
    let nx = seq![Instruction::Load(2), Instruction::Push(1), Instruction::Add, Instruction::Store(2)];
    assert(prog.subrange(113, 117) =~= nx) by {
        assert forall|k: int| 113 <= k < 117 implies prog[k] == nx[k - 113] by {
            lemma_at(n_max, k);
        }
    }
    lemma_at(n_max, 117);
    if !is_prime(p as int) {
        lemma_at(n_max, 65);
        let t0 = running(65, Seq::empty(), m2, steps + 13 + c1);
        lemma_step_on(prog, t0, f2);
        let t1 = running(113, Seq::empty(), m2, steps + 14 + c1);
        assert(spec_step(prog, t0) == t1);
        lemma_add_store(m2, 2, 1, 2);
        lemma_run_straight(prog, t1, nx, (f2 - 1) as nat);
        let m5 = m2.insert(2, (p + 1) as i64);
        let t5 = running(117, Seq::empty(), m5, steps + 18 + c1);
        lemma_step_on(prog, t5, (f2 - 5) as nat);
        assert(spec_step(prog, t5) == running(12, Seq::empty(), m5, steps + 19 + c1));
        assert(m5 == round_memory(m, n as int, p as int));
    } else {
        // 66: copy q to the second test cell.
        let cq = seq![Instruction::Load(3), Instruction::Store(12)];
        assert(prog.subrange(66, 68) =~= cq) by {
            lemma_at(n_max, 66);
            lemma_at(n_max, 67);
        }
        lemma_copy(m2, 3, 12);
        lemma_run_straight(prog, running(66, Seq::empty(), m2, steps + 13 + c1), cq, f2);
        let m3 = m2.insert(12, q);
        assert(read_cell(m3, 12) == q);
        lemma_test_fits_small(q as int);
        lemma_primality_run_correct(q as int);
        lemma_primality_test(prog, 12, 13, 68, 108, 107, Seq::empty(), m3, steps + 15 + c1, (f2 - 2) as nat);
        let c2 = primality_run(q as int).2;
        let m4 = memory_after_test(m3, 13, q as int);
        assert(read_cell(m4, 0) == n && read_cell(m4, 2) == p);
        let f4 = (f2 - 2 - c2) as nat;
        if is_prime(q as int) {
            let nn = seq![Instruction::Load(0), Instruction::Push(2), Instruction::Add, Instruction::Store(0)];
            assert(prog.subrange(108, 112) =~= nn) by {
                assert forall|k: int| 108 <= k < 112 implies prog[k] == nn[k - 108] by {
                    lemma_at(n_max, k);
                }
            }
            lemma_add_store(m4, 0, 2, 0);
            lemma_run_straight(prog, running(108, Seq::empty(), m4, steps + 15 + c1 + c2), nn, f4);
            let m5 = m4.insert(0, (n + 2) as i64);
            lemma_at(n_max, 112);
            let t4 = running(112, Seq::empty(), m5, steps + 19 + c1 + c2);
            lemma_step_on(prog, t4, (f4 - 4) as nat);
            assert(spec_step(prog, t4) == running(4, Seq::empty(), m5, steps + 20 + c1 + c2));
            assert(m5 == round_memory(m, n as int, p as int));
        } else {
            lemma_at(n_max, 107);
            let t0 = running(107, Seq::empty(), m4, steps + 15 + c1 + c2);
            lemma_step_on(prog, t0, f4);
            let t1 = running(113, Seq::empty(), m4, steps + 16 + c1 + c2);
            assert(spec_step(prog, t0) == t1);
            lemma_add_store(m4, 2, 1, 2);
            lemma_run_straight(prog, t1, nx, (f4 - 1) as nat);
            let m5 = m4.insert(2, (p + 1) as i64);
            let t5 = running(117, Seq::empty(), m5, steps + 20 + c1 + c2);
            lemma_step_on(prog, t5, (f4 - 5) as nat);
            assert(spec_step(prog, t5) == running(12, Seq::empty(), m5, steps + 21 + c1 + c2));
            assert(m5 == round_memory(m, n as int, p as int));
        }
    }
}

/// The inner loop for `n` from `p`: when some `p' >= p` splits `n`, the
/// program reaches the head of the outer loop with `n + 2`; otherwise it
/// halts with 0.
proof fn lemma_inner(n_max: i64, m: Map<usize, i64>, steps: nat, fuel: nat)
    requires
        read_cell(m, 1) == n_max,
        4 <= read_cell(m, 0) <= n_max <= 0x100_0000_0000,
        2 <= read_cell(m, 2) <= read_cell(m, 0) / 2 + 1,
        fuel >= inner_run(read_cell(m, 0) as int, read_cell(m, 2) as int).1 + 1,
    ensures
        ({
            let n = read_cell(m, 0) as int;
            let p = read_cell(m, 2) as int;
            let r = inner_run(n, p);
            let prog = goldbach_program(n_max);
            &&& r.0 ==> read_cell(inner_memory(m, n, p), 0) == n + 2
            &&& r.0 ==> read_cell(inner_memory(m, n, p), 1) == n_max
            &&& r.0 ==> spec_run_from(prog, running(12, Seq::empty(), m, steps), fuel)
                == spec_run_from(
                prog,
                running(4, Seq::empty(), inner_memory(m, n, p), steps + r.1),
                (fuel - r.1) as nat,
            )
            &&& !r.0 ==> spec_run_from(prog, running(12, Seq::empty(), m, steps), fuel).outcome
                == Some(VmOutcome::Halted(0))
        }),
    decreases read_cell(m, 0) / 2 + 1 - read_cell(m, 2),
{
    let n = read_cell(m, 0);
    let p = read_cell(m, 2);
    let prog = goldbach_program(n_max);
    if p > n / 2 {
        lemma_layout(n_max);
        let hd = seq![
            Instruction::Load(2),
            Instruction::Load(0),
            Instruction::Push(2),
            Instruction::Div,
            Instruction::Swap,
            Instruction::Lt,
        ];
        assert(prog.subrange(12, 18) =~= hd) by {
            assert forall|k: int| 12 <= k < 18 implies prog[k] == hd[k - 12] by {
                lemma_at(n_max, k);
            }
        }
        lemma_half_check(m);
        lemma_run_straight(prog, running(12, Seq::empty(), m, steps), hd, fuel);
        lemma_at(n_max, 18);
        let s6 = running(18, seq![1i64], m, steps + 6);
        lemma_step_on(prog, s6, (fuel - 6) as nat);
        assert(seq![1i64].drop_last() =~= Seq::<i64>::empty());
        let s7 = running(19, Seq::empty(), m, steps + 7);
        assert(spec_step(prog, s6) == s7);
        lemma_at(n_max, 19);
        lemma_step_on(prog, s7, (fuel - 7) as nat);
        let s8 = spec_step(prog, s7);
        assert(s8.outcome == Some(VmOutcome::Halted(0)));
        assert(spec_run_from(prog, s8, (fuel - 8) as nat) == s8);
    } else {
        let c = round_steps(n as int, p as int);
        lemma_round(n_max, m, steps, fuel);
        let m2 = round_memory(m, n as int, p as int);
        if is_prime(p as int) && is_prime(n - p) {
        } else {
            assert(read_cell(m2, 0) == n && read_cell(m2, 1) == n_max && read_cell(m2, 2) == p + 1);
            lemma_inner(n_max, m2, steps + c, (fuel - c) as nat);
        }
    }
}

/// The outer loop from an even `n`: the program halts with 1 when every
/// even number from `n` to the bound splits, and with 0 otherwise.
proof fn lemma_outer(n_max: i64, m: Map<usize, i64>, steps: nat, fuel: nat)
    requires
        read_cell(m, 1) == n_max,
        n_max <= 0x100_0000_0000,
        4 <= read_cell(m, 0),
        fuel >= outer_run(n_max as int, read_cell(m, 0) as int).1 + 1,
    ensures
        spec_run_from(goldbach_program(n_max), running(4, Seq::empty(), m, steps), fuel).outcome
            == Some(
            VmOutcome::Halted(
                if outer_run(n_max as int, read_cell(m, 0) as int).0 {
                    1u8
                } else {
                    0u8
                },
            ),
        ),
    decreases (if read_cell(m, 0) <= n_max {
        n_max + 2 - read_cell(m, 0)
    } else {
        0
    }),
{
    let n = read_cell(m, 0);
    let prog = goldbach_program(n_max);
    lemma_layout(n_max);
    let hdr = seq![Instruction::Load(0), Instruction::Load(1), Instruction::Swap, Instruction::Lt];
    assert(prog.subrange(4, 8) =~= hdr) by {
        assert forall|k: int| 4 <= k < 8 implies prog[k] == hdr[k - 4] by {
            lemma_at(n_max, k);
        }
    }
    lemma_bound_check(m);
    lemma_run_straight(prog, running(4, Seq::empty(), m, steps), hdr, fuel);
    lemma_at(n_max, 8);
    lemma_at(n_max, 9);
    if n > n_max {
        let s4 = running(8, seq![1i64], m, steps + 4);
        lemma_step_on(prog, s4, (fuel - 4) as nat);
        assert(seq![1i64].drop_last() =~= Seq::<i64>::empty());
        let s5 = running(9, Seq::empty(), m, steps + 5);
        assert(spec_step(prog, s4) == s5);
        lemma_step_on(prog, s5, (fuel - 5) as nat);
        let s6 = spec_step(prog, s5);
        assert(s6.outcome == Some(VmOutcome::Halted(1)));
        assert(spec_run_from(prog, s6, (fuel - 6) as nat) == s6);
    } else {
        let s4 = running(8, seq![0i64], m, steps + 4);
        lemma_step_on(prog, s4, (fuel - 4) as nat);
        assert(seq![0i64].drop_last() =~= Seq::<i64>::empty());
        let s5 = running(10, Seq::empty(), m, steps + 5);
        assert(spec_step(prog, s4) == s5);
        let st = seq![Instruction::Push(2), Instruction::Store(2)];
        assert(prog.subrange(10, 12) =~= st) by {
            lemma_at(n_max, 10);
            lemma_at(n_max, 11);
        }
        lemma_set(m, 2, 2);
        lemma_run_straight(prog, s5, st, (fuel - 5) as nat);
        let m1 = m.insert(2, 2);
        assert(read_cell(m1, 0) == n && read_cell(m1, 1) == n_max && read_cell(m1, 2) == 2);
        let r = inner_run(n as int, 2);
        lemma_inner(n_max, m1, steps + 7, (fuel - 7) as nat);
        if r.0 {
            let m2 = inner_memory(m1, n as int, 2);
            lemma_outer(n_max, m2, steps + 7 + r.1, (fuel - 7 - r.1) as nat);
        }
    }
}

/// Steps the Goldbach program takes until it halts: the initialisation,
/// the loops, and the halt.
pub open spec fn goldbach_steps(n_max: int) -> nat {
    4 + outer_run(n_max, 4).1 + 1
}

/// The Goldbach program for a bound N, run for its budget, halts with 1
/// exactly when every even number from 4 to N is the sum of two primes,
/// and with 0 otherwise. This holds for the bounds the builder accepts,
/// when the program halts within its budget (`goldbach_steps`): the
/// budget is derived from N alone, while the search's length depends on
/// where the primes lie.
pub proof fn lemma_goldbach_program_decides(n_max: i64)
    requires
        ((n_max as u64) / 2) * ((n_max as u64) / 2) * 2 * 40 * 118 <= u64::MAX,
        goldbach_steps(n_max as int) <= goldbach_budget(n_max),
    ensures
        reported_outcome(spec_run(goldbach_program(n_max), goldbach_budget(n_max) as nat))
            == VmOutcome::Halted(if goldbach_up_to(n_max as int) { 1u8 } else { 0u8 }),
{
    let prog = goldbach_program(n_max);
    let budget = goldbach_budget(n_max);
    lemma_layout(n_max);
    // The accepted bounds are small.
    assert(n_max <= 0x100_0000_0000) by {
        if n_max > 0x100_0000_0000 {
            let h = (n_max as u64) / 2;
            assert(h >= 0x80_0000_0000);
            assert(h * h * 2 * 40 * 118 > u64::MAX) by (nonlinear_arith)
                requires
                    h >= 0x80_0000_0000,
            ;
        }
    }
    let init = seq![Instruction::Push(4), Instruction::Store(0), Instruction::Push(n_max), Instruction::Store(1)];
    assert(prog.subrange(0, 4) =~= init) by {
        assert forall|k: int| 0 <= k < 4 implies prog[k] == init[k] by {
            lemma_at(n_max, k);
        }
    }
    let m0 = Map::<usize, i64>::empty().insert(0, 4).insert(1, n_max);
    lemma_set(Map::empty(), 4, 0);
    lemma_set(Map::<usize, i64>::empty().insert(0, 4), n_max, 1);
    crate::vm::lemma_exec_straight_append(
        seq![Instruction::Push(4), Instruction::Store(0)],
        seq![Instruction::Push(n_max), Instruction::Store(1)],
        Seq::empty(),
        Map::empty(),
    );
    assert(seq![Instruction::Push(4), Instruction::Store(0)] + seq![Instruction::Push(n_max), Instruction::Store(1)] =~= init);
    lemma_run_straight(prog, initial_state(), init, budget as nat);
    assert(read_cell(m0, 0) == 4 && read_cell(m0, 1) == n_max);
    lemma_outer(n_max, m0, 4, (budget - 4) as nat);
    lemma_outer_found(n_max as int, 4);
}

} // verus!
