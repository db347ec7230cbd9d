//! What the weak Goldbach program decides.
//!
//! The program runs over the odd n = 7, 9, ... up to its bound N; for each
//! it tries primes p1 <= n / 3, then p2 = p1, p1 + 1, ... while
//! p3 = n - p1 - p2 is at least p2, and moves on to the next n at the first
//! p1, p2, p3 all prime. An n without such a triple halts the program with
//! 0; past the bound it halts with 1.

use crate::open_problems::{
    primality_block, weak_goldbach_budget, weak_goldbach_part_0, weak_goldbach_part_1,
    weak_goldbach_part_2, weak_goldbach_part_3, weak_goldbach_program,
};
use crate::trial_division::{
    is_prime, lemma_primality_run_correct, lemma_primality_test, lemma_test_fits_small,
    memory_after_test, primality_run, running, test_placed,
};
use crate::goldbach::lemma_set;
use crate::twin_primes::{lemma_add_store, lemma_bound_check, lemma_copy, lemma_step_on};
use crate::vm::{
    exec_straight, flag, initial_state, lemma_run_straight, read_cell, reported_outcome, spec_run,
    spec_run_from, spec_step, Instruction, VmOutcome,
};
use vstd::prelude::*;

verus! {

/// `n` is the sum of three primes.
pub open spec fn sum_of_three_primes(n: int) -> bool {
    exists|p: int, q: int, r: int| #[trigger] is_prime(p) && #[trigger] is_prime(q) && #[trigger] is_prime(r) && p + q + r == n
}

/// Every odd `n` in `[7, n_max]` is the sum of three primes.
pub open spec fn weak_goldbach_up_to(n_max: int) -> bool {
    forall|n: int| 7 <= n <= n_max && n % 2 == 1 ==> #[trigger] sum_of_three_primes(n)
}

/// Some `q >= q0` has `q` and `n - p - q` prime with `n - p - q >= q`.
pub open spec fn second_from(n: int, p: int, q0: int) -> bool {
    exists|q: int| q0 <= q && q <= n - p - q && 2 <= n - p - q && #[trigger] is_prime(q) && is_prime(n - p - q)
}

/// Some prime `p` from `p0` to `n / 3` completes to a triple.
pub open spec fn first_from(n: int, p0: int) -> bool {
    exists|p: int| p0 <= p <= n / 3 && #[trigger] is_prime(p) && second_from(n, p, p)
}

// ── The loops, step by step ─────────────────────────────────────────

/// Steps of the round of the second loop for `q` with `n - p - q >= q`,
/// from its head (position 68) to the next round or to the next `n`.
pub open spec fn second_round_steps(n: int, p: int, q: int) -> nat {
    let r = n - p - q;
    if r < 2 {
        20
    } else {
        16 + primality_run(q).2 + if is_prime(q) {
            2 + primality_run(r).2 + 5
        } else {
            5
        }
    }
}

/// Memory after the round of the second loop for `q`.
pub open spec fn second_round_memory(m: Map<usize, i64>, n: int, p: int, q: int) -> Map<usize, i64> {
    let r = n - p - q;
    let m1 = m.insert(4, r as i64);
    if r < 2 {
        m1.insert(3, (q + 1) as i64)
    } else {
        let m2 = memory_after_test(m1.insert(12, q as i64), 13, q);
        if is_prime(q) {
            let m3 = memory_after_test(m2.insert(14, r as i64), 15, r);
            if is_prime(r) {
                m3.insert(0, (n + 2) as i64)
            } else {
                m3.insert(3, (q + 1) as i64)
            }
        } else {
            m2.insert(3, (q + 1) as i64)
        }
    }
}

/// The round for `q` ends the search for `n`.
pub open spec fn second_round_found(n: int, p: int, q: int) -> bool {
    let r = n - p - q;
    r >= 2 && is_prime(q) && is_prime(r)
}

/// The second loop from `q`: whether it completes a triple, and its steps
/// to the next `n` (found) or to the head of the first loop with `p + 1`.
pub open spec fn second_run(n: int, p: int, q: int) -> (bool, nat)
    decreases n - p - 2 * q + 2,
{
    if n - p - q < q {
        (false, 16)
    } else if second_round_found(n, p, q) {
        (true, second_round_steps(n, p, q))
    } else {
        let r = second_run(n, p, q + 1);
        (r.0, second_round_steps(n, p, q) + r.1)
    }
}

/// Memory when the second loop from `q` ends.
pub open spec fn second_memory(m: Map<usize, i64>, n: int, p: int, q: int) -> Map<usize, i64>
    decreases n - p - 2 * q + 2,
{
    if n - p - q < q {
        m.insert(4, (n - p - q) as i64).insert(2, (p + 1) as i64)
    } else if second_round_found(n, p, q) {
        second_round_memory(m, n, p, q)
    } else {
        second_memory(second_round_memory(m, n, p, q), n, p, q + 1)
    }
}

/// The first loop from `p`: whether it finds a triple, and its steps to
/// the next `n` (found) or to the `Halt(0)` instruction.
pub open spec fn first_run(n: int, p: int) -> (bool, nat)
    decreases n / 3 + 1 - p,
{
    if p > n / 3 {
        (false, 7)
    } else if is_prime(p) {
        let s = second_run(n, p, p);
        if s.0 {
            (true, 11 + primality_run(p).2 + s.1)
        } else {
            let r = first_run(n, p + 1);
            (r.0, 11 + primality_run(p).2 + s.1 + r.1)
        }
    } else {
        let r = first_run(n, p + 1);
        (r.0, 14 + primality_run(p).2 + r.1)
    }
}

/// Memory after the first loop's test of `p`.
pub open spec fn first_test_memory(m: Map<usize, i64>, p: int) -> Map<usize, i64> {
    let m1 = memory_after_test(m.insert(10, p as i64), 11, p);
    if is_prime(p) {
        m1.insert(3, p as i64)
    } else {
        m1.insert(2, (p + 1) as i64)
    }
}

/// Memory when the first loop from `p` finds a triple.
pub open spec fn first_memory(m: Map<usize, i64>, n: int, p: int) -> Map<usize, i64>
    decreases n / 3 + 1 - p,
{
    if p > n / 3 {
        m
    } else {
        let m1 = first_test_memory(m, p);
        if is_prime(p) {
            if second_run(n, p, p).0 {
                second_memory(m1, n, p, p)
            } else {
                first_memory(second_memory(m1, n, p, p), n, p + 1)
            }
        } else {
            first_memory(m1, n, p + 1)
        }
    }
}

/// The outer loop from `n`: whether every odd number from `n` to the bound
/// is the sum of three primes, and the steps to the halting instruction.
pub open spec fn outer_run(n_max: int, n: int) -> (bool, nat)
    decreases n_max + 2 - n,
{
    if n > n_max {
        (true, 5)
    } else {
        let r = first_run(n, 2);
        if r.0 {
            let o = outer_run(n_max, n + 2);
            (o.0, 7 + r.1 + o.1)
        } else {
            (false, 7 + r.1)
        }
    }
}

// ── What the loops find ─────────────────────────────────────────────

proof fn lemma_second_found(n: int, p: int, q: int)
    ensures
        second_run(n, p, q).0 == second_from(n, p, q),
    decreases n - p - 2 * q + 2,
{
    if n - p - q < q {
        if second_from(n, p, q) {
            let w = choose|w: int| q <= w && w <= n - p - w && 2 <= n - p - w && #[trigger] is_prime(w) && is_prime(n - p - w);
        }
    } else if second_round_found(n, p, q) {
        assert(q <= q && q <= n - p - q && 2 <= n - p - q && is_prime(q) && is_prime(n - p - q));
    } else {
        lemma_second_found(n, p, q + 1);
        if second_from(n, p, q) {
            let w = choose|w: int| q <= w && w <= n - p - w && 2 <= n - p - w && #[trigger] is_prime(w) && is_prime(n - p - w);
            assert(w != q);
            assert(q + 1 <= w && w <= n - p - w && 2 <= n - p - w && is_prime(w) && is_prime(n - p - w));
        }
        if second_from(n, p, q + 1) {
            let w = choose|w: int| q + 1 <= w && w <= n - p - w && 2 <= n - p - w && #[trigger] is_prime(w) && is_prime(n - p - w);
            assert(q <= w && w <= n - p - w && 2 <= n - p - w && is_prime(w) && is_prime(n - p - w));
        }
    }
}

proof fn lemma_first_found(n: int, p: int)
    ensures
        first_run(n, p).0 == first_from(n, p),
    decreases n / 3 + 1 - p,
{
    if p > n / 3 {
        if first_from(n, p) {
            let w = choose|w: int| p <= w <= n / 3 && #[trigger] is_prime(w) && second_from(n, w, w);
        }
    } else {
        lemma_second_found(n, p, p);
        lemma_first_found(n, p + 1);
        if is_prime(p) && second_run(n, p, p).0 {
            assert(p <= p <= n / 3 && is_prime(p) && second_from(n, p, p));
        } else {
            if first_from(n, p) {
                let w = choose|w: int| p <= w <= n / 3 && #[trigger] is_prime(w) && second_from(n, w, w);
                assert(w != p);
                assert(p + 1 <= w <= n / 3 && is_prime(w) && second_from(n, w, w));
            }
            if first_from(n, p + 1) {
                let w = choose|w: int| p + 1 <= w <= n / 3 && #[trigger] is_prime(w) && second_from(n, w, w);
                assert(p <= w <= n / 3 && is_prime(w) && second_from(n, w, w));
            }
        }
    }
}

proof fn lemma_prime_at_least_two(p: int)
    requires
        is_prime(p),
    ensures
        p >= 2,
{
}

/// A sum of three primes has a sorted representation found by the loops.
proof fn lemma_first_is_sum(n: int)
    ensures
        first_from(n, 2) == sum_of_three_primes(n),
{
    if first_from(n, 2) {
        let p = choose|p: int| 2 <= p <= n / 3 && #[trigger] is_prime(p) && second_from(n, p, p);
        let q = choose|q: int| p <= q && q <= n - p - q && 2 <= n - p - q && #[trigger] is_prime(q) && is_prime(n - p - q);
        assert(is_prime(p) && is_prime(q) && is_prime(n - p - q) && p + q + (n - p - q) == n);
    }
    if sum_of_three_primes(n) {
        let (a, b, c) = choose|p: int, q: int, r: int| #[trigger] is_prime(p) && #[trigger] is_prime(q) && #[trigger] is_prime(r) && p + q + r == n;
        lemma_prime_at_least_two(a);
        lemma_prime_at_least_two(b);
        lemma_prime_at_least_two(c);
        // Sort the three primes.
        let (x, y, z) = if a <= b && b <= c {
            (a, b, c)
        } else if a <= c && c <= b {
            (a, c, b)
        } else if b <= a && a <= c {
            (b, a, c)
        } else if b <= c && c <= a {
            (b, c, a)
        } else if c <= a && a <= b {
            (c, a, b)
        } else {
            (c, b, a)
        };
        assert(x <= y <= z && x + y + z == n && is_prime(x) && is_prime(y) && is_prime(z));
        assert(x <= n / 3);
        assert(z == n - x - y);
        assert(y <= y && y <= n - x - y && 2 <= n - x - y && is_prime(y) && is_prime(n - x - y));
        assert(second_from(n, x, x));
        assert(2 <= x <= n / 3 && is_prime(x) && second_from(n, x, x));
    }
}

#[verifier::spinoff_prover]
#[verifier::rlimit(40)]
proof fn lemma_outer_found(n_max: int, n: int)
    requires
        n % 2 == 1,
    ensures
        outer_run(n_max, n).0 == (forall|k: int|
            n <= k <= n_max && k % 2 == 1 ==> #[trigger] sum_of_three_primes(k)),
    decreases n_max + 2 - n,
{
    if n <= n_max {
        lemma_first_found(n, 2);
        lemma_first_is_sum(n);
        if first_run(n, 2).0 {
            lemma_outer_found(n_max, n + 2);
            if outer_run(n_max, n + 2).0 {
                assert forall|k: int| n <= k <= n_max && k % 2 == 1 implies #[trigger] sum_of_three_primes(k) by {
                    if k != n {
                        assert(n + 2 <= k);
                    }
                }
            } else {
                let k = choose|k: int| !(n + 2 <= k <= n_max && k % 2 == 1 ==> #[trigger] sum_of_three_primes(k));
                assert(!(n <= k <= n_max && k % 2 == 1 ==> sum_of_three_primes(k)));
            }
        } else {
            assert(!(n <= n <= n_max && n % 2 == 1 ==> sum_of_three_primes(n)));
        }
    }
}

// ── The program ─────────────────────────────────────────────────────

#[verifier::spinoff_prover]
#[verifier::rlimit(80)]
proof fn lemma_layout(n_max: i64)
    ensures
        ({
            let prog = weak_goldbach_program(n_max);
            &&& prog.len() == 176
            &&& prog.subrange(0, 22) == weak_goldbach_part_0(n_max)
            &&& test_placed(prog, 10, 11, 22, 66, 61)
            &&& prog.subrange(61, 86) == weak_goldbach_part_1()
            &&& test_placed(prog, 12, 13, 86, 130, 125)
            &&& prog.subrange(125, 132) == weak_goldbach_part_2()
            &&& test_placed(prog, 14, 15, 132, 171, 125)
            &&& prog.subrange(171, 176) == weak_goldbach_part_3()
        }),
{
    let prog = weak_goldbach_program(n_max);
    let a = weak_goldbach_part_0(n_max);
    let b = primality_block(10, 11, 22, 66, 61);
    let c = weak_goldbach_part_1();
    let d = primality_block(12, 13, 86, 130, 125);
    let e = weak_goldbach_part_2();
    let f = primality_block(14, 15, 132, 171, 125);
    let g = weak_goldbach_part_3();
    assert(prog == a + b + c + d + e + f + g);
    assert(prog.subrange(0, 22) =~= a);
    assert(prog.subrange(22, 61) =~= b);
    assert(prog.subrange(61, 86) =~= c);
    assert(prog.subrange(86, 125) =~= d);
    assert(prog.subrange(125, 132) =~= e);
    assert(prog.subrange(132, 171) =~= f);
    assert(prog.subrange(171, 176) =~= g);
}

/// Instructions of the program by position.
proof fn lemma_at(n_max: i64, k: int)
    requires
        0 <= k < 176,
    ensures
        0 <= k < 22 ==> weak_goldbach_program(n_max)[k] == weak_goldbach_part_0(n_max)[k],
        61 <= k < 86 ==> weak_goldbach_program(n_max)[k] == weak_goldbach_part_1()[k - 61],
        125 <= k < 132 ==> weak_goldbach_program(n_max)[k] == weak_goldbach_part_2()[k - 125],
        171 <= k < 176 ==> weak_goldbach_program(n_max)[k] == weak_goldbach_part_3()[k - 171],
{
    let prog = weak_goldbach_program(n_max);
    lemma_layout(n_max);
    if 0 <= k < 22 {
        assert(prog.subrange(0, 22)[k] == prog[k]);
    }
    if 61 <= k < 86 {
        assert(prog.subrange(61, 86)[k - 61] == prog[k]);
    }
    if 125 <= k < 132 {
        assert(prog.subrange(125, 132)[k - 125] == prog[k]);
    }
    if 171 <= k < 176 {
        assert(prog.subrange(171, 176)[k - 171] == prog[k]);
    }
}

/// `Load(2), Load(0), Push(3), Div, Swap, Lt` pushes whether `n / 3 < p`.
proof fn lemma_third_check(m: Map<usize, i64>)
    requires
        read_cell(m, 0) > 0,
    ensures
        exec_straight(
            seq![
                Instruction::Load(2),
                Instruction::Load(0),
                Instruction::Push(3),
                Instruction::Div,
                Instruction::Swap,
                Instruction::Lt,
            ],
            Seq::empty(),
            m,
        ) == Ok::<(Seq<i64>, Map<usize, i64>), crate::vm::Fault>(
            (seq![flag(read_cell(m, 0) / 3 < read_cell(m, 2))], m),
        ),
{
    reveal_with_fuel(exec_straight, 7);
    let p = read_cell(m, 2);
    let n = read_cell(m, 0);
    let h = (n / 3) as i64;
    let code = seq![
        Instruction::Load(2),
        Instruction::Load(0),
        Instruction::Push(3),
        Instruction::Div,
        Instruction::Swap,
        Instruction::Lt,
    ];
    assert(code.skip(1) =~= seq![
        Instruction::Load(0),
        Instruction::Push(3),
        Instruction::Div,
        Instruction::Swap,
        Instruction::Lt,
    ]);
    assert(code.skip(1).skip(1) =~= seq![Instruction::Push(3), Instruction::Div, Instruction::Swap, Instruction::Lt]);
    assert(code.skip(1).skip(1).skip(1) =~= seq![Instruction::Div, Instruction::Swap, Instruction::Lt]);
    assert(code.skip(1).skip(1).skip(1).skip(1) =~= seq![Instruction::Swap, Instruction::Lt]);
    assert(code.skip(1).skip(1).skip(1).skip(1).skip(1) =~= seq![Instruction::Lt]);
    assert(code.skip(1).skip(1).skip(1).skip(1).skip(1).skip(1) =~= Seq::<Instruction>::empty());
    let s3 = seq![p].push(n).push(3);
    assert(s3[s3.len() - 2] == n);
    assert(s3.drop_last().drop_last().push(h) =~= seq![p, h]);
    let s4 = seq![p, h];
    let s5 = s4.drop_last().drop_last().push(s4.last()).push(s4[s4.len() - 2]);
    assert(s5 =~= seq![h, p]);
    assert(s5.drop_last().drop_last().push(flag(h < p)) =~= seq![flag(h < p)]);
    assert(Seq::<i64>::empty().push(p) =~= seq![p]);
}

/// `Load(0), Load(2), Sub, Load(3), Sub, Store(4)` stores `n - p - q` in
/// cell 4.
proof fn lemma_remainder(m: Map<usize, i64>)
    requires
        0 <= read_cell(m, 0) <= 0x100_0000_0000,
        0 <= read_cell(m, 2) <= 0x100_0000_0000,
        0 <= read_cell(m, 3) <= 0x100_0000_0000,
    ensures
        exec_straight(
            seq![
                Instruction::Load(0),
                Instruction::Load(2),
                Instruction::Sub,
                Instruction::Load(3),
                Instruction::Sub,
                Instruction::Store(4),
            ],
            Seq::empty(),
            m,
        ) == Ok::<(Seq<i64>, Map<usize, i64>), crate::vm::Fault>(
            (Seq::empty(), m.insert(4, (read_cell(m, 0) - read_cell(m, 2) - read_cell(m, 3)) as i64)),
        ),
{
    reveal_with_fuel(exec_straight, 7);
    let n = read_cell(m, 0);
    let p = read_cell(m, 2);
    let q = read_cell(m, 3);
    let d = (n - p) as i64;
    let r = (n - p - q) as i64;
    let code = seq![
        Instruction::Load(0),
        Instruction::Load(2),
        Instruction::Sub,
        Instruction::Load(3),
        Instruction::Sub,
        Instruction::Store(4),
    ];
    assert(code.skip(1) =~= seq![
        Instruction::Load(2),
        Instruction::Sub,
        Instruction::Load(3),
        Instruction::Sub,
        Instruction::Store(4),
    ]);
    assert(code.skip(1).skip(1) =~= seq![Instruction::Sub, Instruction::Load(3), Instruction::Sub, Instruction::Store(4)]);
    assert(code.skip(1).skip(1).skip(1) =~= seq![Instruction::Load(3), Instruction::Sub, Instruction::Store(4)]);
    assert(code.skip(1).skip(1).skip(1).skip(1) =~= seq![Instruction::Sub, Instruction::Store(4)]);
    assert(code.skip(1).skip(1).skip(1).skip(1).skip(1) =~= seq![Instruction::Store(4)]);
    assert(code.skip(1).skip(1).skip(1).skip(1).skip(1).skip(1) =~= Seq::<Instruction>::empty());
    let s2 = Seq::<i64>::empty().push(n).push(p);
    assert(s2[s2.len() - 2] == n);
    assert(s2.drop_last().drop_last().push(d) =~= seq![d]);
    let s4 = seq![d].push(q);
    assert(s4[s4.len() - 2] == d);
    assert(s4.drop_last().drop_last().push(r) =~= seq![r]);
    assert(seq![r].drop_last() =~= Seq::<i64>::empty());
}

/// `Load(a), Load(b), Lt` pushes whether cell `a` is below cell `b`.
proof fn lemma_cells_below(m: Map<usize, i64>, a: usize, b: usize)
    ensures
        exec_straight(seq![Instruction::Load(a), Instruction::Load(b), Instruction::Lt], Seq::empty(), m)
            == Ok::<(Seq<i64>, Map<usize, i64>), crate::vm::Fault>(
            (seq![flag(read_cell(m, a) < read_cell(m, b))], m),
        ),
{
    reveal_with_fuel(exec_straight, 4);
    let x = read_cell(m, a);
    let y = read_cell(m, b);
    let code = seq![Instruction::Load(a), Instruction::Load(b), Instruction::Lt];
    assert(code.skip(1) =~= seq![Instruction::Load(b), Instruction::Lt]);
    assert(code.skip(1).skip(1) =~= seq![Instruction::Lt]);
    assert(code.skip(1).skip(1).skip(1) =~= Seq::<Instruction>::empty());
    let s2 = Seq::<i64>::empty().push(x).push(y);
    assert(s2[s2.len() - 2] == x);
    assert(s2.drop_last().drop_last().push(flag(x < y)) =~= seq![flag(x < y)]);
}

/// `Load(a), Push(c), Lt` pushes whether cell `a` is below `c`.
proof fn lemma_cell_below(m: Map<usize, i64>, a: usize, c: i64)
    ensures
        exec_straight(seq![Instruction::Load(a), Instruction::Push(c), Instruction::Lt], Seq::empty(), m)
            == Ok::<(Seq<i64>, Map<usize, i64>), crate::vm::Fault>(
            (seq![flag(read_cell(m, a) < c)], m),
        ),
{
    reveal_with_fuel(exec_straight, 4);
    let x = read_cell(m, a);
    let code = seq![Instruction::Load(a), Instruction::Push(c), Instruction::Lt];
    assert(code.skip(1) =~= seq![Instruction::Push(c), Instruction::Lt]);
    assert(code.skip(1).skip(1) =~= seq![Instruction::Lt]);
    assert(code.skip(1).skip(1).skip(1) =~= Seq::<Instruction>::empty());
    let s2 = Seq::<i64>::empty().push(x).push(c);
    assert(s2[s2.len() - 2] == x);
    assert(s2.drop_last().drop_last().push(flag(x < c)) =~= seq![flag(x < c)]);
}

/// The straight-line code from `start` to `end` is `code`.
proof fn lemma_code_at(n_max: i64, start: int, end: int, code: Seq<Instruction>)
    requires
        0 <= start <= end <= 176,
        (0 <= start && end <= 22) || (61 <= start && end <= 86) || (125 <= start && end <= 132) || (171
            <= start && end <= 176),
        code.len() == end - start,
        forall|k: int|
            #![trigger code[k]]
            0 <= k < end - start ==> code[k] == if start < 22 {
                weak_goldbach_part_0(n_max)[start + k]
            } else if start < 86 {
                weak_goldbach_part_1()[start + k - 61]
            } else if start < 132 {
                weak_goldbach_part_2()[start + k - 125]
            } else {
                weak_goldbach_part_3()[start + k - 171]
            },
    ensures
        weak_goldbach_program(n_max).subrange(start, end) == code,
{
    let prog = weak_goldbach_program(n_max);
    assert forall|k: int| 0 <= k < end - start implies prog.subrange(start, end)[k] == code[k] by {
        lemma_at(n_max, start + k);
    }
    assert(prog.subrange(start, end) =~= code);
}

/// From position 61 the program stores `p + 1` and returns to the head of
/// the first loop.
proof fn lemma_next_first(n_max: i64, m: Map<usize, i64>, steps: nat, fuel: nat)
    requires
        0 <= read_cell(m, 2) <= 0x100_0000_0000,
        fuel >= 5,
    ensures
        spec_run_from(weak_goldbach_program(n_max), running(61, Seq::empty(), m, steps), fuel)
            == spec_run_from(
            weak_goldbach_program(n_max),
            running(12, Seq::empty(), m.insert(2, (read_cell(m, 2) + 1) as i64), steps + 5),
            (fuel - 5) as nat,
        ),
{
    let prog = weak_goldbach_program(n_max);
    lemma_layout(n_max);
    let nx = seq![Instruction::Load(2), Instruction::Push(1), Instruction::Add, Instruction::Store(2)];
    lemma_code_at(n_max, 61, 65, nx);
    lemma_add_store(m, 2, 1, 2);
    lemma_run_straight(prog, running(61, Seq::empty(), m, steps), nx, fuel);
    let m1 = m.insert(2, (read_cell(m, 2) + 1) as i64);
    lemma_at(n_max, 65);
    let t = running(65, Seq::empty(), m1, steps + 4);
    lemma_step_on(prog, t, (fuel - 4) as nat);
    assert(spec_step(prog, t) == running(12, Seq::empty(), m1, steps + 5));
}

/// From position 125 the program stores `q + 1` and returns to the head of
/// the second loop.
proof fn lemma_next_second(n_max: i64, m: Map<usize, i64>, steps: nat, fuel: nat)
    requires
        0 <= read_cell(m, 3) <= 0x100_0000_0000,
        fuel >= 5,
    ensures
        spec_run_from(weak_goldbach_program(n_max), running(125, Seq::empty(), m, steps), fuel)
            == spec_run_from(
            weak_goldbach_program(n_max),
            running(68, Seq::empty(), m.insert(3, (read_cell(m, 3) + 1) as i64), steps + 5),
            (fuel - 5) as nat,
        ),
{
    let prog = weak_goldbach_program(n_max);
    lemma_layout(n_max);
    let nx = seq![Instruction::Load(3), Instruction::Push(1), Instruction::Add, Instruction::Store(3)];
    lemma_code_at(n_max, 125, 129, nx);
    lemma_add_store(m, 3, 1, 3);
    lemma_run_straight(prog, running(125, Seq::empty(), m, steps), nx, fuel);
    let m1 = m.insert(3, (read_cell(m, 3) + 1) as i64);
    lemma_at(n_max, 129);
    let t = running(129, Seq::empty(), m1, steps + 4);
    lemma_step_on(prog, t, (fuel - 4) as nat);
    assert(spec_step(prog, t) == running(68, Seq::empty(), m1, steps + 5));
}

/// From position 171 the program stores `n + 2` and returns to the head of
/// the outer loop.
proof fn lemma_next_outer(n_max: i64, m: Map<usize, i64>, steps: nat, fuel: nat)
    requires
        0 <= read_cell(m, 0) <= 0x100_0000_0000,
        fuel >= 5,
    ensures
        spec_run_from(weak_goldbach_program(n_max), running(171, Seq::empty(), m, steps), fuel)
            == spec_run_from(
            weak_goldbach_program(n_max),
            running(4, Seq::empty(), m.insert(0, (read_cell(m, 0) + 2) as i64), steps + 5),
            (fuel - 5) as nat,
        ),
{
    let prog = weak_goldbach_program(n_max);
    lemma_layout(n_max);
    let nx = seq![Instruction::Load(0), Instruction::Push(2), Instruction::Add, Instruction::Store(0)];
    lemma_code_at(n_max, 171, 175, nx);
    lemma_add_store(m, 0, 2, 0);
    lemma_run_straight(prog, running(171, Seq::empty(), m, steps), nx, fuel);
    let m1 = m.insert(0, (read_cell(m, 0) + 2) as i64);
    lemma_at(n_max, 175);
    let t = running(175, Seq::empty(), m1, steps + 4);
    lemma_step_on(prog, t, (fuel - 4) as nat);
    assert(spec_step(prog, t) == running(4, Seq::empty(), m1, steps + 5));
}

/// The head of the second loop computes `r = n - p - q`; with `r < q` the
/// program moves on to `p + 1`, else it goes on to test `r >= 2`.
proof fn lemma_second_head(n_max: i64, m: Map<usize, i64>, steps: nat, fuel: nat)
    requires
        0 <= read_cell(m, 0) <= 0x100_0000_0000,
        0 <= read_cell(m, 2) <= 0x100_0000_0000,
        0 <= read_cell(m, 3) <= 0x100_0000_0000,
        fuel >= 16,
    ensures
        ({
            let n = read_cell(m, 0) as int;
            let p = read_cell(m, 2) as int;
            let q = read_cell(m, 3) as int;
            let m1 = m.insert(4, (n - p - q) as i64);
            let prog = weak_goldbach_program(n_max);
            &&& n - p - q < q ==> spec_run_from(prog, running(68, Seq::empty(), m, steps), fuel)
                == spec_run_from(
                prog,
                running(12, Seq::empty(), m1.insert(2, (p + 1) as i64), steps + 16),
                (fuel - 16) as nat,
            )
            &&& n - p - q >= q ==> spec_run_from(prog, running(68, Seq::empty(), m, steps), fuel)
                == spec_run_from(prog, running(79, Seq::empty(), m1, steps + 10), (fuel - 10) as nat)
        }),
{
    let prog = weak_goldbach_program(n_max);
    let n = read_cell(m, 0);
    let p = read_cell(m, 2);
    let q = read_cell(m, 3);
    let r = (n - p - q) as i64;
    lemma_layout(n_max);
    let hd = seq![
        Instruction::Load(0),
        Instruction::Load(2),
        Instruction::Sub,
        Instruction::Load(3),
        Instruction::Sub,
        Instruction::Store(4),
    ];
    lemma_code_at(n_max, 68, 74, hd);
    lemma_remainder(m);
    lemma_run_straight(prog, running(68, Seq::empty(), m, steps), hd, fuel);
    let m1 = m.insert(4, r);
    let below = seq![Instruction::Load(4), Instruction::Load(3), Instruction::Lt];
    lemma_code_at(n_max, 74, 77, below);
    lemma_cells_below(m1, 4, 3);
    lemma_run_straight(prog, running(74, Seq::empty(), m1, steps + 6), below, (fuel - 6) as nat);
    lemma_at(n_max, 77);
    lemma_at(n_max, 78);
    if r < q {
        let t = running(77, seq![1i64], m1, steps + 9);
        lemma_step_on(prog, t, (fuel - 9) as nat);
        assert(seq![1i64].drop_last() =~= Seq::<i64>::empty());
        let t1 = running(78, Seq::empty(), m1, steps + 10);
        assert(spec_step(prog, t) == t1);
        lemma_step_on(prog, t1, (fuel - 10) as nat);
        assert(spec_step(prog, t1) == running(61, Seq::empty(), m1, steps + 11));
        assert(read_cell(m1, 2) == p);
        lemma_next_first(n_max, m1, steps + 11, (fuel - 11) as nat);
    } else {
        let t = running(77, seq![0i64], m1, steps + 9);
        lemma_step_on(prog, t, (fuel - 9) as nat);
        assert(seq![0i64].drop_last() =~= Seq::<i64>::empty());
        assert(spec_step(prog, t) == running(79, Seq::empty(), m1, steps + 10));
    }
}

/// One round of the second loop for `q <= n - p - q`: the program tests
/// `r = n - p - q >= 2`, then `q` and `r` for primality, and moves on to
/// the next `n` when both are prime, else to `q + 1`.
#[verifier::rlimit(60)]
proof fn lemma_second_round(n_max: i64, m: Map<usize, i64>, steps: nat, fuel: nat)
    requires
        read_cell(m, 1) == n_max,
        7 <= read_cell(m, 0) <= n_max <= 0x100_0000_0000,
        2 <= read_cell(m, 2) <= read_cell(m, 3),
        read_cell(m, 3) <= read_cell(m, 0) - read_cell(m, 2) - read_cell(m, 3),
        fuel >= second_round_steps(read_cell(m, 0) as int, read_cell(m, 2) as int, read_cell(m, 3) as int),
    ensures
        ({
            let n = read_cell(m, 0) as int;
            let p = read_cell(m, 2) as int;
            let q = read_cell(m, 3) as int;
            spec_run_from(weak_goldbach_program(n_max), running(68, Seq::empty(), m, steps), fuel)
                == spec_run_from(
                weak_goldbach_program(n_max),
                running(
                    if second_round_found(n, p, q) {
                        4
                    } else {
                        68
                    },
                    Seq::empty(),
                    second_round_memory(m, n, p, q),
                    steps + second_round_steps(n, p, q),
                ),
                (fuel - second_round_steps(n, p, q)) as nat,
            )
        }),
{
    let prog = weak_goldbach_program(n_max);
    let n = read_cell(m, 0);
    let p = read_cell(m, 2);
    let q = read_cell(m, 3);
    let r = (n - p - q) as i64;
    lemma_layout(n_max);
    lemma_second_head(n_max, m, steps, fuel);
    let m1 = m.insert(4, r);
    let lt = seq![Instruction::Load(4), Instruction::Push(2), Instruction::Lt];
    lemma_code_at(n_max, 79, 82, lt);
    lemma_cell_below(m1, 4, 2);
    lemma_run_straight(prog, running(79, Seq::empty(), m1, steps + 10), lt, (fuel - 10) as nat);
    lemma_at(n_max, 82);
    lemma_at(n_max, 83);
    if r < 2 {
        let t = running(82, seq![1i64], m1, steps + 13);
        lemma_step_on(prog, t, (fuel - 13) as nat);
        assert(seq![1i64].drop_last() =~= Seq::<i64>::empty());
        let t1 = running(83, Seq::empty(), m1, steps + 14);
        assert(spec_step(prog, t) == t1);
        lemma_step_on(prog, t1, (fuel - 14) as nat);
        assert(spec_step(prog, t1) == running(125, Seq::empty(), m1, steps + 15));
        assert(read_cell(m1, 3) == q);
        lemma_next_second(n_max, m1, steps + 15, (fuel - 15) as nat);
    } else {
        let t = running(82, seq![0i64], m1, steps + 13);
        lemma_step_on(prog, t, (fuel - 13) as nat);
        assert(seq![0i64].drop_last() =~= Seq::<i64>::empty());
        assert(spec_step(prog, t) == running(84, Seq::empty(), m1, steps + 14));
        let cq = seq![Instruction::Load(3), Instruction::Store(12)];
        lemma_code_at(n_max, 84, 86, cq);
        lemma_copy(m1, 3, 12);
        lemma_run_straight(prog, running(84, Seq::empty(), m1, steps + 14), cq, (fuel - 14) as nat);
        let m2 = m1.insert(12, q);
        assert(read_cell(m2, 12) == q);
        lemma_test_fits_small(q as int);
        lemma_primality_run_correct(q as int);
        lemma_primality_test(prog, 12, 13, 86, 130, 125, Seq::empty(), m2, steps + 16, (fuel - 16) as nat);
        let c1 = primality_run(q as int).2;
        let m3 = memory_after_test(m2, 13, q as int);
        assert(read_cell(m3, 0) == n && read_cell(m3, 3) == q && read_cell(m3, 4) == r);
        if !is_prime(q as int) {
            lemma_next_second(n_max, m3, steps + 16 + c1, (fuel - 16 - c1) as nat);
        } else {
            let cr = seq![Instruction::Load(4), Instruction::Store(14)];
            lemma_code_at(n_max, 130, 132, cr);
            lemma_copy(m3, 4, 14);
            lemma_run_straight(prog, running(130, Seq::empty(), m3, steps + 16 + c1), cr, (fuel - 16 - c1) as nat);
            let m4 = m3.insert(14, r);
            assert(read_cell(m4, 14) == r);
            lemma_test_fits_small(r as int);
            lemma_primality_run_correct(r as int);
            lemma_primality_test(prog, 14, 15, 132, 171, 125, Seq::empty(), m4, steps + 18 + c1, (fuel - 18 - c1) as nat);
            let c2 = primality_run(r as int).2;
            let m5 = memory_after_test(m4, 15, r as int);
            assert(read_cell(m5, 0) == n && read_cell(m5, 3) == q);
            if is_prime(r as int) {
                lemma_next_outer(n_max, m5, steps + 18 + c1 + c2, (fuel - 18 - c1 - c2) as nat);
            } else {
                lemma_next_second(n_max, m5, steps + 18 + c1 + c2, (fuel - 18 - c1 - c2) as nat);
            }
        }
    }
}

/// The second loop for `n` and `p` from `q`: when it completes a triple the
/// program reaches the head of the outer loop with `n + 2`; otherwise the
/// head of the first loop with `p + 1`.
proof fn lemma_second(n_max: i64, m: Map<usize, i64>, steps: nat, fuel: nat)
    requires
        read_cell(m, 1) == n_max,
        7 <= read_cell(m, 0) <= n_max <= 0x100_0000_0000,
        2 <= read_cell(m, 2) <= read_cell(m, 3),
        read_cell(m, 3) <= read_cell(m, 0) - read_cell(m, 2) - read_cell(m, 3) + 2,
        fuel >= second_run(read_cell(m, 0) as int, read_cell(m, 2) as int, read_cell(m, 3) as int).1,
    ensures
        ({
            let n = read_cell(m, 0) as int;
            let p = read_cell(m, 2) as int;
            let q = read_cell(m, 3) as int;
            let s = second_run(n, p, q);
            let mm = second_memory(m, n, p, q);
            &&& s.0 ==> read_cell(mm, 0) == n + 2
            &&& !s.0 ==> read_cell(mm, 0) == n && read_cell(mm, 2) == p + 1
            &&& read_cell(mm, 1) == n_max
            &&& spec_run_from(weak_goldbach_program(n_max), running(68, Seq::empty(), m, steps), fuel)
                == spec_run_from(
                weak_goldbach_program(n_max),
                running(
                    if s.0 {
                        4
                    } else {
                        12
                    },
                    Seq::empty(),
                    mm,
                    steps + s.1,
                ),
                (fuel - s.1) as nat,
            )
        }),
    decreases read_cell(m, 0) - read_cell(m, 2) - 2 * read_cell(m, 3) + 2,
{
    let n = read_cell(m, 0);
    let p = read_cell(m, 2);
    let q = read_cell(m, 3);
    if n - p - q < q {
        lemma_second_head(n_max, m, steps, fuel);
    } else {
        assert(q <= n - p - q);
        let c = second_round_steps(n as int, p as int, q as int);
        lemma_second_round(n_max, m, steps, fuel);
        let m2 = second_round_memory(m, n as int, p as int, q as int);
        if !second_round_found(n as int, p as int, q as int) {
            assert(read_cell(m2, 0) == n && read_cell(m2, 1) == n_max && read_cell(m2, 2) == p
                && read_cell(m2, 3) == q + 1);
            lemma_second(n_max, m2, steps + c, (fuel - c) as nat);
        }
    }
}

/// The head of the first loop: past `n / 3` the program halts with 0, else
/// it goes on to test `p`.
proof fn lemma_first_head(n_max: i64, m: Map<usize, i64>, steps: nat, fuel: nat)
    requires
        read_cell(m, 0) > 0,
        fuel >= 8,
    ensures
        ({
            let prog = weak_goldbach_program(n_max);
            &&& read_cell(m, 0) / 3 < read_cell(m, 2) ==> spec_run_from(
                prog,
                running(12, Seq::empty(), m, steps),
                fuel,
            ).outcome == Some(VmOutcome::Halted(0))
            &&& read_cell(m, 2) <= read_cell(m, 0) / 3 ==> spec_run_from(
                prog,
                running(12, Seq::empty(), m, steps),
                fuel,
            ) == spec_run_from(prog, running(20, Seq::empty(), m, steps + 7), (fuel - 7) as nat)
        }),
{
    let n = read_cell(m, 0);
    let p = read_cell(m, 2);
    let prog = weak_goldbach_program(n_max);
    lemma_layout(n_max);
    let hd = seq![
        Instruction::Load(2),
        Instruction::Load(0),
        Instruction::Push(3),
        Instruction::Div,
        Instruction::Swap,
        Instruction::Lt,
    ];
    lemma_code_at(n_max, 12, 18, hd);
    lemma_third_check(m);
    lemma_run_straight(prog, running(12, Seq::empty(), m, steps), hd, fuel);
    lemma_at(n_max, 18);
    lemma_at(n_max, 19);
    if p > n / 3 {
        let s6 = running(18, seq![1i64], m, steps + 6);
        lemma_step_on(prog, s6, (fuel - 6) as nat);
        assert(seq![1i64].drop_last() =~= Seq::<i64>::empty());
        let s7 = running(19, Seq::empty(), m, steps + 7);
        assert(spec_step(prog, s6) == s7);
        lemma_step_on(prog, s7, (fuel - 7) as nat);
        let s8 = spec_step(prog, s7);
        assert(s8.outcome == Some(VmOutcome::Halted(0)));
        assert(spec_run_from(prog, s8, (fuel - 8) as nat) == s8);
    } else {
        let s6 = running(18, seq![0i64], m, steps + 6);
        lemma_step_on(prog, s6, (fuel - 6) as nat);
        assert(seq![0i64].drop_last() =~= Seq::<i64>::empty());
        assert(spec_step(prog, s6) == running(20, Seq::empty(), m, steps + 7));
    }
}

/// From position 20 the program tests `p`: a prime `p` starts the second
/// loop with `q = p`, any other `p` returns to the head with `p + 1`.
#[verifier::rlimit(40)]
proof fn lemma_first_test(n_max: i64, m: Map<usize, i64>, steps: nat, fuel: nat)
    requires
        2 <= read_cell(m, 2) <= 0x100_0000_0000,
        fuel >= 7 + primality_run(read_cell(m, 2) as int).2,
    ensures
        ({
            let p = read_cell(m, 2) as int;
            let c = primality_run(p).2;
            spec_run_from(weak_goldbach_program(n_max), running(20, Seq::empty(), m, steps), fuel)
                == spec_run_from(
                weak_goldbach_program(n_max),
                running(
                    if is_prime(p) {
                        68
                    } else {
                        12
                    },
                    Seq::empty(),
                    first_test_memory(m, p),
                    steps + if is_prime(p) {
                        4 + c
                    } else {
                        7 + c
                    },
                ),
                (fuel - if is_prime(p) {
                    4 + c
                } else {
                    7 + c
                }) as nat,
            )
        }),
{
    let p = read_cell(m, 2);
    let prog = weak_goldbach_program(n_max);
    lemma_layout(n_max);
    let cp = seq![Instruction::Load(2), Instruction::Store(10)];
    lemma_code_at(n_max, 20, 22, cp);
    lemma_copy(m, 2, 10);
    lemma_run_straight(prog, running(20, Seq::empty(), m, steps), cp, fuel);
    let m1 = m.insert(10, p);
    assert(read_cell(m1, 10) == p);
    lemma_test_fits_small(p as int);
    lemma_primality_run_correct(p as int);
    lemma_primality_test(prog, 10, 11, 22, 66, 61, Seq::empty(), m1, steps + 2, (fuel - 2) as nat);
    let c = primality_run(p as int).2;
    let m2 = memory_after_test(m1, 11, p as int);
    assert(read_cell(m2, 2) == p);
    if !is_prime(p as int) {
        lemma_next_first(n_max, m2, steps + 2 + c, (fuel - 2 - c) as nat);
    } else {
        let cq = seq![Instruction::Load(2), Instruction::Store(3)];
        lemma_code_at(n_max, 66, 68, cq);
        lemma_copy(m2, 2, 3);
        lemma_run_straight(prog, running(66, Seq::empty(), m2, steps + 2 + c), cq, (fuel - 2 - c) as nat);
    }
}

/// The first loop for `n` from `p`: when some prime `p' >= p` completes a
/// triple, the program reaches the head of the outer loop with `n + 2`;
/// otherwise it halts with 0.
proof fn lemma_first(n_max: i64, m: Map<usize, i64>, steps: nat, fuel: nat)
    requires
        read_cell(m, 1) == n_max,
        7 <= read_cell(m, 0) <= n_max <= 0x100_0000_0000,
        2 <= read_cell(m, 2) <= read_cell(m, 0) / 3 + 1,
        fuel >= first_run(read_cell(m, 0) as int, read_cell(m, 2) as int).1 + 1,
    ensures
        ({
            let n = read_cell(m, 0) as int;
            let p = read_cell(m, 2) as int;
            let r = first_run(n, p);
            let mm = first_memory(m, n, p);
            let prog = weak_goldbach_program(n_max);
            &&& r.0 ==> read_cell(mm, 0) == n + 2
            &&& r.0 ==> read_cell(mm, 1) == n_max
            &&& r.0 ==> spec_run_from(prog, running(12, Seq::empty(), m, steps), fuel)
                == spec_run_from(prog, running(4, Seq::empty(), mm, steps + r.1), (fuel - r.1) as nat)
            &&& !r.0 ==> spec_run_from(prog, running(12, Seq::empty(), m, steps), fuel).outcome
                == Some(VmOutcome::Halted(0))
        }),
    decreases read_cell(m, 0) / 3 + 1 - read_cell(m, 2),
{
    let n = read_cell(m, 0);
    let p = read_cell(m, 2);
    lemma_first_head(n_max, m, steps, fuel);
    if p <= n / 3 {
        let c = primality_run(p as int).2;
        lemma_first_test(n_max, m, steps + 7, (fuel - 7) as nat);
        let m3 = first_test_memory(m, p as int);
        assert(read_cell(m3, 0) == n && read_cell(m3, 1) == n_max);
        if !is_prime(p as int) {
            assert(read_cell(m3, 2) == p + 1);
            lemma_first(n_max, m3, steps + 14 + c, (fuel - 14 - c) as nat);
        } else {
            assert(read_cell(m3, 2) == p && read_cell(m3, 3) == p);
            let s = second_run(n as int, p as int, p as int);
            lemma_second(n_max, m3, steps + 11 + c, (fuel - 11 - c) as nat);
            if !s.0 {
                let m4 = second_memory(m3, n as int, p as int, p as int);
                lemma_first(n_max, m4, steps + 11 + c + s.1, (fuel - 11 - c - s.1) as nat);
            }
        }
    }
}

/// The outer loop from an odd `n`: the program halts with 1 when every odd
/// number from `n` to the bound is the sum of three primes, and with 0
/// otherwise.
proof fn lemma_outer(n_max: i64, m: Map<usize, i64>, steps: nat, fuel: nat)
    requires
        read_cell(m, 1) == n_max,
        n_max <= 0x100_0000_0000,
        7 <= read_cell(m, 0),
        fuel >= outer_run(n_max as int, read_cell(m, 0) as int).1 + 1,
    ensures
        spec_run_from(weak_goldbach_program(n_max), running(4, Seq::empty(), m, steps), fuel).outcome
            == Some(
            VmOutcome::Halted(
                if outer_run(n_max as int, read_cell(m, 0) as int).0 {
                    1u8
                } else {
                    0u8
                },
            ),
        ),
    decreases (if read_cell(m, 0) <= n_max {
        n_max + 2 - read_cell(m, 0)
    } else {
        0
    }),
{
    let n = read_cell(m, 0);
    let prog = weak_goldbach_program(n_max);
    lemma_layout(n_max);
    let hdr = seq![Instruction::Load(0), Instruction::Load(1), Instruction::Swap, Instruction::Lt];
    lemma_code_at(n_max, 4, 8, hdr);
    lemma_bound_check(m);
    lemma_run_straight(prog, running(4, Seq::empty(), m, steps), hdr, fuel);
    lemma_at(n_max, 8);
    lemma_at(n_max, 9);
    if n > n_max {
        let s4 = running(8, seq![1i64], m, steps + 4);
        lemma_step_on(prog, s4, (fuel - 4) as nat);
        assert(seq![1i64].drop_last() =~= Seq::<i64>::empty());
        let s5 = running(9, Seq::empty(), m, steps + 5);
        assert(spec_step(prog, s4) == s5);
        lemma_step_on(prog, s5, (fuel - 5) as nat);
        let s6 = spec_step(prog, s5);
        assert(s6.outcome == Some(VmOutcome::Halted(1)));
        assert(spec_run_from(prog, s6, (fuel - 6) as nat) == s6);
    } else {
        let s4 = running(8, seq![0i64], m, steps + 4);
        lemma_step_on(prog, s4, (fuel - 4) as nat);
        assert(seq![0i64].drop_last() =~= Seq::<i64>::empty());
        let s5 = running(10, Seq::empty(), m, steps + 5);
        assert(spec_step(prog, s4) == s5);
        let st = seq![Instruction::Push(2), Instruction::Store(2)];
        lemma_code_at(n_max, 10, 12, st);
        lemma_set(m, 2, 2);
        lemma_run_straight(prog, s5, st, (fuel - 5) as nat);
        let m1 = m.insert(2, 2);
        assert(read_cell(m1, 0) == n && read_cell(m1, 1) == n_max && read_cell(m1, 2) == 2);
        let r = first_run(n as int, 2);
        lemma_first(n_max, m1, steps + 7, (fuel - 7) as nat);
        if r.0 {
            let m2 = first_memory(m1, n as int, 2);
            lemma_outer(n_max, m2, steps + 7 + r.1, (fuel - 7 - r.1) as nat);
        }
    }
}

/// Steps the weak Goldbach program takes until it halts: the
/// initialisation, the loops, and the halt.
pub open spec fn weak_goldbach_steps(n_max: int) -> nat {
    4 + outer_run(n_max, 7).1 + 1
}

/// The weak Goldbach program for a bound N, run for its budget, halts with
/// 1 exactly when every odd number from 7 to N is the sum of three primes,
/// and with 0 otherwise. This holds for the bounds the builder accepts,
/// when the program halts within its budget (`weak_goldbach_steps`): the
/// budget is derived from N alone, while the search's length depends on
/// where the primes lie.
pub proof fn lemma_weak_goldbach_program_decides(n_max: i64)
    requires
        ((n_max as u64) / 2) * ((n_max as u64) / 3 + 1) * ((n_max as u64) / 3 + 1) * 3 * 40 * 176 <= u64::MAX,
        weak_goldbach_steps(n_max as int) <= weak_goldbach_budget(n_max),
    ensures
        reported_outcome(spec_run(weak_goldbach_program(n_max), weak_goldbach_budget(n_max) as nat))
            == VmOutcome::Halted(if weak_goldbach_up_to(n_max as int) { 1u8 } else { 0u8 }),
{
    let prog = weak_goldbach_program(n_max);
    let budget = weak_goldbach_budget(n_max);
    lemma_layout(n_max);
    // The accepted bounds are small.
    assert(n_max <= 0x100_0000_0000) by {
        if n_max > 0x100_0000_0000 {
            let h = (n_max as u64) / 2;
            let t = (n_max as u64) / 3 + 1;
            assert(h >= 0x80_0000_0000);
            assert(t >= 0x50_0000_0000);
            assert(h * t * t * 3 * 40 * 176 > u64::MAX) by (nonlinear_arith)
                requires
                    h >= 0x80_0000_0000,
                    t >= 0x50_0000_0000,
            ;
        }
    }
    let init = seq![Instruction::Push(n_max), Instruction::Store(1), Instruction::Push(7), Instruction::Store(0)];
    lemma_code_at(n_max, 0, 4, init);
    let m0 = Map::<usize, i64>::empty().insert(1, n_max).insert(0, 7);
    lemma_set(Map::empty(), n_max, 1);
    lemma_set(Map::<usize, i64>::empty().insert(1, n_max), 7, 0);
    crate::vm::lemma_exec_straight_append(
        seq![Instruction::Push(n_max), Instruction::Store(1)],
        seq![Instruction::Push(7), Instruction::Store(0)],
        Seq::empty(),
        Map::empty(),
    );
    assert(seq![Instruction::Push(n_max), Instruction::Store(1)] + seq![Instruction::Push(7), Instruction::Store(0)] =~= init);
    lemma_run_straight(prog, initial_state(), init, budget as nat);
    assert(read_cell(m0, 0) == 7 && read_cell(m0, 1) == n_max);
    lemma_outer(n_max, m0, 4, (budget - 4) as nat);
    lemma_outer_found(n_max as int, 7);
}

} // verus!
