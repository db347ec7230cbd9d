//! What the four-square program decides.
//!
//! The program runs over n = 1, 2, ... up to its bound N; for each it tries
//! a = 0, 1, ... while a² <= n, then b = 0, 1, ... while a² + b² <= n, then
//! c = 0, 1, ... while r = n - a² - b² - c² >= 0, then d = 0, 1, ... while
//! d² <= r, and moves on to the next n at the first d with d² = r. An n
//! with no such a, b, c, d halts the program with 0; past the bound it
//! halts with 1.

use crate::goldbach::lemma_set;
use crate::open_problems::{lagrange_budget, lagrange_program, lemma_root_search, root_above};
use crate::trial_division::running;
use crate::twin_primes::{lemma_add_store, lemma_bound_check, lemma_step_on};
use crate::vm::{
    exec_straight, flag, initial_state, lemma_binary_on, lemma_exec_straight_append, lemma_load_on,
    lemma_push_on, lemma_run_straight, lemma_store_on, lemma_swap_on, lemma_then, read_cell,
    reported_outcome, spec_run, spec_run_from, spec_step, Instruction, VmOutcome,
};
use vstd::prelude::*;

verus! {

/// The square of `x`.
pub open spec fn sq(x: int) -> int {
    x * x
}

/// `n` is the sum of four squares.
pub open spec fn sum_of_four_squares(n: int) -> bool {
    exists|a: int, b: int, c: int, d: int|
        0 <= a && 0 <= b && 0 <= c && 0 <= d && #[trigger] sq(a) + #[trigger] sq(b) + #[trigger] sq(c)
            + #[trigger] sq(d) == n
}

/// Every `n` in `[1, n_max]` is the sum of four squares.
pub open spec fn four_squares_up_to(n_max: int) -> bool {
    forall|n: int| 1 <= n <= n_max ==> #[trigger] sum_of_four_squares(n)
}

/// Some `d >= d0` has `d² = r`.
pub open spec fn root_from(r: int, d0: int) -> bool {
    exists|d: int| d0 <= d && #[trigger] sq(d) == r
}

/// Some `c >= c0` leaves a square `n - a² - b² - c²`.
pub open spec fn third_from(n: int, a: int, b: int, c0: int) -> bool {
    exists|c: int| c0 <= c && root_from(n - sq(a) - sq(b) - #[trigger] sq(c), 0)
}

/// Some `b >= b0` completes `a` to four squares.
pub open spec fn second_from(n: int, a: int, b0: int) -> bool {
    exists|b: int| b0 <= b && #[trigger] third_from(n, a, b, 0)
}

/// Some `a >= a0` starts four squares summing to `n`.
pub open spec fn first_from(n: int, a0: int) -> bool {
    exists|a: int| a0 <= a && #[trigger] second_from(n, a, 0)
}

// ── Squares ─────────────────────────────────────────────────────────

pub proof fn lemma_sq_nonneg(x: int)
    ensures
        sq(x) >= 0,
{
    assert(x * x >= 0) by (nonlinear_arith);
}

pub proof fn lemma_sq_at_least(x: int)
    ensures
        x <= sq(x),
{
    assert(x <= x * x) by (nonlinear_arith);
}

proof fn lemma_sq_mono(x: int, y: int)
    requires
        0 <= x <= y,
    ensures
        sq(x) <= sq(y),
{
    assert(x * x <= y * y) by (nonlinear_arith)
        requires
            0 <= x <= y,
    ;
}

/// A number whose square is at most `2^40` is at most `2^20`.
proof fn lemma_sq_small(x: int, y: int)
    requires
        0 <= x,
        sq(x) <= y <= 0x100_0000_0000,
    ensures
        x <= 0x10_0000,
{
    if x > 0x10_0000 {
        lemma_sq_mono(0x10_0001, x);
        assert(sq(0x10_0001) > 0x100_0000_0000);
    }
}

// ── The loops, step by step ─────────────────────────────────────────

/// The innermost loop from `d`: whether some `d' >= d` has `d'² = r`, and
/// its steps from its head (position 57) to the next `n` (found) or to the
/// head of the third loop with `c + 1`.
pub open spec fn fourth_run(r: int, d: int) -> (bool, nat)
    decreases r + 1 - d,
{
    if sq(d) == r {
        (true, 12)
    } else if r < sq(d) {
        (false, 19)
    } else {
        proof {
            lemma_sq_at_least(d);
        }
        let x = fourth_run(r, d + 1);
        (x.0, 18 + x.1)
    }
}

/// The third loop from `c`, from its head (position 36) to the next `n`
/// (found) or to the head of the second loop with `b + 1`.
pub open spec fn third_run(n: int, a: int, b: int, c: int) -> (bool, nat)
    decreases n + 1 - c,
{
    let r = n - sq(a) - sq(b) - sq(c);
    if r < 0 {
        (false, 24)
    } else {
        let x = fourth_run(r, 0);
        if x.0 {
            (true, 20 + x.1)
        } else {
            proof {
                lemma_sq_at_least(c);
                lemma_sq_nonneg(a);
                lemma_sq_nonneg(b);
            }
            let y = third_run(n, a, b, c + 1);
            (y.0, 20 + x.1 + y.1)
        }
    }
}

/// The second loop from `b`, from its head (position 22) to the next `n`
/// (found) or to the head of the first loop with `a + 1`.
pub open spec fn second_run(n: int, a: int, b: int) -> (bool, nat)
    decreases n + 1 - b,
{
    if n < sq(a) + sq(b) {
        (false, 17)
    } else {
        let x = third_run(n, a, b, 0);
        if x.0 {
            (true, 13 + x.1)
        } else {
            proof {
                lemma_sq_at_least(b);
                lemma_sq_nonneg(a);
            }
            let y = second_run(n, a, b + 1);
            (y.0, 13 + x.1 + y.1)
        }
    }
}

/// The first loop from `a`, from its head (position 12) to the next `n`
/// (found) or to the `Halt(0)` instruction.
pub open spec fn first_run(n: int, a: int) -> (bool, nat)
    decreases n + 1 - a,
{
    if n < sq(a) {
        (false, 7)
    } else {
        let x = second_run(n, a, 0);
        if x.0 {
            (true, 9 + x.1)
        } else {
            proof {
                lemma_sq_at_least(a);
            }
            let y = first_run(n, a + 1);
            (y.0, 9 + x.1 + y.1)
        }
    }
}

/// The outer loop from `n`: whether every number from `n` to the bound is
/// the sum of four squares, and the steps to the halting instruction.
pub open spec fn outer_run(n_max: int, n: int) -> (bool, nat)
    decreases n_max + 1 - n,
{
    if n > n_max {
        (true, 5)
    } else {
        let r = first_run(n, 0);
        if r.0 {
            let o = outer_run(n_max, n + 1);
            (o.0, 7 + r.1 + o.1)
        } else {
            (false, 7 + r.1)
        }
    }
}

// ── What the loops find ─────────────────────────────────────────────

proof fn lemma_fourth_found(r: int, d: int)
    requires
        0 <= d,
    ensures
        fourth_run(r, d).0 == root_from(r, d),
    decreases r + 1 - d,
{
    if sq(d) == r {
        assert(d <= d && sq(d) == r);
    } else if r < sq(d) {
        if root_from(r, d) {
            let w = choose|w: int| d <= w && #[trigger] sq(w) == r;
            lemma_sq_mono(d, w);
        }
    } else {
        lemma_sq_at_least(d);
        lemma_fourth_found(r, d + 1);
        if root_from(r, d) {
            let w = choose|w: int| d <= w && #[trigger] sq(w) == r;
            assert(w != d);
            assert(d + 1 <= w && sq(w) == r);
        }
        if root_from(r, d + 1) {
            let w = choose|w: int| d + 1 <= w && #[trigger] sq(w) == r;
            assert(d <= w && sq(w) == r);
        }
    }
}

proof fn lemma_no_root_below_zero(r: int)
    requires
        r < 0,
    ensures
        !root_from(r, 0),
{
    if root_from(r, 0) {
        let w = choose|w: int| 0 <= w && #[trigger] sq(w) == r;
        lemma_sq_nonneg(w);
    }
}

proof fn lemma_third_found(n: int, a: int, b: int, c: int)
    requires
        0 <= c,
    ensures
        third_run(n, a, b, c).0 == third_from(n, a, b, c),
    decreases n + 1 - c,
{
    let r = n - sq(a) - sq(b) - sq(c);
    if r < 0 {
        if third_from(n, a, b, c) {
            let w = choose|w: int| c <= w && root_from(n - sq(a) - sq(b) - #[trigger] sq(w), 0);
            lemma_sq_mono(c, w);
            lemma_no_root_below_zero(n - sq(a) - sq(b) - sq(w));
        }
    } else {
        lemma_fourth_found(r, 0);
        if fourth_run(r, 0).0 {
            assert(c <= c && root_from(n - sq(a) - sq(b) - sq(c), 0));
        } else {
            lemma_sq_at_least(c);
            lemma_sq_nonneg(a);
            lemma_sq_nonneg(b);
            lemma_third_found(n, a, b, c + 1);
            if third_from(n, a, b, c) {
                let w = choose|w: int| c <= w && root_from(n - sq(a) - sq(b) - #[trigger] sq(w), 0);
                assert(w != c);
                assert(c + 1 <= w && root_from(n - sq(a) - sq(b) - sq(w), 0));
            }
            if third_from(n, a, b, c + 1) {
                let w = choose|w: int| c + 1 <= w && root_from(n - sq(a) - sq(b) - #[trigger] sq(w), 0);
                assert(c <= w && root_from(n - sq(a) - sq(b) - sq(w), 0));
            }
        }
    }
}

/// Past `a² + b² > n` no `c` completes the sum.
proof fn lemma_no_third(n: int, a: int, b: int)
    requires
        n < sq(a) + sq(b),
    ensures
        !third_from(n, a, b, 0),
{
    if third_from(n, a, b, 0) {
        let w = choose|w: int| 0 <= w && root_from(n - sq(a) - sq(b) - #[trigger] sq(w), 0);
        lemma_sq_nonneg(w);
        lemma_no_root_below_zero(n - sq(a) - sq(b) - sq(w));
    }
}

proof fn lemma_second_found(n: int, a: int, b: int)
    requires
        0 <= b,
    ensures
        second_run(n, a, b).0 == second_from(n, a, b),
    decreases n + 1 - b,
{
    if n < sq(a) + sq(b) {
        if second_from(n, a, b) {
            let w = choose|w: int| b <= w && #[trigger] third_from(n, a, w, 0);
            lemma_sq_mono(b, w);
            lemma_no_third(n, a, w);
        }
    } else {
        lemma_third_found(n, a, b, 0);
        if third_run(n, a, b, 0).0 {
            assert(b <= b && third_from(n, a, b, 0));
        } else {
            lemma_sq_at_least(b);
            lemma_sq_nonneg(a);
            lemma_second_found(n, a, b + 1);
            if second_from(n, a, b) {
                let w = choose|w: int| b <= w && #[trigger] third_from(n, a, w, 0);
                assert(w != b);
                assert(b + 1 <= w && third_from(n, a, w, 0));
            }
            if second_from(n, a, b + 1) {
                let w = choose|w: int| b + 1 <= w && #[trigger] third_from(n, a, w, 0);
                assert(b <= w && third_from(n, a, w, 0));
            }
        }
    }
}

/// Past `a² > n` no `b` completes the sum.
proof fn lemma_no_second(n: int, a: int)
    requires
        n < sq(a),
    ensures
        !second_from(n, a, 0),
{
    if second_from(n, a, 0) {
        let w = choose|w: int| 0 <= w && #[trigger] third_from(n, a, w, 0);
        lemma_sq_nonneg(w);
        lemma_no_third(n, a, w);
    }
}

proof fn lemma_first_found(n: int, a: int)
    requires
        0 <= a,
    ensures
        first_run(n, a).0 == first_from(n, a),
    decreases n + 1 - a,
{
    if n < sq(a) {
        if first_from(n, a) {
            let w = choose|w: int| a <= w && #[trigger] second_from(n, w, 0);
            lemma_sq_mono(a, w);
            lemma_no_second(n, w);
        }
    } else {
        lemma_second_found(n, a, 0);
        if second_run(n, a, 0).0 {
            assert(a <= a && second_from(n, a, 0));
        } else {
            lemma_sq_at_least(a);
            lemma_first_found(n, a + 1);
            if first_from(n, a) {
                let w = choose|w: int| a <= w && #[trigger] second_from(n, w, 0);
                assert(w != a);
                assert(a + 1 <= w && second_from(n, w, 0));
            }
            if first_from(n, a + 1) {
                let w = choose|w: int| a + 1 <= w && #[trigger] second_from(n, w, 0);
                assert(a <= w && second_from(n, w, 0));
            }
        }
    }
}

/// The loops from zero find exactly the sums of four squares.
proof fn lemma_first_is_sum(n: int)
    ensures
        first_from(n, 0) == sum_of_four_squares(n),
{
    if first_from(n, 0) {
        let a = choose|a: int| 0 <= a && #[trigger] second_from(n, a, 0);
        let b = choose|b: int| 0 <= b && #[trigger] third_from(n, a, b, 0);
        let c = choose|c: int| 0 <= c && root_from(n - sq(a) - sq(b) - #[trigger] sq(c), 0);
        let d = choose|d: int| 0 <= d && #[trigger] sq(d) == n - sq(a) - sq(b) - sq(c);
        assert(0 <= a && 0 <= b && 0 <= c && 0 <= d && sq(a) + sq(b) + sq(c) + sq(d) == n);
    }
    if sum_of_four_squares(n) {
        let (a, b, c, d) = choose|a: int, b: int, c: int, d: int|
            0 <= a && 0 <= b && 0 <= c && 0 <= d && #[trigger] sq(a) + #[trigger] sq(b) + #[trigger] sq(c)
                + #[trigger] sq(d) == n;
        assert(0 <= d && sq(d) == n - sq(a) - sq(b) - sq(c));
        assert(root_from(n - sq(a) - sq(b) - sq(c), 0));
        assert(third_from(n, a, b, 0));
        assert(second_from(n, a, 0));
    }
}

#[verifier::spinoff_prover]
#[verifier::rlimit(40)]
proof fn lemma_outer_found(n_max: int, n: int)
    ensures
        outer_run(n_max, n).0 == (forall|k: int| n <= k <= n_max ==> #[trigger] sum_of_four_squares(k)),
    decreases n_max + 1 - n,
{
    if n <= n_max {
        lemma_first_found(n, 0);
        lemma_first_is_sum(n);
        if first_run(n, 0).0 {
            lemma_outer_found(n_max, n + 1);
            if outer_run(n_max, n + 1).0 {
                assert forall|k: int| n <= k <= n_max implies #[trigger] sum_of_four_squares(k) by {
                    if k != n {
                        assert(n + 1 <= k);
                    }
                }
            } else {
                let k = choose|k: int| !(n + 1 <= k <= n_max ==> #[trigger] sum_of_four_squares(k));
                assert(!(n <= k <= n_max ==> sum_of_four_squares(k)));
            }
        } else {
            assert(!(n <= n <= n_max ==> sum_of_four_squares(n)));
        }
    }
}

// ── Straight-line code ──────────────────────────────────────────────

/// `code` sits at `start` in the program.
proof fn lemma_code_at(n_max: i64, start: int, code: Seq<Instruction>)
    requires
        0 <= start,
        start + code.len() <= 97,
        forall|j: int| 0 <= j < code.len() ==> lagrange_program(n_max)[start + j] == #[trigger] code[j],
    ensures
        lagrange_program(n_max).subrange(start, start + code.len()) == code,
{
    assert(lagrange_program(n_max).subrange(start, start + code.len()) =~= code);
}

/// `Load(s), Dup, Mul` pushes the square of cell `s`.
proof fn lemma_push_square(st: Seq<i64>, m: Map<usize, i64>, s: usize)
    requires
        -0x20_0000 <= read_cell(m, s) <= 0x20_0000,
    ensures
        exec_straight(seq![Instruction::Load(s), Instruction::Dup, Instruction::Mul], st, m) == Ok::<
            (Seq<i64>, Map<usize, i64>),
            crate::vm::Fault,
        >((st.push(sq(read_cell(m, s) as int) as i64), m)),
        0 <= sq(read_cell(m, s) as int) <= 0x400_0000_0000,
{
    reveal_with_fuel(exec_straight, 4);
    let x = read_cell(m, s);
    assert(0 <= x * x <= 0x400_0000_0000) by (nonlinear_arith)
        requires
            -0x20_0000 <= x <= 0x20_0000,
    ;
    let code = seq![Instruction::Load(s), Instruction::Dup, Instruction::Mul];
    assert(code.skip(1) =~= seq![Instruction::Dup, Instruction::Mul]);
    assert(code.skip(1).skip(1) =~= seq![Instruction::Mul]);
    assert(code.skip(1).skip(1).skip(1) =~= Seq::<Instruction>::empty());
    let s1 = st.push(x);
    let s2 = s1.push(s1.last());
    assert(s2[s2.len() - 2] == x);
    assert(s2.drop_last().drop_last().push((x * x) as i64) =~= st.push(sq(x as int) as i64));
}

/// The head of the first loop pushes whether `n < a²`.
proof fn lemma_first_check(m: Map<usize, i64>)
    requires
        0 <= read_cell(m, 2) <= 0x20_0000,
    ensures
        exec_straight(
            seq![
                Instruction::Load(2),
                Instruction::Dup,
                Instruction::Mul,
                Instruction::Load(0),
                Instruction::Swap,
                Instruction::Lt,
            ],
            Seq::empty(),
            m,
        ) == Ok::<(Seq<i64>, Map<usize, i64>), crate::vm::Fault>(
            (seq![flag(read_cell(m, 0) < sq(read_cell(m, 2) as int))], m),
        ),
{
    let e = Seq::<i64>::empty();
    let n = read_cell(m, 0);
    let a2 = sq(read_cell(m, 2) as int) as i64;
    let c1 = seq![Instruction::Load(2), Instruction::Dup, Instruction::Mul];
    let c2 = seq![Instruction::Load(0)];
    let c3 = seq![Instruction::Swap];
    let c4 = seq![Instruction::Lt];
    lemma_push_square(e, m, 2);
    lemma_load_on(e.push(a2), m, 0);
    lemma_then(c1, c2, e, m, e.push(a2), m);
    lemma_swap_on(e, m, a2, n);
    lemma_then(c1 + c2, c3, e, m, e.push(a2).push(n), m);
    lemma_binary_on(Instruction::Lt, e, m, n, a2);
    lemma_then(c1 + c2 + c3, c4, e, m, e.push(n).push(a2), m);
    assert(c1 + c2 + c3 + c4 =~= seq![
        Instruction::Load(2),
        Instruction::Dup,
        Instruction::Mul,
        Instruction::Load(0),
        Instruction::Swap,
        Instruction::Lt,
    ]);
    assert(e.push(flag(n < a2)) =~= seq![flag(n < a2)]);
}

/// The head of the second loop pushes whether `n < a² + b²`.
proof fn lemma_second_check(m: Map<usize, i64>)
    requires
        0 <= read_cell(m, 2) <= 0x20_0000,
        0 <= read_cell(m, 3) <= 0x20_0000,
    ensures
        exec_straight(
            seq![
                Instruction::Load(2),
                Instruction::Dup,
                Instruction::Mul,
                Instruction::Load(3),
                Instruction::Dup,
                Instruction::Mul,
                Instruction::Add,
                Instruction::Load(0),
                Instruction::Swap,
                Instruction::Lt,
            ],
            Seq::empty(),
            m,
        ) == Ok::<(Seq<i64>, Map<usize, i64>), crate::vm::Fault>(
            (seq![flag(read_cell(m, 0) < sq(read_cell(m, 2) as int) + sq(read_cell(m, 3) as int))], m),
        ),
{
    let e = Seq::<i64>::empty();
    let n = read_cell(m, 0);
    let a2 = sq(read_cell(m, 2) as int) as i64;
    let b2 = sq(read_cell(m, 3) as int) as i64;
    let t = (a2 + b2) as i64;
    let c1 = seq![Instruction::Load(2), Instruction::Dup, Instruction::Mul];
    let c2 = seq![Instruction::Load(3), Instruction::Dup, Instruction::Mul];
    let c3 = seq![Instruction::Add];
    let c4 = seq![Instruction::Load(0)];
    let c5 = seq![Instruction::Swap];
    let c6 = seq![Instruction::Lt];
    lemma_push_square(e, m, 2);
    lemma_push_square(e.push(a2), m, 3);
    lemma_then(c1, c2, e, m, e.push(a2), m);
    lemma_binary_on(Instruction::Add, e, m, a2, b2);
    lemma_then(c1 + c2, c3, e, m, e.push(a2).push(b2), m);
    lemma_load_on(e.push(t), m, 0);
    lemma_then(c1 + c2 + c3, c4, e, m, e.push(t), m);
    lemma_swap_on(e, m, t, n);
    lemma_then(c1 + c2 + c3 + c4, c5, e, m, e.push(t).push(n), m);
    lemma_binary_on(Instruction::Lt, e, m, n, t);
    lemma_then(c1 + c2 + c3 + c4 + c5, c6, e, m, e.push(n).push(t), m);
    assert(c1 + c2 + c3 + c4 + c5 + c6 =~= seq![
        Instruction::Load(2),
        Instruction::Dup,
        Instruction::Mul,
        Instruction::Load(3),
        Instruction::Dup,
        Instruction::Mul,
        Instruction::Add,
        Instruction::Load(0),
        Instruction::Swap,
        Instruction::Lt,
    ]);
    assert(e.push(flag(n < t)) =~= seq![flag(n < t)]);
}

/// The head of the third loop stores `r = n - a² - b² - c²` in cell 5 and
/// pushes whether `r < 0`.
proof fn lemma_third_check(m: Map<usize, i64>)
    requires
        0 <= read_cell(m, 0) <= 0x100_0000_0000,
        0 <= read_cell(m, 2) <= 0x20_0000,
        0 <= read_cell(m, 3) <= 0x20_0000,
        0 <= read_cell(m, 4) <= 0x20_0000,
    ensures
        ({
            let r = read_cell(m, 0) - sq(read_cell(m, 2) as int) - sq(read_cell(m, 3) as int) - sq(
                read_cell(m, 4) as int,
            );
            exec_straight(
                seq![
                    Instruction::Load(0),
                    Instruction::Load(2),
                    Instruction::Dup,
                    Instruction::Mul,
                    Instruction::Sub,
                    Instruction::Load(3),
                    Instruction::Dup,
                    Instruction::Mul,
                    Instruction::Sub,
                    Instruction::Load(4),
                    Instruction::Dup,
                    Instruction::Mul,
                    Instruction::Sub,
                    Instruction::Store(5),
                    Instruction::Load(5),
                    Instruction::Push(0),
                    Instruction::Lt,
                ],
                Seq::empty(),
                m,
            ) == Ok::<(Seq<i64>, Map<usize, i64>), crate::vm::Fault>(
                (seq![flag(r < 0)], m.insert(5, r as i64)),
            )
        }),
{
    let e = Seq::<i64>::empty();
    let n = read_cell(m, 0);
    let a2 = sq(read_cell(m, 2) as int) as i64;
    let b2 = sq(read_cell(m, 3) as int) as i64;
    let c2 = sq(read_cell(m, 4) as int) as i64;
    let t1 = (n - a2) as i64;
    let t2 = (t1 - b2) as i64;
    let r = (t2 - c2) as i64;
    let m5 = m.insert(5, r);
    let k1 = seq![Instruction::Load(0)];
    let k2 = seq![Instruction::Load(2), Instruction::Dup, Instruction::Mul];
    let k3 = seq![Instruction::Sub];
    let k4 = seq![Instruction::Load(3), Instruction::Dup, Instruction::Mul];
    let k5 = seq![Instruction::Sub];
    let k6 = seq![Instruction::Load(4), Instruction::Dup, Instruction::Mul];
    let k7 = seq![Instruction::Sub];
    let k8 = seq![Instruction::Store(5)];
    let k9 = seq![Instruction::Load(5)];
    let k10 = seq![Instruction::Push(0)];
    let k11 = seq![Instruction::Lt];
    lemma_load_on(e, m, 0);
    lemma_push_square(e.push(n), m, 2);
    lemma_then(k1, k2, e, m, e.push(n), m);
    lemma_binary_on(Instruction::Sub, e, m, n, a2);
    lemma_then(k1 + k2, k3, e, m, e.push(n).push(a2), m);
    lemma_push_square(e.push(t1), m, 3);
    lemma_then(k1 + k2 + k3, k4, e, m, e.push(t1), m);
    lemma_binary_on(Instruction::Sub, e, m, t1, b2);
    lemma_then(k1 + k2 + k3 + k4, k5, e, m, e.push(t1).push(b2), m);
    lemma_push_square(e.push(t2), m, 4);
    lemma_then(k1 + k2 + k3 + k4 + k5, k6, e, m, e.push(t2), m);
    lemma_binary_on(Instruction::Sub, e, m, t2, c2);
    lemma_then(k1 + k2 + k3 + k4 + k5 + k6, k7, e, m, e.push(t2).push(c2), m);
    lemma_store_on(e, m, 5, r);
    lemma_then(k1 + k2 + k3 + k4 + k5 + k6 + k7, k8, e, m, e.push(r), m);
    lemma_load_on(e, m5, 5);
    lemma_then(k1 + k2 + k3 + k4 + k5 + k6 + k7 + k8, k9, e, m, e, m5);
    lemma_push_on(e.push(r), m5, 0);
    lemma_then(k1 + k2 + k3 + k4 + k5 + k6 + k7 + k8 + k9, k10, e, m, e.push(r), m5);
    lemma_binary_on(Instruction::Lt, e, m5, r, 0);
    lemma_then(k1 + k2 + k3 + k4 + k5 + k6 + k7 + k8 + k9 + k10, k11, e, m, e.push(r).push(0), m5);
    assert(k1 + k2 + k3 + k4 + k5 + k6 + k7 + k8 + k9 + k10 + k11 =~= seq![
        Instruction::Load(0),
        Instruction::Load(2),
        Instruction::Dup,
        Instruction::Mul,
        Instruction::Sub,
        Instruction::Load(3),
        Instruction::Dup,
        Instruction::Mul,
        Instruction::Sub,
        Instruction::Load(4),
        Instruction::Dup,
        Instruction::Mul,
        Instruction::Sub,
        Instruction::Store(5),
        Instruction::Load(5),
        Instruction::Push(0),
        Instruction::Lt,
    ]);
    assert(e.push(flag(r < 0)) =~= seq![flag(r < 0)]);
}

/// The head of the innermost loop pushes whether `d² = r`.
proof fn lemma_fourth_hit(m: Map<usize, i64>)
    requires
        0 <= read_cell(m, 6) <= 0x20_0000,
    ensures
        exec_straight(
            seq![Instruction::Load(6), Instruction::Dup, Instruction::Mul, Instruction::Load(5), Instruction::Eq],
            Seq::empty(),
            m,
        ) == Ok::<(Seq<i64>, Map<usize, i64>), crate::vm::Fault>(
            (seq![flag(sq(read_cell(m, 6) as int) == read_cell(m, 5))], m),
        ),
{
    let e = Seq::<i64>::empty();
    let r = read_cell(m, 5);
    let d2 = sq(read_cell(m, 6) as int) as i64;
    let c1 = seq![Instruction::Load(6), Instruction::Dup, Instruction::Mul];
    let c2 = seq![Instruction::Load(5)];
    let c3 = seq![Instruction::Eq];
    lemma_push_square(e, m, 6);
    lemma_load_on(e.push(d2), m, 5);
    lemma_then(c1, c2, e, m, e.push(d2), m);
    lemma_binary_on(Instruction::Eq, e, m, d2, r);
    lemma_then(c1 + c2, c3, e, m, e.push(d2).push(r), m);
    assert(c1 + c2 + c3 =~= seq![
        Instruction::Load(6),
        Instruction::Dup,
        Instruction::Mul,
        Instruction::Load(5),
        Instruction::Eq,
    ]);
    assert(e.push(flag(d2 == r)) =~= seq![flag(d2 == r)]);
}

/// The second test of the innermost loop pushes whether `r < d²`.
proof fn lemma_fourth_over(m: Map<usize, i64>)
    requires
        0 <= read_cell(m, 6) <= 0x20_0000,
    ensures
        exec_straight(
            seq![
                Instruction::Load(6),
                Instruction::Dup,
                Instruction::Mul,
                Instruction::Load(5),
                Instruction::Swap,
                Instruction::Lt,
            ],
            Seq::empty(),
            m,
        ) == Ok::<(Seq<i64>, Map<usize, i64>), crate::vm::Fault>(
            (seq![flag(read_cell(m, 5) < sq(read_cell(m, 6) as int))], m),
        ),
{
    let e = Seq::<i64>::empty();
    let r = read_cell(m, 5);
    let d2 = sq(read_cell(m, 6) as int) as i64;
    let c1 = seq![Instruction::Load(6), Instruction::Dup, Instruction::Mul];
    let c2 = seq![Instruction::Load(5)];
    let c3 = seq![Instruction::Swap];
    let c4 = seq![Instruction::Lt];
    lemma_push_square(e, m, 6);
    lemma_load_on(e.push(d2), m, 5);
    lemma_then(c1, c2, e, m, e.push(d2), m);
    lemma_swap_on(e, m, d2, r);
    lemma_then(c1 + c2, c3, e, m, e.push(d2).push(r), m);
    lemma_binary_on(Instruction::Lt, e, m, r, d2);
    lemma_then(c1 + c2 + c3, c4, e, m, e.push(r).push(d2), m);
    assert(c1 + c2 + c3 + c4 =~= seq![
        Instruction::Load(6),
        Instruction::Dup,
        Instruction::Mul,
        Instruction::Load(5),
        Instruction::Swap,
        Instruction::Lt,
    ]);
    assert(e.push(flag(r < d2)) =~= seq![flag(r < d2)]);
}

// ── The program ─────────────────────────────────────────────────────

/// The five blocks that add one to a cell and jump back to a loop head.
pub open spec fn increment_block(start: int, slot: usize, target: nat) -> bool {
    ||| start == 72 && slot == 6 && target == 57
    ||| start == 77 && slot == 4 && target == 36
    ||| start == 82 && slot == 3 && target == 22
    ||| start == 87 && slot == 2 && target == 12
    ||| start == 92 && slot == 0 && target == 4
}

/// An increment block adds one to its cell and jumps to its loop head.
proof fn lemma_increment(n_max: i64, m: Map<usize, i64>, steps: nat, fuel: nat, start: int, slot: usize, target: nat)
    requires
        increment_block(start, slot, target),
        0 <= read_cell(m, slot) <= 0x100_0000_0000,
        fuel >= 5,
    ensures
        spec_run_from(lagrange_program(n_max), running(start as nat, Seq::empty(), m, steps), fuel)
            == spec_run_from(
            lagrange_program(n_max),
            running(target, Seq::empty(), m.insert(slot, (read_cell(m, slot) + 1) as i64), steps + 5),
            (fuel - 5) as nat,
        ),
{
    let prog = lagrange_program(n_max);
    let code = seq![Instruction::Load(slot), Instruction::Push(1), Instruction::Add, Instruction::Store(slot)];
    if start == 72 {
        lemma_code_at(n_max, 72, code);
    } else if start == 77 {
        lemma_code_at(n_max, 77, code);
    } else if start == 82 {
        lemma_code_at(n_max, 82, code);
    } else if start == 87 {
        lemma_code_at(n_max, 87, code);
    } else {
        lemma_code_at(n_max, 92, code);
    }
    lemma_add_store(m, slot, 1, slot);
    lemma_run_straight(prog, running(start as nat, Seq::empty(), m, steps), code, fuel);
    let m1 = m.insert(slot, (read_cell(m, slot) + 1) as i64);
    assert(prog[start + 4] == Instruction::Jmp(target as usize));
    let t = running((start + 4) as nat, Seq::empty(), m1, steps + 4);
    lemma_step_on(prog, t, (fuel - 4) as nat);
    assert(spec_step(prog, t) == running(target, Seq::empty(), m1, steps + 5));
}

/// The innermost loop from `d`: when some `d' >= d` has `d'² = r` the
/// program reaches the head of the outer loop with `n + 1`; otherwise the
/// head of the third loop with `c + 1`.
proof fn lemma_fourth(n_max: i64, m: Map<usize, i64>, steps: nat, fuel: nat) -> (mm: Map<usize, i64>)
    requires
        read_cell(m, 1) == n_max,
        1 <= read_cell(m, 0) <= n_max <= 0x100_0000_0000,
        0 <= read_cell(m, 4) <= 0x20_0000,
        0 <= read_cell(m, 5) <= 0x100_0000_0000,
        0 <= read_cell(m, 6),
        read_cell(m, 6) == 0 || sq(read_cell(m, 6) - 1) < read_cell(m, 5),
        fuel >= fourth_run(read_cell(m, 5) as int, read_cell(m, 6) as int).1,
    ensures
        ({
            let x = fourth_run(read_cell(m, 5) as int, read_cell(m, 6) as int);
            &&& x.0 ==> read_cell(mm, 0) == read_cell(m, 0) + 1
            &&& !x.0 ==> read_cell(mm, 0) == read_cell(m, 0) && read_cell(mm, 2) == read_cell(m, 2)
                && read_cell(mm, 3) == read_cell(m, 3) && read_cell(mm, 4) == read_cell(m, 4) + 1
            &&& read_cell(mm, 1) == n_max
            &&& spec_run_from(lagrange_program(n_max), running(57, Seq::empty(), m, steps), fuel)
                == spec_run_from(
                lagrange_program(n_max),
                running(
                    if x.0 {
                        4
                    } else {
                        36
                    },
                    Seq::empty(),
                    mm,
                    steps + x.1,
                ),
                (fuel - x.1) as nat,
            )
        }),
    decreases read_cell(m, 5) + 1 - read_cell(m, 6),
{
    let prog = lagrange_program(n_max);
    let r = read_cell(m, 5);
    let d = read_cell(m, 6);
    if d > 0 {
        lemma_sq_small(d - 1, r as int);
    }
    let hit = seq![Instruction::Load(6), Instruction::Dup, Instruction::Mul, Instruction::Load(5), Instruction::Eq];
    lemma_code_at(n_max, 57, hit);
    lemma_fourth_hit(m);
    lemma_run_straight(prog, running(57, Seq::empty(), m, steps), hit, fuel);
    let t0 = running(62, seq![flag(sq(d as int) == r)], m, steps + 5);
    lemma_step_on(prog, t0, (fuel - 5) as nat);
    assert(seq![flag(sq(d as int) == r)].drop_last() =~= Seq::<i64>::empty());
    if sq(d as int) == r {
        let t1 = running(63, Seq::empty(), m, steps + 6);
        assert(spec_step(prog, t0) == t1);
        lemma_step_on(prog, t1, (fuel - 6) as nat);
        assert(spec_step(prog, t1) == running(92, Seq::empty(), m, steps + 7));
        lemma_increment(n_max, m, steps + 7, (fuel - 7) as nat, 92, 0, 4);
        m.insert(0, (read_cell(m, 0) + 1) as i64)
    } else {
        assert(spec_step(prog, t0) == running(64, Seq::empty(), m, steps + 6));
        let over = seq![
            Instruction::Load(6),
            Instruction::Dup,
            Instruction::Mul,
            Instruction::Load(5),
            Instruction::Swap,
            Instruction::Lt,
        ];
        lemma_code_at(n_max, 64, over);
        lemma_fourth_over(m);
        lemma_run_straight(prog, running(64, Seq::empty(), m, steps + 6), over, (fuel - 6) as nat);
        let t2 = running(70, seq![flag(r < sq(d as int))], m, steps + 12);
        lemma_step_on(prog, t2, (fuel - 12) as nat);
        assert(seq![flag(r < sq(d as int))].drop_last() =~= Seq::<i64>::empty());
        if r < sq(d as int) {
            let t3 = running(71, Seq::empty(), m, steps + 13);
            assert(spec_step(prog, t2) == t3);
            lemma_step_on(prog, t3, (fuel - 13) as nat);
            assert(spec_step(prog, t3) == running(77, Seq::empty(), m, steps + 14));
            lemma_increment(n_max, m, steps + 14, (fuel - 14) as nat, 77, 4, 36);
            m.insert(4, (read_cell(m, 4) + 1) as i64)
        } else {
            assert(spec_step(prog, t2) == running(72, Seq::empty(), m, steps + 13));
            lemma_sq_at_least(d as int);
            lemma_increment(n_max, m, steps + 13, (fuel - 13) as nat, 72, 6, 57);
            let m1 = m.insert(6, (d + 1) as i64);
            assert(sq(read_cell(m1, 6) - 1) < read_cell(m1, 5));
            lemma_fourth(n_max, m1, steps + 18, (fuel - 18) as nat)
        }
    }
}

/// The third loop from `c`: when some `c' >= c` leaves a square, the
/// program reaches the head of the outer loop with `n + 1`; otherwise the
/// head of the second loop with `b + 1`.
proof fn lemma_third_loop(n_max: i64, m: Map<usize, i64>, steps: nat, fuel: nat) -> (mm: Map<usize, i64>)
    requires
        read_cell(m, 1) == n_max,
        1 <= read_cell(m, 0) <= n_max <= 0x100_0000_0000,
        0 <= read_cell(m, 2) <= 0x10_0000,
        0 <= read_cell(m, 3) <= 0x10_0000,
        sq(read_cell(m, 2) as int) + sq(read_cell(m, 3) as int) <= read_cell(m, 0),
        0 <= read_cell(m, 4),
        read_cell(m, 4) == 0 || sq(read_cell(m, 4) - 1) <= read_cell(m, 0) - sq(read_cell(m, 2) as int) - sq(
            read_cell(m, 3) as int,
        ),
        fuel >= third_run(
            read_cell(m, 0) as int,
            read_cell(m, 2) as int,
            read_cell(m, 3) as int,
            read_cell(m, 4) as int,
        ).1,
    ensures
        ({
            let x = third_run(
                read_cell(m, 0) as int,
                read_cell(m, 2) as int,
                read_cell(m, 3) as int,
                read_cell(m, 4) as int,
            );
            &&& x.0 ==> read_cell(mm, 0) == read_cell(m, 0) + 1
            &&& !x.0 ==> read_cell(mm, 0) == read_cell(m, 0) && read_cell(mm, 2) == read_cell(m, 2)
                && read_cell(mm, 3) == read_cell(m, 3) + 1
            &&& read_cell(mm, 1) == n_max
            &&& spec_run_from(lagrange_program(n_max), running(36, Seq::empty(), m, steps), fuel)
                == spec_run_from(
                lagrange_program(n_max),
                running(
                    if x.0 {
                        4
                    } else {
                        22
                    },
                    Seq::empty(),
                    mm,
                    steps + x.1,
                ),
                (fuel - x.1) as nat,
            )
        }),
    decreases read_cell(m, 0) + 1 - read_cell(m, 4),
{
    let prog = lagrange_program(n_max);
    let n = read_cell(m, 0);
    let a = read_cell(m, 2);
    let b = read_cell(m, 3);
    let c = read_cell(m, 4);
    lemma_sq_nonneg(a as int);
    lemma_sq_nonneg(b as int);
    if c > 0 {
        lemma_sq_small(c - 1, n - sq(a as int) - sq(b as int));
        lemma_sq_at_least(c - 1);
    }
    let r = n - sq(a as int) - sq(b as int) - sq(c as int);
    let head = seq![
        Instruction::Load(0),
        Instruction::Load(2),
        Instruction::Dup,
        Instruction::Mul,
        Instruction::Sub,
        Instruction::Load(3),
        Instruction::Dup,
        Instruction::Mul,
        Instruction::Sub,
        Instruction::Load(4),
        Instruction::Dup,
        Instruction::Mul,
        Instruction::Sub,
        Instruction::Store(5),
        Instruction::Load(5),
        Instruction::Push(0),
        Instruction::Lt,
    ];
    lemma_code_at(n_max, 36, head);
    lemma_third_check(m);
    lemma_run_straight(prog, running(36, Seq::empty(), m, steps), head, fuel);
    let m1 = m.insert(5, r as i64);
    let t0 = running(53, seq![flag(r < 0)], m1, steps + 17);
    lemma_step_on(prog, t0, (fuel - 17) as nat);
    assert(seq![flag(r < 0)].drop_last() =~= Seq::<i64>::empty());
    if r < 0 {
        let t1 = running(54, Seq::empty(), m1, steps + 18);
        assert(spec_step(prog, t0) == t1);
        lemma_step_on(prog, t1, (fuel - 18) as nat);
        assert(spec_step(prog, t1) == running(82, Seq::empty(), m1, steps + 19));
        lemma_increment(n_max, m1, steps + 19, (fuel - 19) as nat, 82, 3, 22);
        m1.insert(3, (b + 1) as i64)
    } else {
        assert(spec_step(prog, t0) == running(55, Seq::empty(), m1, steps + 18));
        let zero = seq![Instruction::Push(0), Instruction::Store(6)];
        lemma_code_at(n_max, 55, zero);
        lemma_set(m1, 0, 6);
        lemma_run_straight(prog, running(55, Seq::empty(), m1, steps + 18), zero, (fuel - 18) as nat);
        let m2 = m1.insert(6, 0);
        let x = fourth_run(r, 0);
        let md = lemma_fourth(n_max, m2, steps + 20, (fuel - 20) as nat);
        if x.0 {
            md
        } else {
            lemma_sq_at_least(c as int);
            lemma_third_loop(n_max, md, steps + 20 + x.1, (fuel - 20 - x.1) as nat)
        }
    }
}

/// The second loop from `b`: when some `b' >= b` completes `a`, the
/// program reaches the head of the outer loop with `n + 1`; otherwise the
/// head of the first loop with `a + 1`.
proof fn lemma_second_loop(n_max: i64, m: Map<usize, i64>, steps: nat, fuel: nat) -> (mm: Map<usize, i64>)
    requires
        read_cell(m, 1) == n_max,
        1 <= read_cell(m, 0) <= n_max <= 0x100_0000_0000,
        0 <= read_cell(m, 2) <= 0x10_0000,
        sq(read_cell(m, 2) as int) <= read_cell(m, 0),
        0 <= read_cell(m, 3),
        read_cell(m, 3) == 0 || sq(read_cell(m, 3) - 1) <= read_cell(m, 0) - sq(read_cell(m, 2) as int),
        fuel >= second_run(read_cell(m, 0) as int, read_cell(m, 2) as int, read_cell(m, 3) as int).1,
    ensures
        ({
            let x = second_run(read_cell(m, 0) as int, read_cell(m, 2) as int, read_cell(m, 3) as int);
            &&& x.0 ==> read_cell(mm, 0) == read_cell(m, 0) + 1
            &&& !x.0 ==> read_cell(mm, 0) == read_cell(m, 0) && read_cell(mm, 2) == read_cell(m, 2) + 1
            &&& read_cell(mm, 1) == n_max
            &&& spec_run_from(lagrange_program(n_max), running(22, Seq::empty(), m, steps), fuel)
                == spec_run_from(
                lagrange_program(n_max),
                running(
                    if x.0 {
                        4
                    } else {
                        12
                    },
                    Seq::empty(),
                    mm,
                    steps + x.1,
                ),
                (fuel - x.1) as nat,
            )
        }),
    decreases read_cell(m, 0) + 1 - read_cell(m, 3),
{
    let prog = lagrange_program(n_max);
    let n = read_cell(m, 0);
    let a = read_cell(m, 2);
    let b = read_cell(m, 3);
    lemma_sq_nonneg(a as int);
    if b > 0 {
        lemma_sq_small(b - 1, n - sq(a as int));
        lemma_sq_at_least(b - 1);
    }
    let head = seq![
        Instruction::Load(2),
        Instruction::Dup,
        Instruction::Mul,
        Instruction::Load(3),
        Instruction::Dup,
        Instruction::Mul,
        Instruction::Add,
        Instruction::Load(0),
        Instruction::Swap,
        Instruction::Lt,
    ];
    lemma_code_at(n_max, 22, head);
    lemma_second_check(m);
    lemma_run_straight(prog, running(22, Seq::empty(), m, steps), head, fuel);
    let over = n < sq(a as int) + sq(b as int);
    let t0 = running(32, seq![flag(over)], m, steps + 10);
    lemma_step_on(prog, t0, (fuel - 10) as nat);
    assert(seq![flag(over)].drop_last() =~= Seq::<i64>::empty());
    if over {
        let t1 = running(33, Seq::empty(), m, steps + 11);
        assert(spec_step(prog, t0) == t1);
        lemma_step_on(prog, t1, (fuel - 11) as nat);
        assert(spec_step(prog, t1) == running(87, Seq::empty(), m, steps + 12));
        lemma_increment(n_max, m, steps + 12, (fuel - 12) as nat, 87, 2, 12);
        m.insert(2, (a + 1) as i64)
    } else {
        assert(spec_step(prog, t0) == running(34, Seq::empty(), m, steps + 11));
        let zero = seq![Instruction::Push(0), Instruction::Store(4)];
        lemma_code_at(n_max, 34, zero);
        lemma_set(m, 0, 4);
        lemma_run_straight(prog, running(34, Seq::empty(), m, steps + 11), zero, (fuel - 11) as nat);
        let m1 = m.insert(4, 0);
        lemma_sq_nonneg(b as int);
        lemma_sq_small(b as int, n as int);
        let x = third_run(n as int, a as int, b as int, 0);
        let mc = lemma_third_loop(n_max, m1, steps + 13, (fuel - 13) as nat);
        if x.0 {
            mc
        } else {
            lemma_sq_at_least(b as int);
            lemma_second_loop(n_max, mc, steps + 13 + x.1, (fuel - 13 - x.1) as nat)
        }
    }
}

/// The first loop from `a`: when some `a' >= a` starts four squares
/// summing to `n`, the program reaches the head of the outer loop with
/// `n + 1`; otherwise it halts with 0.
proof fn lemma_first_loop(n_max: i64, m: Map<usize, i64>, steps: nat, fuel: nat) -> (mm: Map<usize, i64>)
    requires
        read_cell(m, 1) == n_max,
        1 <= read_cell(m, 0) <= n_max <= 0x100_0000_0000,
        0 <= read_cell(m, 2),
        read_cell(m, 2) == 0 || sq(read_cell(m, 2) - 1) <= read_cell(m, 0),
        fuel >= first_run(read_cell(m, 0) as int, read_cell(m, 2) as int).1 + 1,
    ensures
        ({
            let x = first_run(read_cell(m, 0) as int, read_cell(m, 2) as int);
            let prog = lagrange_program(n_max);
            &&& x.0 ==> read_cell(mm, 0) == read_cell(m, 0) + 1 && read_cell(mm, 1) == n_max
            &&& x.0 ==> spec_run_from(prog, running(12, Seq::empty(), m, steps), fuel)
                == spec_run_from(prog, running(4, Seq::empty(), mm, steps + x.1), (fuel - x.1) as nat)
            &&& !x.0 ==> spec_run_from(prog, running(12, Seq::empty(), m, steps), fuel).outcome
                == Some(VmOutcome::Halted(0))
        }),
    decreases read_cell(m, 0) + 1 - read_cell(m, 2),
{
    let prog = lagrange_program(n_max);
    let n = read_cell(m, 0);
    let a = read_cell(m, 2);
    if a > 0 {
        lemma_sq_small(a - 1, n as int);
        lemma_sq_at_least(a - 1);
    }
    let head = seq![
        Instruction::Load(2),
        Instruction::Dup,
        Instruction::Mul,
        Instruction::Load(0),
        Instruction::Swap,
        Instruction::Lt,
    ];
    lemma_code_at(n_max, 12, head);
    lemma_first_check(m);
    lemma_run_straight(prog, running(12, Seq::empty(), m, steps), head, fuel);
    let over = n < sq(a as int);
    let t0 = running(18, seq![flag(over)], m, steps + 6);
    lemma_step_on(prog, t0, (fuel - 6) as nat);
    assert(seq![flag(over)].drop_last() =~= Seq::<i64>::empty());
    if over {
        let t1 = running(19, Seq::empty(), m, steps + 7);
        assert(spec_step(prog, t0) == t1);
        lemma_step_on(prog, t1, (fuel - 7) as nat);
        let t2 = spec_step(prog, t1);
        assert(t2.outcome == Some(VmOutcome::Halted(0)));
        assert(spec_run_from(prog, t2, (fuel - 8) as nat) == t2);
        m
    } else {
        assert(spec_step(prog, t0) == running(20, Seq::empty(), m, steps + 7));
        let zero = seq![Instruction::Push(0), Instruction::Store(3)];
        lemma_code_at(n_max, 20, zero);
        lemma_set(m, 0, 3);
        lemma_run_straight(prog, running(20, Seq::empty(), m, steps + 7), zero, (fuel - 7) as nat);
        let m1 = m.insert(3, 0);
        lemma_sq_small(a as int, n as int);
        let x = second_run(n as int, a as int, 0);
        let mb = lemma_second_loop(n_max, m1, steps + 9, (fuel - 9) as nat);
        if x.0 {
            mb
        } else {
            lemma_sq_at_least(a as int);
            lemma_first_loop(n_max, mb, steps + 9 + x.1, (fuel - 9 - x.1) as nat)
        }
    }
}

/// The outer loop from `n >= 1`: the program halts with 1 when every
/// number from `n` to the bound is the sum of four squares, and with 0
/// otherwise.
proof fn lemma_outer(n_max: i64, m: Map<usize, i64>, steps: nat, fuel: nat)
    requires
        read_cell(m, 1) == n_max,
        n_max <= 0x100_0000_0000,
        1 <= read_cell(m, 0),
        fuel >= outer_run(n_max as int, read_cell(m, 0) as int).1 + 1,
    ensures
        spec_run_from(lagrange_program(n_max), running(4, Seq::empty(), m, steps), fuel).outcome == Some(
            VmOutcome::Halted(
                if outer_run(n_max as int, read_cell(m, 0) as int).0 {
                    1u8
                } else {
                    0u8
                },
            ),
        ),
    decreases (if read_cell(m, 0) <= n_max {
        n_max + 1 - read_cell(m, 0)
    } else {
        0
    }),
{
    let n = read_cell(m, 0);
    let prog = lagrange_program(n_max);
    let hdr = seq![Instruction::Load(0), Instruction::Load(1), Instruction::Swap, Instruction::Lt];
    lemma_code_at(n_max, 4, hdr);
    lemma_bound_check(m);
    lemma_run_straight(prog, running(4, Seq::empty(), m, steps), hdr, fuel);
    if n > n_max {
        let s4 = running(8, seq![1i64], m, steps + 4);
        lemma_step_on(prog, s4, (fuel - 4) as nat);
        assert(seq![1i64].drop_last() =~= Seq::<i64>::empty());
        let s5 = running(9, Seq::empty(), m, steps + 5);
        assert(spec_step(prog, s4) == s5);
        lemma_step_on(prog, s5, (fuel - 5) as nat);
        let s6 = spec_step(prog, s5);
        assert(s6.outcome == Some(VmOutcome::Halted(1)));
        assert(spec_run_from(prog, s6, (fuel - 6) as nat) == s6);
    } else {
        let s4 = running(8, seq![0i64], m, steps + 4);
        lemma_step_on(prog, s4, (fuel - 4) as nat);
        assert(seq![0i64].drop_last() =~= Seq::<i64>::empty());
        let s5 = running(10, Seq::empty(), m, steps + 5);
        assert(spec_step(prog, s4) == s5);
        let st = seq![Instruction::Push(0), Instruction::Store(2)];
        lemma_code_at(n_max, 10, st);
        lemma_set(m, 0, 2);
        lemma_run_straight(prog, s5, st, (fuel - 5) as nat);
        let m1 = m.insert(2, 0);
        let r = first_run(n as int, 0);
        let m2 = lemma_first_loop(n_max, m1, steps + 7, (fuel - 7) as nat);
        if r.0 {
            lemma_outer(n_max, m2, steps + 7 + r.1, (fuel - 7 - r.1) as nat);
        }
    }
}

/// Steps the four-square program takes until it halts: the
/// initialisation, the loops, and the halt.
pub open spec fn lagrange_steps(n_max: int) -> nat {
    4 + outer_run(n_max, 1).1 + 1
}

/// The four-square program for a bound N, run for its budget, halts with 1
/// exactly when every number from 1 to N is the sum of four squares, and
/// with 0 otherwise. This holds for the bounds the builder accepts, when
/// the program halts within its budget (`lagrange_steps`): the budget is
/// derived from N alone, while the search's length depends on where the
/// representations lie.
pub proof fn lemma_lagrange_program_decides(n_max: i64)
    requires
        (n_max as u64) * root_above((n_max as u64) as nat) * root_above((n_max as u64) as nat) * root_above(
            (n_max as u64) as nat,
        ) * 20 * 97 <= u64::MAX,
        lagrange_steps(n_max as int) <= lagrange_budget(n_max),
    ensures
        reported_outcome(spec_run(lagrange_program(n_max), lagrange_budget(n_max) as nat))
            == VmOutcome::Halted(if four_squares_up_to(n_max as int) { 1u8 } else { 0u8 }),
{
    let prog = lagrange_program(n_max);
    let budget = lagrange_budget(n_max);
    // The accepted bounds are small.
    assert(n_max <= 0x100_0000_0000) by {
        if n_max > 0x100_0000_0000 {
            let n = (n_max as u64) as nat;
            let r = root_above(n);
            lemma_root_search(n, 1);
            assert(n * r * r * r * 20 * 97 > u64::MAX) by (nonlinear_arith)
                requires
                    n > 0x100_0000_0000,
                    r >= 1,
                    r * r > n,
            ;
        }
    }
    let init = seq![Instruction::Push(n_max), Instruction::Store(1), Instruction::Push(1), Instruction::Store(0)];
    lemma_code_at(n_max, 0, init);
    let m0 = Map::<usize, i64>::empty().insert(1, n_max).insert(0, 1);
    lemma_set(Map::empty(), n_max, 1);
    lemma_set(Map::<usize, i64>::empty().insert(1, n_max), 1, 0);
    lemma_exec_straight_append(
        seq![Instruction::Push(n_max), Instruction::Store(1)],
        seq![Instruction::Push(1), Instruction::Store(0)],
        Seq::empty(),
        Map::empty(),
    );
    assert(seq![Instruction::Push(n_max), Instruction::Store(1)] + seq![Instruction::Push(1), Instruction::Store(0)] =~= init);
    lemma_run_straight(prog, initial_state(), init, budget as nat);
    assert(read_cell(m0, 0) == 1 && read_cell(m0, 1) == n_max);
    lemma_outer(n_max, m0, 4, (budget - 4) as nat);
    lemma_outer_found(n_max as int, 1);
}

} // verus!
