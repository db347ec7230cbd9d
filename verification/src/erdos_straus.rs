//! What the Erdős–Straus program decides.
//!
//! The program runs over n = 2, 3, ... up to its bound N; for each it
//! tries x = 1, 2, ... up to n with A = 4x - n >= 1 and B = nx, then y
//! from ⌈B/A⌉ to ⌊2B/A⌋, and moves on to the next n at the first y with
//! Ay - B >= 1 dividing By (then z = By / (Ay - B) completes
//! 4/n = 1/x + 1/y + 1/z). An n without such x, y halts the program with
//! 0; past the bound it halts with 1.

use vstd::arithmetic::div_mod::{
    lemma_div_is_ordered, lemma_div_multiples_vanish, lemma_div_pos_is_pos, lemma_fundamental_div_mod,
    lemma_mod_multiples_basic,
};
use crate::goldbach::lemma_set;
use crate::open_problems::{erdos_straus_budget, erdos_straus_program};
use crate::trial_division::running;
use crate::twin_primes::{lemma_add_store, lemma_bound_check, lemma_step_on};
use crate::vm::{
    exec_straight, flag, initial_state, lemma_binary_on, lemma_load_on, lemma_push_on, lemma_run_straight,
    lemma_store_on, lemma_swap_on, lemma_then, read_cell, reported_outcome, spec_run, spec_run_from, spec_step,
    Instruction, VmOutcome,
};
use vstd::prelude::*;

verus! {

/// `4/n = 1/x + 1/y + 1/z` with positive `x, y, z`, cleared of
/// denominators.
pub open spec fn es_solution(n: int, x: int, y: int, z: int) -> bool {
    &&& 1 <= x
    &&& 1 <= y
    &&& 1 <= z
    &&& 4 * x * y * z == n * (x * y + y * z + z * x)
}

/// `4/n` is the sum of three unit fractions.
pub open spec fn erdos_straus(n: int) -> bool {
    exists|x: int, y: int, z: int| #[trigger] es_solution(n, x, y, z)
}

/// Every `n` in `[2, n_max]` has an Erdős–Straus decomposition.
pub open spec fn erdos_straus_up_to(n_max: int) -> bool {
    forall|n: int| 2 <= n <= n_max ==> #[trigger] erdos_straus(n)
}

// ── The search ──────────────────────────────────────────────────────

/// `A = 4x - n`.
pub open spec fn es_a(n: int, x: int) -> int {
    4 * x - n
}

/// `B = nx`.
pub open spec fn es_b(n: int, x: int) -> int {
    n * x
}

/// The first `y` tried: `⌈B / A⌉`.
pub open spec fn es_lo(n: int, x: int) -> int {
    (es_b(n, x) + es_a(n, x) - 1) / es_a(n, x)
}

/// The last `y` tried: `⌊2B / A⌋`.
pub open spec fn es_hi(n: int, x: int) -> int {
    (2 * es_b(n, x)) / es_a(n, x)
}

/// `y` completes `x`: `Ay - B >= 1` divides `By`.
pub open spec fn y_hit(n: int, x: int, y: int) -> bool {
    let a = es_a(n, x);
    let b = es_b(n, x);
    a * y - b >= 1 && (b * y) % (a * y - b) == 0
}

/// Some `y` in `[y0, ⌊2B/A⌋]` completes `x`.
pub open spec fn y_from(n: int, x: int, y0: int) -> bool {
    exists|y: int| y0 <= y <= es_hi(n, x) && #[trigger] y_hit(n, x, y)
}

/// Some `x` in `[x0, n]` with `A >= 1` is completed by a `y`.
pub open spec fn x_from(n: int, x0: int) -> bool {
    exists|x: int| x0 <= x <= n && es_a(n, x) >= 1 && #[trigger] y_from(n, x, es_lo(n, x))
}

// ── The equation ────────────────────────────────────────────────────

/// `4xyz = n(xy + yz + zx)` exactly when `nxy = ((4x - n)y - nx)z`.
proof fn lemma_identity(n: int, x: int, y: int, z: int)
    ensures
        (4 * x * y * z == n * (x * y + y * z + z * x)) == ((n * x) * y == ((4 * x - n) * y - n * x) * z),
{
    let w = (4 * x - n) * y - n * x;
    assert((4 * x - n) * y == 4 * (x * y) - n * y) by (nonlinear_arith);
    assert(w * z == (4 * (x * y)) * z - (n * y) * z - (n * x) * z) by (nonlinear_arith)
        requires
            w == 4 * (x * y) - n * y - n * x,
    ;
    assert((4 * (x * y)) * z == 4 * (x * y * z)) by (nonlinear_arith);
    assert((n * y) * z == n * (y * z)) by (nonlinear_arith);
    assert((n * x) * z == n * (x * z)) by (nonlinear_arith);
    assert((n * x) * y == n * (x * y)) by (nonlinear_arith);
    assert(4 * x * y * z == 4 * (x * y * z)) by (nonlinear_arith);
    assert(n * (x * y + y * z + z * x) == n * (x * y) + n * (y * z) + n * (x * z)) by (nonlinear_arith);
}

/// A hit gives a solution with `z = By / (Ay - B)`.
proof fn lemma_hit_solves(n: int, x: int, y: int)
    requires
        1 <= n,
        1 <= x,
        1 <= y,
        es_a(n, x) >= 1,
        y_hit(n, x, y),
    ensures
        es_solution(n, x, y, (es_b(n, x) * y) / (es_a(n, x) * y - es_b(n, x))),
{
    let a = es_a(n, x);
    let b = es_b(n, x);
    let d = a * y - b;
    let z = (b * y) / d;
    lemma_fundamental_div_mod(b * y, d);
    assert(b * y == d * z);
    assert(b * y >= 1) by (nonlinear_arith)
        requires
            b == n * x,
            1 <= n,
            1 <= x,
            1 <= y,
    ;
    assert(z >= 1) by (nonlinear_arith)
        requires
            b * y == d * z,
            b * y >= 1,
            d >= 1,
    ;
    lemma_identity(n, x, y, z);
}

/// The key identity: a solution has `(Ay - B) z = By`.
proof fn lemma_solution_identity(n: int, x: int, y: int, z: int)
    requires
        es_solution(n, x, y, z),
    ensures
        (es_a(n, x) * y - es_b(n, x)) * z == es_b(n, x) * y,
{
    lemma_identity(n, x, y, z);
}

/// A solution with `x <= y <= z` lies in the search: `1 <= x <= n`,
/// `A >= 1`, `⌈B/A⌉ <= y <= ⌊2B/A⌋`, and `y` completes `x`.
proof fn lemma_sorted_solution_searched(n: int, x: int, y: int, z: int)
    requires
        2 <= n,
        x <= y <= z,
        es_solution(n, x, y, z),
    ensures
        1 <= x <= n,
        es_a(n, x) >= 1,
        es_lo(n, x) <= y <= es_hi(n, x),
        y_hit(n, x, y),
{
    let a = es_a(n, x);
    let b = es_b(n, x);
    // 4x > n.
    assert(4 * x > n) by (nonlinear_arith)
        requires
            4 * x * y * z == n * (x * y + y * z + z * x),
            1 <= x,
            1 <= y,
            1 <= z,
            2 <= n,
    ;
    // 4x <= 3n.
    assert(4 * x <= 3 * n) by (nonlinear_arith)
        requires
            4 * x * y * z == n * (x * y + y * z + z * x),
            1 <= x <= y <= z,
            2 <= n,
    ;
    lemma_solution_identity(n, x, y, z);
    let d = a * y - b;
    assert(d * z == b * y);
    assert(b * y >= 1) by (nonlinear_arith)
        requires
            b == n * x,
            2 <= n,
            1 <= x,
            1 <= y,
    ;
    assert(d >= 1) by (nonlinear_arith)
        requires
            d * z == b * y,
            b * y >= 1,
            1 <= z,
    ;
    assert((b * y) % d == 0) by {
        lemma_mod_multiples_basic(z, d);
        assert(z * d == b * y) by (nonlinear_arith)
            requires
                d * z == b * y,
        ;
    }
    // ⌈B/A⌉ <= y, since B < Ay.
    let p = b + a - 1;
    lemma_fundamental_div_mod(p, a);
    assert(p / a <= y) by (nonlinear_arith)
        requires
            p == a * (p / a) + p % a,
            0 <= p % a,
            p == b + a - 1,
            a * y - b >= 1,
            a >= 1,
    ;
    // y <= ⌊2B/A⌋, since Ay <= 2B when y <= z.
    assert(a * y <= 2 * b) by (nonlinear_arith)
        requires
            d * z == b * y,
            d == a * y - b,
            1 <= y <= z,
            d >= 1,
    ;
    lemma_div_is_ordered(a * y, 2 * b, a);
    lemma_div_multiples_vanish(y, a);
}

/// Swapping two of `x, y, z` keeps a solution.
proof fn lemma_solution_swaps(n: int, x: int, y: int, z: int)
    requires
        es_solution(n, x, y, z),
    ensures
        es_solution(n, y, x, z),
        es_solution(n, x, z, y),
{
    assert(4 * y * x * z == 4 * x * y * z) by (nonlinear_arith);
    assert(n * (y * x + x * z + z * y) == n * (x * y + y * z + z * x)) by (nonlinear_arith);
    assert(4 * x * z * y == 4 * x * y * z) by (nonlinear_arith);
    assert(n * (x * z + z * y + y * x) == n * (x * y + y * z + z * x)) by (nonlinear_arith);
}

/// The equation is symmetric: a solution sorted is a solution.
proof fn lemma_sorted_exists(n: int, x: int, y: int, z: int)
    requires
        2 <= n,
        es_solution(n, x, y, z),
    ensures
        exists|u: int, v: int, w: int| u <= v <= w && #[trigger] es_solution(n, u, v, w),
{
    lemma_solution_swaps(n, x, y, z);
    lemma_solution_swaps(n, y, x, z);
    lemma_solution_swaps(n, x, z, y);
    lemma_solution_swaps(n, y, z, x);
    lemma_solution_swaps(n, z, x, y);
    if x <= y && y <= z {
        assert(es_solution(n, x, y, z));
    } else if x <= z && z <= y {
        assert(es_solution(n, x, z, y));
    } else if y <= x && x <= z {
        assert(es_solution(n, y, x, z));
    } else if y <= z && z <= x {
        assert(es_solution(n, y, z, x));
    } else if z <= x && x <= y {
        assert(es_solution(n, z, x, y));
    } else {
        assert(es_solution(n, z, y, x));
    }
}

/// The search from `x = 1` finds exactly the decompositions.
proof fn lemma_search_is_decomposition(n: int)
    requires
        2 <= n,
    ensures
        x_from(n, 1) == erdos_straus(n),
{
    if x_from(n, 1) {
        let x = choose|x: int| 1 <= x <= n && es_a(n, x) >= 1 && #[trigger] y_from(n, x, es_lo(n, x));
        let y = choose|y: int| es_lo(n, x) <= y <= es_hi(n, x) && #[trigger] y_hit(n, x, y);
        // y >= ⌈B/A⌉ >= 1.
        let a = es_a(n, x);
        let b = es_b(n, x);
        lemma_div_pos_is_pos(b + a - 1, a);
        assert(y >= 1) by {
            if y < 1 {
                assert(a * y <= 0) by (nonlinear_arith)
                    requires
                        a >= 1,
                        y < 1,
                ;
                assert(b >= 1) by (nonlinear_arith)
                    requires
                        b == n * x,
                        2 <= n,
                        1 <= x,
                ;
            }
        }
        lemma_hit_solves(n, x, y);
        let z = (b * y) / (a * y - b);
        assert(es_solution(n, x, y, z));
    }
    if erdos_straus(n) {
        let (x, y, z) = choose|x: int, y: int, z: int| #[trigger] es_solution(n, x, y, z);
        lemma_sorted_exists(n, x, y, z);
        let (u, v, w) = choose|u: int, v: int, w: int| u <= v <= w && #[trigger] es_solution(n, u, v, w);
        lemma_sorted_solution_searched(n, u, v, w);
        assert(y_from(n, u, es_lo(n, u)));
        assert(1 <= u <= n && es_a(n, u) >= 1 && y_from(n, u, es_lo(n, u)));
    }
}

// ── The loops, step by step ─────────────────────────────────────────

/// The `y` loop from `y` (position 47): whether some `y' >= y` completes
/// `x`, and its steps to the head of the outer loop with `n + 1` (found)
/// or to the head of the `x` loop with `x + 1`.
pub open spec fn y_run(n: int, x: int, y: int) -> (bool, nat)
    decreases es_hi(n, x) + 1 - y,
{
    if y > es_hi(n, x) {
        (false, 11)
    } else if y_hit(n, x, y) {
        (true, 31)
    } else {
        let r = y_run(n, x, y + 1);
        (r.0, (if es_a(n, x) * y - es_b(n, x) < 1 {
            21nat
        } else {
            30nat
        }) + r.1)
    }
}

/// The `x` loop from `x` (position 12): whether some `x' >= x` is
/// completed, and its steps to the head of the outer loop with `n + 1`
/// (found) or to the `Halt(0)` instruction.
pub open spec fn x_run(n: int, x: int) -> (bool, nat)
    decreases n + 1 - x,
{
    if x > n {
        (false, 5)
    } else if es_a(n, x) < 1 {
        let r = x_run(n, x + 1);
        (r.0, 21 + r.1)
    } else {
        let q = y_run(n, x, es_lo(n, x));
        if q.0 {
            (true, 33 + q.1)
        } else {
            let r = x_run(n, x + 1);
            (r.0, 33 + q.1 + r.1)
        }
    }
}

/// The outer loop from `n` (position 4): whether every number from `n` to
/// the bound has a decomposition, and its steps to the halting
/// instruction.
pub open spec fn outer_run(n_max: int, n: int) -> (bool, nat)
    decreases n_max + 1 - n,
{
    if n > n_max {
        (true, 5)
    } else {
        let r = x_run(n, 1);
        if r.0 {
            let o = outer_run(n_max, n + 1);
            (o.0, 7 + r.1 + o.1)
        } else {
            (false, 7 + r.1)
        }
    }
}

/// Every product `By` the `y` loop from `y` computes fits in 64 bits.
pub open spec fn y_fits(n: int, x: int, y: int) -> bool
    decreases es_hi(n, x) + 1 - y,
{
    y > es_hi(n, x) || ((es_a(n, x) * y - es_b(n, x) >= 1 ==> es_b(n, x) * y <= i64::MAX) && (!y_hit(n, x, y)
        ==> y_fits(n, x, y + 1)))
}

/// Every product `By` the `x` loop from `x` computes fits in 64 bits.
pub open spec fn x_fits(n: int, x: int) -> bool
    decreases n + 1 - x,
{
    x > n || if es_a(n, x) < 1 {
        x_fits(n, x + 1)
    } else {
        y_fits(n, x, es_lo(n, x)) && (!y_run(n, x, es_lo(n, x)).0 ==> x_fits(n, x + 1))
    }
}

/// Every product `By` the outer loop from `n` computes fits in 64 bits.
pub open spec fn outer_fits(n_max: int, n: int) -> bool
    decreases n_max + 1 - n,
{
    n > n_max || (x_fits(n, 1) && (x_run(n, 1).0 ==> outer_fits(n_max, n + 1)))
}

proof fn lemma_y_found(n: int, x: int, y: int)
    ensures
        y_run(n, x, y).0 == y_from(n, x, y),
    decreases es_hi(n, x) + 1 - y,
{
    if y > es_hi(n, x) {
    } else if y_hit(n, x, y) {
        assert(y <= y <= es_hi(n, x) && y_hit(n, x, y));
    } else {
        lemma_y_found(n, x, y + 1);
        if y_from(n, x, y) {
            let w = choose|w: int| y <= w <= es_hi(n, x) && #[trigger] y_hit(n, x, w);
            assert(w != y);
            assert(y + 1 <= w <= es_hi(n, x) && y_hit(n, x, w));
        }
        if y_from(n, x, y + 1) {
            let w = choose|w: int| y + 1 <= w <= es_hi(n, x) && #[trigger] y_hit(n, x, w);
            assert(y <= w <= es_hi(n, x) && y_hit(n, x, w));
        }
    }
}

proof fn lemma_x_found(n: int, x: int)
    ensures
        x_run(n, x).0 == x_from(n, x),
    decreases n + 1 - x,
{
    if x <= n {
        lemma_x_found(n, x + 1);
        lemma_y_found(n, x, es_lo(n, x));
        if es_a(n, x) >= 1 && y_run(n, x, es_lo(n, x)).0 {
            assert(x <= x <= n && es_a(n, x) >= 1 && y_from(n, x, es_lo(n, x)));
        } else {
            if x_from(n, x) {
                let w = choose|w: int| x <= w <= n && es_a(n, w) >= 1 && #[trigger] y_from(n, w, es_lo(n, w));
                assert(w != x);
                assert(x + 1 <= w <= n && es_a(n, w) >= 1 && y_from(n, w, es_lo(n, w)));
            }
            if x_from(n, x + 1) {
                let w = choose|w: int| x + 1 <= w <= n && es_a(n, w) >= 1 && #[trigger] y_from(n, w, es_lo(n, w));
                assert(x <= w <= n && es_a(n, w) >= 1 && y_from(n, w, es_lo(n, w)));
            }
        }
    }
}

#[verifier::spinoff_prover]
#[verifier::rlimit(40)]
proof fn lemma_outer_found(n_max: int, n: int)
    requires
        2 <= n,
    ensures
        outer_run(n_max, n).0 == (forall|k: int| n <= k <= n_max ==> #[trigger] erdos_straus(k)),
    decreases n_max + 1 - n,
{
    if n <= n_max {
        lemma_x_found(n, 1);
        lemma_search_is_decomposition(n);
        if x_run(n, 1).0 {
            lemma_outer_found(n_max, n + 1);
            if outer_run(n_max, n + 1).0 {
                assert forall|k: int| n <= k <= n_max implies #[trigger] erdos_straus(k) by {
                    if k != n {
                        assert(n + 1 <= k);
                    }
                }
            } else {
                let k = choose|k: int| !(n + 1 <= k <= n_max ==> #[trigger] erdos_straus(k));
                assert(!(n <= k <= n_max ==> erdos_straus(k)));
            }
        } else {
            assert(!(n <= n <= n_max ==> erdos_straus(n)));
        }
    }
}


// ── Straight-line code ──────────────────────────────────────────────

/// `code` sits at `start` in the program.
proof fn lemma_code_at(n_max: i64, start: int, code: Seq<Instruction>)
    requires
        0 <= start,
        start + code.len() <= 90,
        forall|j: int| 0 <= j < code.len() ==> erdos_straus_program(n_max)[start + j] == #[trigger] code[j],
    ensures
        erdos_straus_program(n_max).subrange(start, start + code.len()) == code,
{
    assert(erdos_straus_program(n_max).subrange(start, start + code.len()) =~= code);
}

/// `Load(i), Load(j), Swap, Lt` pushes whether cell `j` is below cell `i`.
proof fn lemma_past(m: Map<usize, i64>, i: usize, j: usize)
    ensures
        exec_straight(
            seq![Instruction::Load(i), Instruction::Load(j), Instruction::Swap, Instruction::Lt],
            Seq::empty(),
            m,
        ) == Ok::<(Seq<i64>, Map<usize, i64>), crate::vm::Fault>((seq![flag(read_cell(m, j) < read_cell(m, i))], m)),
{
    let e = Seq::<i64>::empty();
    let x = read_cell(m, i);
    let y = read_cell(m, j);
    let k1 = seq![Instruction::Load(i)];
    let k2 = seq![Instruction::Load(j)];
    let k3 = seq![Instruction::Swap];
    let k4 = seq![Instruction::Lt];
    lemma_load_on(e, m, i);
    lemma_load_on(e.push(x), m, j);
    lemma_then(k1, k2, e, m, e.push(x), m);
    lemma_swap_on(e, m, x, y);
    lemma_then(k1 + k2, k3, e, m, e.push(x).push(y), m);
    lemma_binary_on(Instruction::Lt, e, m, y, x);
    lemma_then(k1 + k2 + k3, k4, e, m, e.push(y).push(x), m);
    assert(k1 + k2 + k3 + k4 =~= seq![Instruction::Load(i), Instruction::Load(j), Instruction::Swap, Instruction::Lt]);
    assert(e.push(flag(y < x)) =~= seq![flag(y < x)]);
}

/// `Load(s), Push(c), Lt` pushes whether cell `s` is below `c`.
proof fn lemma_cell_below(m: Map<usize, i64>, s: usize, c: i64)
    ensures
        exec_straight(
            seq![Instruction::Load(s), Instruction::Push(c), Instruction::Lt],
            Seq::empty(),
            m,
        ) == Ok::<(Seq<i64>, Map<usize, i64>), crate::vm::Fault>((seq![flag(read_cell(m, s) < c)], m)),
{
    let e = Seq::<i64>::empty();
    let x = read_cell(m, s);
    let k1 = seq![Instruction::Load(s)];
    let k2 = seq![Instruction::Push(c)];
    let k3 = seq![Instruction::Lt];
    lemma_load_on(e, m, s);
    lemma_push_on(e.push(x), m, c);
    lemma_then(k1, k2, e, m, e.push(x), m);
    lemma_binary_on(Instruction::Lt, e, m, x, c);
    lemma_then(k1 + k2, k3, e, m, e.push(x).push(c), m);
    assert(k1 + k2 + k3 =~= seq![Instruction::Load(s), Instruction::Push(c), Instruction::Lt]);
    assert(e.push(flag(x < c)) =~= seq![flag(x < c)]);
}

/// The code from position 18 stores `A = 4x - n` in cell 3.
proof fn lemma_store_a(m: Map<usize, i64>)
    requires
        0 <= read_cell(m, 0) <= 0x1000_0000,
        0 <= read_cell(m, 2) <= 0x1000_0001,
    ensures
        exec_straight(
            seq![Instruction::Load(2), Instruction::Push(4), Instruction::Mul, Instruction::Load(0), Instruction::Sub, Instruction::Store(3)],
            Seq::empty(),
            m,
        ) == Ok::<(Seq<i64>, Map<usize, i64>), crate::vm::Fault>((Seq::empty(), m.insert(3, (4 * read_cell(m, 2) - read_cell(m, 0)) as i64))),
{
    let e = Seq::<i64>::empty();
    let n = read_cell(m, 0);
    let x = read_cell(m, 2);
    let x4 = (x * 4) as i64;
    let a = (x * 4 - n) as i64;
    let k1 = seq![Instruction::Load(2)];
    let k2 = seq![Instruction::Push(4)];
    let k3 = seq![Instruction::Mul];
    let k4 = seq![Instruction::Load(0)];
    let k5 = seq![Instruction::Sub];
    let k6 = seq![Instruction::Store(3)];
    lemma_load_on(e, m, 2);
    lemma_push_on(e.push(x), m, 4);
    lemma_then(k1, k2, e, m, e.push(x), m);
    lemma_binary_on(Instruction::Mul, e, m, x, 4);
    lemma_then(k1 + k2, k3, e, m, e.push(x).push(4), m);
    lemma_load_on(e.push(x4), m, 0);
    lemma_then(k1 + k2 + k3, k4, e, m, e.push(x4), m);
    lemma_binary_on(Instruction::Sub, e, m, x4, n);
    lemma_then(k1 + k2 + k3 + k4, k5, e, m, e.push(x4).push(n), m);
    lemma_store_on(e, m, 3, a);
    lemma_then(k1 + k2 + k3 + k4 + k5, k6, e, m, e.push(a), m);
    assert(k1 + k2 + k3 + k4 + k5 + k6 =~= seq![Instruction::Load(2), Instruction::Push(4), Instruction::Mul, Instruction::Load(0), Instruction::Sub, Instruction::Store(3)]);

}

/// `Load(0), Load(2), Mul, Store(4)` stores `B = nx` in cell 4.
proof fn lemma_store_b(m: Map<usize, i64>)
    requires
        0 <= read_cell(m, 0) * read_cell(m, 2) <= 0x100_0000_0000_0000,
    ensures
        exec_straight(
            seq![Instruction::Load(0), Instruction::Load(2), Instruction::Mul, Instruction::Store(4)],
            Seq::empty(),
            m,
        ) == Ok::<(Seq<i64>, Map<usize, i64>), crate::vm::Fault>((Seq::empty(), m.insert(4, (read_cell(m, 0) * read_cell(m, 2)) as i64))),
{
    let e = Seq::<i64>::empty();
    let n = read_cell(m, 0);
    let x = read_cell(m, 2);
    let b = (n * x) as i64;
    let k1 = seq![Instruction::Load(0)];
    let k2 = seq![Instruction::Load(2)];
    let k3 = seq![Instruction::Mul];
    let k4 = seq![Instruction::Store(4)];
    lemma_load_on(e, m, 0);
    lemma_load_on(e.push(n), m, 2);
    lemma_then(k1, k2, e, m, e.push(n), m);
    lemma_binary_on(Instruction::Mul, e, m, n, x);
    lemma_then(k1 + k2, k3, e, m, e.push(n).push(x), m);
    lemma_store_on(e, m, 4, b);
    lemma_then(k1 + k2 + k3, k4, e, m, e.push(b), m);
    assert(k1 + k2 + k3 + k4 =~= seq![Instruction::Load(0), Instruction::Load(2), Instruction::Mul, Instruction::Store(4)]);

}

/// The code from position 33 stores `⌈B / A⌉` in cell 5.
proof fn lemma_store_lo(m: Map<usize, i64>)
    requires
        0 <= read_cell(m, 4) <= 0x100_0000_0000_0000,
        1 <= read_cell(m, 3) <= 0x1_0000_0000,
    ensures
        exec_straight(
            seq![Instruction::Load(4), Instruction::Load(3), Instruction::Add, Instruction::Push(1), Instruction::Sub, Instruction::Load(3), Instruction::Div, Instruction::Store(5)],
            Seq::empty(),
            m,
        ) == Ok::<(Seq<i64>, Map<usize, i64>), crate::vm::Fault>((Seq::empty(), m.insert(5, ((read_cell(m, 4) + read_cell(m, 3) - 1) / (read_cell(m, 3) as int)) as i64))),
{
    let e = Seq::<i64>::empty();
    let b = read_cell(m, 4);
    let a = read_cell(m, 3);
    let s1 = (b + a) as i64;
    let s2 = (b + a - 1) as i64;
    lemma_div_pos_is_pos(s2 as int, a as int);
    assert((s2 as int) / (a as int) <= s2) by (nonlinear_arith)
        requires
            0 <= s2,
            1 <= a,
    ;
    let q = ((s2 as int) / (a as int)) as i64;
    let k1 = seq![Instruction::Load(4)];
    let k2 = seq![Instruction::Load(3)];
    let k3 = seq![Instruction::Add];
    let k4 = seq![Instruction::Push(1)];
    let k5 = seq![Instruction::Sub];
    let k6 = seq![Instruction::Load(3)];
    let k7 = seq![Instruction::Div];
    let k8 = seq![Instruction::Store(5)];
    lemma_load_on(e, m, 4);
    lemma_load_on(e.push(b), m, 3);
    lemma_then(k1, k2, e, m, e.push(b), m);
    lemma_binary_on(Instruction::Add, e, m, b, a);
    lemma_then(k1 + k2, k3, e, m, e.push(b).push(a), m);
    lemma_push_on(e.push(s1), m, 1);
    lemma_then(k1 + k2 + k3, k4, e, m, e.push(s1), m);
    lemma_binary_on(Instruction::Sub, e, m, s1, 1);
    lemma_then(k1 + k2 + k3 + k4, k5, e, m, e.push(s1).push(1), m);
    lemma_load_on(e.push(s2), m, 3);
    lemma_then(k1 + k2 + k3 + k4 + k5, k6, e, m, e.push(s2), m);
    lemma_binary_on(Instruction::Div, e, m, s2, a);
    lemma_then(k1 + k2 + k3 + k4 + k5 + k6, k7, e, m, e.push(s2).push(a), m);
    lemma_store_on(e, m, 5, q);
    lemma_then(k1 + k2 + k3 + k4 + k5 + k6 + k7, k8, e, m, e.push(q), m);
    assert(k1 + k2 + k3 + k4 + k5 + k6 + k7 + k8 =~= seq![Instruction::Load(4), Instruction::Load(3), Instruction::Add, Instruction::Push(1), Instruction::Sub, Instruction::Load(3), Instruction::Div, Instruction::Store(5)]);

}

/// The code from position 41 stores `⌊2B / A⌋` in cell 6.
proof fn lemma_store_hi(m: Map<usize, i64>)
    requires
        0 <= read_cell(m, 4) <= 0x100_0000_0000_0000,
        1 <= read_cell(m, 3) <= 0x1_0000_0000,
    ensures
        exec_straight(
            seq![Instruction::Load(4), Instruction::Push(2), Instruction::Mul, Instruction::Load(3), Instruction::Div, Instruction::Store(6)],
            Seq::empty(),
            m,
        ) == Ok::<(Seq<i64>, Map<usize, i64>), crate::vm::Fault>((Seq::empty(), m.insert(6, ((2 * read_cell(m, 4)) / (read_cell(m, 3) as int)) as i64))),
{
    let e = Seq::<i64>::empty();
    let b = read_cell(m, 4);
    let a = read_cell(m, 3);
    let b2 = (b * 2) as i64;
    lemma_div_pos_is_pos(b2 as int, a as int);
    assert((b2 as int) / (a as int) <= b2) by (nonlinear_arith)
        requires
            0 <= b2,
            1 <= a,
    ;
    let q = ((b2 as int) / (a as int)) as i64;
    assert(2 * b == b * 2);
    let k1 = seq![Instruction::Load(4)];
    let k2 = seq![Instruction::Push(2)];
    let k3 = seq![Instruction::Mul];
    let k4 = seq![Instruction::Load(3)];
    let k5 = seq![Instruction::Div];
    let k6 = seq![Instruction::Store(6)];
    lemma_load_on(e, m, 4);
    lemma_push_on(e.push(b), m, 2);
    lemma_then(k1, k2, e, m, e.push(b), m);
    lemma_binary_on(Instruction::Mul, e, m, b, 2);
    lemma_then(k1 + k2, k3, e, m, e.push(b).push(2), m);
    lemma_load_on(e.push(b2), m, 3);
    lemma_then(k1 + k2 + k3, k4, e, m, e.push(b2), m);
    lemma_binary_on(Instruction::Div, e, m, b2, a);
    lemma_then(k1 + k2 + k3 + k4, k5, e, m, e.push(b2).push(a), m);
    lemma_store_on(e, m, 6, q);
    lemma_then(k1 + k2 + k3 + k4 + k5, k6, e, m, e.push(q), m);
    assert(k1 + k2 + k3 + k4 + k5 + k6 =~= seq![Instruction::Load(4), Instruction::Push(2), Instruction::Mul, Instruction::Load(3), Instruction::Div, Instruction::Store(6)]);

}

/// The code from position 53 stores `Ay - B` in cell 7.
proof fn lemma_store_gap(m: Map<usize, i64>)
    requires
        0 <= read_cell(m, 3) * read_cell(m, 5) <= 0x200_0000_0000_0000,
        0 <= read_cell(m, 4) <= 0x100_0000_0000_0000,
    ensures
        exec_straight(
            seq![Instruction::Load(3), Instruction::Load(5), Instruction::Mul, Instruction::Load(4), Instruction::Sub, Instruction::Store(7)],
            Seq::empty(),
            m,
        ) == Ok::<(Seq<i64>, Map<usize, i64>), crate::vm::Fault>((Seq::empty(), m.insert(7, (read_cell(m, 3) * read_cell(m, 5) - read_cell(m, 4)) as i64))),
{
    let e = Seq::<i64>::empty();
    let a = read_cell(m, 3);
    let y = read_cell(m, 5);
    let b = read_cell(m, 4);
    let p = (a * y) as i64;
    let g = (a * y - b) as i64;
    let k1 = seq![Instruction::Load(3)];
    let k2 = seq![Instruction::Load(5)];
    let k3 = seq![Instruction::Mul];
    let k4 = seq![Instruction::Load(4)];
    let k5 = seq![Instruction::Sub];
    let k6 = seq![Instruction::Store(7)];
    lemma_load_on(e, m, 3);
    lemma_load_on(e.push(a), m, 5);
    lemma_then(k1, k2, e, m, e.push(a), m);
    lemma_binary_on(Instruction::Mul, e, m, a, y);
    lemma_then(k1 + k2, k3, e, m, e.push(a).push(y), m);
    lemma_load_on(e.push(p), m, 4);
    lemma_then(k1 + k2 + k3, k4, e, m, e.push(p), m);
    lemma_binary_on(Instruction::Sub, e, m, p, b);
    lemma_then(k1 + k2 + k3 + k4, k5, e, m, e.push(p).push(b), m);
    lemma_store_on(e, m, 7, g);
    lemma_then(k1 + k2 + k3 + k4 + k5, k6, e, m, e.push(g), m);
    assert(k1 + k2 + k3 + k4 + k5 + k6 =~= seq![Instruction::Load(3), Instruction::Load(5), Instruction::Mul, Instruction::Load(4), Instruction::Sub, Instruction::Store(7)]);

}

/// `Load(4), Load(5), Mul, Store(8)` stores `By` in cell 8.
proof fn lemma_store_numerator(m: Map<usize, i64>)
    requires
        0 <= read_cell(m, 4) * read_cell(m, 5) <= i64::MAX,
    ensures
        exec_straight(
            seq![Instruction::Load(4), Instruction::Load(5), Instruction::Mul, Instruction::Store(8)],
            Seq::empty(),
            m,
        ) == Ok::<(Seq<i64>, Map<usize, i64>), crate::vm::Fault>((Seq::empty(), m.insert(8, (read_cell(m, 4) * read_cell(m, 5)) as i64))),
{
    let e = Seq::<i64>::empty();
    let b = read_cell(m, 4);
    let y = read_cell(m, 5);
    let p = (b * y) as i64;
    let k1 = seq![Instruction::Load(4)];
    let k2 = seq![Instruction::Load(5)];
    let k3 = seq![Instruction::Mul];
    let k4 = seq![Instruction::Store(8)];
    lemma_load_on(e, m, 4);
    lemma_load_on(e.push(b), m, 5);
    lemma_then(k1, k2, e, m, e.push(b), m);
    lemma_binary_on(Instruction::Mul, e, m, b, y);
    lemma_then(k1 + k2, k3, e, m, e.push(b).push(y), m);
    lemma_store_on(e, m, 8, p);
    lemma_then(k1 + k2 + k3, k4, e, m, e.push(p), m);
    assert(k1 + k2 + k3 + k4 =~= seq![Instruction::Load(4), Instruction::Load(5), Instruction::Mul, Instruction::Store(8)]);

}

/// `Load(8), Load(7), Mod, Push(0), Eq` pushes whether cell 7 divides
/// cell 8.
proof fn lemma_divides_check(m: Map<usize, i64>)
    requires
        0 <= read_cell(m, 8),
        0 < read_cell(m, 7),
    ensures
        exec_straight(
            seq![Instruction::Load(8), Instruction::Load(7), Instruction::Mod, Instruction::Push(0), Instruction::Eq],
            Seq::empty(),
            m,
        ) == Ok::<(Seq<i64>, Map<usize, i64>), crate::vm::Fault>((seq![flag(read_cell(m, 8) % read_cell(m, 7) == 0)], m)),
{
    let e = Seq::<i64>::empty();
    let x = read_cell(m, 8);
    let y = read_cell(m, 7);
    let w = (x % y) as i64;
    if x == 0 {
        assert(0int % (y as int) == 0);
    }
    let k1 = seq![Instruction::Load(8)];
    let k2 = seq![Instruction::Load(7)];
    let k3 = seq![Instruction::Mod];
    let k4 = seq![Instruction::Push(0)];
    let k5 = seq![Instruction::Eq];
    lemma_load_on(e, m, 8);
    lemma_load_on(e.push(x), m, 7);
    lemma_then(k1, k2, e, m, e.push(x), m);
    lemma_binary_on(Instruction::Mod, e, m, x, y);
    lemma_then(k1 + k2, k3, e, m, e.push(x).push(y), m);
    lemma_push_on(e.push(w), m, 0);
    lemma_then(k1 + k2 + k3, k4, e, m, e.push(w), m);
    lemma_binary_on(Instruction::Eq, e, m, w, 0);
    lemma_then(k1 + k2 + k3 + k4, k5, e, m, e.push(w).push(0), m);
    assert(k1 + k2 + k3 + k4 + k5 =~= seq![Instruction::Load(8), Instruction::Load(7), Instruction::Mod, Instruction::Push(0), Instruction::Eq]);
    assert(e.push(flag(w == 0)) =~= seq![flag(w == 0)]);
}

// ── The program ─────────────────────────────────────────────────────

/// `A * y <= 2B` for `y <= ⌊2B/A⌋`, and `⌈B/A⌉ >= 1`.
proof fn lemma_y_range(n: int, x: int, y: int)
    requires
        2 <= n,
        1 <= x,
        es_a(n, x) >= 1,
        y <= es_hi(n, x),
        0 <= y,
    ensures
        0 <= es_a(n, x) * y <= 2 * es_b(n, x),
        es_lo(n, x) >= 1,
{
    let a = es_a(n, x);
    let b = es_b(n, x);
    assert(b >= 2) by (nonlinear_arith)
        requires
            b == n * x,
            2 <= n,
            1 <= x,
    ;
    lemma_fundamental_div_mod(2 * b, a);
    let h = es_hi(n, x);
    assert(a * y <= a * h) by (nonlinear_arith)
        requires
            0 <= y <= h,
            a >= 1,
    ;
    assert(0 <= a * y) by (nonlinear_arith)
        requires
            0 <= y,
            a >= 1,
    ;
    lemma_div_is_ordered(a, b + a - 1, a);
    lemma_div_multiples_vanish(1, a);
}

/// The `y` loop from `y`: when some `y' >= y` completes `x`, the program
/// reaches the head of the outer loop with `n + 1`; otherwise the head of
/// the `x` loop with `x + 1`.
#[verifier::spinoff_prover]
#[verifier::rlimit(80)]
proof fn lemma_y_loop(n_max: i64, m: Map<usize, i64>, steps: nat, fuel: nat) -> (mm: Map<usize, i64>)
    requires
        read_cell(m, 1) == n_max,
        2 <= read_cell(m, 0) <= n_max <= 0x1000_0000,
        1 <= read_cell(m, 2) <= read_cell(m, 0),
        read_cell(m, 3) == es_a(read_cell(m, 0) as int, read_cell(m, 2) as int),
        read_cell(m, 3) >= 1,
        read_cell(m, 4) == es_b(read_cell(m, 0) as int, read_cell(m, 2) as int),
        read_cell(m, 6) == es_hi(read_cell(m, 0) as int, read_cell(m, 2) as int),
        1 <= read_cell(m, 5) <= es_hi(read_cell(m, 0) as int, read_cell(m, 2) as int) + 1,
        y_fits(read_cell(m, 0) as int, read_cell(m, 2) as int, read_cell(m, 5) as int),
        fuel >= y_run(read_cell(m, 0) as int, read_cell(m, 2) as int, read_cell(m, 5) as int).1,
    ensures
        ({
            let r = y_run(read_cell(m, 0) as int, read_cell(m, 2) as int, read_cell(m, 5) as int);
            &&& r.0 ==> read_cell(mm, 0) == read_cell(m, 0) + 1
            &&& !r.0 ==> read_cell(mm, 0) == read_cell(m, 0) && read_cell(mm, 2) == read_cell(m, 2) + 1
            &&& read_cell(mm, 1) == n_max
            &&& spec_run_from(erdos_straus_program(n_max), running(47, Seq::empty(), m, steps), fuel)
                == spec_run_from(
                erdos_straus_program(n_max),
                running(
                    if r.0 {
                        4
                    } else {
                        12
                    },
                    Seq::empty(),
                    mm,
                    steps + r.1,
                ),
                (fuel - r.1) as nat,
            )
        }),
    decreases es_hi(read_cell(m, 0) as int, read_cell(m, 2) as int) + 1 - read_cell(m, 5),
{
    let prog = erdos_straus_program(n_max);
    let n = read_cell(m, 0);
    let x = read_cell(m, 2);
    let y = read_cell(m, 5);
    let a = read_cell(m, 3);
    let b = read_cell(m, 4);
    let h = read_cell(m, 6);
    assert(n * x <= 0x100_0000_0000_0000) by (nonlinear_arith)
        requires
            1 <= x <= n <= 0x1000_0000,
    ;
    let hd = seq![Instruction::Load(5), Instruction::Load(6), Instruction::Swap, Instruction::Lt];
    lemma_code_at(n_max, 47, hd);
    lemma_past(m, 5, 6);
    lemma_run_straight(prog, running(47, Seq::empty(), m, steps), hd, fuel);
    let t0 = running(51, seq![flag(h < y)], m, steps + 4);
    lemma_step_on(prog, t0, (fuel - 4) as nat);
    assert(seq![flag(h < y)].drop_last() =~= Seq::<i64>::empty());
    if y > h {
        let t1 = running(52, Seq::empty(), m, steps + 5);
        assert(spec_step(prog, t0) == t1);
        lemma_step_on(prog, t1, (fuel - 5) as nat);
        assert(spec_step(prog, t1) == running(80, Seq::empty(), m, steps + 6));
        let nx = seq![Instruction::Load(2), Instruction::Push(1), Instruction::Add, Instruction::Store(2)];
        lemma_code_at(n_max, 80, nx);
        lemma_add_store(m, 2, 1, 2);
        lemma_run_straight(prog, running(80, Seq::empty(), m, steps + 6), nx, (fuel - 6) as nat);
        let m1 = m.insert(2, (x + 1) as i64);
        let t2 = running(84, Seq::empty(), m1, steps + 10);
        lemma_step_on(prog, t2, (fuel - 10) as nat);
        assert(spec_step(prog, t2) == running(12, Seq::empty(), m1, steps + 11));
        m1
    } else {
        assert(spec_step(prog, t0) == running(53, Seq::empty(), m, steps + 5));
        lemma_y_range(n as int, x as int, y as int);
        let gp = seq![
            Instruction::Load(3),
            Instruction::Load(5),
            Instruction::Mul,
            Instruction::Load(4),
            Instruction::Sub,
            Instruction::Store(7),
        ];
        lemma_code_at(n_max, 53, gp);
        lemma_store_gap(m);
        lemma_run_straight(prog, running(53, Seq::empty(), m, steps + 5), gp, (fuel - 5) as nat);
        let g = (a * y - b) as i64;
        let m1 = m.insert(7, g);
        let lt = seq![Instruction::Load(7), Instruction::Push(1), Instruction::Lt];
        lemma_code_at(n_max, 59, lt);
        lemma_cell_below(m1, 7, 1);
        lemma_run_straight(prog, running(59, Seq::empty(), m1, steps + 11), lt, (fuel - 11) as nat);
        let t1 = running(62, seq![flag(g < 1)], m1, steps + 14);
        lemma_step_on(prog, t1, (fuel - 14) as nat);
        assert(seq![flag(g < 1)].drop_last() =~= Seq::<i64>::empty());
        let ny = seq![Instruction::Load(5), Instruction::Push(1), Instruction::Add, Instruction::Store(5)];
        lemma_code_at(n_max, 75, ny);
        if g < 1 {
            let t2 = running(63, Seq::empty(), m1, steps + 15);
            assert(spec_step(prog, t1) == t2);
            lemma_step_on(prog, t2, (fuel - 15) as nat);
            assert(spec_step(prog, t2) == running(75, Seq::empty(), m1, steps + 16));
            lemma_add_store(m1, 5, 1, 5);
            lemma_run_straight(prog, running(75, Seq::empty(), m1, steps + 16), ny, (fuel - 16) as nat);
            let m2 = m1.insert(5, (y + 1) as i64);
            let t3 = running(79, Seq::empty(), m2, steps + 20);
            lemma_step_on(prog, t3, (fuel - 20) as nat);
            assert(spec_step(prog, t3) == running(47, Seq::empty(), m2, steps + 21));
            lemma_y_loop(n_max, m2, steps + 21, (fuel - 21) as nat)
        } else {
            assert(spec_step(prog, t1) == running(64, Seq::empty(), m1, steps + 15));
            let nm = seq![Instruction::Load(4), Instruction::Load(5), Instruction::Mul, Instruction::Store(8)];
            lemma_code_at(n_max, 64, nm);
            assert(0 <= b * y) by (nonlinear_arith)
                requires
                    0 <= b,
                    1 <= y,
            ;
            lemma_store_numerator(m1);
            lemma_run_straight(prog, running(64, Seq::empty(), m1, steps + 15), nm, (fuel - 15) as nat);
            let z = (b * y) as i64;
            let m2 = m1.insert(8, z);
            let dc = seq![Instruction::Load(8), Instruction::Load(7), Instruction::Mod, Instruction::Push(0), Instruction::Eq];
            lemma_code_at(n_max, 68, dc);
            lemma_divides_check(m2);
            lemma_run_straight(prog, running(68, Seq::empty(), m2, steps + 19), dc, (fuel - 19) as nat);
            let hit = (z as int) % (g as int) == 0;
            let t2 = running(73, seq![flag(hit)], m2, steps + 24);
            lemma_step_on(prog, t2, (fuel - 24) as nat);
            assert(seq![flag(hit)].drop_last() =~= Seq::<i64>::empty());
            if hit {
                let t3 = running(74, Seq::empty(), m2, steps + 25);
                assert(spec_step(prog, t2) == t3);
                lemma_step_on(prog, t3, (fuel - 25) as nat);
                assert(spec_step(prog, t3) == running(85, Seq::empty(), m2, steps + 26));
                let nn = seq![Instruction::Load(0), Instruction::Push(1), Instruction::Add, Instruction::Store(0)];
                lemma_code_at(n_max, 85, nn);
                lemma_add_store(m2, 0, 1, 0);
                lemma_run_straight(prog, running(85, Seq::empty(), m2, steps + 26), nn, (fuel - 26) as nat);
                let m3 = m2.insert(0, (n + 1) as i64);
                let t4 = running(89, Seq::empty(), m3, steps + 30);
                lemma_step_on(prog, t4, (fuel - 30) as nat);
                assert(spec_step(prog, t4) == running(4, Seq::empty(), m3, steps + 31));
                m3
            } else {
                assert(spec_step(prog, t2) == running(75, Seq::empty(), m2, steps + 25));
                lemma_add_store(m2, 5, 1, 5);
                lemma_run_straight(prog, running(75, Seq::empty(), m2, steps + 25), ny, (fuel - 25) as nat);
                let m3 = m2.insert(5, (y + 1) as i64);
                let t3 = running(79, Seq::empty(), m3, steps + 29);
                lemma_step_on(prog, t3, (fuel - 29) as nat);
                assert(spec_step(prog, t3) == running(47, Seq::empty(), m3, steps + 30));
                lemma_y_loop(n_max, m3, steps + 30, (fuel - 30) as nat)
            }
        }
    }
}

/// The `x` loop from `x`: when some `x' >= x` is completed, the program
/// reaches the head of the outer loop with `n + 1`; otherwise it halts
/// with 0.
#[verifier::spinoff_prover]
#[verifier::rlimit(80)]
proof fn lemma_x_loop(n_max: i64, m: Map<usize, i64>, steps: nat, fuel: nat) -> (mm: Map<usize, i64>)
    requires
        read_cell(m, 1) == n_max,
        2 <= read_cell(m, 0) <= n_max <= 0x1000_0000,
        1 <= read_cell(m, 2) <= read_cell(m, 0) + 1,
        x_fits(read_cell(m, 0) as int, read_cell(m, 2) as int),
        fuel >= x_run(read_cell(m, 0) as int, read_cell(m, 2) as int).1 + 1,
    ensures
        ({
            let r = x_run(read_cell(m, 0) as int, read_cell(m, 2) as int);
            let prog = erdos_straus_program(n_max);
            &&& r.0 ==> read_cell(mm, 0) == read_cell(m, 0) + 1 && read_cell(mm, 1) == n_max
            &&& r.0 ==> spec_run_from(prog, running(12, Seq::empty(), m, steps), fuel)
                == spec_run_from(prog, running(4, Seq::empty(), mm, steps + r.1), (fuel - r.1) as nat)
            &&& !r.0 ==> spec_run_from(prog, running(12, Seq::empty(), m, steps), fuel).outcome
                == Some(VmOutcome::Halted(0))
        }),
    decreases read_cell(m, 0) + 1 - read_cell(m, 2),
{
    let prog = erdos_straus_program(n_max);
    let n = read_cell(m, 0);
    let x = read_cell(m, 2);
    let hd = seq![Instruction::Load(2), Instruction::Load(0), Instruction::Swap, Instruction::Lt];
    lemma_code_at(n_max, 12, hd);
    lemma_past(m, 2, 0);
    lemma_run_straight(prog, running(12, Seq::empty(), m, steps), hd, fuel);
    let t0 = running(16, seq![flag(n < x)], m, steps + 4);
    lemma_step_on(prog, t0, (fuel - 4) as nat);
    assert(seq![flag(n < x)].drop_last() =~= Seq::<i64>::empty());
    if x > n {
        let t1 = running(17, Seq::empty(), m, steps + 5);
        assert(spec_step(prog, t0) == t1);
        lemma_step_on(prog, t1, (fuel - 5) as nat);
        let t2 = spec_step(prog, t1);
        assert(t2.outcome == Some(VmOutcome::Halted(0)));
        assert(spec_run_from(prog, t2, (fuel - 6) as nat) == t2);
        m
    } else {
        assert(spec_step(prog, t0) == running(18, Seq::empty(), m, steps + 5));
        let sa = seq![
            Instruction::Load(2),
            Instruction::Push(4),
            Instruction::Mul,
            Instruction::Load(0),
            Instruction::Sub,
            Instruction::Store(3),
        ];
        lemma_code_at(n_max, 18, sa);
        lemma_store_a(m);
        lemma_run_straight(prog, running(18, Seq::empty(), m, steps + 5), sa, (fuel - 5) as nat);
        let a = (4 * x - n) as i64;
        let m1 = m.insert(3, a);
        let lt = seq![Instruction::Load(3), Instruction::Push(1), Instruction::Lt];
        lemma_code_at(n_max, 24, lt);
        lemma_cell_below(m1, 3, 1);
        lemma_run_straight(prog, running(24, Seq::empty(), m1, steps + 11), lt, (fuel - 11) as nat);
        let t1 = running(27, seq![flag(a < 1)], m1, steps + 14);
        lemma_step_on(prog, t1, (fuel - 14) as nat);
        assert(seq![flag(a < 1)].drop_last() =~= Seq::<i64>::empty());
        if a < 1 {
            let t2 = running(28, Seq::empty(), m1, steps + 15);
            assert(spec_step(prog, t1) == t2);
            lemma_step_on(prog, t2, (fuel - 15) as nat);
            assert(spec_step(prog, t2) == running(80, Seq::empty(), m1, steps + 16));
            let nx = seq![Instruction::Load(2), Instruction::Push(1), Instruction::Add, Instruction::Store(2)];
            lemma_code_at(n_max, 80, nx);
            lemma_add_store(m1, 2, 1, 2);
            lemma_run_straight(prog, running(80, Seq::empty(), m1, steps + 16), nx, (fuel - 16) as nat);
            let m2 = m1.insert(2, (x + 1) as i64);
            let t3 = running(84, Seq::empty(), m2, steps + 20);
            lemma_step_on(prog, t3, (fuel - 20) as nat);
            assert(spec_step(prog, t3) == running(12, Seq::empty(), m2, steps + 21));
            lemma_x_loop(n_max, m2, steps + 21, (fuel - 21) as nat)
        } else {
            assert(spec_step(prog, t1) == running(29, Seq::empty(), m1, steps + 15));
            assert(0 <= n * x <= 0x100_0000_0000_0000) by (nonlinear_arith)
                requires
                    1 <= x <= n <= 0x1000_0000,
            ;
            let sb = seq![Instruction::Load(0), Instruction::Load(2), Instruction::Mul, Instruction::Store(4)];
            lemma_code_at(n_max, 29, sb);
            lemma_store_b(m1);
            lemma_run_straight(prog, running(29, Seq::empty(), m1, steps + 15), sb, (fuel - 15) as nat);
            let b = (n * x) as i64;
            let m2 = m1.insert(4, b);
            let sl = seq![
                Instruction::Load(4),
                Instruction::Load(3),
                Instruction::Add,
                Instruction::Push(1),
                Instruction::Sub,
                Instruction::Load(3),
                Instruction::Div,
                Instruction::Store(5),
            ];
            lemma_code_at(n_max, 33, sl);
            lemma_store_lo(m2);
            lemma_run_straight(prog, running(33, Seq::empty(), m2, steps + 19), sl, (fuel - 19) as nat);
            let lo = es_lo(n as int, x as int) as i64;
            let m3 = m2.insert(5, lo);
            let sh = seq![
                Instruction::Load(4),
                Instruction::Push(2),
                Instruction::Mul,
                Instruction::Load(3),
                Instruction::Div,
                Instruction::Store(6),
            ];
            lemma_code_at(n_max, 41, sh);
            lemma_store_hi(m3);
            lemma_run_straight(prog, running(41, Seq::empty(), m3, steps + 27), sh, (fuel - 27) as nat);
            let hi = es_hi(n as int, x as int) as i64;
            let m4 = m3.insert(6, hi);
            lemma_y_range(n as int, x as int, 0);
            lemma_div_pos_is_pos(2 * (n * x), a as int);
            lemma_fundamental_div_mod(2 * (n * x), a as int);
            lemma_fundamental_div_mod(n * x + a - 1, a as int);
            assert(lo <= hi + 1) by (nonlinear_arith)
                requires
                    a >= 1,
                    n * x + a - 1 == a * lo + (n * x + a - 1) % (a as int),
                    2 * (n * x) == a * hi + (2 * (n * x)) % (a as int),
                    0 <= (n * x + a - 1) % (a as int) < a,
                    0 <= (2 * (n * x)) % (a as int) < a,
                    n * x >= 0,
            ;
            assert(read_cell(m4, 0) == n && read_cell(m4, 1) == n_max && read_cell(m4, 2) == x && read_cell(m4, 3)
                == a && read_cell(m4, 4) == b && read_cell(m4, 5) == lo && read_cell(m4, 6) == hi);
            let q = y_run(n as int, x as int, lo as int);
            let my = lemma_y_loop(n_max, m4, steps + 33, (fuel - 33) as nat);
            if q.0 {
                my
            } else {
                lemma_x_loop(n_max, my, steps + 33 + q.1, (fuel - 33 - q.1) as nat)
            }
        }
    }
}

/// The outer loop from `n >= 2`: the program halts with 1 when every
/// number from `n` to the bound has a decomposition, and with 0 otherwise.
proof fn lemma_outer(n_max: i64, m: Map<usize, i64>, steps: nat, fuel: nat)
    requires
        read_cell(m, 1) == n_max,
        n_max <= 0x1000_0000,
        2 <= read_cell(m, 0),
        outer_fits(n_max as int, read_cell(m, 0) as int),
        fuel >= outer_run(n_max as int, read_cell(m, 0) as int).1 + 1,
    ensures
        spec_run_from(erdos_straus_program(n_max), running(4, Seq::empty(), m, steps), fuel).outcome == Some(
            VmOutcome::Halted(
                if outer_run(n_max as int, read_cell(m, 0) as int).0 {
                    1u8
                } else {
                    0u8
                },
            ),
        ),
    decreases (if read_cell(m, 0) <= n_max {
        n_max + 1 - read_cell(m, 0)
    } else {
        0
    }),
{
    let n = read_cell(m, 0);
    let prog = erdos_straus_program(n_max);
    let hdr = seq![Instruction::Load(0), Instruction::Load(1), Instruction::Swap, Instruction::Lt];
    lemma_code_at(n_max, 4, hdr);
    lemma_bound_check(m);
    lemma_run_straight(prog, running(4, Seq::empty(), m, steps), hdr, fuel);
    if n > n_max {
        let s4 = running(8, seq![1i64], m, steps + 4);
        lemma_step_on(prog, s4, (fuel - 4) as nat);
        assert(seq![1i64].drop_last() =~= Seq::<i64>::empty());
        let s5 = running(9, Seq::empty(), m, steps + 5);
        assert(spec_step(prog, s4) == s5);
        lemma_step_on(prog, s5, (fuel - 5) as nat);
        let s6 = spec_step(prog, s5);
        assert(s6.outcome == Some(VmOutcome::Halted(1)));
        assert(spec_run_from(prog, s6, (fuel - 6) as nat) == s6);
    } else {
        let s4 = running(8, seq![0i64], m, steps + 4);
        lemma_step_on(prog, s4, (fuel - 4) as nat);
        assert(seq![0i64].drop_last() =~= Seq::<i64>::empty());
        let s5 = running(10, Seq::empty(), m, steps + 5);
        assert(spec_step(prog, s4) == s5);
        let st = seq![Instruction::Push(1), Instruction::Store(2)];
        lemma_code_at(n_max, 10, st);
        lemma_set(m, 1, 2);
        lemma_run_straight(prog, s5, st, (fuel - 5) as nat);
        let m1 = m.insert(2, 1);
        let r = x_run(n as int, 1);
        let m2 = lemma_x_loop(n_max, m1, steps + 7, (fuel - 7) as nat);
        if r.0 {
            lemma_outer(n_max, m2, steps + 7 + r.1, (fuel - 7 - r.1) as nat);
        }
    }
}

/// Steps the Erdős–Straus program takes until it halts: the
/// initialisation, the loops, and the halt.
pub open spec fn erdos_straus_steps(n_max: int) -> nat {
    4 + outer_run(n_max, 2).1 + 1
}

/// The Erdős–Straus program for a bound N, run for its budget, halts with
/// 1 exactly when every `n` from 2 to N has `4/n = 1/x + 1/y + 1/z` with
/// positive `x, y, z`, and with 0 otherwise. This holds for the bounds the
/// builder accepts, when every product `By` the search computes fits in 64
/// bits (`outer_fits`, else the machine faults), and when the program
/// halts within its budget (`erdos_straus_steps`).
pub proof fn lemma_erdos_straus_program_decides(n_max: i64)
    requires
        (n_max as u64) * (n_max as u64) * 10 * 90 + 1_000_000 <= u64::MAX,
        outer_fits(n_max as int, 2),
        erdos_straus_steps(n_max as int) <= erdos_straus_budget(n_max),
    ensures
        reported_outcome(spec_run(erdos_straus_program(n_max), erdos_straus_budget(n_max) as nat))
            == VmOutcome::Halted(if erdos_straus_up_to(n_max as int) { 1u8 } else { 0u8 }),
{
    let prog = erdos_straus_program(n_max);
    let budget = erdos_straus_budget(n_max);
    assert(n_max <= 0x1000_0000) by {
        if n_max > 0x1000_0000 {
            let q = n_max as u64;
            assert(q * q * 10 * 90 + 1_000_000 > u64::MAX) by (nonlinear_arith)
                requires
                    q > 0x1000_0000,
            ;
        }
    }
    let e = Seq::<i64>::empty();
    let m1 = Map::<usize, i64>::empty().insert(1, n_max);
    let m0 = m1.insert(0, 2);
    let i1 = seq![Instruction::Push(n_max), Instruction::Store(1)];
    let i2 = seq![Instruction::Push(2), Instruction::Store(0)];
    lemma_set(Map::empty(), n_max, 1);
    lemma_set(m1, 2, 0);
    lemma_then(i1, i2, e, Map::empty(), e, m1);
    let init = seq![Instruction::Push(n_max), Instruction::Store(1), Instruction::Push(2), Instruction::Store(0)];
    assert(i1 + i2 =~= init);
    lemma_code_at(n_max, 0, init);
    lemma_run_straight(prog, initial_state(), init, budget as nat);
    assert(read_cell(m0, 0) == 2 && read_cell(m0, 1) == n_max);
    lemma_outer(n_max, m0, 4, (budget - 4) as nat);
    lemma_outer_found(n_max as int, 2);
}

} // verus!
