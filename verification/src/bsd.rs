//! What the elliptic-curve point-count program decides.
//!
//! For the curve y² = x³ + ax + b chosen by its id, the program counts the
//! pairs (x, y) in [0, p)² with y² ≡ x³ + ax + b (mod p), adds the point
//! at infinity, and halts with 1 when the count N satisfies the Hasse
//! bound (N - p - 1)² <= 4p, with 0 otherwise.

use crate::open_problems::{bsd_ec_count_budget, bsd_ec_count_program, curve_coefficients};
use crate::trial_division::running;
use crate::twin_primes::{lemma_add_store, lemma_step_on};
use crate::vm::{
    exec_straight, flag, initial_state, lemma_binary_on, lemma_dup_on, lemma_load_on, lemma_push_on,
    lemma_run_straight, lemma_store_on, lemma_then, read_cell, reported_outcome, spec_run, spec_run_from,
    spec_step, Instruction, VmOutcome,
};
use vstd::prelude::*;

verus! {

/// The right-hand side `x³ + ax + b` reduced mod `p`.
pub open spec fn curve_rhs(p: int, a: int, b: int, x: int) -> int {
    (x * x * x + a * x + b) % p
}

/// The number of `y` in `[y0, p)` with `y² ≡ r (mod p)`.
pub open spec fn roots_from(p: int, r: int, y0: int) -> nat
    decreases p - y0,
{
    if y0 >= p {
        0
    } else {
        (if (y0 * y0) % p == r {
            1nat
        } else {
            0nat
        }) + roots_from(p, r, y0 + 1)
    }
}

/// The number of affine points `(x, y)` with `x` in `[x0, p)`.
pub open spec fn affine_points_from(p: int, a: int, b: int, x0: int) -> nat
    decreases p - x0,
{
    if x0 >= p {
        0
    } else {
        roots_from(p, curve_rhs(p, a, b, x0), 0) + affine_points_from(p, a, b, x0 + 1)
    }
}

/// The number of points of `y² = x³ + ax + b` over `Z/p`, the point at
/// infinity included.
pub open spec fn curve_points(p: int, a: int, b: int) -> nat {
    1 + affine_points_from(p, a, b, 0)
}

/// `count` satisfies the Hasse bound `|count - (p + 1)| <= 2√p`.
pub open spec fn within_hasse_bound(p: int, count: int) -> bool {
    (count - p - 1) * (count - p - 1) <= 4 * p
}

// ── Steps ───────────────────────────────────────────────────────────

/// Steps of the inner loop from `y` (position 36) to the head of the outer
/// loop with `x + 1`.
pub open spec fn inner_steps(p: int, r: int, y: int) -> nat
    decreases p - y,
{
    if y >= p {
        9
    } else {
        (if (y * y) % p == r {
            25nat
        } else {
            21nat
        }) + inner_steps(p, r, y + 1)
    }
}

/// Steps of the outer loop from `x` (position 10) to the Hasse check.
pub open spec fn outer_steps(p: int, a: int, b: int, x: int) -> nat
    decreases p - x,
{
    if x >= p {
        4
    } else {
        24 + inner_steps(p, curve_rhs(p, a, b, x), 0) + outer_steps(p, a, b, x + 1)
    }
}

/// Steps of the whole run: the set-up, the loops, the Hasse check and the
/// halt.
pub open spec fn bsd_steps(p: int, a: int, b: int) -> nat {
    10 + outer_steps(p, a, b, 0) + 15
}

proof fn lemma_roots_bound(p: int, r: int, y: int)
    requires
        y <= p,
    ensures
        roots_from(p, r, y) <= p - y,
    decreases p - y,
{
    if y < p {
        lemma_roots_bound(p, r, y + 1);
    }
}

proof fn lemma_affine_bound(p: int, a: int, b: int, x: int)
    requires
        0 <= x <= p,
    ensures
        affine_points_from(p, a, b, x) <= (p - x) * p,
    decreases p - x,
{
    if x < p {
        lemma_roots_bound(p, curve_rhs(p, a, b, x), 0);
        lemma_affine_bound(p, a, b, x + 1);
        assert((p - x) * p == (p - (x + 1)) * p + p) by (nonlinear_arith);
    }
}

proof fn lemma_inner_steps_bound(p: int, r: int, y: int)
    requires
        y <= p,
    ensures
        inner_steps(p, r, y) <= 25 * (p - y) + 9,
    decreases p - y,
{
    if y < p {
        lemma_inner_steps_bound(p, r, y + 1);
    }
}

proof fn lemma_outer_steps_bound(p: int, a: int, b: int, x: int)
    requires
        0 <= x <= p,
    ensures
        outer_steps(p, a, b, x) <= (p - x) * (25 * p + 33) + 4,
    decreases p - x,
{
    if x < p {
        lemma_inner_steps_bound(p, curve_rhs(p, a, b, x), 0);
        lemma_outer_steps_bound(p, a, b, x + 1);
        assert((p - x) * (25 * p + 33) == (p - (x + 1)) * (25 * p + 33) + 25 * p + 33) by (nonlinear_arith);
    }
}

// ── Straight-line code ──────────────────────────────────────────────

/// `code` sits at `start` in the program.
proof fn lemma_code_at(p: i64, id: i64, start: int, code: Seq<Instruction>)
    requires
        0 <= start,
        start + code.len() <= 84,
        forall|j: int| 0 <= j < code.len() ==> bsd_ec_count_program(p, id)[start + j] == #[trigger] code[j],
    ensures
        bsd_ec_count_program(p, id).subrange(start, start + code.len()) == code,
{
    assert(bsd_ec_count_program(p, id).subrange(start, start + code.len()) =~= code);
}

/// `x³ + ax + b` is not negative for the curves of the program.
proof fn lemma_cubic_nonneg(x: int, a: int, b: int)
    requires
        0 <= x,
        -1 <= a <= 0,
        0 <= b,
    ensures
        0 <= x * x * x + a * x + b,
{
    assert(x * x * x + a * x >= 0) by (nonlinear_arith)
        requires
            0 <= x,
            -1 <= a <= 0,
    ;
}

/// The code from position 14 pushes `x³ + ax + b` reduced mod `p` and
/// whether that is negative (it is not).
proof fn lemma_rhs_check(m: Map<usize, i64>)
    requires
        0 <= read_cell(m, 0) < read_cell(m, 1) <= 0x20_0000,
        -1 <= read_cell(m, 2) <= 0,
        0 <= read_cell(m, 3) <= 1,
    ensures
        ({
            let v = curve_rhs(
                read_cell(m, 1) as int,
                read_cell(m, 2) as int,
                read_cell(m, 3) as int,
                read_cell(m, 0) as int,
            );
            &&& 0 <= v < read_cell(m, 1)
            &&& exec_straight(
                seq![
                    Instruction::Load(0),
                    Instruction::Load(0),
                    Instruction::Mul,
                    Instruction::Load(0),
                    Instruction::Mul,
                    Instruction::Load(2),
                    Instruction::Load(0),
                    Instruction::Mul,
                    Instruction::Add,
                    Instruction::Load(3),
                    Instruction::Add,
                    Instruction::Load(1),
                    Instruction::Mod,
                    Instruction::Dup,
                    Instruction::Push(0),
                    Instruction::Lt,
                ],
                Seq::empty(),
                m,
            ) == Ok::<(Seq<i64>, Map<usize, i64>), crate::vm::Fault>((seq![v as i64, 0], m))
        }),
{
    let e = Seq::<i64>::empty();
    let x = read_cell(m, 0);
    let p = read_cell(m, 1);
    let a = read_cell(m, 2);
    let b = read_cell(m, 3);
    assert(0 <= x * x <= 0x3ff_ffc0_0001) by (nonlinear_arith)
        requires
            0 <= x <= 0x1f_ffff,
    ;
    assert(0 <= x * x * x <= 0x7fff_ffff_ffff_0000) by (nonlinear_arith)
        requires
            0 <= x * x <= 0x3ff_ffc0_0001,
            0 <= x <= 0x1f_ffff,
    ;
    lemma_cubic_nonneg(x as int, a as int, b as int);
    assert(-0x20_0000 <= a * x <= 0) by (nonlinear_arith)
        requires
            -1 <= a <= 0,
            0 <= x < 0x20_0000,
    ;
    let x2 = (x * x) as i64;
    let x3 = (x * x * x) as i64;
    let ax = (a * x) as i64;
    let s1 = (x * x * x + a * x) as i64;
    let v0 = (x * x * x + a * x + b) as i64;
    let v = curve_rhs(p as int, a as int, b as int, x as int) as i64;
    assert(0 <= (x * x * x + a * x + b) % (p as int) < p);
    assert(v0 == x * x * x + a * x + b);
    if v0 == 0 {
        assert(0int % (p as int) == 0);
    }
    let k1 = seq![Instruction::Load(0)];
    let k2 = seq![Instruction::Load(0)];
    let k3 = seq![Instruction::Mul];
    let k4 = seq![Instruction::Load(0)];
    let k5 = seq![Instruction::Mul];
    let k6 = seq![Instruction::Load(2)];
    let k7 = seq![Instruction::Load(0)];
    let k8 = seq![Instruction::Mul];
    let k9 = seq![Instruction::Add];
    let k10 = seq![Instruction::Load(3)];
    let k11 = seq![Instruction::Add];
    let k12 = seq![Instruction::Load(1)];
    let k13 = seq![Instruction::Mod];
    let k14 = seq![Instruction::Dup];
    let k15 = seq![Instruction::Push(0)];
    let k16 = seq![Instruction::Lt];
    lemma_load_on(e, m, 0);
    lemma_load_on(e.push(x), m, 0);
    lemma_then(k1, k2, e, m, e.push(x), m);
    lemma_binary_on(Instruction::Mul, e, m, x, x);
    lemma_then(k1 + k2, k3, e, m, e.push(x).push(x), m);
    lemma_load_on(e.push(x2), m, 0);
    lemma_then(k1 + k2 + k3, k4, e, m, e.push(x2), m);
    lemma_binary_on(Instruction::Mul, e, m, x2, x);
    lemma_then(k1 + k2 + k3 + k4, k5, e, m, e.push(x2).push(x), m);
    lemma_load_on(e.push(x3), m, 2);
    lemma_then(k1 + k2 + k3 + k4 + k5, k6, e, m, e.push(x3), m);
    lemma_load_on(e.push(x3).push(a), m, 0);
    lemma_then(k1 + k2 + k3 + k4 + k5 + k6, k7, e, m, e.push(x3).push(a), m);
    lemma_binary_on(Instruction::Mul, e.push(x3), m, a, x);
    lemma_then(k1 + k2 + k3 + k4 + k5 + k6 + k7, k8, e, m, e.push(x3).push(a).push(x), m);
    lemma_binary_on(Instruction::Add, e, m, x3, ax);
    lemma_then(k1 + k2 + k3 + k4 + k5 + k6 + k7 + k8, k9, e, m, e.push(x3).push(ax), m);
    lemma_load_on(e.push(s1), m, 3);
    lemma_then(k1 + k2 + k3 + k4 + k5 + k6 + k7 + k8 + k9, k10, e, m, e.push(s1), m);
    lemma_binary_on(Instruction::Add, e, m, s1, b);
    lemma_then(k1 + k2 + k3 + k4 + k5 + k6 + k7 + k8 + k9 + k10, k11, e, m, e.push(s1).push(b), m);
    lemma_load_on(e.push(v0), m, 1);
    lemma_then(k1 + k2 + k3 + k4 + k5 + k6 + k7 + k8 + k9 + k10 + k11, k12, e, m, e.push(v0), m);
    lemma_binary_on(Instruction::Mod, e, m, v0, p);
    lemma_then(k1 + k2 + k3 + k4 + k5 + k6 + k7 + k8 + k9 + k10 + k11 + k12, k13, e, m, e.push(v0).push(p), m);
    lemma_dup_on(e, m, v);
    lemma_then(k1 + k2 + k3 + k4 + k5 + k6 + k7 + k8 + k9 + k10 + k11 + k12 + k13, k14, e, m, e.push(v), m);
    lemma_push_on(e.push(v).push(v), m, 0);
    lemma_then(k1 + k2 + k3 + k4 + k5 + k6 + k7 + k8 + k9 + k10 + k11 + k12 + k13 + k14, k15, e, m, e.push(v).push(v), m);
    lemma_binary_on(Instruction::Lt, e.push(v), m, v, 0);
    lemma_then(k1 + k2 + k3 + k4 + k5 + k6 + k7 + k8 + k9 + k10 + k11 + k12 + k13 + k14 + k15, k16, e, m, e.push(v).push(v).push(0), m);
    assert(k1 + k2 + k3 + k4 + k5 + k6 + k7 + k8 + k9 + k10 + k11 + k12 + k13 + k14 + k15 + k16 =~= seq![
        Instruction::Load(0),
        Instruction::Load(0),
        Instruction::Mul,
        Instruction::Load(0),
        Instruction::Mul,
        Instruction::Load(2),
        Instruction::Load(0),
        Instruction::Mul,
        Instruction::Add,
        Instruction::Load(3),
        Instruction::Add,
        Instruction::Load(1),
        Instruction::Mod,
        Instruction::Dup,
        Instruction::Push(0),
        Instruction::Lt,
    ]);
    assert(e.push(v).push(flag(v < 0)) =~= seq![v, 0]);
}

/// The code from position 40 pushes `y²` reduced mod `p` and whether that
/// is negative (it is not).
proof fn lemma_square_mod(m: Map<usize, i64>)
    requires
        0 <= read_cell(m, 6) < read_cell(m, 1) <= 0x20_0000,
    ensures
        ({
            let y = read_cell(m, 6) as int;
            let w = (y * y) % (read_cell(m, 1) as int);
            &&& 0 <= w < read_cell(m, 1)
            &&& exec_straight(
                seq![
                    Instruction::Load(6),
                    Instruction::Load(6),
                    Instruction::Mul,
                    Instruction::Load(1),
                    Instruction::Mod,
                    Instruction::Dup,
                    Instruction::Push(0),
                    Instruction::Lt,
                ],
                Seq::empty(),
                m,
            ) == Ok::<(Seq<i64>, Map<usize, i64>), crate::vm::Fault>((seq![w as i64, 0], m))
        }),
{
    let e = Seq::<i64>::empty();
    let y = read_cell(m, 6);
    let p = read_cell(m, 1);
    assert(0 <= y * y <= 0x400_0000_0000) by (nonlinear_arith)
        requires
            0 <= y < 0x20_0000,
    ;
    let y2 = (y * y) as i64;
    let w = ((y * y) % (p as int)) as i64;
    if y2 == 0 {
        assert(0int % (p as int) == 0);
    }
    let k1 = seq![Instruction::Load(6)];
    let k2 = seq![Instruction::Load(6)];
    let k3 = seq![Instruction::Mul];
    let k4 = seq![Instruction::Load(1)];
    let k5 = seq![Instruction::Mod];
    let k6 = seq![Instruction::Dup];
    let k7 = seq![Instruction::Push(0)];
    let k8 = seq![Instruction::Lt];
    lemma_load_on(e, m, 6);
    lemma_load_on(e.push(y), m, 6);
    lemma_then(k1, k2, e, m, e.push(y), m);
    lemma_binary_on(Instruction::Mul, e, m, y, y);
    lemma_then(k1 + k2, k3, e, m, e.push(y).push(y), m);
    lemma_load_on(e.push(y2), m, 1);
    lemma_then(k1 + k2 + k3, k4, e, m, e.push(y2), m);
    lemma_binary_on(Instruction::Mod, e, m, y2, p);
    lemma_then(k1 + k2 + k3 + k4, k5, e, m, e.push(y2).push(p), m);
    lemma_dup_on(e, m, w);
    lemma_then(k1 + k2 + k3 + k4 + k5, k6, e, m, e.push(w), m);
    lemma_push_on(e.push(w).push(w), m, 0);
    lemma_then(k1 + k2 + k3 + k4 + k5 + k6, k7, e, m, e.push(w).push(w), m);
    lemma_binary_on(Instruction::Lt, e.push(w), m, w, 0);
    lemma_then(k1 + k2 + k3 + k4 + k5 + k6 + k7, k8, e, m, e.push(w).push(w).push(0), m);
    assert(k1 + k2 + k3 + k4 + k5 + k6 + k7 + k8 =~= seq![
        Instruction::Load(6),
        Instruction::Load(6),
        Instruction::Mul,
        Instruction::Load(1),
        Instruction::Mod,
        Instruction::Dup,
        Instruction::Push(0),
        Instruction::Lt,
    ]);
    assert(e.push(w).push(flag(w < 0)) =~= seq![w, 0]);
}

/// The Hasse check from position 68 stores `t² = (count - p - 1)²` in
/// cell 7 and pushes whether `4p < t²`.
proof fn lemma_hasse_check(m: Map<usize, i64>)
    requires
        0 <= read_cell(m, 4) <= 0x1000_0000_0000,
        0 <= read_cell(m, 1) <= 0x20_0000,
        (read_cell(m, 4) - read_cell(m, 1) - 1) * (read_cell(m, 4) - read_cell(m, 1) - 1) <= i64::MAX,
    ensures
        ({
            let t = read_cell(m, 4) - read_cell(m, 1) - 1;
            exec_straight(
                seq![
                    Instruction::Load(4),
                    Instruction::Load(1),
                    Instruction::Sub,
                    Instruction::Push(1),
                    Instruction::Sub,
                    Instruction::Dup,
                    Instruction::Mul,
                    Instruction::Store(7),
                    Instruction::Load(1),
                    Instruction::Push(4),
                    Instruction::Mul,
                    Instruction::Load(7),
                    Instruction::Lt,
                ],
                Seq::empty(),
                m,
            ) == Ok::<(Seq<i64>, Map<usize, i64>), crate::vm::Fault>(
                (seq![flag(4 * read_cell(m, 1) < t * t)], m.insert(7, (t * t) as i64)),
            )
        }),
{
    let e = Seq::<i64>::empty();
    let c = read_cell(m, 4);
    let p = read_cell(m, 1);
    let d1 = (c - p) as i64;
    let t = (c - p - 1) as i64;
    assert(0 <= t * t) by (nonlinear_arith);
    let t2 = (t * t) as i64;
    let m7 = m.insert(7, t2);
    let q = (p * 4) as i64;
    let k1 = seq![Instruction::Load(4)];
    let k2 = seq![Instruction::Load(1)];
    let k3 = seq![Instruction::Sub];
    let k4 = seq![Instruction::Push(1)];
    let k5 = seq![Instruction::Sub];
    let k6 = seq![Instruction::Dup];
    let k7 = seq![Instruction::Mul];
    let k8 = seq![Instruction::Store(7)];
    let k9 = seq![Instruction::Load(1)];
    let k10 = seq![Instruction::Push(4)];
    let k11 = seq![Instruction::Mul];
    let k12 = seq![Instruction::Load(7)];
    let k13 = seq![Instruction::Lt];
    lemma_load_on(e, m, 4);
    lemma_load_on(e.push(c), m, 1);
    lemma_then(k1, k2, e, m, e.push(c), m);
    lemma_binary_on(Instruction::Sub, e, m, c, p);
    lemma_then(k1 + k2, k3, e, m, e.push(c).push(p), m);
    lemma_push_on(e.push(d1), m, 1);
    lemma_then(k1 + k2 + k3, k4, e, m, e.push(d1), m);
    lemma_binary_on(Instruction::Sub, e, m, d1, 1);
    lemma_then(k1 + k2 + k3 + k4, k5, e, m, e.push(d1).push(1), m);
    lemma_dup_on(e, m, t);
    lemma_then(k1 + k2 + k3 + k4 + k5, k6, e, m, e.push(t), m);
    lemma_binary_on(Instruction::Mul, e, m, t, t);
    lemma_then(k1 + k2 + k3 + k4 + k5 + k6, k7, e, m, e.push(t).push(t), m);
    lemma_store_on(e, m, 7, t2);
    lemma_then(k1 + k2 + k3 + k4 + k5 + k6 + k7, k8, e, m, e.push(t2), m);
    lemma_load_on(e, m7, 1);
    lemma_then(k1 + k2 + k3 + k4 + k5 + k6 + k7 + k8, k9, e, m, e, m7);
    lemma_push_on(e.push(p), m7, 4);
    lemma_then(k1 + k2 + k3 + k4 + k5 + k6 + k7 + k8 + k9, k10, e, m, e.push(p), m7);
    lemma_binary_on(Instruction::Mul, e, m7, p, 4);
    lemma_then(k1 + k2 + k3 + k4 + k5 + k6 + k7 + k8 + k9 + k10, k11, e, m, e.push(p).push(4), m7);
    lemma_load_on(e.push(q), m7, 7);
    lemma_then(k1 + k2 + k3 + k4 + k5 + k6 + k7 + k8 + k9 + k10 + k11, k12, e, m, e.push(q), m7);
    lemma_binary_on(Instruction::Lt, e, m7, q, t2);
    lemma_then(k1 + k2 + k3 + k4 + k5 + k6 + k7 + k8 + k9 + k10 + k11 + k12, k13, e, m, e.push(q).push(t2), m7);
    assert(k1 + k2 + k3 + k4 + k5 + k6 + k7 + k8 + k9 + k10 + k11 + k12 + k13 =~= seq![
        Instruction::Load(4),
        Instruction::Load(1),
        Instruction::Sub,
        Instruction::Push(1),
        Instruction::Sub,
        Instruction::Dup,
        Instruction::Mul,
        Instruction::Store(7),
        Instruction::Load(1),
        Instruction::Push(4),
        Instruction::Mul,
        Instruction::Load(7),
        Instruction::Lt,
    ]);
    assert(e.push(flag(q < t2)) =~= seq![flag(q < t2)]);
}

/// `Load(0), Load(1), Lt` pushes whether `x < p`.
proof fn lemma_x_head(m: Map<usize, i64>)
    ensures
        exec_straight(seq![Instruction::Load(0), Instruction::Load(1), Instruction::Lt], Seq::empty(), m)
            == Ok::<(Seq<i64>, Map<usize, i64>), crate::vm::Fault>(
            (seq![flag(read_cell(m, 0) < read_cell(m, 1))], m),
        ),
{
    let e = Seq::<i64>::empty();
    let x = read_cell(m, 0);
    let p = read_cell(m, 1);
    let k1 = seq![Instruction::Load(0)];
    let k2 = seq![Instruction::Load(1)];
    let k3 = seq![Instruction::Lt];
    lemma_load_on(e, m, 0);
    lemma_load_on(e.push(x), m, 1);
    lemma_then(k1, k2, e, m, e.push(x), m);
    lemma_binary_on(Instruction::Lt, e, m, x, p);
    lemma_then(k1 + k2, k3, e, m, e.push(x).push(p), m);
    assert(k1 + k2 + k3 =~= seq![Instruction::Load(0), Instruction::Load(1), Instruction::Lt]);
    assert(e.push(flag(x < p)) =~= seq![flag(x < p)]);
}

/// `Load(6), Load(1), Lt` pushes whether `y < p`.
proof fn lemma_y_head(m: Map<usize, i64>)
    ensures
        exec_straight(seq![Instruction::Load(6), Instruction::Load(1), Instruction::Lt], Seq::empty(), m)
            == Ok::<(Seq<i64>, Map<usize, i64>), crate::vm::Fault>(
            (seq![flag(read_cell(m, 6) < read_cell(m, 1))], m),
        ),
{
    let e = Seq::<i64>::empty();
    let y = read_cell(m, 6);
    let p = read_cell(m, 1);
    let k1 = seq![Instruction::Load(6)];
    let k2 = seq![Instruction::Load(1)];
    let k3 = seq![Instruction::Lt];
    lemma_load_on(e, m, 6);
    lemma_load_on(e.push(y), m, 1);
    lemma_then(k1, k2, e, m, e.push(y), m);
    lemma_binary_on(Instruction::Lt, e, m, y, p);
    lemma_then(k1 + k2, k3, e, m, e.push(y).push(p), m);
    assert(k1 + k2 + k3 =~= seq![Instruction::Load(6), Instruction::Load(1), Instruction::Lt]);
    assert(e.push(flag(y < p)) =~= seq![flag(y < p)]);
}

/// `Load(5), Eq` on the stack `[w]` pushes whether `w` is the value of cell 5.
proof fn lemma_rhs_match(m: Map<usize, i64>, w: i64)
    ensures
        exec_straight(seq![Instruction::Load(5), Instruction::Eq], seq![w], m) == Ok::<
            (Seq<i64>, Map<usize, i64>),
            crate::vm::Fault,
        >((seq![flag(w == read_cell(m, 5))], m)),
{
    let e = Seq::<i64>::empty();
    let r = read_cell(m, 5);
    let k1 = seq![Instruction::Load(5)];
    let k2 = seq![Instruction::Eq];
    assert(seq![w] =~= e.push(w));
    lemma_load_on(e.push(w), m, 5);
    lemma_then(k1, k2, e.push(w), m, e.push(w).push(r), m);
    lemma_binary_on(Instruction::Eq, e, m, w, r);
    assert(k1 + k2 =~= seq![Instruction::Load(5), Instruction::Eq]);
    assert(e.push(flag(w == r)) =~= seq![flag(w == r)]);
}

// ── The program ─────────────────────────────────────────────────────

/// The inner loop from `y`: the program counts the `y' >= y` with
/// `y'² ≡ r (mod p)` into cell 4 and reaches the head of the outer loop
/// with `x + 1`.
#[verifier::spinoff_prover]
#[verifier::rlimit(80)]
proof fn lemma_inner(p: i64, id: i64, m: Map<usize, i64>, steps: nat, fuel: nat) -> (mm: Map<usize, i64>)
    requires
        read_cell(m, 1) == p,
        0 <= read_cell(m, 0) < p <= 0x20_0000,
        0 <= read_cell(m, 4),
        read_cell(m, 4) + p - read_cell(m, 6) <= 0x1000_0000_0000,
        0 <= read_cell(m, 6) <= p,
        fuel >= inner_steps(p as int, read_cell(m, 5) as int, read_cell(m, 6) as int),
    ensures
        ({
            let k = inner_steps(p as int, read_cell(m, 5) as int, read_cell(m, 6) as int);
            &&& read_cell(mm, 0) == read_cell(m, 0) + 1
            &&& read_cell(mm, 1) == p
            &&& read_cell(mm, 2) == read_cell(m, 2)
            &&& read_cell(mm, 3) == read_cell(m, 3)
            &&& read_cell(mm, 4) == read_cell(m, 4) + roots_from(p as int, read_cell(m, 5) as int, read_cell(m, 6) as int)
            &&& spec_run_from(bsd_ec_count_program(p, id), running(36, Seq::empty(), m, steps), fuel)
                == spec_run_from(bsd_ec_count_program(p, id), running(10, Seq::empty(), mm, steps + k), (fuel - k) as nat)
        }),
    decreases p - read_cell(m, 6),
{
    let prog = bsd_ec_count_program(p, id);
    let x = read_cell(m, 0);
    let r = read_cell(m, 5);
    let y = read_cell(m, 6);
    let c = read_cell(m, 4);
    let hd = seq![Instruction::Load(6), Instruction::Load(1), Instruction::Lt];
    lemma_code_at(p, id, 36, hd);
    lemma_y_head(m);
    lemma_run_straight(prog, running(36, Seq::empty(), m, steps), hd, fuel);
    let t0 = running(39, seq![flag(y < p)], m, steps + 3);
    lemma_step_on(prog, t0, (fuel - 3) as nat);
    assert(seq![flag(y < p)].drop_last() =~= Seq::<i64>::empty());
    if y >= p {
        assert(spec_step(prog, t0) == running(63, Seq::empty(), m, steps + 4));
        let nx = seq![Instruction::Load(0), Instruction::Push(1), Instruction::Add, Instruction::Store(0)];
        lemma_code_at(p, id, 63, nx);
        lemma_add_store(m, 0, 1, 0);
        lemma_run_straight(prog, running(63, Seq::empty(), m, steps + 4), nx, (fuel - 4) as nat);
        let m1 = m.insert(0, (x + 1) as i64);
        let t1 = running(67, Seq::empty(), m1, steps + 8);
        lemma_step_on(prog, t1, (fuel - 8) as nat);
        assert(spec_step(prog, t1) == running(10, Seq::empty(), m1, steps + 9));
        m1
    } else {
        assert(spec_step(prog, t0) == running(40, Seq::empty(), m, steps + 4));
        let sm = seq![
            Instruction::Load(6),
            Instruction::Load(6),
            Instruction::Mul,
            Instruction::Load(1),
            Instruction::Mod,
            Instruction::Dup,
            Instruction::Push(0),
            Instruction::Lt,
        ];
        lemma_code_at(p, id, 40, sm);
        lemma_square_mod(m);
        lemma_run_straight(prog, running(40, Seq::empty(), m, steps + 4), sm, (fuel - 4) as nat);
        let w = ((y * y) % (p as int)) as i64;
        let t1 = running(48, seq![w, 0], m, steps + 12);
        lemma_step_on(prog, t1, (fuel - 12) as nat);
        assert(seq![w, 0].drop_last() =~= seq![w]);
        assert(spec_step(prog, t1) == running(51, seq![w], m, steps + 13));
        let eq = seq![Instruction::Load(5), Instruction::Eq];
        lemma_code_at(p, id, 51, eq);
        lemma_rhs_match(m, w);
        lemma_run_straight(prog, running(51, seq![w], m, steps + 13), eq, (fuel - 13) as nat);
        let t2 = running(53, seq![flag(w == r)], m, steps + 15);
        lemma_step_on(prog, t2, (fuel - 15) as nat);
        assert(seq![flag(w == r)].drop_last() =~= Seq::<i64>::empty());
        let hit = (y * y) % (p as int) == r;
        let m1 = if hit {
            m.insert(4, (c + 1) as i64)
        } else {
            m
        };
        let k1: nat = if hit {
            20
        } else {
            16
        };
        if hit {
            assert(spec_step(prog, t2) == running(54, Seq::empty(), m, steps + 16));
            let inc = seq![Instruction::Load(4), Instruction::Push(1), Instruction::Add, Instruction::Store(4)];
            lemma_code_at(p, id, 54, inc);
            lemma_add_store(m, 4, 1, 4);
            lemma_run_straight(prog, running(54, Seq::empty(), m, steps + 16), inc, (fuel - 16) as nat);
        } else {
            assert(spec_step(prog, t2) == running(58, Seq::empty(), m, steps + 16));
        }
        let ny = seq![Instruction::Load(6), Instruction::Push(1), Instruction::Add, Instruction::Store(6)];
        lemma_code_at(p, id, 58, ny);
        lemma_add_store(m1, 6, 1, 6);
        lemma_run_straight(prog, running(58, Seq::empty(), m1, steps + k1), ny, (fuel - k1) as nat);
        let m2 = m1.insert(6, (y + 1) as i64);
        let t3 = running(62, Seq::empty(), m2, steps + k1 + 4);
        lemma_step_on(prog, t3, (fuel - k1 - 4) as nat);
        assert(spec_step(prog, t3) == running(36, Seq::empty(), m2, steps + k1 + 5));
        lemma_inner(p, id, m2, steps + k1 + 5, (fuel - k1 - 5) as nat)
    }
}

/// The outer loop from `x`: the program adds the affine points with
/// `x' >= x` to cell 4 and reaches the Hasse check.
proof fn lemma_outer(p: i64, id: i64, m: Map<usize, i64>, steps: nat, fuel: nat) -> (mm: Map<usize, i64>)
    requires
        read_cell(m, 1) == p,
        0 <= p <= 0x20_0000,
        -1 <= read_cell(m, 2) <= 0,
        0 <= read_cell(m, 3) <= 1,
        0 <= read_cell(m, 0) <= p,
        0 <= read_cell(m, 4) <= 1 + read_cell(m, 0) * p,
        fuel >= outer_steps(p as int, read_cell(m, 2) as int, read_cell(m, 3) as int, read_cell(m, 0) as int),
    ensures
        ({
            let a = read_cell(m, 2) as int;
            let b = read_cell(m, 3) as int;
            let k = outer_steps(p as int, a, b, read_cell(m, 0) as int);
            &&& read_cell(mm, 1) == p
            &&& read_cell(mm, 4) == read_cell(m, 4) + affine_points_from(p as int, a, b, read_cell(m, 0) as int)
            &&& spec_run_from(bsd_ec_count_program(p, id), running(10, Seq::empty(), m, steps), fuel)
                == spec_run_from(bsd_ec_count_program(p, id), running(68, Seq::empty(), mm, steps + k), (fuel - k) as nat)
        }),
    decreases p - read_cell(m, 0),
{
    let prog = bsd_ec_count_program(p, id);
    let x = read_cell(m, 0);
    let a = read_cell(m, 2);
    let b = read_cell(m, 3);
    let c = read_cell(m, 4);
    let hd = seq![Instruction::Load(0), Instruction::Load(1), Instruction::Lt];
    lemma_code_at(p, id, 10, hd);
    lemma_x_head(m);
    lemma_run_straight(prog, running(10, Seq::empty(), m, steps), hd, fuel);
    let t0 = running(13, seq![flag(x < p)], m, steps + 3);
    lemma_step_on(prog, t0, (fuel - 3) as nat);
    assert(seq![flag(x < p)].drop_last() =~= Seq::<i64>::empty());
    if x >= p {
        assert(spec_step(prog, t0) == running(68, Seq::empty(), m, steps + 4));
        m
    } else {
        assert(spec_step(prog, t0) == running(14, Seq::empty(), m, steps + 4));
        let rc = seq![
            Instruction::Load(0),
            Instruction::Load(0),
            Instruction::Mul,
            Instruction::Load(0),
            Instruction::Mul,
            Instruction::Load(2),
            Instruction::Load(0),
            Instruction::Mul,
            Instruction::Add,
            Instruction::Load(3),
            Instruction::Add,
            Instruction::Load(1),
            Instruction::Mod,
            Instruction::Dup,
            Instruction::Push(0),
            Instruction::Lt,
        ];
        lemma_code_at(p, id, 14, rc);
        lemma_rhs_check(m);
        lemma_run_straight(prog, running(14, Seq::empty(), m, steps + 4), rc, (fuel - 4) as nat);
        let v = curve_rhs(p as int, a as int, b as int, x as int) as i64;
        let t1 = running(30, seq![v, 0], m, steps + 20);
        lemma_step_on(prog, t1, (fuel - 20) as nat);
        assert(seq![v, 0].drop_last() =~= seq![v]);
        assert(spec_step(prog, t1) == running(33, seq![v], m, steps + 21));
        // Store the right-hand side and start `y` at 0.
        let e = Seq::<i64>::empty();
        let m5 = m.insert(5, v);
        let m6 = m5.insert(6, 0);
        let j1 = seq![Instruction::Store(5)];
        let j2 = seq![Instruction::Push(0)];
        let j3 = seq![Instruction::Store(6)];
        assert(seq![v] =~= e.push(v));
        lemma_store_on(e, m, 5, v);
        lemma_push_on(e, m5, 0);
        lemma_then(j1, j2, e.push(v), m, e, m5);
        lemma_store_on(e, m5, 6, 0);
        lemma_then(j1 + j2, j3, e.push(v), m, e.push(0), m5);
        let st = seq![Instruction::Store(5), Instruction::Push(0), Instruction::Store(6)];
        assert(j1 + j2 + j3 =~= st);
        lemma_code_at(p, id, 33, st);
        lemma_run_straight(prog, running(33, seq![v], m, steps + 21), st, (fuel - 21) as nat);
        assert(x * p + p <= p * p) by (nonlinear_arith)
            requires
                0 <= x < p,
        ;
        assert(p * p <= 0x400_0000_0000) by (nonlinear_arith)
            requires
                0 <= p <= 0x20_0000,
        ;
        let ks = inner_steps(p as int, v as int, 0);
        let mi = lemma_inner(p, id, m6, steps + 24, (fuel - 24) as nat);
        lemma_roots_bound(p as int, v as int, 0);
        assert(read_cell(mi, 4) <= 1 + (x + 1) * p) by (nonlinear_arith)
            requires
                read_cell(mi, 4) <= c + p,
                c <= 1 + x * p,
        ;
        lemma_outer(p, id, mi, steps + 24 + ks, (fuel - 24 - ks) as nat)
    }
}

/// The point-count program for the curve with id `id` over `Z/p`, run for
/// its budget, halts with 1 exactly when the number of points satisfies
/// the Hasse bound, and with 0 otherwise. This holds for the `p` the
/// builder accepts up to `2^21`, where `x³` fits in 64 bits, and for which
/// `(N - p - 1)²` fits in 64 bits (it does when `p` is prime).
pub proof fn lemma_bsd_program_decides(p: i64, id: i64)
    requires
        (p as u64) * (p as u64) * 84 + 1_000_000 <= u64::MAX,
        p <= 0x20_0000,
        ({
            let (a, b) = curve_coefficients(id);
            let n = curve_points(p as int, a as int, b as int);
            (n - p - 1) * (n - p - 1) <= i64::MAX
        }),
    ensures
        ({
            let (a, b) = curve_coefficients(id);
            reported_outcome(spec_run(bsd_ec_count_program(p, id), bsd_ec_count_budget(p, id) as nat))
                == VmOutcome::Halted(
                if within_hasse_bound(p as int, curve_points(p as int, a as int, b as int) as int) {
                    1u8
                } else {
                    0u8
                },
            )
        }),
{
    let prog = bsd_ec_count_program(p, id);
    let budget = bsd_ec_count_budget(p, id);
    let (a, b) = curve_coefficients(id);
    assert(0 <= p) by {
        if p < 0 {
            let q = p as u64;
            assert(p < 0 ==> (p as u64) >= 0x8000_0000_0000_0000u64) by (bit_vector);
            assert(q * q * 84 + 1_000_000 > u64::MAX) by (nonlinear_arith)
                requires
                    q >= 0x8000_0000_0000_0000,
            ;
        }
    }
    assert(p as u64 == p);
    // The set-up.
    let e = Seq::<i64>::empty();
    let m1 = Map::<usize, i64>::empty().insert(1, p);
    let m2 = m1.insert(2, a);
    let m3 = m2.insert(3, b);
    let m4 = m3.insert(4, 1);
    let m0 = m4.insert(0, 0);
    let init = seq![
        Instruction::Push(p),
        Instruction::Store(1),
        Instruction::Push(a),
        Instruction::Store(2),
        Instruction::Push(b),
        Instruction::Store(3),
        Instruction::Push(1),
        Instruction::Store(4),
        Instruction::Push(0),
        Instruction::Store(0),
    ];
    let i1 = seq![Instruction::Push(p), Instruction::Store(1)];
    let i2 = seq![Instruction::Push(a), Instruction::Store(2)];
    let i3 = seq![Instruction::Push(b), Instruction::Store(3)];
    let i4 = seq![Instruction::Push(1), Instruction::Store(4)];
    let i5 = seq![Instruction::Push(0), Instruction::Store(0)];
    crate::goldbach::lemma_set(Map::empty(), p, 1);
    crate::goldbach::lemma_set(m1, a, 2);
    lemma_then(i1, i2, e, Map::empty(), e, m1);
    crate::goldbach::lemma_set(m2, b, 3);
    lemma_then(i1 + i2, i3, e, Map::empty(), e, m2);
    crate::goldbach::lemma_set(m3, 1, 4);
    lemma_then(i1 + i2 + i3, i4, e, Map::empty(), e, m3);
    crate::goldbach::lemma_set(m4, 0, 0);
    lemma_then(i1 + i2 + i3 + i4, i5, e, Map::empty(), e, m4);
    assert(i1 + i2 + i3 + i4 + i5 =~= init);
    lemma_code_at(p, id, 0, init);
    // The budget suffices.
    lemma_outer_steps_bound(p as int, a as int, b as int, 0);
    let k = outer_steps(p as int, a as int, b as int, 0);
    assert(k + 25 <= budget) by (nonlinear_arith)
        requires
            k <= p * (25 * p + 33) + 4,
            budget == p * p * 84 + 1_000_000,
            0 <= p,
    ;
    lemma_run_straight(prog, initial_state(), init, budget as nat);
    assert(read_cell(m0, 0) == 0 && read_cell(m0, 1) == p && read_cell(m0, 2) == a && read_cell(m0, 3) == b
        && read_cell(m0, 4) == 1);
    let mo = lemma_outer(p, id, m0, 10, (budget - 10) as nat);
    let n = curve_points(p as int, a as int, b as int);
    assert(read_cell(mo, 4) == n);
    lemma_affine_bound(p as int, a as int, b as int, 0);
    assert(p * p <= 0x400_0000_0000) by (nonlinear_arith)
        requires
            0 <= p <= 0x20_0000,
    ;
    // The Hasse check.
    let hc = seq![
        Instruction::Load(4),
        Instruction::Load(1),
        Instruction::Sub,
        Instruction::Push(1),
        Instruction::Sub,
        Instruction::Dup,
        Instruction::Mul,
        Instruction::Store(7),
        Instruction::Load(1),
        Instruction::Push(4),
        Instruction::Mul,
        Instruction::Load(7),
        Instruction::Lt,
    ];
    lemma_code_at(p, id, 68, hc);
    lemma_hasse_check(mo);
    let f = (budget - 10 - k) as nat;
    lemma_run_straight(prog, running(68, Seq::empty(), mo, 10 + k), hc, f);
    let t = n - p - 1;
    let mh = mo.insert(7, (t * t) as i64);
    let over = 4 * p < t * t;
    let t0 = running(81, seq![flag(over)], mh, 23 + k);
    lemma_step_on(prog, t0, (f - 13) as nat);
    assert(seq![flag(over)].drop_last() =~= Seq::<i64>::empty());
    let t1 = spec_step(prog, t0);
    if over {
        assert(t1 == running(82, Seq::empty(), mh, 24 + k));
    } else {
        assert(t1 == running(83, Seq::empty(), mh, 24 + k));
    }
    lemma_step_on(prog, t1, (f - 14) as nat);
    let t2 = spec_step(prog, t1);
    assert(t2.outcome == Some(VmOutcome::Halted(if over { 0u8 } else { 1u8 })));
    assert(spec_run_from(prog, t2, (f - 15) as nat) == t2);
}

} // verus!
