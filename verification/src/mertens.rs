//! What the Mertens program decides.
//!
//! The program runs over n = 2, 3, ... up to its bound N; for each it
//! computes the Möbius function μ(n) by trial division, adds it to the
//! running Mertens sum M(n), and halts with 0 at the first n with
//! M(n)² > n; past the bound it halts with 1.

use vstd::arithmetic::div_mod::{
    lemma_div_decreases, lemma_div_pos_is_pos, lemma_fundamental_div_mod, lemma_mod_multiples_basic,
    lemma_small_mod,
};
use crate::goldbach::lemma_set;
use crate::open_problems::{lemma_root_search, mertens_budget, mertens_program, root_above};
use crate::trial_division::running;
use crate::twin_primes::{lemma_add_store, lemma_bound_check, lemma_copy, lemma_step_on};
use crate::vm::{
    exec_straight, flag, initial_state, lemma_binary_on, lemma_dup_on, lemma_load_on, lemma_push_on,
    lemma_run_straight, lemma_store_on, lemma_swap_on, lemma_then, read_cell, reported_outcome, spec_run,
    spec_run_from, spec_step, Instruction, VmOutcome,
};
use vstd::prelude::*;

verus! {

/// The least divisor of `n` that is at least `k`, or `n` itself.
pub open spec fn least_divisor_from(n: int, k: int) -> int
    decreases n - k,
{
    if k >= n {
        n
    } else if n % k == 0 {
        k
    } else {
        least_divisor_from(n, k + 1)
    }
}

/// The least divisor `p >= 2` of `n >= 2`: its least prime factor.
pub open spec fn least_divisor(n: int) -> int {
    least_divisor_from(n, 2)
}

proof fn lemma_least_divisor_from_bounds(n: int, k: int)
    requires
        2 <= k <= n,
    ensures
        k <= least_divisor_from(n, k) <= n,
        n % least_divisor_from(n, k) == 0,
    decreases n - k,
{
    if k < n && n % k != 0 {
        lemma_least_divisor_from_bounds(n, k + 1);
    } else if k >= n {
        lemma_mod_multiples_basic(1, n);
    }
}

/// The least divisor of `n >= 2` lies in `[2, n]` and divides `n`.
pub proof fn lemma_least_divisor_bounds(n: int)
    requires
        n >= 2,
    ensures
        2 <= least_divisor(n) <= n,
        n % least_divisor(n) == 0,
{
    lemma_least_divisor_from_bounds(n, 2);
}

/// The Möbius function for `n >= 1`, by the least prime factor `p` of
/// `n`: μ(1) = 1, μ(n) = 0 when p² divides n, and μ(n) = -μ(n / p)
/// otherwise.
pub open spec fn mobius(n: int) -> int
    decreases n,
{
    if n <= 1 {
        1
    } else {
        let p = least_divisor(n);
        proof {
            lemma_least_divisor_bounds(n);
            lemma_div_decreases(n, p);
            lemma_div_pos_is_pos(n, p);
        }
        if (n / p) % p == 0 {
            0
        } else {
            -mobius(n / p)
        }
    }
}

/// The Möbius function takes the values -1, 0 and 1.
pub proof fn lemma_mobius_range(n: int)
    ensures
        -1 <= mobius(n) <= 1,
    decreases n,
{
    if n > 1 {
        let p = least_divisor(n);
        lemma_least_divisor_bounds(n);
        lemma_div_decreases(n, p);
        lemma_div_pos_is_pos(n, p);
        lemma_mobius_range(n / p);
    }
}

/// The Mertens function `M(n) = μ(1) + ... + μ(n)`.
pub open spec fn mertens(n: int) -> int
    decreases n,
{
    if n <= 0 {
        0
    } else {
        mertens(n - 1) + mobius(n)
    }
}

/// `M(n)² <= n` for every `n` in `[1, n_max]`.
pub open spec fn mertens_bound_up_to(n_max: int) -> bool {
    forall|n: int| 1 <= n <= n_max ==> #[trigger] mertens(n) * mertens(n) <= n
}

// ── The factor loop ─────────────────────────────────────────────────

/// `(-1)^c`.
pub open spec fn parity_sign(c: int) -> int {
    if c % 2 == 0 {
        1
    } else {
        -1
    }
}

pub proof fn lemma_quotient_at_least(rem: int, d: int)
    requires
        2 <= d,
        d * d <= rem,
    ensures
        d <= rem / d,
        d <= rem,
{
    lemma_fundamental_div_mod(rem, d);
    assert(d <= rem / d) by (nonlinear_arith)
        requires
            2 <= d,
            d * d <= rem,
            rem == d * (rem / d) + rem % d,
            0 <= rem % d < d,
    ;
    assert(d <= d * d) by (nonlinear_arith)
        requires
            2 <= d,
    ;
}

/// The trial-division loop from `rem`, `d` with `count` prime factors
/// found: the Möbius value it adds to the sum, and its steps from its head
/// (position 20) to the check of the sum (position 90).
pub open spec fn factor_run(rem: int, d: int, count: int) -> (int, nat)
    decreases rem + 1 - d,
    when 2 <= d
{
    if rem < d * d {
        let c = if rem > 1 {
            count + 1
        } else {
            count
        };
        (parity_sign(c), if rem > 1 {
            35nat
        } else {
            31nat
        })
    } else if rem % d == 0 {
        if (rem / d) % d == 0 {
            (0, 34)
        } else {
            proof {
                lemma_quotient_at_least(rem, d);
            }
            let r = factor_run(rem / d, d + 1, count + 1);
            (r.0, 36 + r.1)
        }
    } else {
        proof {
            lemma_quotient_at_least(rem, d);
        }
        let r = factor_run(rem, d + 1, count);
        (r.0, 22 + r.1)
    }
}

/// No `k` in `[2, d)` divides `n`.
pub open spec fn no_divisor_below(n: int, d: int) -> bool {
    forall|k: int| 2 <= k < d ==> #[trigger] (n % k) != 0
}

proof fn lemma_least_divisor_from_is(n: int, k: int, d: int)
    requires
        2 <= k <= d <= n,
        n % d == 0,
        forall|j: int| k <= j < d ==> #[trigger] (n % j) != 0,
    ensures
        least_divisor_from(n, k) == d,
    decreases d - k,
{
    if k < d {
        assert(n % k != 0);
        lemma_least_divisor_from_is(n, k + 1, d);
    }
}

/// `d` is the least divisor of `n` when it divides `n` and nothing in
/// `[2, d)` does.
proof fn lemma_least_divisor_is(n: int, d: int)
    requires
        2 <= d <= n,
        n % d == 0,
        no_divisor_below(n, d),
    ensures
        least_divisor(n) == d,
{
    lemma_least_divisor_from_is(n, 2, d);
}

/// A divisor of `n / d` divides `n` when `d` divides `n`.
proof fn lemma_divides_through(n: int, d: int, k: int)
    requires
        2 <= d,
        2 <= k,
        n % d == 0,
        (n / d) % k == 0,
    ensures
        n % k == 0,
{
    lemma_fundamental_div_mod(n, d);
    lemma_fundamental_div_mod(n / d, k);
    let q = (n / d) / k;
    assert(n == (d * q) * k) by (nonlinear_arith)
        requires
            n == d * (n / d),
            n / d == k * q,
    ;
    lemma_mod_multiples_basic(d * q, k);
}

/// With no divisor below `d` and `n < d²`, an `n >= 2` is its own least
/// divisor.
proof fn lemma_prime_below_square(n: int, d: int)
    requires
        2 <= d,
        2 <= n < d * d,
        no_divisor_below(n, d),
    ensures
        least_divisor(n) == n,
{
    assert forall|k: int| 2 <= k < n implies #[trigger] (n % k) != 0 by {
        if n % k == 0 && k >= d {
            lemma_fundamental_div_mod(n, k);
            let j = n / k;
            assert(n == k * j);
            assert(j >= 1) by (nonlinear_arith)
                requires
                    n == k * j,
                    2 <= k < n,
            ;
            assert(j >= 2) by (nonlinear_arith)
                requires
                    n == k * j,
                    k < n,
                    j >= 1,
            ;
            assert(j < d) by (nonlinear_arith)
                requires
                    n == k * j,
                    1 <= j,
                    d <= k,
                    n < d * d,
                    2 <= d,
            ;
            assert(n == j * k) by (nonlinear_arith)
                requires
                    n == k * j,
            ;
            lemma_mod_multiples_basic(k, j);
            assert(n % j == 0);
        }
    }
    assert(n % n == 0) by {
        lemma_mod_multiples_basic(1, n);
    }
    lemma_least_divisor_from_is(n, 2, n);
}

/// The trial-division loop adds `(-1)^count μ(rem)`.
pub proof fn lemma_factor_value(rem: int, d: int, count: int)
    requires
        2 <= d,
        1 <= rem,
        0 <= count,
        no_divisor_below(rem, d),
    ensures
        factor_run(rem, d, count).0 == parity_sign(count) * mobius(rem),
    decreases rem + 1 - d,
{
    if rem < d * d {
        if rem > 1 {
            lemma_prime_below_square(rem, d);
            assert(rem / rem == 1) by {
                lemma_fundamental_div_mod(rem, rem);
                lemma_mod_multiples_basic(1, rem);
            }
            lemma_small_mod(1, rem as nat);
            assert(mobius(rem) == -mobius(1));
        }
    } else if rem % d == 0 {
        lemma_quotient_at_least(rem, d);
        lemma_least_divisor_is(rem, d);
        if (rem / d) % d != 0 {
            lemma_div_pos_is_pos(rem, d);
            assert forall|k: int| 2 <= k < d + 1 implies #[trigger] ((rem / d) % k) != 0 by {
                if k < d && (rem / d) % k == 0 {
                    lemma_divides_through(rem, d, k);
                }
            }
            lemma_factor_value(rem / d, d + 1, count + 1);
        }
    } else {
        lemma_quotient_at_least(rem, d);
        assert forall|k: int| 2 <= k < d + 1 implies #[trigger] (rem % k) != 0 by {
            if k < d {
                assert(rem % k != 0);
            }
        }
        lemma_factor_value(rem, d + 1, count);
    }
}


// ── The outer loop ──────────────────────────────────────────────────

/// The outer loop from `n` (position 6): whether `M(k)² <= k` for every
/// `k` from `n` to the bound, and its steps to the halting instruction.
pub open spec fn outer_run(n_max: int, n: int) -> (bool, nat)
    decreases n_max + 1 - n,
{
    if n > n_max {
        (true, 5)
    } else {
        let s = 13 + factor_run(n, 2, 0).1 + 6;
        if n < mertens(n) * mertens(n) {
            (false, s)
        } else {
            let o = outer_run(n_max, n + 1);
            (o.0, s + 5 + o.1)
        }
    }
}

proof fn lemma_outer_found(n_max: int, n: int)
    ensures
        outer_run(n_max, n).0 == (forall|k: int| n <= k <= n_max ==> #[trigger] mertens(k) * mertens(k) <= k),
    decreases n_max + 1 - n,
{
    if n <= n_max {
        if !(n < mertens(n) * mertens(n)) {
            lemma_outer_found(n_max, n + 1);
            if outer_run(n_max, n + 1).0 {
                assert forall|k: int| n <= k <= n_max implies #[trigger] mertens(k) * mertens(k) <= k by {
                    if k != n {
                        assert(n + 1 <= k);
                    }
                }
            } else {
                let k = choose|k: int| !(n + 1 <= k <= n_max ==> #[trigger] mertens(k) * mertens(k) <= k);
                assert(!(n <= k <= n_max ==> mertens(k) * mertens(k) <= k));
            }
        } else {
            assert(!(n <= n <= n_max ==> mertens(n) * mertens(n) <= n));
        }
    }
}

// ── Straight-line code ──────────────────────────────────────────────

/// `code` sits at `start` in the program.
proof fn lemma_code_at(n_max: i64, start: int, code: Seq<Instruction>)
    requires
        0 <= start,
        start + code.len() <= 102,
        forall|j: int| 0 <= j < code.len() ==> mertens_program(n_max)[start + j] == #[trigger] code[j],
    ensures
        mertens_program(n_max).subrange(start, start + code.len()) == code,
{
    assert(mertens_program(n_max).subrange(start, start + code.len()) =~= code);
}

/// `Load(s), Push(c), Eq` pushes whether cell `s` holds `c`.
proof fn lemma_cell_is(m: Map<usize, i64>, s: usize, c: i64)
    ensures
        exec_straight(
            seq![Instruction::Load(s), Instruction::Push(c), Instruction::Eq],
            Seq::empty(),
            m,
        ) == Ok::<(Seq<i64>, Map<usize, i64>), crate::vm::Fault>((seq![flag(read_cell(m, s) == c)], m)),
{
    let e = Seq::<i64>::empty();
    let x = read_cell(m, s);
    let k1 = seq![Instruction::Load(s)];
    let k2 = seq![Instruction::Push(c)];
    let k3 = seq![Instruction::Eq];
    lemma_load_on(e, m, s);
    lemma_push_on(e.push(x), m, c);
    lemma_then(k1, k2, e, m, e.push(x), m);
    lemma_binary_on(Instruction::Eq, e, m, x, c);
    lemma_then(k1 + k2, k3, e, m, e.push(x).push(c), m);
    assert(k1 + k2 + k3 =~= seq![Instruction::Load(s), Instruction::Push(c), Instruction::Eq]);
    assert(e.push(flag(x == c)) =~= seq![flag(x == c)]);
}

/// `Load(4), Dup, Mul, Load(3), Swap, Lt` pushes whether `rem < d²`.
proof fn lemma_square_over(m: Map<usize, i64>)
    requires
        0 <= read_cell(m, 4) <= 0x20_0000,
    ensures
        exec_straight(
            seq![Instruction::Load(4), Instruction::Dup, Instruction::Mul, Instruction::Load(3), Instruction::Swap, Instruction::Lt],
            Seq::empty(),
            m,
        ) == Ok::<(Seq<i64>, Map<usize, i64>), crate::vm::Fault>((seq![flag(read_cell(m, 3) < read_cell(m, 4) * read_cell(m, 4))], m)),
{
    let e = Seq::<i64>::empty();
    let d = read_cell(m, 4);
    let r = read_cell(m, 3);
    assert(0 <= d * d <= 0x400_0000_0000) by (nonlinear_arith)
        requires
            0 <= d <= 0x20_0000,
    ;
    let q = (d * d) as i64;
    let k1 = seq![Instruction::Load(4)];
    let k2 = seq![Instruction::Dup];
    let k3 = seq![Instruction::Mul];
    let k4 = seq![Instruction::Load(3)];
    let k5 = seq![Instruction::Swap];
    let k6 = seq![Instruction::Lt];
    lemma_load_on(e, m, 4);
    lemma_dup_on(e, m, d);
    lemma_then(k1, k2, e, m, e.push(d), m);
    lemma_binary_on(Instruction::Mul, e, m, d, d);
    lemma_then(k1 + k2, k3, e, m, e.push(d).push(d), m);
    lemma_load_on(e.push(q), m, 3);
    lemma_then(k1 + k2 + k3, k4, e, m, e.push(q), m);
    lemma_swap_on(e, m, q, r);
    lemma_then(k1 + k2 + k3 + k4, k5, e, m, e.push(q).push(r), m);
    lemma_binary_on(Instruction::Lt, e, m, r, q);
    lemma_then(k1 + k2 + k3 + k4 + k5, k6, e, m, e.push(r).push(q), m);
    assert(k1 + k2 + k3 + k4 + k5 + k6 =~= seq![Instruction::Load(4), Instruction::Dup, Instruction::Mul, Instruction::Load(3), Instruction::Swap, Instruction::Lt]);
    assert(e.push(flag(r < q)) =~= seq![flag(r < q)]);
}

/// `Load(a), Load(b), Mod, Push(0), Eq` pushes whether cell `b` divides
/// cell `a`.
proof fn lemma_divides_check(m: Map<usize, i64>, a: usize, b: usize)
    requires
        0 <= read_cell(m, a),
        0 < read_cell(m, b),
    ensures
        exec_straight(
            seq![Instruction::Load(a), Instruction::Load(b), Instruction::Mod, Instruction::Push(0), Instruction::Eq],
            Seq::empty(),
            m,
        ) == Ok::<(Seq<i64>, Map<usize, i64>), crate::vm::Fault>((seq![flag(read_cell(m, a) % read_cell(m, b) == 0)], m)),
{
    let e = Seq::<i64>::empty();
    let x = read_cell(m, a);
    let y = read_cell(m, b);
    let w = (x % y) as i64;
    if x == 0 {
        assert(0int % (y as int) == 0);
    }
    let k1 = seq![Instruction::Load(a)];
    let k2 = seq![Instruction::Load(b)];
    let k3 = seq![Instruction::Mod];
    let k4 = seq![Instruction::Push(0)];
    let k5 = seq![Instruction::Eq];
    lemma_load_on(e, m, a);
    lemma_load_on(e.push(x), m, b);
    lemma_then(k1, k2, e, m, e.push(x), m);
    lemma_binary_on(Instruction::Mod, e, m, x, y);
    lemma_then(k1 + k2, k3, e, m, e.push(x).push(y), m);
    lemma_push_on(e.push(w), m, 0);
    lemma_then(k1 + k2 + k3, k4, e, m, e.push(w), m);
    lemma_binary_on(Instruction::Eq, e, m, w, 0);
    lemma_then(k1 + k2 + k3 + k4, k5, e, m, e.push(w).push(0), m);
    assert(k1 + k2 + k3 + k4 + k5 =~= seq![Instruction::Load(a), Instruction::Load(b), Instruction::Mod, Instruction::Push(0), Instruction::Eq]);
    assert(e.push(flag(w == 0)) =~= seq![flag(w == 0)]);
}

/// `Load(5), Push(2), Mod, Push(0), Eq` pushes whether the count is even.
proof fn lemma_even_count(m: Map<usize, i64>)
    requires
        0 <= read_cell(m, 5),
    ensures
        exec_straight(
            seq![Instruction::Load(5), Instruction::Push(2), Instruction::Mod, Instruction::Push(0), Instruction::Eq],
            Seq::empty(),
            m,
        ) == Ok::<(Seq<i64>, Map<usize, i64>), crate::vm::Fault>((seq![flag(read_cell(m, 5) % 2 == 0)], m)),
{
    let e = Seq::<i64>::empty();
    let x = read_cell(m, 5);
    let w = (x % 2) as i64;
    let k1 = seq![Instruction::Load(5)];
    let k2 = seq![Instruction::Push(2)];
    let k3 = seq![Instruction::Mod];
    let k4 = seq![Instruction::Push(0)];
    let k5 = seq![Instruction::Eq];
    lemma_load_on(e, m, 5);
    lemma_push_on(e.push(x), m, 2);
    lemma_then(k1, k2, e, m, e.push(x), m);
    lemma_binary_on(Instruction::Mod, e, m, x, 2);
    lemma_then(k1 + k2, k3, e, m, e.push(x).push(2), m);
    lemma_push_on(e.push(w), m, 0);
    lemma_then(k1 + k2 + k3, k4, e, m, e.push(w), m);
    lemma_binary_on(Instruction::Eq, e, m, w, 0);
    lemma_then(k1 + k2 + k3 + k4, k5, e, m, e.push(w).push(0), m);
    assert(k1 + k2 + k3 + k4 + k5 =~= seq![Instruction::Load(5), Instruction::Push(2), Instruction::Mod, Instruction::Push(0), Instruction::Eq]);
    assert(e.push(flag(w == 0)) =~= seq![flag(w == 0)]);
}

/// `Load(3), Load(4), Div, Store(3)` divides `rem` by `d`.
proof fn lemma_divide_rem(m: Map<usize, i64>)
    requires
        0 <= read_cell(m, 3),
        0 < read_cell(m, 4),
    ensures
        exec_straight(
            seq![Instruction::Load(3), Instruction::Load(4), Instruction::Div, Instruction::Store(3)],
            Seq::empty(),
            m,
        ) == Ok::<(Seq<i64>, Map<usize, i64>), crate::vm::Fault>((Seq::empty(), m.insert(3, (read_cell(m, 3) / read_cell(m, 4)) as i64))),
{
    let e = Seq::<i64>::empty();
    let x = read_cell(m, 3);
    let y = read_cell(m, 4);
    lemma_div_pos_is_pos(x as int, y as int);
    assert(x / y <= x) by (nonlinear_arith)
        requires
            0 <= x,
            0 < y,
    ;
    let w = (x / y) as i64;
    let k1 = seq![Instruction::Load(3)];
    let k2 = seq![Instruction::Load(4)];
    let k3 = seq![Instruction::Div];
    let k4 = seq![Instruction::Store(3)];
    lemma_load_on(e, m, 3);
    lemma_load_on(e.push(x), m, 4);
    lemma_then(k1, k2, e, m, e.push(x), m);
    lemma_binary_on(Instruction::Div, e, m, x, y);
    lemma_then(k1 + k2, k3, e, m, e.push(x).push(y), m);
    lemma_store_on(e, m, 3, w);
    lemma_then(k1 + k2 + k3, k4, e, m, e.push(w), m);
    assert(k1 + k2 + k3 + k4 =~= seq![Instruction::Load(3), Instruction::Load(4), Instruction::Div, Instruction::Store(3)]);

}

/// `Push(1), Load(3), Lt` pushes whether `rem > 1`.
proof fn lemma_rem_above_one(m: Map<usize, i64>)
    ensures
        exec_straight(
            seq![Instruction::Push(1), Instruction::Load(3), Instruction::Lt],
            Seq::empty(),
            m,
        ) == Ok::<(Seq<i64>, Map<usize, i64>), crate::vm::Fault>((seq![flag(1 < read_cell(m, 3))], m)),
{
    let e = Seq::<i64>::empty();
    let r = read_cell(m, 3);
    let k1 = seq![Instruction::Push(1)];
    let k2 = seq![Instruction::Load(3)];
    let k3 = seq![Instruction::Lt];
    lemma_push_on(e, m, 1);
    lemma_load_on(e.push(1), m, 3);
    lemma_then(k1, k2, e, m, e.push(1), m);
    lemma_binary_on(Instruction::Lt, e, m, 1, r);
    lemma_then(k1 + k2, k3, e, m, e.push(1).push(r), m);
    assert(k1 + k2 + k3 =~= seq![Instruction::Push(1), Instruction::Load(3), Instruction::Lt]);
    assert(e.push(flag(1 < r)) =~= seq![flag(1 < r)]);
}

/// `Load(2), Push(1), Sub, Store(2)` takes one from the sum.
proof fn lemma_sum_down(m: Map<usize, i64>)
    requires
        i64::MIN < read_cell(m, 2),
    ensures
        exec_straight(
            seq![Instruction::Load(2), Instruction::Push(1), Instruction::Sub, Instruction::Store(2)],
            Seq::empty(),
            m,
        ) == Ok::<(Seq<i64>, Map<usize, i64>), crate::vm::Fault>((Seq::empty(), m.insert(2, (read_cell(m, 2) - 1) as i64))),
{
    let e = Seq::<i64>::empty();
    let x = read_cell(m, 2);
    let w = (x - 1) as i64;
    let k1 = seq![Instruction::Load(2)];
    let k2 = seq![Instruction::Push(1)];
    let k3 = seq![Instruction::Sub];
    let k4 = seq![Instruction::Store(2)];
    lemma_load_on(e, m, 2);
    lemma_push_on(e.push(x), m, 1);
    lemma_then(k1, k2, e, m, e.push(x), m);
    lemma_binary_on(Instruction::Sub, e, m, x, 1);
    lemma_then(k1 + k2, k3, e, m, e.push(x).push(1), m);
    lemma_store_on(e, m, 2, w);
    lemma_then(k1 + k2 + k3, k4, e, m, e.push(w), m);
    assert(k1 + k2 + k3 + k4 =~= seq![Instruction::Load(2), Instruction::Push(1), Instruction::Sub, Instruction::Store(2)]);

}

/// `Load(0), Load(2), Dup, Mul, Lt` pushes whether `n < M²`.
proof fn lemma_sum_check(m: Map<usize, i64>)
    requires
        -0x20_0000 <= read_cell(m, 2) <= 0x20_0000,
    ensures
        exec_straight(
            seq![Instruction::Load(0), Instruction::Load(2), Instruction::Dup, Instruction::Mul, Instruction::Lt],
            Seq::empty(),
            m,
        ) == Ok::<(Seq<i64>, Map<usize, i64>), crate::vm::Fault>((seq![flag(read_cell(m, 0) < read_cell(m, 2) * read_cell(m, 2))], m)),
{
    let e = Seq::<i64>::empty();
    let n = read_cell(m, 0);
    let x = read_cell(m, 2);
    assert(0 <= x * x <= 0x400_0000_0000) by (nonlinear_arith)
        requires
            -0x20_0000 <= x <= 0x20_0000,
    ;
    let q = (x * x) as i64;
    let k1 = seq![Instruction::Load(0)];
    let k2 = seq![Instruction::Load(2)];
    let k3 = seq![Instruction::Dup];
    let k4 = seq![Instruction::Mul];
    let k5 = seq![Instruction::Lt];
    lemma_load_on(e, m, 0);
    lemma_load_on(e.push(n), m, 2);
    lemma_then(k1, k2, e, m, e.push(n), m);
    lemma_dup_on(e.push(n), m, x);
    lemma_then(k1 + k2, k3, e, m, e.push(n).push(x), m);
    lemma_binary_on(Instruction::Mul, e.push(n), m, x, x);
    lemma_then(k1 + k2 + k3, k4, e, m, e.push(n).push(x).push(x), m);
    lemma_binary_on(Instruction::Lt, e, m, n, q);
    lemma_then(k1 + k2 + k3 + k4, k5, e, m, e.push(n).push(q), m);
    assert(k1 + k2 + k3 + k4 + k5 =~= seq![Instruction::Load(0), Instruction::Load(2), Instruction::Dup, Instruction::Mul, Instruction::Lt]);
    assert(e.push(flag(n < q)) =~= seq![flag(n < q)]);
}

// ── The program ─────────────────────────────────────────────────────

/// From position 61 the trial division is done: a `rem > 1` left over is
/// one more prime factor, and the sum takes `(-1)^count`.
#[verifier::spinoff_prover]
#[verifier::rlimit(80)]
proof fn lemma_factor_done(n_max: i64, m: Map<usize, i64>, steps: nat, fuel: nat) -> (mm: Map<usize, i64>)
    requires
        0 <= read_cell(m, 5) <= 0x100_0000_0000,
        read_cell(m, 6) == 0,
        -0x20_0000 <= read_cell(m, 2) <= 0x20_0000,
        fuel >= if read_cell(m, 3) > 1 {
            23int
        } else {
            19int
        },
    ensures
        ({
            let c = if read_cell(m, 3) > 1 {
                read_cell(m, 5) + 1
            } else {
                read_cell(m, 5) as int
            };
            let k: nat = if read_cell(m, 3) > 1 {
                23
            } else {
                19
            };
            &&& read_cell(mm, 0) == read_cell(m, 0)
            &&& read_cell(mm, 1) == read_cell(m, 1)
            &&& read_cell(mm, 2) == read_cell(m, 2) + parity_sign(c)
            &&& spec_run_from(mertens_program(n_max), running(61, Seq::empty(), m, steps), fuel)
                == spec_run_from(mertens_program(n_max), running(90, Seq::empty(), mm, steps + k), (fuel - k) as nat)
        }),
{
    let prog = mertens_program(n_max);
    let r = read_cell(m, 3);
    let cnt = read_cell(m, 5);
    let sum = read_cell(m, 2);
    let ol = seq![Instruction::Push(1), Instruction::Load(3), Instruction::Lt];
    lemma_code_at(n_max, 61, ol);
    lemma_rem_above_one(m);
    lemma_run_straight(prog, running(61, Seq::empty(), m, steps), ol, fuel);
    let t0 = running(64, seq![flag(1 < r)], m, steps + 3);
    lemma_step_on(prog, t0, (fuel - 3) as nat);
    assert(seq![flag(1 < r)].drop_last() =~= Seq::<i64>::empty());
    let m1 = if r > 1 {
        m.insert(5, (cnt + 1) as i64)
    } else {
        m
    };
    let k1: nat = if r > 1 {
        8
    } else {
        4
    };
    if r > 1 {
        assert(spec_step(prog, t0) == running(65, Seq::empty(), m, steps + 4));
        let inc = seq![Instruction::Load(5), Instruction::Push(1), Instruction::Add, Instruction::Store(5)];
        lemma_code_at(n_max, 65, inc);
        lemma_add_store(m, 5, 1, 5);
        lemma_run_straight(prog, running(65, Seq::empty(), m, steps + 4), inc, (fuel - 4) as nat);
    } else {
        assert(spec_step(prog, t0) == running(69, Seq::empty(), m, steps + 4));
    }
    let c = read_cell(m1, 5);
    let sq = seq![Instruction::Load(6), Instruction::Push(1), Instruction::Eq];
    lemma_code_at(n_max, 69, sq);
    lemma_cell_is(m1, 6, 1);
    lemma_run_straight(prog, running(69, Seq::empty(), m1, steps + k1), sq, (fuel - k1) as nat);
    let t1 = running(72, seq![flag(false)], m1, steps + k1 + 3);
    assert(read_cell(m1, 6) == 0);
    lemma_step_on(prog, t1, (fuel - k1 - 3) as nat);
    assert(seq![flag(false)].drop_last() =~= Seq::<i64>::empty());
    assert(spec_step(prog, t1) == running(74, Seq::empty(), m1, steps + k1 + 4));
    let pa = seq![Instruction::Load(5), Instruction::Push(2), Instruction::Mod, Instruction::Push(0), Instruction::Eq];
    lemma_code_at(n_max, 74, pa);
    lemma_even_count(m1);
    lemma_run_straight(prog, running(74, Seq::empty(), m1, steps + k1 + 4), pa, (fuel - k1 - 4) as nat);
    let even = c % 2 == 0;
    let t2 = running(79, seq![flag(even)], m1, steps + k1 + 9);
    lemma_step_on(prog, t2, (fuel - k1 - 9) as nat);
    assert(seq![flag(even)].drop_last() =~= Seq::<i64>::empty());
    if even {
        assert(spec_step(prog, t2) == running(80, Seq::empty(), m1, steps + k1 + 10));
        let up = seq![Instruction::Load(2), Instruction::Push(1), Instruction::Add, Instruction::Store(2)];
        lemma_code_at(n_max, 80, up);
        lemma_add_store(m1, 2, 1, 2);
        lemma_run_straight(prog, running(80, Seq::empty(), m1, steps + k1 + 10), up, (fuel - k1 - 10) as nat);
        let m2 = m1.insert(2, (sum + 1) as i64);
        let t3 = running(84, Seq::empty(), m2, steps + k1 + 14);
        lemma_step_on(prog, t3, (fuel - k1 - 14) as nat);
        assert(spec_step(prog, t3) == running(90, Seq::empty(), m2, steps + k1 + 15));
        m2
    } else {
        assert(spec_step(prog, t2) == running(85, Seq::empty(), m1, steps + k1 + 10));
        let down = seq![Instruction::Load(2), Instruction::Push(1), Instruction::Sub, Instruction::Store(2)];
        lemma_code_at(n_max, 85, down);
        lemma_sum_down(m1);
        lemma_run_straight(prog, running(85, Seq::empty(), m1, steps + k1 + 10), down, (fuel - k1 - 10) as nat);
        let m2 = m1.insert(2, (sum - 1) as i64);
        let t3 = running(89, Seq::empty(), m2, steps + k1 + 14);
        lemma_step_on(prog, t3, (fuel - k1 - 14) as nat);
        assert(spec_step(prog, t3) == running(90, Seq::empty(), m2, steps + k1 + 15));
        m2
    }
}

/// The divisor `d` is at most `2^20 + 1` when `(d - 1)² <= n <= 2^40`.
proof fn lemma_divisor_small(d: int, n: int)
    requires
        2 <= d,
        (d - 1) * (d - 1) <= n <= 0x100_0000_0000,
    ensures
        d <= 0x10_0001,
{
    if d > 0x10_0001 {
        assert((d - 1) * (d - 1) > 0x100_0000_0000) by (nonlinear_arith)
            requires
                d - 1 >= 0x10_0001,
        ;
    }
}

/// When `d` divides `rem` the program divides it out once, counts the
/// factor, and either finds `d²` dividing `n` (then it goes to the check
/// with the sum unchanged) or goes on with `d + 1`.
#[verifier::spinoff_prover]
#[verifier::rlimit(80)]
proof fn lemma_factor_divide(n_max: i64, m: Map<usize, i64>, steps: nat, fuel: nat) -> (mm: Map<usize, i64>)
    requires
        2 <= read_cell(m, 4) <= 0x10_0001,
        read_cell(m, 4) * read_cell(m, 4) <= read_cell(m, 3) <= 0x100_0000_0000,
        read_cell(m, 3) % read_cell(m, 4) == 0,
        0 <= read_cell(m, 5) <= 0x100_0000_0000,
        fuel >= if (read_cell(m, 3) / read_cell(m, 4)) % (read_cell(m, 4) as int) == 0 {
            17int
        } else {
            19int
        },
    ensures
        ({
            let q = read_cell(m, 3) / read_cell(m, 4);
            let square = q % (read_cell(m, 4) as int) == 0;
            &&& square ==> mm == m.insert(3, q as i64).insert(5, (read_cell(m, 5) + 1) as i64).insert(6, 1)
            &&& !square ==> mm == m.insert(3, q as i64).insert(5, (read_cell(m, 5) + 1) as i64).insert(
                4,
                (read_cell(m, 4) + 1) as i64,
            )
            &&& spec_run_from(mertens_program(n_max), running(39, Seq::empty(), m, steps), fuel)
                == spec_run_from(
                mertens_program(n_max),
                running(
                    if square {
                        90
                    } else {
                        20
                    },
                    Seq::empty(),
                    mm,
                    steps + if square {
                        17nat
                    } else {
                        19nat
                    },
                ),
                (fuel - if square {
                    17int
                } else {
                    19int
                }) as nat,
            )
        }),
{
    let prog = mertens_program(n_max);
    let r = read_cell(m, 3);
    let d = read_cell(m, 4);
    let cnt = read_cell(m, 5);
    let dv = seq![Instruction::Load(3), Instruction::Load(4), Instruction::Div, Instruction::Store(3)];
    lemma_code_at(n_max, 39, dv);
    lemma_divide_rem(m);
    lemma_run_straight(prog, running(39, Seq::empty(), m, steps), dv, fuel);
    let q = (r / d) as i64;
    let m1 = m.insert(3, q);
    let inc = seq![Instruction::Load(5), Instruction::Push(1), Instruction::Add, Instruction::Store(5)];
    lemma_code_at(n_max, 43, inc);
    lemma_add_store(m1, 5, 1, 5);
    lemma_run_straight(prog, running(43, Seq::empty(), m1, steps + 4), inc, (fuel - 4) as nat);
    let m2 = m1.insert(5, (cnt + 1) as i64);
    let md = seq![Instruction::Load(3), Instruction::Load(4), Instruction::Mod, Instruction::Push(0), Instruction::Eq];
    lemma_code_at(n_max, 47, md);
    lemma_div_pos_is_pos(r as int, d as int);
    lemma_divides_check(m2, 3, 4);
    lemma_run_straight(prog, running(47, Seq::empty(), m2, steps + 8), md, (fuel - 8) as nat);
    let square = (q as int) % (d as int) == 0;
    let t0 = running(52, seq![flag(square)], m2, steps + 13);
    lemma_step_on(prog, t0, (fuel - 13) as nat);
    assert(seq![flag(square)].drop_last() =~= Seq::<i64>::empty());
    if square {
        assert(spec_step(prog, t0) == running(53, Seq::empty(), m2, steps + 14));
        let st = seq![Instruction::Push(1), Instruction::Store(6)];
        lemma_code_at(n_max, 53, st);
        lemma_set(m2, 1, 6);
        lemma_run_straight(prog, running(53, Seq::empty(), m2, steps + 14), st, (fuel - 14) as nat);
        let m3 = m2.insert(6, 1);
        let t1 = running(55, Seq::empty(), m3, steps + 16);
        lemma_step_on(prog, t1, (fuel - 16) as nat);
        assert(spec_step(prog, t1) == running(90, Seq::empty(), m3, steps + 17));
        m3
    } else {
        assert(spec_step(prog, t0) == running(56, Seq::empty(), m2, steps + 14));
        let nd = seq![Instruction::Load(4), Instruction::Push(1), Instruction::Add, Instruction::Store(4)];
        lemma_code_at(n_max, 56, nd);
        lemma_add_store(m2, 4, 1, 4);
        lemma_run_straight(prog, running(56, Seq::empty(), m2, steps + 14), nd, (fuel - 14) as nat);
        let m3 = m2.insert(4, (d + 1) as i64);
        let t1 = running(60, Seq::empty(), m3, steps + 18);
        lemma_step_on(prog, t1, (fuel - 18) as nat);
        assert(spec_step(prog, t1) == running(20, Seq::empty(), m3, steps + 19));
        m3
    }
}

/// The trial-division loop from `rem`, `d` with `count` factors found: the
/// program adds its Möbius value to the sum and reaches the check.
#[verifier::spinoff_prover]
#[verifier::rlimit(80)]
proof fn lemma_factor_loop(n_max: i64, m: Map<usize, i64>, steps: nat, fuel: nat) -> (mm: Map<usize, i64>)
    requires
        2 <= read_cell(m, 0) <= 0x100_0000_0000,
        -0x20_0000 <= read_cell(m, 2) <= 0x20_0000,
        1 <= read_cell(m, 3) <= read_cell(m, 0),
        2 <= read_cell(m, 4),
        (read_cell(m, 4) - 1) * (read_cell(m, 4) - 1) <= read_cell(m, 0),
        0 <= read_cell(m, 5) <= read_cell(m, 4),
        read_cell(m, 6) == 0,
        fuel >= factor_run(read_cell(m, 3) as int, read_cell(m, 4) as int, read_cell(m, 5) as int).1,
    ensures
        ({
            let f = factor_run(read_cell(m, 3) as int, read_cell(m, 4) as int, read_cell(m, 5) as int);
            &&& read_cell(mm, 0) == read_cell(m, 0)
            &&& read_cell(mm, 1) == read_cell(m, 1)
            &&& read_cell(mm, 2) == read_cell(m, 2) + f.0
            &&& spec_run_from(mertens_program(n_max), running(20, Seq::empty(), m, steps), fuel)
                == spec_run_from(mertens_program(n_max), running(90, Seq::empty(), mm, steps + f.1), (fuel - f.1) as nat)
        }),
    decreases read_cell(m, 3) + 1 - read_cell(m, 4),
{
    let prog = mertens_program(n_max);
    let n = read_cell(m, 0);
    let r = read_cell(m, 3);
    let d = read_cell(m, 4);
    let cnt = read_cell(m, 5);
    lemma_divisor_small(d as int, n as int);
    let sq = seq![Instruction::Load(6), Instruction::Push(1), Instruction::Eq];
    lemma_code_at(n_max, 20, sq);
    lemma_cell_is(m, 6, 1);
    lemma_run_straight(prog, running(20, Seq::empty(), m, steps), sq, fuel);
    let t0 = running(23, seq![flag(false)], m, steps + 3);
    lemma_step_on(prog, t0, (fuel - 3) as nat);
    assert(seq![flag(false)].drop_last() =~= Seq::<i64>::empty());
    assert(spec_step(prog, t0) == running(25, Seq::empty(), m, steps + 4));
    let dd = seq![
        Instruction::Load(4),
        Instruction::Dup,
        Instruction::Mul,
        Instruction::Load(3),
        Instruction::Swap,
        Instruction::Lt,
    ];
    lemma_code_at(n_max, 25, dd);
    lemma_square_over(m);
    lemma_run_straight(prog, running(25, Seq::empty(), m, steps + 4), dd, (fuel - 4) as nat);
    let over = r < d * d;
    let t1 = running(31, seq![flag(over)], m, steps + 10);
    lemma_step_on(prog, t1, (fuel - 10) as nat);
    assert(seq![flag(over)].drop_last() =~= Seq::<i64>::empty());
    if over {
        let t2 = running(32, Seq::empty(), m, steps + 11);
        assert(spec_step(prog, t1) == t2);
        lemma_step_on(prog, t2, (fuel - 11) as nat);
        assert(spec_step(prog, t2) == running(61, Seq::empty(), m, steps + 12));
        lemma_factor_done(n_max, m, steps + 12, (fuel - 12) as nat)
    } else {
        assert(spec_step(prog, t1) == running(33, Seq::empty(), m, steps + 11));
        lemma_quotient_at_least(r as int, d as int);
        let md = seq![Instruction::Load(3), Instruction::Load(4), Instruction::Mod, Instruction::Push(0), Instruction::Eq];
        lemma_code_at(n_max, 33, md);
        lemma_divides_check(m, 3, 4);
        lemma_run_straight(prog, running(33, Seq::empty(), m, steps + 11), md, (fuel - 11) as nat);
        let divides = r % d == 0;
        let t2 = running(38, seq![flag(divides)], m, steps + 16);
        lemma_step_on(prog, t2, (fuel - 16) as nat);
        assert(seq![flag(divides)].drop_last() =~= Seq::<i64>::empty());
        if divides {
            assert(spec_step(prog, t2) == running(39, Seq::empty(), m, steps + 17));
            let m1 = lemma_factor_divide(n_max, m, steps + 17, (fuel - 17) as nat);
            let q = r / d;
            if q % (d as int) == 0 {
                m1
            } else {
                lemma_div_pos_is_pos(r as int, d as int);
                assert(q >= d);
                assert(read_cell(m1, 3) == q && read_cell(m1, 4) == d + 1 && read_cell(m1, 5) == cnt + 1
                    && read_cell(m1, 6) == 0 && read_cell(m1, 0) == n && read_cell(m1, 2) == read_cell(m, 2));
                assert(q <= r) by (nonlinear_arith)
                    requires
                        0 <= r,
                        2 <= d,
                        q == r / d,
                ;
                lemma_factor_loop(n_max, m1, steps + 36, (fuel - 36) as nat)
            }
        } else {
            assert(spec_step(prog, t2) == running(56, Seq::empty(), m, steps + 17));
            let nd = seq![Instruction::Load(4), Instruction::Push(1), Instruction::Add, Instruction::Store(4)];
            lemma_code_at(n_max, 56, nd);
            lemma_add_store(m, 4, 1, 4);
            lemma_run_straight(prog, running(56, Seq::empty(), m, steps + 17), nd, (fuel - 17) as nat);
            let m1 = m.insert(4, (d + 1) as i64);
            let t3 = running(60, Seq::empty(), m1, steps + 21);
            lemma_step_on(prog, t3, (fuel - 21) as nat);
            assert(spec_step(prog, t3) == running(20, Seq::empty(), m1, steps + 22));
            lemma_factor_loop(n_max, m1, steps + 22, (fuel - 22) as nat)
        }
    }
}

/// The outer loop from `n >= 2` with `M(n - 1)` in the sum: the program
/// halts with 1 when `M(k)² <= k` for every `k` from `n` to the bound, and
/// with 0 otherwise.
#[verifier::spinoff_prover]
#[verifier::rlimit(80)]
proof fn lemma_outer(n_max: i64, m: Map<usize, i64>, steps: nat, fuel: nat)
    requires
        read_cell(m, 1) == n_max,
        n_max <= 0x100_0000_0000,
        2 <= read_cell(m, 0),
        read_cell(m, 2) == mertens(read_cell(m, 0) - 1),
        read_cell(m, 2) * read_cell(m, 2) <= read_cell(m, 0) - 1,
        fuel >= outer_run(n_max as int, read_cell(m, 0) as int).1 + 1,
    ensures
        spec_run_from(mertens_program(n_max), running(6, Seq::empty(), m, steps), fuel).outcome == Some(
            VmOutcome::Halted(
                if outer_run(n_max as int, read_cell(m, 0) as int).0 {
                    1u8
                } else {
                    0u8
                },
            ),
        ),
    decreases (if read_cell(m, 0) <= n_max {
        n_max + 1 - read_cell(m, 0)
    } else {
        0
    }),
{
    let prog = mertens_program(n_max);
    let n = read_cell(m, 0);
    let sum = read_cell(m, 2);
    let hdr = seq![Instruction::Load(0), Instruction::Load(1), Instruction::Swap, Instruction::Lt];
    lemma_code_at(n_max, 6, hdr);
    lemma_bound_check(m);
    lemma_run_straight(prog, running(6, Seq::empty(), m, steps), hdr, fuel);
    let t0 = running(10, seq![flag(n_max < n)], m, steps + 4);
    lemma_step_on(prog, t0, (fuel - 4) as nat);
    assert(seq![flag(n_max < n)].drop_last() =~= Seq::<i64>::empty());
    if n > n_max {
        let t1 = running(11, Seq::empty(), m, steps + 5);
        assert(spec_step(prog, t0) == t1);
        lemma_step_on(prog, t1, (fuel - 5) as nat);
        let t2 = spec_step(prog, t1);
        assert(t2.outcome == Some(VmOutcome::Halted(1)));
        assert(spec_run_from(prog, t2, (fuel - 6) as nat) == t2);
    } else {
        assert(spec_step(prog, t0) == running(12, Seq::empty(), m, steps + 5));
        // Set up the trial division: rem = n, count = 0, no square, d = 2.
        let e = Seq::<i64>::empty();
        let i1 = seq![Instruction::Load(0), Instruction::Store(3)];
        let i2 = seq![Instruction::Push(0), Instruction::Store(5)];
        let i3 = seq![Instruction::Push(0), Instruction::Store(6)];
        let i4 = seq![Instruction::Push(2), Instruction::Store(4)];
        let ma = m.insert(3, n);
        let mb = ma.insert(5, 0);
        let mc = mb.insert(6, 0);
        let m1 = mc.insert(4, 2);
        lemma_copy(m, 0, 3);
        lemma_set(ma, 0, 5);
        lemma_then(i1, i2, e, m, e, ma);
        lemma_set(mb, 0, 6);
        lemma_then(i1 + i2, i3, e, m, e, mb);
        lemma_set(mc, 2, 4);
        lemma_then(i1 + i2 + i3, i4, e, m, e, mc);
        let init = seq![
            Instruction::Load(0),
            Instruction::Store(3),
            Instruction::Push(0),
            Instruction::Store(5),
            Instruction::Push(0),
            Instruction::Store(6),
            Instruction::Push(2),
            Instruction::Store(4),
        ];
        assert(i1 + i2 + i3 + i4 =~= init);
        lemma_code_at(n_max, 12, init);
        lemma_run_straight(prog, running(12, Seq::empty(), m, steps + 5), init, (fuel - 5) as nat);
        // The sum is small.
        assert(-0x10_0000 <= sum <= 0x10_0000) by {
            if sum > 0x10_0000 || sum < -0x10_0000 {
                assert(sum * sum > 0x100_0000_0000) by (nonlinear_arith)
                    requires
                        sum > 0x10_0000 || sum < -0x10_0000,
                ;
            }
        }
        assert(read_cell(m1, 0) == n && read_cell(m1, 2) == sum && read_cell(m1, 3) == n && read_cell(m1, 4) == 2
            && read_cell(m1, 5) == 0 && read_cell(m1, 6) == 0 && read_cell(m1, 1) == n_max);
        let f = factor_run(n as int, 2, 0);
        let mf = lemma_factor_loop(n_max, m1, steps + 13, (fuel - 13) as nat);
        lemma_factor_value(n as int, 2, 0);
        assert(read_cell(mf, 2) == mertens(n as int));
        lemma_mobius_range(n as int);
        let mn = read_cell(mf, 2);
        let ck = seq![Instruction::Load(0), Instruction::Load(2), Instruction::Dup, Instruction::Mul, Instruction::Lt];
        lemma_code_at(n_max, 90, ck);
        lemma_sum_check(mf);
        lemma_run_straight(prog, running(90, Seq::empty(), mf, steps + 13 + f.1), ck, (fuel - 13 - f.1) as nat);
        let bad = n < mn * mn;
        let t1 = running(95, seq![flag(bad)], mf, steps + 18 + f.1);
        lemma_step_on(prog, t1, (fuel - 18 - f.1) as nat);
        assert(seq![flag(bad)].drop_last() =~= Seq::<i64>::empty());
        if bad {
            let t2 = running(96, Seq::empty(), mf, steps + 19 + f.1);
            assert(spec_step(prog, t1) == t2);
            lemma_step_on(prog, t2, (fuel - 19 - f.1) as nat);
            let t3 = spec_step(prog, t2);
            assert(t3.outcome == Some(VmOutcome::Halted(0)));
            assert(spec_run_from(prog, t3, (fuel - 20 - f.1) as nat) == t3);
        } else {
            assert(spec_step(prog, t1) == running(97, Seq::empty(), mf, steps + 19 + f.1));
            let nx = seq![Instruction::Load(0), Instruction::Push(1), Instruction::Add, Instruction::Store(0)];
            lemma_code_at(n_max, 97, nx);
            lemma_add_store(mf, 0, 1, 0);
            lemma_run_straight(prog, running(97, Seq::empty(), mf, steps + 19 + f.1), nx, (fuel - 19 - f.1) as nat);
            let m2 = mf.insert(0, (n + 1) as i64);
            let t2 = running(101, Seq::empty(), m2, steps + 23 + f.1);
            lemma_step_on(prog, t2, (fuel - 23 - f.1) as nat);
            assert(spec_step(prog, t2) == running(6, Seq::empty(), m2, steps + 24 + f.1));
            assert(read_cell(m2, 0) == n + 1 && read_cell(m2, 1) == n_max && read_cell(m2, 2) == mertens(n as int));
            lemma_outer(n_max, m2, steps + 24 + f.1, (fuel - 24 - f.1) as nat);
        }
    }
}

/// Steps the Mertens program takes until it halts: the initialisation,
/// the loops, and the halt.
pub open spec fn mertens_steps(n_max: int) -> nat {
    6 + outer_run(n_max, 2).1 + 1
}

/// The Mertens program for a bound N, run for its budget, halts with 1
/// exactly when `M(n)² <= n` for every `n` from 1 to N, and with 0
/// otherwise, for every bound the builder accepts.
pub proof fn lemma_mertens_program_decides(n_max: i64)
    requires
        (n_max as u64) * root_above((n_max as u64) as nat) * 20 * 102 <= u64::MAX,
    ensures
        reported_outcome(spec_run(mertens_program(n_max), mertens_budget(n_max) as nat))
            == VmOutcome::Halted(if mertens_bound_up_to(n_max as int) { 1u8 } else { 0u8 }),
{
    let prog = mertens_program(n_max);
    let budget = mertens_budget(n_max);
    lemma_mertens_budget_suffices(n_max);
    assert(n_max <= 0x100_0000_0000) by {
        if n_max > 0x100_0000_0000 {
            let n = (n_max as u64) as nat;
            let r = root_above(n);
            lemma_root_search(n, 1);
            assert(r > 0x10_0000) by (nonlinear_arith)
                requires
                    r * r > n,
                    n > 0x100_0000_0000,
                    r >= 1,
            ;
            assert(n * r * 20 * 102 > u64::MAX) by (nonlinear_arith)
                requires
                    n > 0x100_0000_0000,
                    r > 0x10_0000,
            ;
        }
    }
    let e = Seq::<i64>::empty();
    let m1 = Map::<usize, i64>::empty().insert(1, n_max);
    let m2 = m1.insert(2, 1);
    let m0 = m2.insert(0, 2);
    let i1 = seq![Instruction::Push(n_max), Instruction::Store(1)];
    let i2 = seq![Instruction::Push(1), Instruction::Store(2)];
    let i3 = seq![Instruction::Push(2), Instruction::Store(0)];
    lemma_set(Map::empty(), n_max, 1);
    lemma_set(m1, 1, 2);
    lemma_then(i1, i2, e, Map::empty(), e, m1);
    lemma_set(m2, 2, 0);
    lemma_then(i1 + i2, i3, e, Map::empty(), e, m2);
    let init = seq![
        Instruction::Push(n_max),
        Instruction::Store(1),
        Instruction::Push(1),
        Instruction::Store(2),
        Instruction::Push(2),
        Instruction::Store(0),
    ];
    assert(i1 + i2 + i3 =~= init);
    lemma_code_at(n_max, 0, init);
    lemma_run_straight(prog, initial_state(), init, budget as nat);
    assert(mertens(1) == 1) by {
        assert(mertens(0) == 0);
        assert(mobius(1) == 1);
    }
    assert(read_cell(m0, 0) == 2 && read_cell(m0, 1) == n_max && read_cell(m0, 2) == mertens(1));
    lemma_outer(n_max, m0, 6, (budget - 6) as nat);
    lemma_outer_found(n_max as int, 2);
    if outer_run(n_max as int, 2).0 {
        assert forall|n: int| 1 <= n <= n_max implies #[trigger] mertens(n) * mertens(n) <= n by {
            if n == 1 {
                assert(mertens(1) * mertens(1) == 1);
            }
        }
    } else {
        let k = choose|k: int| !(2 <= k <= n_max ==> #[trigger] mertens(k) * mertens(k) <= k);
        assert(!(1 <= k <= n_max ==> mertens(k) * mertens(k) <= k));
    }
}

// ── The budget ──────────────────────────────────────────────────────

/// The trial division from `d` takes at most `36 (r - d) + 35` steps when
/// `rem < r²` and `d <= r`.
proof fn lemma_factor_steps(rem: int, d: int, count: int, r: int)
    requires
        2 <= d <= r,
        rem < r * r,
    ensures
        factor_run(rem, d, count).1 <= 36 * (r - d) + 35,
    decreases rem + 1 - d,
{
    if rem >= d * d {
        assert(d < r) by (nonlinear_arith)
            requires
                d * d <= rem,
                rem < r * r,
                2 <= d,
                1 <= r,
        ;
        lemma_quotient_at_least(rem, d);
        if rem % d == 0 {
            if (rem / d) % d != 0 {
                lemma_div_pos_is_pos(rem, d);
                assert(rem / d <= rem) by (nonlinear_arith)
                    requires
                        0 <= rem,
                        2 <= d,
                ;
                lemma_factor_steps(rem / d, d + 1, count + 1, r);
            }
        } else {
            lemma_factor_steps(rem, d + 1, count, r);
        }
    }
}

/// The outer loop from `n >= 2` takes at most `(36r + 59)` steps for each
/// number up to the bound, where `r² > N`.
proof fn lemma_outer_steps(n_max: int, n: int, r: int)
    requires
        2 <= n,
        2 <= r,
        n_max < r * r,
    ensures
        outer_run(n_max, n).1 <= (if n_max + 1 - n > 0 {
            n_max + 1 - n
        } else {
            0
        }) * (36 * r + 59) + 5,
    decreases n_max + 1 - n,
{
    if n <= n_max {
        lemma_factor_steps(n, 2, 0, r);
        if !(n < mertens(n) * mertens(n)) {
            lemma_outer_steps(n_max, n + 1, r);
        }
        let c = 36 * r + 59;
        assert((n_max + 1 - n) * c == (n_max - n) * c + c) by (nonlinear_arith);
        assert(0 <= (n_max - n) * c) by (nonlinear_arith)
            requires
                n <= n_max,
                c >= 0,
        ;
    }
}

/// For the bounds the builder accepts, the budget `204 N r + 10^6` covers
/// the whole run, where `r` is the least number with `r² > N`.
pub proof fn lemma_mertens_budget_suffices(n_max: i64)
    requires
        (n_max as u64) * root_above((n_max as u64) as nat) * 20 * 102 <= u64::MAX,
    ensures
        mertens_steps(n_max as int) <= mertens_budget(n_max),
{
    let n = (n_max as u64) as nat;
    let r = root_above(n);
    lemma_root_search(n, 1);
    if n_max >= 2 {
        assert(n == n_max);
        assert(r >= 2) by (nonlinear_arith)
            requires
                r * r > n,
                n >= 2,
                r >= 1,
        ;
        lemma_outer_steps(n_max as int, 2, r as int);
        let c = 36 * r + 59;
        assert((n_max - 1) * c + 12 <= (n * r * 20 * 102) / 10 + 1_000_000) by (nonlinear_arith)
            requires
                c == 36 * r + 59,
                n == n_max,
                n_max >= 2,
                r >= 2,
        ;
    } else {
        assert(0 <= (n * r * 20 * 102) / 10) by (nonlinear_arith);
    }
}

} // verus!
