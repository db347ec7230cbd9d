//! What the Fermat program decides.
//!
//! The program runs over the exponents e = 3, 4, ... up to its bound E and
//! over the bases a, b, c = 1, 2, ... up to its bound M, computes a^e, b^e
//! and c^e by repeated multiplication, and halts with 0 at the first
//! a^e + b^e = c^e; when there is none it halts with 1.

use crate::goldbach::lemma_set;
use crate::open_problems::{flt_budget, flt_program};
use crate::trial_division::running;
use crate::twin_primes::{lemma_add_store, lemma_copy, lemma_step_on};
use crate::vm::{
    exec_straight, flag, initial_state, lemma_binary_on, lemma_load_on, lemma_push_on, lemma_run_straight,
    lemma_store_on, lemma_swap_on, lemma_then, read_cell, reported_outcome, spec_run, spec_run_from,
    spec_step, Instruction, VmOutcome,
};
use vstd::prelude::*;

verus! {

/// `b` to the power `e`.
pub open spec fn power(b: int, e: nat) -> int
    decreases e,
{
    if e == 0 {
        1
    } else {
        power(b, (e - 1) as nat) * b
    }
}

/// Some exponent `3 <= e <= max_exp` and bases `1 <= a, b, c <= max_base`
/// have `a^e + b^e = c^e`.
pub open spec fn fermat_counterexample(max_exp: int, max_base: int) -> bool {
    exists|e: nat, a: int, b: int, c: int|
        3 <= e <= max_exp && 1 <= a <= max_base && 1 <= b <= max_base && 1 <= c <= max_base
            && #[trigger] power(a, e) + #[trigger] power(b, e) == #[trigger] power(c, e)
}

// ── Powers ──────────────────────────────────────────────────────────

pub proof fn lemma_power_positive(x: int, e: nat)
    requires
        x >= 1,
    ensures
        power(x, e) >= 1,
    decreases e,
{
    if e > 0 {
        lemma_power_positive(x, (e - 1) as nat);
        let q = power(x, (e - 1) as nat);
        assert(q * x >= 1) by (nonlinear_arith)
            requires
                q >= 1,
                x >= 1,
        ;
    }
}

/// Powers grow with the base.
pub proof fn lemma_power_base_mono(x: int, y: int, e: nat)
    requires
        1 <= x <= y,
    ensures
        power(x, e) <= power(y, e),
    decreases e,
{
    if e > 0 {
        lemma_power_base_mono(x, y, (e - 1) as nat);
        lemma_power_positive(x, (e - 1) as nat);
        let p = power(x, (e - 1) as nat);
        let q = power(y, (e - 1) as nat);
        assert(p * x <= q * y) by (nonlinear_arith)
            requires
                1 <= p <= q,
                1 <= x <= y,
        ;
    }
}

/// Powers of a base at least 1 grow with the exponent.
pub proof fn lemma_power_exp_mono(y: int, e1: nat, e2: nat)
    requires
        y >= 1,
        e1 <= e2,
    ensures
        power(y, e1) <= power(y, e2),
    decreases e2,
{
    if e1 < e2 {
        lemma_power_exp_mono(y, e1, (e2 - 1) as nat);
        lemma_power_positive(y, (e2 - 1) as nat);
        let q = power(y, (e2 - 1) as nat);
        assert(q <= q * y) by (nonlinear_arith)
            requires
                q >= 1,
                y >= 1,
        ;
    }
}

/// Every power computed by the program is at most `max_base^max_exp`.
pub proof fn lemma_power_within(x: int, e: nat, max_base: int, max_exp: nat)
    requires
        1 <= x <= max_base,
        e <= max_exp,
    ensures
        1 <= power(x, e) <= power(max_base, max_exp),
{
    lemma_power_positive(x, e);
    lemma_power_base_mono(x, max_base, e);
    lemma_power_exp_mono(max_base, e, max_exp);
}

// ── The loops ───────────────────────────────────────────────────────

/// Steps of a power computation with exponent `e`.
pub open spec fn power_steps(e: nat) -> nat {
    13 * e + 5
}

/// Some `c` in `[c0, max_base]` has `c^e = s`.
pub open spec fn third_from(s: int, e: nat, max_base: int, c0: int) -> bool {
    exists|c: int| c0 <= c <= max_base && #[trigger] power(c, e) == s
}

/// Some `b` in `[b0, max_base]` has `a^e + b^e` an `e`-th power.
pub open spec fn second_from(a: int, e: nat, max_base: int, b0: int) -> bool {
    exists|b: int| b0 <= b <= max_base && #[trigger] third_from(power(a, e) + power(b, e), e, max_base, 1)
}

/// Some `a` in `[a0, max_base]` starts a counterexample for `e`.
pub open spec fn first_from(e: nat, max_base: int, a0: int) -> bool {
    exists|a: int| a0 <= a <= max_base && #[trigger] second_from(a, e, max_base, 1)
}

/// Some exponent in `[e0, max_exp]` has a counterexample.
pub open spec fn exponent_from(max_exp: int, max_base: int, e0: nat) -> bool {
    exists|e: nat| e0 <= e <= max_exp && #[trigger] first_from(e, max_base, 1)
}

/// The third loop from `c` (position 66): whether it meets `s = c^e`, and
/// its steps to the `Halt(0)` instruction (met) or to the head of the
/// second loop with `b + 1`.
pub open spec fn third_run(s: int, e: nat, max_base: int, c: int) -> (bool, nat)
    decreases max_base + 1 - c,
{
    if c > max_base {
        (false, 11)
    } else if power(c, e) == s {
        (true, power_steps(e) + 15)
    } else {
        let r = third_run(s, e, max_base, c + 1);
        (r.0, power_steps(e) + 20 + r.1)
    }
}

/// The second loop from `b` (position 40), to the `Halt(0)` instruction or
/// to the head of the first loop with `a + 1`.
pub open spec fn second_run(a: int, e: nat, max_base: int, b: int) -> (bool, nat)
    decreases max_base + 1 - b,
{
    if b > max_base {
        (false, 11)
    } else {
        let r = third_run(power(a, e) + power(b, e), e, max_base, 1);
        if r.0 {
            (true, power_steps(e) + 11 + r.1)
        } else {
            let q = second_run(a, e, max_base, b + 1);
            (q.0, power_steps(e) + 11 + r.1 + q.1)
        }
    }
}

/// The first loop from `a` (position 14), to the `Halt(0)` instruction or
/// to the head of the exponent loop with `e + 1`.
pub open spec fn first_run(e: nat, max_base: int, a: int) -> (bool, nat)
    decreases max_base + 1 - a,
{
    if a > max_base {
        (false, 11)
    } else {
        let r = second_run(a, e, max_base, 1);
        if r.0 {
            (true, power_steps(e) + 11 + r.1)
        } else {
            let q = first_run(e, max_base, a + 1);
            (q.0, power_steps(e) + 11 + r.1 + q.1)
        }
    }
}

/// The exponent loop from `e` (position 6), to the halting instruction.
pub open spec fn exponent_run(max_exp: int, max_base: int, e: nat) -> (bool, nat)
    decreases max_exp + 1 - e,
{
    if e > max_exp {
        (false, 5)
    } else {
        let r = first_run(e, max_base, 1);
        if r.0 {
            (true, 7 + r.1)
        } else {
            let q = exponent_run(max_exp, max_base, e + 1);
            (q.0, 7 + r.1 + q.1)
        }
    }
}

// ── What the loops find ─────────────────────────────────────────────

proof fn lemma_third_found(s: int, e: nat, max_base: int, c: int)
    ensures
        third_run(s, e, max_base, c).0 == third_from(s, e, max_base, c),
    decreases max_base + 1 - c,
{
    if c > max_base {
    } else if power(c, e) == s {
        assert(c <= c <= max_base && power(c, e) == s);
    } else {
        lemma_third_found(s, e, max_base, c + 1);
        if third_from(s, e, max_base, c) {
            let w = choose|w: int| c <= w <= max_base && #[trigger] power(w, e) == s;
            assert(w != c);
            assert(c + 1 <= w <= max_base && power(w, e) == s);
        }
        if third_from(s, e, max_base, c + 1) {
            let w = choose|w: int| c + 1 <= w <= max_base && #[trigger] power(w, e) == s;
            assert(c <= w <= max_base && power(w, e) == s);
        }
    }
}

proof fn lemma_second_found(a: int, e: nat, max_base: int, b: int)
    ensures
        second_run(a, e, max_base, b).0 == second_from(a, e, max_base, b),
    decreases max_base + 1 - b,
{
    if b <= max_base {
        lemma_third_found(power(a, e) + power(b, e), e, max_base, 1);
        if third_run(power(a, e) + power(b, e), e, max_base, 1).0 {
            assert(b <= b <= max_base && third_from(power(a, e) + power(b, e), e, max_base, 1));
        } else {
            lemma_second_found(a, e, max_base, b + 1);
            if second_from(a, e, max_base, b) {
                let w = choose|w: int| b <= w <= max_base && #[trigger] third_from(power(a, e) + power(w, e), e, max_base, 1);
                assert(w != b);
                assert(b + 1 <= w <= max_base && third_from(power(a, e) + power(w, e), e, max_base, 1));
            }
            if second_from(a, e, max_base, b + 1) {
                let w = choose|w: int| b + 1 <= w <= max_base && #[trigger] third_from(power(a, e) + power(w, e), e, max_base, 1);
                assert(b <= w <= max_base && third_from(power(a, e) + power(w, e), e, max_base, 1));
            }
        }
    }
}

proof fn lemma_first_found(e: nat, max_base: int, a: int)
    ensures
        first_run(e, max_base, a).0 == first_from(e, max_base, a),
    decreases max_base + 1 - a,
{
    if a <= max_base {
        lemma_second_found(a, e, max_base, 1);
        if second_run(a, e, max_base, 1).0 {
            assert(a <= a <= max_base && second_from(a, e, max_base, 1));
        } else {
            lemma_first_found(e, max_base, a + 1);
            if first_from(e, max_base, a) {
                let w = choose|w: int| a <= w <= max_base && #[trigger] second_from(w, e, max_base, 1);
                assert(w != a);
                assert(a + 1 <= w <= max_base && second_from(w, e, max_base, 1));
            }
            if first_from(e, max_base, a + 1) {
                let w = choose|w: int| a + 1 <= w <= max_base && #[trigger] second_from(w, e, max_base, 1);
                assert(a <= w <= max_base && second_from(w, e, max_base, 1));
            }
        }
    }
}

proof fn lemma_exponent_found(max_exp: int, max_base: int, e: nat)
    ensures
        exponent_run(max_exp, max_base, e).0 == exponent_from(max_exp, max_base, e),
    decreases max_exp + 1 - e,
{
    if e <= max_exp {
        lemma_first_found(e, max_base, 1);
        if first_run(e, max_base, 1).0 {
            assert(e <= e <= max_exp && first_from(e, max_base, 1));
        } else {
            lemma_exponent_found(max_exp, max_base, e + 1);
            if exponent_from(max_exp, max_base, e) {
                let w = choose|w: nat| e <= w <= max_exp && #[trigger] first_from(w, max_base, 1);
                assert(w != e);
                assert(e + 1 <= w <= max_exp && first_from(w, max_base, 1));
            }
            if exponent_from(max_exp, max_base, e + 1) {
                let w = choose|w: nat| e + 1 <= w <= max_exp && #[trigger] first_from(w, max_base, 1);
                assert(e <= w <= max_exp && first_from(w, max_base, 1));
            }
        }
    }
}

/// The loops find exactly the counterexamples.
proof fn lemma_exponent_is_counterexample(max_exp: int, max_base: int)
    ensures
        exponent_from(max_exp, max_base, 3) == fermat_counterexample(max_exp, max_base),
{
    if exponent_from(max_exp, max_base, 3) {
        let e = choose|e: nat| 3 <= e <= max_exp && #[trigger] first_from(e, max_base, 1);
        let a = choose|a: int| 1 <= a <= max_base && #[trigger] second_from(a, e, max_base, 1);
        let b = choose|b: int| 1 <= b <= max_base && #[trigger] third_from(power(a, e) + power(b, e), e, max_base, 1);
        let c = choose|c: int| 1 <= c <= max_base && #[trigger] power(c, e) == power(a, e) + power(b, e);
        assert(3 <= e <= max_exp && 1 <= a <= max_base && 1 <= b <= max_base && 1 <= c <= max_base
            && power(a, e) + power(b, e) == power(c, e));
    }
    if fermat_counterexample(max_exp, max_base) {
        let (e, a, b, c) = choose|e: nat, a: int, b: int, c: int|
            3 <= e <= max_exp && 1 <= a <= max_base && 1 <= b <= max_base && 1 <= c <= max_base
                && #[trigger] power(a, e) + #[trigger] power(b, e) == #[trigger] power(c, e);
        assert(third_from(power(a, e) + power(b, e), e, max_base, 1));
        assert(second_from(a, e, max_base, 1));
        assert(first_from(e, max_base, 1));
    }
}


// ── Straight-line code ──────────────────────────────────────────────

/// `code` sits at `start` in the program.
proof fn lemma_code_at(max_exp: i64, max_base: i64, start: int, code: Seq<Instruction>)
    requires
        0 <= start,
        start + code.len() <= 117,
        forall|j: int| 0 <= j < code.len() ==> flt_program(max_exp, max_base)[start + j] == #[trigger] code[j],
    ensures
        flt_program(max_exp, max_base).subrange(start, start + code.len()) == code,
{
    assert(flt_program(max_exp, max_base).subrange(start, start + code.len()) =~= code);
}

/// `Load(10), Push(0), Eq` pushes whether the counter is zero.
proof fn lemma_counter_zero(m: Map<usize, i64>)
    ensures
        exec_straight(seq![Instruction::Load(10), Instruction::Push(0), Instruction::Eq], Seq::empty(), m)
            == Ok::<(Seq<i64>, Map<usize, i64>), crate::vm::Fault>((seq![flag(read_cell(m, 10) == 0)], m)),
{
    let e = Seq::<i64>::empty();
    let k = read_cell(m, 10);
    let k1 = seq![Instruction::Load(10)];
    let k2 = seq![Instruction::Push(0)];
    let k3 = seq![Instruction::Eq];
    lemma_load_on(e, m, 10);
    lemma_push_on(e.push(k), m, 0);
    lemma_then(k1, k2, e, m, e.push(k), m);
    lemma_binary_on(Instruction::Eq, e, m, k, 0);
    lemma_then(k1 + k2, k3, e, m, e.push(k).push(0), m);
    assert(k1 + k2 + k3 =~= seq![Instruction::Load(10), Instruction::Push(0), Instruction::Eq]);
    assert(e.push(flag(k == 0)) =~= seq![flag(k == 0)]);
}

/// `Load(acc), Load(base), Mul, Store(acc)` multiplies cell `acc` by cell
/// `base`.
proof fn lemma_multiply_into(m: Map<usize, i64>, acc: usize, base: usize)
    requires
        i64::MIN <= read_cell(m, acc) * read_cell(m, base) <= i64::MAX,
    ensures
        exec_straight(
            seq![Instruction::Load(acc), Instruction::Load(base), Instruction::Mul, Instruction::Store(acc)],
            Seq::empty(),
            m,
        ) == Ok::<(Seq<i64>, Map<usize, i64>), crate::vm::Fault>(
            (Seq::empty(), m.insert(acc, (read_cell(m, acc) * read_cell(m, base)) as i64)),
        ),
{
    let e = Seq::<i64>::empty();
    let u = read_cell(m, acc);
    let x = read_cell(m, base);
    let w = (u * x) as i64;
    let k1 = seq![Instruction::Load(acc)];
    let k2 = seq![Instruction::Load(base)];
    let k3 = seq![Instruction::Mul];
    let k4 = seq![Instruction::Store(acc)];
    lemma_load_on(e, m, acc);
    lemma_load_on(e.push(u), m, base);
    lemma_then(k1, k2, e, m, e.push(u), m);
    lemma_binary_on(Instruction::Mul, e, m, u, x);
    lemma_then(k1 + k2, k3, e, m, e.push(u).push(x), m);
    lemma_store_on(e, m, acc, w);
    lemma_then(k1 + k2 + k3, k4, e, m, e.push(w), m);
    assert(k1 + k2 + k3 + k4 =~= seq![Instruction::Load(acc), Instruction::Load(base), Instruction::Mul, Instruction::Store(acc)]);
}

/// `Load(10), Push(1), Sub, Store(10)` counts the counter down.
proof fn lemma_count_down(m: Map<usize, i64>)
    requires
        0 < read_cell(m, 10),
    ensures
        exec_straight(
            seq![Instruction::Load(10), Instruction::Push(1), Instruction::Sub, Instruction::Store(10)],
            Seq::empty(),
            m,
        ) == Ok::<(Seq<i64>, Map<usize, i64>), crate::vm::Fault>(
            (Seq::empty(), m.insert(10, (read_cell(m, 10) - 1) as i64)),
        ),
{
    let e = Seq::<i64>::empty();
    let k = read_cell(m, 10);
    let w = (k - 1) as i64;
    let k1 = seq![Instruction::Load(10)];
    let k2 = seq![Instruction::Push(1)];
    let k3 = seq![Instruction::Sub];
    let k4 = seq![Instruction::Store(10)];
    lemma_load_on(e, m, 10);
    lemma_push_on(e.push(k), m, 1);
    lemma_then(k1, k2, e, m, e.push(k), m);
    lemma_binary_on(Instruction::Sub, e, m, k, 1);
    lemma_then(k1 + k2, k3, e, m, e.push(k).push(1), m);
    lemma_store_on(e, m, 10, w);
    lemma_then(k1 + k2 + k3, k4, e, m, e.push(w), m);
    assert(k1 + k2 + k3 + k4 =~= seq![Instruction::Load(10), Instruction::Push(1), Instruction::Sub, Instruction::Store(10)]);
}

/// `Load(i), Load(j), Swap, Lt` pushes whether cell `j` is below cell `i`.
proof fn lemma_past(m: Map<usize, i64>, i: usize, j: usize)
    ensures
        exec_straight(
            seq![Instruction::Load(i), Instruction::Load(j), Instruction::Swap, Instruction::Lt],
            Seq::empty(),
            m,
        ) == Ok::<(Seq<i64>, Map<usize, i64>), crate::vm::Fault>(
            (seq![flag(read_cell(m, j) < read_cell(m, i))], m),
        ),
{
    let e = Seq::<i64>::empty();
    let x = read_cell(m, i);
    let y = read_cell(m, j);
    let k1 = seq![Instruction::Load(i)];
    let k2 = seq![Instruction::Load(j)];
    let k3 = seq![Instruction::Swap];
    let k4 = seq![Instruction::Lt];
    lemma_load_on(e, m, i);
    lemma_load_on(e.push(x), m, j);
    lemma_then(k1, k2, e, m, e.push(x), m);
    lemma_swap_on(e, m, x, y);
    lemma_then(k1 + k2, k3, e, m, e.push(x).push(y), m);
    lemma_binary_on(Instruction::Lt, e, m, y, x);
    lemma_then(k1 + k2 + k3, k4, e, m, e.push(y).push(x), m);
    assert(k1 + k2 + k3 + k4 =~= seq![Instruction::Load(i), Instruction::Load(j), Instruction::Swap, Instruction::Lt]);
    assert(e.push(flag(y < x)) =~= seq![flag(y < x)]);
}

/// `Load(6), Load(7), Add, Load(8), Eq` pushes whether `a^e + b^e = c^e`.
proof fn lemma_sum_check(m: Map<usize, i64>)
    requires
        i64::MIN <= read_cell(m, 6) + read_cell(m, 7) <= i64::MAX,
    ensures
        exec_straight(
            seq![Instruction::Load(6), Instruction::Load(7), Instruction::Add, Instruction::Load(8), Instruction::Eq],
            Seq::empty(),
            m,
        ) == Ok::<(Seq<i64>, Map<usize, i64>), crate::vm::Fault>(
            (seq![flag(read_cell(m, 6) + read_cell(m, 7) == read_cell(m, 8))], m),
        ),
{
    let e = Seq::<i64>::empty();
    let u = read_cell(m, 6);
    let v = read_cell(m, 7);
    let w = read_cell(m, 8);
    let s = (u + v) as i64;
    let k1 = seq![Instruction::Load(6)];
    let k2 = seq![Instruction::Load(7)];
    let k3 = seq![Instruction::Add];
    let k4 = seq![Instruction::Load(8)];
    let k5 = seq![Instruction::Eq];
    lemma_load_on(e, m, 6);
    lemma_load_on(e.push(u), m, 7);
    lemma_then(k1, k2, e, m, e.push(u), m);
    lemma_binary_on(Instruction::Add, e, m, u, v);
    lemma_then(k1 + k2, k3, e, m, e.push(u).push(v), m);
    lemma_load_on(e.push(s), m, 8);
    lemma_then(k1 + k2 + k3, k4, e, m, e.push(s), m);
    lemma_binary_on(Instruction::Eq, e, m, s, w);
    lemma_then(k1 + k2 + k3 + k4, k5, e, m, e.push(s).push(w), m);
    assert(k1 + k2 + k3 + k4 + k5 =~= seq![Instruction::Load(6), Instruction::Load(7), Instruction::Add, Instruction::Load(8), Instruction::Eq]);
    assert(e.push(flag(s == w)) =~= seq![flag(s == w)]);
}

// ── The program ─────────────────────────────────────────────────────

/// The three power computations: from `start`, cell `acc` is multiplied
/// by cell `base` while the counter in cell 10 runs down, then the program
/// goes on at `done`.
pub open spec fn power_block(start: nat, acc: usize, base: usize, done: nat) -> bool {
    ||| start == 24 && acc == 6 && base == 1 && done == 38
    ||| start == 50 && acc == 7 && base == 2 && done == 64
    ||| start == 76 && acc == 8 && base == 3 && done == 90
}

/// Where the parts of a power computation sit.
proof fn lemma_power_code(max_exp: i64, max_base: i64, start: nat, acc: usize, base: usize, done: nat)
    requires
        power_block(start, acc, base, done),
    ensures
        ({
            let prog = flt_program(max_exp, max_base);
            &&& prog.subrange(start as int, start as int + 3) == seq![
                Instruction::Load(10),
                Instruction::Push(0),
                Instruction::Eq,
            ]
            &&& prog[start as int + 3] == Instruction::Jz((start + 5) as usize)
            &&& prog[start as int + 4] == Instruction::Jmp(done as usize)
            &&& prog.subrange(start as int + 5, start as int + 9) == seq![
                Instruction::Load(acc),
                Instruction::Load(base),
                Instruction::Mul,
                Instruction::Store(acc),
            ]
            &&& prog.subrange(start as int + 9, start as int + 13) == seq![
                Instruction::Load(10),
                Instruction::Push(1),
                Instruction::Sub,
                Instruction::Store(10),
            ]
            &&& prog[start as int + 13] == Instruction::Jmp(start as usize)
            &&& start + 14 <= prog.len()
        }),
{
    let c1 = seq![Instruction::Load(10), Instruction::Push(0), Instruction::Eq];
    let c2 = seq![Instruction::Load(acc), Instruction::Load(base), Instruction::Mul, Instruction::Store(acc)];
    let c3 = seq![Instruction::Load(10), Instruction::Push(1), Instruction::Sub, Instruction::Store(10)];
    if start == 24 {
        lemma_code_at(max_exp, max_base, 24, c1);
        lemma_code_at(max_exp, max_base, 29, c2);
        lemma_code_at(max_exp, max_base, 33, c3);
    } else if start == 50 {
        lemma_code_at(max_exp, max_base, 50, c1);
        lemma_code_at(max_exp, max_base, 55, c2);
        lemma_code_at(max_exp, max_base, 59, c3);
    } else {
        lemma_code_at(max_exp, max_base, 76, c1);
        lemma_code_at(max_exp, max_base, 81, c2);
        lemma_code_at(max_exp, max_base, 85, c3);
    }
}

/// A power computation with `x^j` in cell `acc` and `k` in the counter
/// ends with `x^(j + k)` in cell `acc` and 0 in the counter, after
/// `13k + 5` steps.
proof fn lemma_power_loop(
    max_exp: i64,
    max_base: i64,
    m: Map<usize, i64>,
    steps: nat,
    fuel: nat,
    start: nat,
    acc: usize,
    base: usize,
    done: nat,
    j: nat,
) -> (mm: Map<usize, i64>)
    requires
        power_block(start, acc, base, done),
        1 <= read_cell(m, base),
        0 <= read_cell(m, 10),
        read_cell(m, acc) == power(read_cell(m, base) as int, j),
        power(read_cell(m, base) as int, j + read_cell(m, 10) as nat) <= i64::MAX,
        fuel >= 13 * read_cell(m, 10) + 5,
    ensures
        read_cell(mm, acc) == power(read_cell(m, base) as int, j + read_cell(m, 10) as nat),
        read_cell(mm, 10) == 0,
        forall|s: usize| s != acc && s != 10 ==> #[trigger] read_cell(mm, s) == read_cell(m, s),
        spec_run_from(flt_program(max_exp, max_base), running(start, Seq::empty(), m, steps), fuel)
            == spec_run_from(
            flt_program(max_exp, max_base),
            running(done, Seq::empty(), mm, steps + 13 * read_cell(m, 10) as nat + 5),
            (fuel - 13 * read_cell(m, 10) - 5) as nat,
        ),
    decreases read_cell(m, 10),
{
    let prog = flt_program(max_exp, max_base);
    let k = read_cell(m, 10);
    let x = read_cell(m, base);
    lemma_power_code(max_exp, max_base, start, acc, base, done);
    let c1 = seq![Instruction::Load(10), Instruction::Push(0), Instruction::Eq];
    lemma_counter_zero(m);
    lemma_run_straight(prog, running(start, Seq::empty(), m, steps), c1, fuel);
    let t0 = running(start + 3, seq![flag(k == 0)], m, steps + 3);
    lemma_step_on(prog, t0, (fuel - 3) as nat);
    assert(seq![flag(k == 0)].drop_last() =~= Seq::<i64>::empty());
    if k == 0 {
        let t1 = running(start + 4, Seq::empty(), m, steps + 4);
        assert(spec_step(prog, t0) == t1);
        lemma_step_on(prog, t1, (fuel - 4) as nat);
        assert(spec_step(prog, t1) == running(done, Seq::empty(), m, steps + 5));
        m
    } else {
        assert(spec_step(prog, t0) == running(start + 5, Seq::empty(), m, steps + 4));
        lemma_power_positive(x as int, j);
        lemma_power_exp_mono(x as int, j + 1, j + k as nat);
        assert(power(x as int, j + 1) == power(x as int, j) * x);
        let c2 = seq![Instruction::Load(acc), Instruction::Load(base), Instruction::Mul, Instruction::Store(acc)];
        lemma_multiply_into(m, acc, base);
        lemma_run_straight(prog, running(start + 5, Seq::empty(), m, steps + 4), c2, (fuel - 4) as nat);
        let m1 = m.insert(acc, power(x as int, j + 1) as i64);
        let c3 = seq![Instruction::Load(10), Instruction::Push(1), Instruction::Sub, Instruction::Store(10)];
        lemma_count_down(m1);
        lemma_run_straight(prog, running(start + 9, Seq::empty(), m1, steps + 8), c3, (fuel - 8) as nat);
        let m2 = m1.insert(10, (k - 1) as i64);
        let t2 = running(start + 13, Seq::empty(), m2, steps + 12);
        lemma_step_on(prog, t2, (fuel - 12) as nat);
        assert(spec_step(prog, t2) == running(start, Seq::empty(), m2, steps + 13));
        assert(read_cell(m2, base) == x);
        assert((j + 1) + (k - 1) as nat == j + k as nat);
        let mm = lemma_power_loop(max_exp, max_base, m2, steps + 13, (fuel - 13) as nat, start, acc, base, done, j + 1);
        assert forall|s: usize| s != acc && s != 10 implies #[trigger] read_cell(mm, s) == read_cell(m, s) by {
            assert(read_cell(mm, s) == read_cell(m2, s));
        }
        mm
    }
}

/// The third loop from `c`: when some `c' >= c` has `c'^e = a^e + b^e`
/// the program halts with 0; otherwise it reaches the head of the second
/// loop with `b + 1`.
#[verifier::rlimit(40)]
proof fn lemma_third_loop(max_exp: i64, max_base: i64, m: Map<usize, i64>, steps: nat, fuel: nat) -> (mm: Map<usize, i64>)
    requires
        read_cell(m, 4) == max_exp,
        read_cell(m, 5) == max_base,
        3 <= read_cell(m, 0) <= max_exp,
        1 <= read_cell(m, 1) <= max_base,
        1 <= read_cell(m, 2) <= max_base,
        1 <= read_cell(m, 3) <= max_base + 1,
        read_cell(m, 6) == power(read_cell(m, 1) as int, read_cell(m, 0) as nat),
        read_cell(m, 7) == power(read_cell(m, 2) as int, read_cell(m, 0) as nat),
        2 * power(max_base as int, max_exp as nat) <= i64::MAX,
        fuel >= third_run(
            read_cell(m, 6) + read_cell(m, 7),
            read_cell(m, 0) as nat,
            max_base as int,
            read_cell(m, 3) as int,
        ).1 + 1,
    ensures
        ({
            let r = third_run(
                read_cell(m, 6) + read_cell(m, 7),
                read_cell(m, 0) as nat,
                max_base as int,
                read_cell(m, 3) as int,
            );
            let prog = flt_program(max_exp, max_base);
            &&& r.0 ==> spec_run_from(prog, running(66, Seq::empty(), m, steps), fuel).outcome == Some(
                VmOutcome::Halted(0),
            )
            &&& !r.0 ==> read_cell(mm, 0) == read_cell(m, 0) && read_cell(mm, 1) == read_cell(m, 1)
                && read_cell(mm, 2) == read_cell(m, 2) + 1 && read_cell(mm, 4) == max_exp && read_cell(mm, 5)
                == max_base && read_cell(mm, 6) == read_cell(m, 6)
            &&& !r.0 ==> spec_run_from(prog, running(66, Seq::empty(), m, steps), fuel) == spec_run_from(
                prog,
                running(40, Seq::empty(), mm, steps + r.1),
                (fuel - r.1) as nat,
            )
        }),
    decreases max_base + 1 - read_cell(m, 3),
{
    let prog = flt_program(max_exp, max_base);
    let e = read_cell(m, 0);
    let b = read_cell(m, 2);
    let c = read_cell(m, 3);
    let sum = read_cell(m, 6) + read_cell(m, 7);
    lemma_power_within(read_cell(m, 1) as int, e as nat, max_base as int, max_exp as nat);
    lemma_power_within(b as int, e as nat, max_base as int, max_exp as nat);
    let hd = seq![Instruction::Load(3), Instruction::Load(5), Instruction::Swap, Instruction::Lt];
    lemma_code_at(max_exp, max_base, 66, hd);
    lemma_past(m, 3, 5);
    lemma_run_straight(prog, running(66, Seq::empty(), m, steps), hd, fuel);
    let t0 = running(70, seq![flag(max_base < c)], m, steps + 4);
    lemma_step_on(prog, t0, (fuel - 4) as nat);
    assert(seq![flag(max_base < c)].drop_last() =~= Seq::<i64>::empty());
    if c > max_base {
        let t1 = running(71, Seq::empty(), m, steps + 5);
        assert(spec_step(prog, t0) == t1);
        lemma_step_on(prog, t1, (fuel - 5) as nat);
        assert(spec_step(prog, t1) == running(102, Seq::empty(), m, steps + 6));
        let nb = seq![Instruction::Load(2), Instruction::Push(1), Instruction::Add, Instruction::Store(2)];
        lemma_code_at(max_exp, max_base, 102, nb);
        lemma_add_store(m, 2, 1, 2);
        lemma_run_straight(prog, running(102, Seq::empty(), m, steps + 6), nb, (fuel - 6) as nat);
        let m1 = m.insert(2, (b + 1) as i64);
        let t2 = running(106, Seq::empty(), m1, steps + 10);
        lemma_step_on(prog, t2, (fuel - 10) as nat);
        assert(spec_step(prog, t2) == running(40, Seq::empty(), m1, steps + 11));
        m1
    } else {
        assert(spec_step(prog, t0) == running(72, Seq::empty(), m, steps + 5));
        let st = seq![Instruction::Push(1), Instruction::Store(8)];
        lemma_code_at(max_exp, max_base, 72, st);
        lemma_set(m, 1, 8);
        lemma_run_straight(prog, running(72, Seq::empty(), m, steps + 5), st, (fuel - 5) as nat);
        let m1 = m.insert(8, 1);
        let cp = seq![Instruction::Load(0), Instruction::Store(10)];
        lemma_code_at(max_exp, max_base, 74, cp);
        lemma_copy(m1, 0, 10);
        lemma_run_straight(prog, running(74, Seq::empty(), m1, steps + 7), cp, (fuel - 7) as nat);
        let m2 = m1.insert(10, e);
        lemma_power_within(c as int, e as nat, max_base as int, max_exp as nat);
        assert(read_cell(m2, 8) == power(c as int, 0));
        assert(0 + read_cell(m2, 10) as nat == e as nat);
        let mp = lemma_power_loop(max_exp, max_base, m2, steps + 9, (fuel - 9) as nat, 76, 8, 3, 90, 0);
        let ps = power_steps(e as nat);
        assert(read_cell(mp, 0) == read_cell(m2, 0) && read_cell(mp, 1) == read_cell(m2, 1) && read_cell(mp, 2)
            == read_cell(m2, 2) && read_cell(mp, 3) == read_cell(m2, 3) && read_cell(mp, 4) == read_cell(m2, 4)
            && read_cell(mp, 5) == read_cell(m2, 5));
        assert(read_cell(mp, 6) == read_cell(m2, 6) && read_cell(mp, 7) == read_cell(m2, 7));
        lemma_power_within(max_base as int, 1, max_base as int, max_exp as nat);
        assert(power(max_base as int, 1) == max_base) by {
            assert(power(max_base as int, 0) == 1);
        }
        assert(read_cell(mp, 8) == power(c as int, e as nat));
        let sc = seq![Instruction::Load(6), Instruction::Load(7), Instruction::Add, Instruction::Load(8), Instruction::Eq];
        lemma_code_at(max_exp, max_base, 90, sc);
        lemma_sum_check(mp);
        lemma_run_straight(prog, running(90, Seq::empty(), mp, steps + 9 + ps), sc, (fuel - 9 - ps) as nat);
        let hit = sum == power(c as int, e as nat);
        let t1 = running(95, seq![flag(hit)], mp, steps + 14 + ps);
        lemma_step_on(prog, t1, (fuel - 14 - ps) as nat);
        assert(seq![flag(hit)].drop_last() =~= Seq::<i64>::empty());
        if hit {
            let t2 = running(96, Seq::empty(), mp, steps + 15 + ps);
            assert(spec_step(prog, t1) == t2);
            lemma_step_on(prog, t2, (fuel - 15 - ps) as nat);
            let t3 = spec_step(prog, t2);
            assert(t3.outcome == Some(VmOutcome::Halted(0)));
            assert(spec_run_from(prog, t3, (fuel - 16 - ps) as nat) == t3);
            mp
        } else {
            assert(spec_step(prog, t1) == running(97, Seq::empty(), mp, steps + 15 + ps));
            let nc = seq![Instruction::Load(3), Instruction::Push(1), Instruction::Add, Instruction::Store(3)];
            lemma_code_at(max_exp, max_base, 97, nc);
            lemma_add_store(mp, 3, 1, 3);
            lemma_run_straight(prog, running(97, Seq::empty(), mp, steps + 15 + ps), nc, (fuel - 15 - ps) as nat);
            let m3 = mp.insert(3, (c + 1) as i64);
            let t2 = running(101, Seq::empty(), m3, steps + 19 + ps);
            lemma_step_on(prog, t2, (fuel - 19 - ps) as nat);
            assert(spec_step(prog, t2) == running(66, Seq::empty(), m3, steps + 20 + ps));
            assert(read_cell(m3, 0) == e && read_cell(m3, 1) == read_cell(m, 1) && read_cell(m3, 2) == b
                && read_cell(m3, 3) == c + 1 && read_cell(m3, 4) == max_exp && read_cell(m3, 5) == max_base
                && read_cell(m3, 6) == read_cell(m, 6) && read_cell(m3, 7) == read_cell(m, 7));
            lemma_third_loop(max_exp, max_base, m3, steps + 20 + ps, (fuel - 20 - ps) as nat)
        }
    }
}

/// The second loop from `b`: when some `b' >= b` completes a
/// counterexample the program halts with 0; otherwise it reaches the head
/// of the first loop with `a + 1`.
#[verifier::rlimit(40)]
proof fn lemma_second_loop(max_exp: i64, max_base: i64, m: Map<usize, i64>, steps: nat, fuel: nat) -> (mm: Map<usize, i64>)
    requires
        read_cell(m, 4) == max_exp,
        read_cell(m, 5) == max_base,
        3 <= read_cell(m, 0) <= max_exp,
        1 <= read_cell(m, 1) <= max_base,
        1 <= read_cell(m, 2) <= max_base + 1,
        read_cell(m, 6) == power(read_cell(m, 1) as int, read_cell(m, 0) as nat),
        2 * power(max_base as int, max_exp as nat) <= i64::MAX,
        fuel >= second_run(read_cell(m, 1) as int, read_cell(m, 0) as nat, max_base as int, read_cell(m, 2) as int).1
            + 1,
    ensures
        ({
            let r = second_run(read_cell(m, 1) as int, read_cell(m, 0) as nat, max_base as int, read_cell(m, 2) as int);
            let prog = flt_program(max_exp, max_base);
            &&& r.0 ==> spec_run_from(prog, running(40, Seq::empty(), m, steps), fuel).outcome == Some(
                VmOutcome::Halted(0),
            )
            &&& !r.0 ==> read_cell(mm, 0) == read_cell(m, 0) && read_cell(mm, 1) == read_cell(m, 1) + 1
                && read_cell(mm, 4) == max_exp && read_cell(mm, 5) == max_base
            &&& !r.0 ==> spec_run_from(prog, running(40, Seq::empty(), m, steps), fuel) == spec_run_from(
                prog,
                running(14, Seq::empty(), mm, steps + r.1),
                (fuel - r.1) as nat,
            )
        }),
    decreases max_base + 1 - read_cell(m, 2),
{
    let prog = flt_program(max_exp, max_base);
    let e = read_cell(m, 0);
    let a = read_cell(m, 1);
    let b = read_cell(m, 2);
    lemma_power_within(max_base as int, 1, max_base as int, max_exp as nat);
    assert(power(max_base as int, 1) == max_base) by {
        assert(power(max_base as int, 0) == 1);
    }
    let hd = seq![Instruction::Load(2), Instruction::Load(5), Instruction::Swap, Instruction::Lt];
    lemma_code_at(max_exp, max_base, 40, hd);
    lemma_past(m, 2, 5);
    lemma_run_straight(prog, running(40, Seq::empty(), m, steps), hd, fuel);
    let t0 = running(44, seq![flag(max_base < b)], m, steps + 4);
    lemma_step_on(prog, t0, (fuel - 4) as nat);
    assert(seq![flag(max_base < b)].drop_last() =~= Seq::<i64>::empty());
    if b > max_base {
        let t1 = running(45, Seq::empty(), m, steps + 5);
        assert(spec_step(prog, t0) == t1);
        lemma_step_on(prog, t1, (fuel - 5) as nat);
        assert(spec_step(prog, t1) == running(107, Seq::empty(), m, steps + 6));
        let na = seq![Instruction::Load(1), Instruction::Push(1), Instruction::Add, Instruction::Store(1)];
        lemma_code_at(max_exp, max_base, 107, na);
        lemma_add_store(m, 1, 1, 1);
        lemma_run_straight(prog, running(107, Seq::empty(), m, steps + 6), na, (fuel - 6) as nat);
        let m1 = m.insert(1, (a + 1) as i64);
        let t2 = running(111, Seq::empty(), m1, steps + 10);
        lemma_step_on(prog, t2, (fuel - 10) as nat);
        assert(spec_step(prog, t2) == running(14, Seq::empty(), m1, steps + 11));
        m1
    } else {
        assert(spec_step(prog, t0) == running(46, Seq::empty(), m, steps + 5));
        let st = seq![Instruction::Push(1), Instruction::Store(7)];
        lemma_code_at(max_exp, max_base, 46, st);
        lemma_set(m, 1, 7);
        lemma_run_straight(prog, running(46, Seq::empty(), m, steps + 5), st, (fuel - 5) as nat);
        let m1 = m.insert(7, 1);
        let cp = seq![Instruction::Load(0), Instruction::Store(10)];
        lemma_code_at(max_exp, max_base, 48, cp);
        lemma_copy(m1, 0, 10);
        lemma_run_straight(prog, running(48, Seq::empty(), m1, steps + 7), cp, (fuel - 7) as nat);
        let m2 = m1.insert(10, e);
        lemma_power_within(b as int, e as nat, max_base as int, max_exp as nat);
        assert(read_cell(m2, 7) == power(b as int, 0));
        assert(0 + read_cell(m2, 10) as nat == e as nat);
        let mp = lemma_power_loop(max_exp, max_base, m2, steps + 9, (fuel - 9) as nat, 50, 7, 2, 64, 0);
        let ps = power_steps(e as nat);
        assert(read_cell(mp, 0) == read_cell(m2, 0) && read_cell(mp, 1) == read_cell(m2, 1) && read_cell(mp, 2)
            == read_cell(m2, 2) && read_cell(mp, 4) == read_cell(m2, 4) && read_cell(mp, 5) == read_cell(m2, 5)
            && read_cell(mp, 6) == read_cell(m2, 6));
        let sc = seq![Instruction::Push(1), Instruction::Store(3)];
        lemma_code_at(max_exp, max_base, 64, sc);
        lemma_set(mp, 1, 3);
        lemma_run_straight(prog, running(64, Seq::empty(), mp, steps + 9 + ps), sc, (fuel - 9 - ps) as nat);
        let m3 = mp.insert(3, 1);
        assert(read_cell(m3, 7) == power(b as int, e as nat));
        let x = third_run(power(a as int, e as nat) + power(b as int, e as nat), e as nat, max_base as int, 1);
        let mt = lemma_third_loop(max_exp, max_base, m3, steps + 11 + ps, (fuel - 11 - ps) as nat);
        if x.0 {
            mt
        } else {
            lemma_second_loop(max_exp, max_base, mt, steps + 11 + ps + x.1, (fuel - 11 - ps - x.1) as nat)
        }
    }
}

/// The first loop from `a`: when some `a' >= a` starts a counterexample
/// the program halts with 0; otherwise it reaches the head of the
/// exponent loop with `e + 1`.
#[verifier::rlimit(40)]
proof fn lemma_first_loop(max_exp: i64, max_base: i64, m: Map<usize, i64>, steps: nat, fuel: nat) -> (mm: Map<usize, i64>)
    requires
        read_cell(m, 4) == max_exp,
        read_cell(m, 5) == max_base,
        3 <= read_cell(m, 0) <= max_exp <= 0x1_0000_0000,
        1 <= read_cell(m, 1),
        1 <= max_base ==> 2 * power(max_base as int, max_exp as nat) <= i64::MAX,
        fuel >= first_run(read_cell(m, 0) as nat, max_base as int, read_cell(m, 1) as int).1 + 1,
    ensures
        ({
            let r = first_run(read_cell(m, 0) as nat, max_base as int, read_cell(m, 1) as int);
            let prog = flt_program(max_exp, max_base);
            &&& r.0 ==> spec_run_from(prog, running(14, Seq::empty(), m, steps), fuel).outcome == Some(
                VmOutcome::Halted(0),
            )
            &&& !r.0 ==> read_cell(mm, 0) == read_cell(m, 0) + 1 && read_cell(mm, 4) == max_exp && read_cell(mm, 5)
                == max_base
            &&& !r.0 ==> spec_run_from(prog, running(14, Seq::empty(), m, steps), fuel) == spec_run_from(
                prog,
                running(6, Seq::empty(), mm, steps + r.1),
                (fuel - r.1) as nat,
            )
        }),
    decreases max_base + 1 - read_cell(m, 1),
{
    let prog = flt_program(max_exp, max_base);
    let e = read_cell(m, 0);
    let a = read_cell(m, 1);
    let hd = seq![Instruction::Load(1), Instruction::Load(5), Instruction::Swap, Instruction::Lt];
    lemma_code_at(max_exp, max_base, 14, hd);
    lemma_past(m, 1, 5);
    lemma_run_straight(prog, running(14, Seq::empty(), m, steps), hd, fuel);
    let t0 = running(18, seq![flag(max_base < a)], m, steps + 4);
    lemma_step_on(prog, t0, (fuel - 4) as nat);
    assert(seq![flag(max_base < a)].drop_last() =~= Seq::<i64>::empty());
    if a > max_base {
        let t1 = running(19, Seq::empty(), m, steps + 5);
        assert(spec_step(prog, t0) == t1);
        lemma_step_on(prog, t1, (fuel - 5) as nat);
        assert(spec_step(prog, t1) == running(112, Seq::empty(), m, steps + 6));
        let ne = seq![Instruction::Load(0), Instruction::Push(1), Instruction::Add, Instruction::Store(0)];
        lemma_code_at(max_exp, max_base, 112, ne);
        lemma_add_store(m, 0, 1, 0);
        lemma_run_straight(prog, running(112, Seq::empty(), m, steps + 6), ne, (fuel - 6) as nat);
        let m1 = m.insert(0, (e + 1) as i64);
        let t2 = running(116, Seq::empty(), m1, steps + 10);
        lemma_step_on(prog, t2, (fuel - 10) as nat);
        assert(spec_step(prog, t2) == running(6, Seq::empty(), m1, steps + 11));
        m1
    } else {
        assert(spec_step(prog, t0) == running(20, Seq::empty(), m, steps + 5));
        lemma_power_within(max_base as int, 1, max_base as int, max_exp as nat);
        assert(power(max_base as int, 1) == max_base) by {
            assert(power(max_base as int, 0) == 1);
        }
        let st = seq![Instruction::Push(1), Instruction::Store(6)];
        lemma_code_at(max_exp, max_base, 20, st);
        lemma_set(m, 1, 6);
        lemma_run_straight(prog, running(20, Seq::empty(), m, steps + 5), st, (fuel - 5) as nat);
        let m1 = m.insert(6, 1);
        let cp = seq![Instruction::Load(0), Instruction::Store(10)];
        lemma_code_at(max_exp, max_base, 22, cp);
        lemma_copy(m1, 0, 10);
        lemma_run_straight(prog, running(22, Seq::empty(), m1, steps + 7), cp, (fuel - 7) as nat);
        let m2 = m1.insert(10, e);
        lemma_power_within(a as int, e as nat, max_base as int, max_exp as nat);
        assert(read_cell(m2, 6) == power(a as int, 0));
        assert(0 + read_cell(m2, 10) as nat == e as nat);
        let mp = lemma_power_loop(max_exp, max_base, m2, steps + 9, (fuel - 9) as nat, 24, 6, 1, 38, 0);
        let ps = power_steps(e as nat);
        assert(read_cell(mp, 0) == read_cell(m2, 0) && read_cell(mp, 1) == read_cell(m2, 1) && read_cell(mp, 4)
            == read_cell(m2, 4) && read_cell(mp, 5) == read_cell(m2, 5));
        let sb = seq![Instruction::Push(1), Instruction::Store(2)];
        lemma_code_at(max_exp, max_base, 38, sb);
        lemma_set(mp, 1, 2);
        lemma_run_straight(prog, running(38, Seq::empty(), mp, steps + 9 + ps), sb, (fuel - 9 - ps) as nat);
        let m3 = mp.insert(2, 1);
        assert(read_cell(m3, 6) == power(a as int, e as nat));
        let x = second_run(a as int, e as nat, max_base as int, 1);
        let ms = lemma_second_loop(max_exp, max_base, m3, steps + 11 + ps, (fuel - 11 - ps) as nat);
        if x.0 {
            ms
        } else {
            lemma_first_loop(max_exp, max_base, ms, steps + 11 + ps + x.1, (fuel - 11 - ps - x.1) as nat)
        }
    }
}

/// The exponent loop from `e`: the program halts with 0 when some
/// exponent from `e` to the bound has a counterexample, and with 1
/// otherwise.
proof fn lemma_exponent_loop(max_exp: i64, max_base: i64, m: Map<usize, i64>, steps: nat, fuel: nat)
    requires
        read_cell(m, 4) == max_exp,
        read_cell(m, 5) == max_base,
        3 <= read_cell(m, 0),
        max_exp <= 0x1_0000_0000,
        3 <= max_exp && 1 <= max_base ==> 2 * power(max_base as int, max_exp as nat) <= i64::MAX,
        fuel >= exponent_run(max_exp as int, max_base as int, read_cell(m, 0) as nat).1 + 1,
    ensures
        spec_run_from(flt_program(max_exp, max_base), running(6, Seq::empty(), m, steps), fuel).outcome == Some(
            VmOutcome::Halted(
                if exponent_run(max_exp as int, max_base as int, read_cell(m, 0) as nat).0 {
                    0u8
                } else {
                    1u8
                },
            ),
        ),
    decreases max_exp + 1 - read_cell(m, 0),
{
    let prog = flt_program(max_exp, max_base);
    let e = read_cell(m, 0);
    let hd = seq![Instruction::Load(0), Instruction::Load(4), Instruction::Swap, Instruction::Lt];
    lemma_code_at(max_exp, max_base, 6, hd);
    lemma_past(m, 0, 4);
    lemma_run_straight(prog, running(6, Seq::empty(), m, steps), hd, fuel);
    let t0 = running(10, seq![flag(max_exp < e)], m, steps + 4);
    lemma_step_on(prog, t0, (fuel - 4) as nat);
    assert(seq![flag(max_exp < e)].drop_last() =~= Seq::<i64>::empty());
    if e > max_exp {
        let t1 = running(11, Seq::empty(), m, steps + 5);
        assert(spec_step(prog, t0) == t1);
        lemma_step_on(prog, t1, (fuel - 5) as nat);
        let t2 = spec_step(prog, t1);
        assert(t2.outcome == Some(VmOutcome::Halted(1)));
        assert(spec_run_from(prog, t2, (fuel - 6) as nat) == t2);
    } else {
        assert(spec_step(prog, t0) == running(12, Seq::empty(), m, steps + 5));
        let sa = seq![Instruction::Push(1), Instruction::Store(1)];
        lemma_code_at(max_exp, max_base, 12, sa);
        lemma_set(m, 1, 1);
        lemma_run_straight(prog, running(12, Seq::empty(), m, steps + 5), sa, (fuel - 5) as nat);
        let m1 = m.insert(1, 1);
        let x = first_run(e as nat, max_base as int, 1);
        let mf = lemma_first_loop(max_exp, max_base, m1, steps + 7, (fuel - 7) as nat);
        if !x.0 {
            lemma_exponent_loop(max_exp, max_base, mf, steps + 7 + x.1, (fuel - 7 - x.1) as nat);
        }
    }
}

/// Without bases each exponent takes at least one step.
proof fn lemma_exponent_steps_at_least(max_exp: int, max_base: int, e: nat)
    requires
        max_base < 1,
    ensures
        exponent_run(max_exp, max_base, e).1 >= max_exp + 1 - e,
    decreases max_exp + 1 - e,
{
    if e <= max_exp {
        if !first_run(e, max_base, 1).0 {
            lemma_exponent_steps_at_least(max_exp, max_base, e + 1);
        }
    }
}

/// Steps the Fermat program takes until it halts: the initialisation,
/// the loops, and the halt.
pub open spec fn flt_steps(max_exp: int, max_base: int) -> nat {
    6 + exponent_run(max_exp, max_base, 3).1 + 1
}

/// The Fermat program for bounds E and M, run for its budget, halts with 0
/// exactly when some `a^e + b^e = c^e` with `3 <= e <= E` and
/// `1 <= a, b, c <= M`, and with 1 otherwise. This holds for the bounds
/// the builder accepts, when `2 M^E` fits in 64 bits (else the machine
/// faults on the powers). With at least one base the budget covers the run
/// (`lemma_flt_budget_suffices`); without bases it covers small `E` only,
/// and the run must fit it (`flt_steps`).
pub proof fn lemma_flt_program_decides(max_exp: i64, max_base: i64)
    requires
        (max_base as u64) * (max_base as u64) * (max_base as u64) <= u64::MAX,
        ((max_exp - 2) as u64) * ((max_base as u64) * (max_base as u64) * (max_base as u64)) * (max_exp as u64)
            * 117 + 1_000_000 <= u64::MAX,
        3 <= max_exp && 1 <= max_base ==> 2 * power(max_base as int, max_exp as nat) <= i64::MAX,
        max_base < 1 ==> flt_steps(max_exp as int, max_base as int) <= flt_budget(max_exp, max_base),
    ensures
        reported_outcome(spec_run(flt_program(max_exp, max_base), flt_budget(max_exp, max_base) as nat))
            == VmOutcome::Halted(
            if fermat_counterexample(max_exp as int, max_base as int) {
                0u8
            } else {
                1u8
            },
        ),
{
    let prog = flt_program(max_exp, max_base);
    let budget = flt_budget(max_exp, max_base);
    if 1 <= max_base {
        lemma_flt_budget_suffices(max_exp, max_base);
    }
    // The accepted bounds are small.
    assert(0 <= max_base) by {
        if max_base < 0 {
            let q = max_base as u64;
            assert(max_base < 0 ==> (max_base as u64) >= 0x8000_0000_0000_0000u64) by (bit_vector);
            assert(q * q * q > u64::MAX) by (nonlinear_arith)
                requires
                    q >= 0x8000_0000_0000_0000,
            ;
        }
    }
    assert(max_exp <= 0x1_0000_0000) by {
        if max_exp > 0x1_0000_0000 {
            let q = max_base as u64;
            let e2 = (max_exp - 2) as u64;
            let e1 = max_exp as u64;
            assert(e1 == max_exp);
            assert(e2 == max_exp - 2);
            assert(e2 >= 0xffff_ffff && e1 >= 0x1_0000_0000);
            if max_base >= 1 {
                assert(e2 * (q * q * q) * e1 * 117 + 1_000_000 > u64::MAX) by (nonlinear_arith)
                    requires
                        q >= 1,
                        e2 >= 0xffff_ffff,
                        e1 >= 0x1_0000_0000,
                ;
            } else {
                assert(max_base == 0);
                assert(q == 0);
                assert(e2 * (q * q * q) * e1 * 117 == 0) by (nonlinear_arith)
                    requires
                        q == 0,
                ;
                assert(budget == 1_000_000);
                lemma_exponent_steps_at_least(max_exp as int, max_base as int, 3);
            }
        }
    }
    let init = seq![
        Instruction::Push(max_exp),
        Instruction::Store(4),
        Instruction::Push(max_base),
        Instruction::Store(5),
        Instruction::Push(3),
        Instruction::Store(0),
    ];
    let e = Seq::<i64>::empty();
    let m1 = Map::<usize, i64>::empty().insert(4, max_exp);
    let m2 = m1.insert(5, max_base);
    let m0 = m2.insert(0, 3);
    let i1 = seq![Instruction::Push(max_exp), Instruction::Store(4)];
    let i2 = seq![Instruction::Push(max_base), Instruction::Store(5)];
    let i3 = seq![Instruction::Push(3), Instruction::Store(0)];
    lemma_set(Map::empty(), max_exp, 4);
    lemma_set(m1, max_base, 5);
    lemma_then(i1, i2, e, Map::empty(), e, m1);
    lemma_set(m2, 3, 0);
    lemma_then(i1 + i2, i3, e, Map::empty(), e, m2);
    assert(i1 + i2 + i3 =~= init);
    lemma_code_at(max_exp, max_base, 0, init);
    lemma_run_straight(prog, initial_state(), init, budget as nat);
    assert(read_cell(m0, 0) == 3 && read_cell(m0, 4) == max_exp && read_cell(m0, 5) == max_base);
    lemma_exponent_loop(max_exp, max_base, m0, 6, (budget - 6) as nat);
    lemma_exponent_found(max_exp as int, max_base as int, 3);
    lemma_exponent_is_counterexample(max_exp as int, max_base as int);
}

// ── The budget ──────────────────────────────────────────────────────

proof fn lemma_third_steps(s: int, e: nat, max_base: int, c: int)
    requires
        1 <= c <= max_base + 1,
    ensures
        third_run(s, e, max_base, c).1 <= (max_base + 1 - c) * (power_steps(e) + 20) + 11,
    decreases max_base + 1 - c,
{
    if c <= max_base {
        if power(c, e) != s {
            lemma_third_steps(s, e, max_base, c + 1);
        }
        let k = power_steps(e) + 20;
        assert((max_base + 1 - c) * k == (max_base - c) * k + k) by (nonlinear_arith);
        assert(0 <= (max_base - c) * k) by (nonlinear_arith)
            requires
                c <= max_base,
                k >= 0,
        ;
    }
}

/// The cost of one round of the second loop, at most.
pub open spec fn second_round_bound(e: nat, max_base: int) -> int {
    power_steps(e) + 22 + max_base * (power_steps(e) + 20)
}

proof fn lemma_second_steps(a: int, e: nat, max_base: int, b: int)
    requires
        1 <= b <= max_base + 1,
    ensures
        second_run(a, e, max_base, b).1 <= (max_base + 1 - b) * second_round_bound(e, max_base) + 11,
    decreases max_base + 1 - b,
{
    let k = second_round_bound(e, max_base);
    assert(k >= 0) by (nonlinear_arith)
        requires
            k == power_steps(e) + 22 + max_base * (power_steps(e) + 20),
            max_base >= 0,
    ;
    if b <= max_base {
        lemma_third_steps(power(a, e) + power(b, e), e, max_base, 1);
        if !third_run(power(a, e) + power(b, e), e, max_base, 1).0 {
            lemma_second_steps(a, e, max_base, b + 1);
        }
        assert((max_base + 1 - b) * k == (max_base - b) * k + k) by (nonlinear_arith);
        assert(0 <= (max_base - b) * k) by (nonlinear_arith)
            requires
                b <= max_base,
                k >= 0,
        ;
    }
}

/// The cost of one round of the first loop, at most.
pub open spec fn first_round_bound(e: nat, max_base: int) -> int {
    power_steps(e) + 22 + max_base * second_round_bound(e, max_base)
}

proof fn lemma_first_steps(e: nat, max_base: int, a: int)
    requires
        1 <= a <= max_base + 1,
    ensures
        first_run(e, max_base, a).1 <= (max_base + 1 - a) * first_round_bound(e, max_base) + 11,
    decreases max_base + 1 - a,
{
    let k = first_round_bound(e, max_base);
    let k2 = second_round_bound(e, max_base);
    assert(k2 >= 0) by (nonlinear_arith)
        requires
            k2 == power_steps(e) + 22 + max_base * (power_steps(e) + 20),
            max_base >= 0,
    ;
    assert(k >= 0) by (nonlinear_arith)
        requires
            k == power_steps(e) + 22 + max_base * k2,
            max_base >= 0,
            k2 >= 0,
    ;
    if a <= max_base {
        lemma_second_steps(a, e, max_base, 1);
        if !second_run(a, e, max_base, 1).0 {
            lemma_first_steps(e, max_base, a + 1);
        }
        assert((max_base + 1 - a) * k == (max_base - a) * k + k) by (nonlinear_arith);
        assert(0 <= (max_base - a) * k) by (nonlinear_arith)
            requires
                a <= max_base,
                k >= 0,
        ;
    }
}

/// One exponent costs at most `117 E M³` steps.
proof fn lemma_exponent_cost(e: nat, max_exp: int, max_base: int)
    requires
        3 <= e <= max_exp,
        1 <= max_base,
    ensures
        7 + first_run(e, max_base, 1).1 <= max_base * max_base * max_base * max_exp * 117,
{
    lemma_first_steps(e, max_base, 1);
    let m = max_base;
    let p = power_steps(e);
    let k2 = p + 22 + m * (p + 20);
    let k = p + 22 + m * k2;
    assert(7 + m * k + 11 <= m * m * m * max_exp * 117) by (nonlinear_arith)
        requires
            k2 == p + 22 + m * (p + 20),
            k == p + 22 + m * k2,
            p == 13 * e + 5,
            3 <= e <= max_exp,
            1 <= m,
    ;
}

proof fn lemma_exponent_steps(max_exp: int, max_base: int, e: nat)
    requires
        3 <= e,
        1 <= max_base,
    ensures
        exponent_run(max_exp, max_base, e).1 <= (if max_exp + 1 - e > 0 {
            max_exp + 1 - e
        } else {
            0
        }) * (max_base * max_base * max_base * max_exp * 117) + 5,
    decreases max_exp + 1 - e,
{
    if e <= max_exp {
        lemma_exponent_cost(e, max_exp, max_base);
        let c = max_base * max_base * max_base * max_exp * 117;
        assert(c >= 0) by (nonlinear_arith)
            requires
                c == max_base * max_base * max_base * max_exp * 117,
                1 <= max_base,
                3 <= max_exp,
        ;
        if !first_run(e, max_base, 1).0 {
            lemma_exponent_steps(max_exp, max_base, e + 1);
        }
        assert((max_exp + 1 - e) * c == (max_exp - e) * c + c) by (nonlinear_arith);
        assert(0 <= (max_exp - e) * c) by (nonlinear_arith)
            requires
                e <= max_exp,
                c >= 0,
        ;
    }
}

/// With at least one base the budget `117 (E - 2) E M³ + 10^6` covers the
/// whole run.
pub proof fn lemma_flt_budget_suffices(max_exp: i64, max_base: i64)
    requires
        1 <= max_base,
        (max_base as u64) * (max_base as u64) * (max_base as u64) <= u64::MAX,
        ((max_exp - 2) as u64) * ((max_base as u64) * (max_base as u64) * (max_base as u64)) * (max_exp as u64)
            * 117 + 1_000_000 <= u64::MAX,
    ensures
        flt_steps(max_exp as int, max_base as int) <= flt_budget(max_exp, max_base),
{
    let q = max_base as u64;
    assert(q == max_base);
    lemma_exponent_steps(max_exp as int, max_base as int, 3);
    if max_exp >= 3 {
        let e2 = (max_exp - 2) as u64;
        let e1 = max_exp as u64;
        assert(e1 == max_exp && e2 == max_exp - 2);
        let c = max_base * max_base * max_base * max_exp * 117;
        assert((max_exp - 2) * c == e2 * (q * q * q) * e1 * 117) by (nonlinear_arith)
            requires
                c == max_base * max_base * max_base * max_exp * 117,
                e2 == max_exp - 2,
                e1 == max_exp,
                q == max_base,
        ;
    } else {
        assert(0 <= ((max_exp - 2) as u64) * (q * q * q) * (max_exp as u64) * 117) by (nonlinear_arith);
    }
}

} // verus!
