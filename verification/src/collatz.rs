//! What the Collatz verification program decides.
//!
//! The program runs over n = 1, 2, ... up to its bound N; for each it
//! applies the map x -> x / 2 (x even), x -> 3x + 1 (x odd) from x = n
//! while x differs from 1, at most M times. An n that does not reach 1
//! within M applications halts the program with 0; past the bound it halts
//! with 1.

use crate::open_problems::{collatz_budget, collatz_program};
use crate::twin_primes::{lemma_add_store, lemma_bound_check, lemma_copy, lemma_step_on};
use crate::trial_division::running;
use crate::vm::{
    exec_straight, flag, initial_state, lemma_run_straight, read_cell, reported_outcome, spec_run,
    spec_run_from, spec_step, Instruction, VmOutcome,
};
use vstd::prelude::*;

verus! {

/// One application of the Collatz map.
pub open spec fn collatz_next(x: int) -> int {
    if x % 2 == 0 {
        x / 2
    } else {
        3 * x + 1
    }
}

/// `k` applications of the Collatz map.
pub open spec fn collatz_iterate(x: int, k: nat) -> int
    decreases k,
{
    if k == 0 {
        x
    } else {
        collatz_iterate(collatz_next(x), (k - 1) as nat)
    }
}

/// `n` reaches 1 within `m` applications of the map.
pub open spec fn reaches_one_within(n: int, m: int) -> bool {
    exists|k: nat| k <= m && #[trigger] collatz_iterate(n, k) == 1
}

/// Every `n` in `[1, n_max]` reaches 1 within `m` applications.
pub open spec fn collatz_up_to(n_max: int, m: int) -> bool {
    forall|n: int| 1 <= n <= n_max ==> #[trigger] reaches_one_within(n, m)
}

/// The trajectory from `x`, with `it` applications done and at most `m` in
/// all: whether it reaches 1, and the program's steps from the head of the
/// step loop (position 16) to the next `n` (reached) or to the `Halt(0)`
/// instruction.
pub open spec fn trajectory_run(x: int, it: int, m: int) -> (bool, nat)
    decreases m - it,
{
    if x == 1 {
        (true, 10)
    } else if it >= m {
        (false, 8)
    } else {
        let r = trajectory_run(collatz_next(x), it + 1, m);
        (
            r.0,
            (if x % 2 == 0 {
                24nat
            } else {
                25nat
            }) + r.1,
        )
    }
}

/// Every value of the trajectory before it stops has its successor within
/// 64 bits.
pub open spec fn trajectory_fits(x: int, it: int, m: int) -> bool
    decreases m - it,
{
    x == 1 || it >= m || (collatz_next(x) <= i64::MAX && trajectory_fits(collatz_next(x), it + 1, m))
}

/// Memory when the trajectory for `n` reaches 1 and the program moves on.
pub open spec fn trajectory_memory(mem: Map<usize, i64>, n: int, x: int, it: int, m: int) -> Map<
    usize,
    i64,
>
    decreases m - it,
{
    if x == 1 {
        mem.insert(0, (n + 1) as i64)
    } else if it >= m {
        mem
    } else {
        trajectory_memory(
            mem.insert(2, collatz_next(x) as i64).insert(3, (it + 1) as i64),
            n,
            collatz_next(x),
            it + 1,
            m,
        )
    }
}

/// The outer loop from `n`: whether every number from `n` to the bound
/// reaches 1 in time, and the steps to the halting instruction.
pub open spec fn outer_run(n_max: int, n: int, m: int) -> (bool, nat)
    decreases n_max + 1 - n,
{
    if n > n_max {
        (true, 5)
    } else {
        let r = trajectory_run(n, 0, m);
        if r.0 {
            let o = outer_run(n_max, n + 1, m);
            (o.0, 9 + r.1 + o.1)
        } else {
            (false, 9 + r.1)
        }
    }
}

/// Every number from `n` to the bound has a trajectory that fits.
pub open spec fn trajectories_fit(n_max: int, m: int) -> bool {
    forall|n: int| 1 <= n <= n_max ==> #[trigger] trajectory_fits(n, 0, m)
}

// ── Arithmetic facts ────────────────────────────────────────────────

proof fn lemma_next_positive(x: int)
    requires
        x >= 1,
    ensures
        collatz_next(x) >= 1,
{
}

/// The trajectory reaches 1 exactly when an iterate within the remaining
/// applications is 1.
proof fn lemma_trajectory_found(x: int, it: int, m: int)
    requires
        it <= m,
    ensures
        trajectory_run(x, it, m).0 == (exists|k: nat| k <= m - it && #[trigger] collatz_iterate(x, k) == 1),
    decreases m - it,
{
    if x == 1 {
        assert(collatz_iterate(x, 0) == 1);
    } else if it >= m {
        if exists|k: nat| k <= m - it && #[trigger] collatz_iterate(x, k) == 1 {
            let k = choose|k: nat| k <= m - it && #[trigger] collatz_iterate(x, k) == 1;
            assert(k == 0);
        }
    } else {
        let y = collatz_next(x);
        lemma_trajectory_found(y, it + 1, m);
        if exists|k: nat| k <= m - it && #[trigger] collatz_iterate(x, k) == 1 {
            let k = choose|k: nat| k <= m - it && #[trigger] collatz_iterate(x, k) == 1;
            assert(k != 0);
            let j = (k - 1) as nat;
            assert(collatz_iterate(x, k) == collatz_iterate(y, j));
            assert(j <= m - (it + 1) && collatz_iterate(y, j) == 1);
        }
        if exists|j: nat| j <= m - (it + 1) && #[trigger] collatz_iterate(y, j) == 1 {
            let j = choose|j: nat| j <= m - (it + 1) && #[trigger] collatz_iterate(y, j) == 1;
            assert(collatz_iterate(x, j + 1) == collatz_iterate(y, j));
            assert((j + 1) as nat <= m - it && collatz_iterate(x, (j + 1) as nat) == 1);
        }
    }
}

proof fn lemma_outer_found(n_max: int, n: int, m: int)
    requires
        m >= 0,
    ensures
        outer_run(n_max, n, m).0 == (forall|j: int| n <= j <= n_max ==> #[trigger] reaches_one_within(j, m)),
    decreases n_max + 1 - n,
{
    if n <= n_max {
        lemma_trajectory_found(n, 0, m);
        assert(trajectory_run(n, 0, m).0 == reaches_one_within(n, m));
        if trajectory_run(n, 0, m).0 {
            lemma_outer_found(n_max, n + 1, m);
            if !outer_run(n_max, n + 1, m).0 {
                let j = choose|j: int| !(n + 1 <= j <= n_max ==> #[trigger] reaches_one_within(j, m));
                assert(!(n <= j <= n_max ==> reaches_one_within(j, m)));
            }
        } else {
            assert(!(n <= n <= n_max ==> reaches_one_within(n, m)));
        }
    }
}

proof fn lemma_trajectory_steps(x: int, it: int, m: int)
    ensures
        trajectory_run(x, it, m).1 <= 25 * (if m > it {
            m - it
        } else {
            0
        }) + 10,
    decreases m - it,
{
    if x != 1 && it < m {
        lemma_trajectory_steps(collatz_next(x), it + 1, m);
    }
}

proof fn lemma_outer_steps(n_max: int, n: int, m: int)
    requires
        m >= 1,
        1 <= n,
    ensures
        outer_run(n_max, n, m).1 <= (if n <= n_max {
            n_max - n + 1
        } else {
            0
        }) * (25 * m + 19) + 5,
    decreases n_max + 1 - n,
{
    if n <= n_max {
        lemma_trajectory_steps(n, 0, m);
        lemma_outer_steps(n_max, n + 1, m);
        let k = if n + 1 <= n_max {
            n_max - n
        } else {
            0
        };
        assert((n_max - n + 1) * (25 * m + 19) == k * (25 * m + 19) + 25 * m + 19) by (nonlinear_arith)
            requires
                k == (if n + 1 <= n_max {
                    n_max - n
                } else {
                    0
                }),
                n <= n_max,
        ;
    }
}

// ── The program ─────────────────────────────────────────────────────

/// `code` sits at `start` in the program.
proof fn lemma_code_at(n_max: i64, m_iter: i64, start: int, code: Seq<Instruction>)
    requires
        0 <= start,
        start + code.len() <= 53,
        forall|j: int| 0 <= j < code.len() ==> collatz_program(n_max, m_iter)[start + j] == #[trigger] code[j],
    ensures
        collatz_program(n_max, m_iter).subrange(start, start + code.len()) == code,
{
    assert(collatz_program(n_max, m_iter).subrange(start, start + code.len()) =~= code);
}

/// `Load(a), Push(c), op` for `Eq`.
proof fn lemma_equals_const(m: Map<usize, i64>, a: usize, c: i64)
    ensures
        exec_straight(seq![Instruction::Load(a), Instruction::Push(c), Instruction::Eq], Seq::empty(), m)
            == Ok::<(Seq<i64>, Map<usize, i64>), crate::vm::Fault>((seq![flag(read_cell(m, a) == c)], m)),
{
    reveal_with_fuel(exec_straight, 4);
    let x = read_cell(m, a);
    let code = seq![Instruction::Load(a), Instruction::Push(c), Instruction::Eq];
    assert(code.skip(1) =~= seq![Instruction::Push(c), Instruction::Eq]);
    assert(code.skip(1).skip(1) =~= seq![Instruction::Eq]);
    assert(code.skip(1).skip(1).skip(1) =~= Seq::<Instruction>::empty());
    let s2 = Seq::<i64>::empty().push(x).push(c);
    assert(s2[s2.len() - 2] == x);
    assert(s2.drop_last().drop_last().push(flag(x == c)) =~= seq![flag(x == c)]);
}

/// `Load(a), Load(b), Lt` pushes whether cell `a` is below cell `b`.
proof fn lemma_below(m: Map<usize, i64>, a: usize, b: usize)
    ensures
        exec_straight(seq![Instruction::Load(a), Instruction::Load(b), Instruction::Lt], Seq::empty(), m)
            == Ok::<(Seq<i64>, Map<usize, i64>), crate::vm::Fault>(
            (seq![flag(read_cell(m, a) < read_cell(m, b))], m),
        ),
{
    reveal_with_fuel(exec_straight, 4);
    let x = read_cell(m, a);
    let y = read_cell(m, b);
    let code = seq![Instruction::Load(a), Instruction::Load(b), Instruction::Lt];
    assert(code.skip(1) =~= seq![Instruction::Load(b), Instruction::Lt]);
    assert(code.skip(1).skip(1) =~= seq![Instruction::Lt]);
    assert(code.skip(1).skip(1).skip(1) =~= Seq::<Instruction>::empty());
    let s2 = Seq::<i64>::empty().push(x).push(y);
    assert(s2[s2.len() - 2] == x);
    assert(s2.drop_last().drop_last().push(flag(x < y)) =~= seq![flag(x < y)]);
}

/// `Load(2), Push(2), Mod, Push(0), Eq` pushes whether `x` is even.
proof fn lemma_even_check(m: Map<usize, i64>)
    requires
        read_cell(m, 2) >= 1,
    ensures
        exec_straight(
            seq![
                Instruction::Load(2),
                Instruction::Push(2),
                Instruction::Mod,
                Instruction::Push(0),
                Instruction::Eq,
            ],
            Seq::empty(),
            m,
        ) == Ok::<(Seq<i64>, Map<usize, i64>), crate::vm::Fault>(
            (seq![flag(read_cell(m, 2) % 2 == 0)], m),
        ),
{
    reveal_with_fuel(exec_straight, 6);
    let x = read_cell(m, 2);
    let r = (x % 2) as i64;
    let code = seq![
        Instruction::Load(2),
        Instruction::Push(2),
        Instruction::Mod,
        Instruction::Push(0),
        Instruction::Eq,
    ];
    assert(code.skip(1) =~= seq![Instruction::Push(2), Instruction::Mod, Instruction::Push(0), Instruction::Eq]);
    assert(code.skip(1).skip(1) =~= seq![Instruction::Mod, Instruction::Push(0), Instruction::Eq]);
    assert(code.skip(1).skip(1).skip(1) =~= seq![Instruction::Push(0), Instruction::Eq]);
    assert(code.skip(1).skip(1).skip(1).skip(1) =~= seq![Instruction::Eq]);
    assert(code.skip(1).skip(1).skip(1).skip(1).skip(1) =~= Seq::<Instruction>::empty());
    let s2 = Seq::<i64>::empty().push(x).push(2);
    assert(s2[s2.len() - 2] == x);
    assert(s2.drop_last().drop_last().push(r) =~= seq![r]);
    let s4 = seq![r].push(0);
    assert(s4[s4.len() - 2] == r);
    assert(s4.drop_last().drop_last().push(flag(r == 0)) =~= seq![flag(r == 0)]);
}

/// `Load(2), Push(2), Div, Store(2)` halves `x`.
proof fn lemma_halve(m: Map<usize, i64>)
    requires
        read_cell(m, 2) >= 1,
    ensures
        exec_straight(
            seq![Instruction::Load(2), Instruction::Push(2), Instruction::Div, Instruction::Store(2)],
            Seq::empty(),
            m,
        ) == Ok::<(Seq<i64>, Map<usize, i64>), crate::vm::Fault>(
            (Seq::empty(), m.insert(2, (read_cell(m, 2) / 2) as i64)),
        ),
{
    reveal_with_fuel(exec_straight, 5);
    let x = read_cell(m, 2);
    let h = (x / 2) as i64;
    let code = seq![Instruction::Load(2), Instruction::Push(2), Instruction::Div, Instruction::Store(2)];
    assert(code.skip(1) =~= seq![Instruction::Push(2), Instruction::Div, Instruction::Store(2)]);
    assert(code.skip(1).skip(1) =~= seq![Instruction::Div, Instruction::Store(2)]);
    assert(code.skip(1).skip(1).skip(1) =~= seq![Instruction::Store(2)]);
    assert(code.skip(1).skip(1).skip(1).skip(1) =~= Seq::<Instruction>::empty());
    let s2 = Seq::<i64>::empty().push(x).push(2);
    assert(s2[s2.len() - 2] == x);
    assert(s2.drop_last().drop_last().push(h) =~= seq![h]);
    assert(seq![h].drop_last() =~= Seq::<i64>::empty());
}

/// `Load(2), Push(3), Mul, Push(1), Add, Store(2)` sets `x` to `3x + 1`.
proof fn lemma_triple_plus_one(m: Map<usize, i64>)
    requires
        read_cell(m, 2) >= 1,
        3 * read_cell(m, 2) + 1 <= i64::MAX,
    ensures
        exec_straight(
            seq![
                Instruction::Load(2),
                Instruction::Push(3),
                Instruction::Mul,
                Instruction::Push(1),
                Instruction::Add,
                Instruction::Store(2),
            ],
            Seq::empty(),
            m,
        ) == Ok::<(Seq<i64>, Map<usize, i64>), crate::vm::Fault>(
            (Seq::empty(), m.insert(2, (3 * read_cell(m, 2) + 1) as i64)),
        ),
{
    reveal_with_fuel(exec_straight, 7);
    let x = read_cell(m, 2);
    let t = (x * 3) as i64;
    let code = seq![
        Instruction::Load(2),
        Instruction::Push(3),
        Instruction::Mul,
        Instruction::Push(1),
        Instruction::Add,
        Instruction::Store(2),
    ];
    assert(code.skip(1) =~= seq![Instruction::Push(3), Instruction::Mul, Instruction::Push(1), Instruction::Add, Instruction::Store(2)]);
    assert(code.skip(1).skip(1) =~= seq![Instruction::Mul, Instruction::Push(1), Instruction::Add, Instruction::Store(2)]);
    assert(code.skip(1).skip(1).skip(1) =~= seq![Instruction::Push(1), Instruction::Add, Instruction::Store(2)]);
    assert(code.skip(1).skip(1).skip(1).skip(1) =~= seq![Instruction::Add, Instruction::Store(2)]);
    assert(code.skip(1).skip(1).skip(1).skip(1).skip(1) =~= seq![Instruction::Store(2)]);
    assert(code.skip(1).skip(1).skip(1).skip(1).skip(1).skip(1) =~= Seq::<Instruction>::empty());
    let s2 = Seq::<i64>::empty().push(x).push(3);
    assert(s2[s2.len() - 2] == x);
    assert(s2.drop_last().drop_last().push(t) =~= seq![t]);
    let s4 = seq![t].push(1);
    assert(s4[s4.len() - 2] == t);
    assert(s4.drop_last().drop_last().push((t + 1) as i64) =~= seq![(t + 1) as i64]);
    assert(seq![(t + 1) as i64].drop_last() =~= Seq::<i64>::empty());
}

/// `Push(v), Store(slot)`.
proof fn lemma_set(m: Map<usize, i64>, v: i64, slot: usize)
    ensures
        exec_straight(seq![Instruction::Push(v), Instruction::Store(slot)], Seq::empty(), m) == Ok::<
            (Seq<i64>, Map<usize, i64>),
            crate::vm::Fault,
        >((Seq::empty(), m.insert(slot, v))),
{
    reveal_with_fuel(exec_straight, 3);
    let code = seq![Instruction::Push(v), Instruction::Store(slot)];
    assert(code.skip(1) =~= seq![Instruction::Store(slot)]);
    assert(code.skip(1).skip(1) =~= Seq::<Instruction>::empty());
    assert(Seq::<i64>::empty().push(v).drop_last() =~= Seq::<i64>::empty());
}

/// The step loop from `x` with `it` applications done: when the
/// trajectory reaches 1 in time, the program moves on to the next `n`;
/// otherwise it halts with 0.
#[verifier::rlimit(60)]
proof fn lemma_trajectory(n_max: i64, m_iter: i64, m: Map<usize, i64>, steps: nat, fuel: nat)
    requires
        read_cell(m, 1) == n_max,
        read_cell(m, 4) == m_iter,
        read_cell(m, 2) >= 1,
        read_cell(m, 3) >= 0,
        trajectory_fits(read_cell(m, 2) as int, read_cell(m, 3) as int, m_iter as int),
        trajectory_run(read_cell(m, 2) as int, read_cell(m, 3) as int, m_iter as int).0 ==> read_cell(m, 0)
            + 1 <= i64::MAX,
        fuel >= trajectory_run(read_cell(m, 2) as int, read_cell(m, 3) as int, m_iter as int).1 + 1,
    ensures
        ({
            let n = read_cell(m, 0) as int;
            let x = read_cell(m, 2) as int;
            let it = read_cell(m, 3) as int;
            let r = trajectory_run(x, it, m_iter as int);
            let tm = trajectory_memory(m, n, x, it, m_iter as int);
            let prog = collatz_program(n_max, m_iter);
            &&& r.0 ==> read_cell(tm, 0) == n + 1 && read_cell(tm, 1) == n_max && read_cell(tm, 4) == m_iter
            &&& r.0 ==> spec_run_from(prog, running(16, Seq::empty(), m, steps), fuel) == spec_run_from(
                prog,
                running(6, Seq::empty(), tm, steps + r.1),
                (fuel - r.1) as nat,
            )
            &&& !r.0 ==> spec_run_from(prog, running(16, Seq::empty(), m, steps), fuel).outcome
                == Some(VmOutcome::Halted(0))
        }),
    decreases m_iter - read_cell(m, 3),
{
    let n = read_cell(m, 0);
    let x = read_cell(m, 2);
    let it = read_cell(m, 3);
    let prog = collatz_program(n_max, m_iter);
    let one = seq![Instruction::Load(2), Instruction::Push(1), Instruction::Eq];
    lemma_code_at(n_max, m_iter, 16, one);
    lemma_equals_const(m, 2, 1);
    lemma_run_straight(prog, running(16, Seq::empty(), m, steps), one, fuel);
    let s3 = running(19, seq![flag(x == 1)], m, steps + 3);
    lemma_step_on(prog, s3, (fuel - 3) as nat);
    assert(seq![flag(x == 1)].drop_last() =~= Seq::<i64>::empty());
    if x == 1 {
        let s4 = running(20, Seq::empty(), m, steps + 4);
        assert(spec_step(prog, s3) == s4);
        lemma_step_on(prog, s4, (fuel - 4) as nat);
        let s5 = running(47, Seq::empty(), m, steps + 5);
        assert(spec_step(prog, s4) == s5);
        let nx = seq![Instruction::Load(0), Instruction::Push(1), Instruction::Add, Instruction::Store(0)];
        lemma_code_at(n_max, m_iter, 47, nx);
        lemma_add_store(m, 0, 1, 0);
        lemma_run_straight(prog, s5, nx, (fuel - 5) as nat);
        let m1 = m.insert(0, (n + 1) as i64);
        let s9 = running(51, Seq::empty(), m1, steps + 9);
        lemma_step_on(prog, s9, (fuel - 9) as nat);
        assert(spec_step(prog, s9) == running(6, Seq::empty(), m1, steps + 10));
        return;
    }
    let s4 = running(21, Seq::empty(), m, steps + 4);
    assert(spec_step(prog, s3) == s4);
    let chk = seq![Instruction::Load(3), Instruction::Load(4), Instruction::Lt];
    lemma_code_at(n_max, m_iter, 21, chk);
    lemma_below(m, 3, 4);
    lemma_run_straight(prog, s4, chk, (fuel - 4) as nat);
    let s7 = running(24, seq![flag(it < m_iter)], m, steps + 7);
    lemma_step_on(prog, s7, (fuel - 7) as nat);
    assert(seq![flag(it < m_iter)].drop_last() =~= Seq::<i64>::empty());
    if it >= m_iter {
        let s8 = running(52, Seq::empty(), m, steps + 8);
        assert(spec_step(prog, s7) == s8);
        lemma_step_on(prog, s8, (fuel - 8) as nat);
        let s9 = spec_step(prog, s8);
        assert(s9.outcome == Some(VmOutcome::Halted(0)));
        assert(spec_run_from(prog, s9, (fuel - 9) as nat) == s9);
        return;
    }
    let s8 = running(25, Seq::empty(), m, steps + 8);
    assert(spec_step(prog, s7) == s8);
    let ev = seq![
        Instruction::Load(2),
        Instruction::Push(2),
        Instruction::Mod,
        Instruction::Push(0),
        Instruction::Eq,
    ];
    lemma_code_at(n_max, m_iter, 25, ev);
    lemma_even_check(m);
    lemma_run_straight(prog, s8, ev, (fuel - 8) as nat);
    let even = x % 2 == 0;
    let s13 = running(30, seq![flag(even)], m, steps + 13);
    lemma_step_on(prog, s13, (fuel - 13) as nat);
    assert(seq![flag(even)].drop_last() =~= Seq::<i64>::empty());
    let y = collatz_next(x as int);
    let m1 = m.insert(2, y as i64);
    let c: nat = if even {
        19
    } else {
        20
    };
    if even {
        let s14 = running(31, Seq::empty(), m, steps + 14);
        assert(spec_step(prog, s13) == s14);
        let hv = seq![Instruction::Load(2), Instruction::Push(2), Instruction::Div, Instruction::Store(2)];
        lemma_code_at(n_max, m_iter, 31, hv);
        lemma_halve(m);
        lemma_run_straight(prog, s14, hv, (fuel - 14) as nat);
        let s18 = running(35, Seq::empty(), m1, steps + 18);
        lemma_step_on(prog, s18, (fuel - 18) as nat);
        assert(spec_step(prog, s18) == running(42, Seq::empty(), m1, steps + 19));
    } else {
        let s14 = running(36, Seq::empty(), m, steps + 14);
        assert(spec_step(prog, s13) == s14);
        let tp = seq![
            Instruction::Load(2),
            Instruction::Push(3),
            Instruction::Mul,
            Instruction::Push(1),
            Instruction::Add,
            Instruction::Store(2),
        ];
        lemma_code_at(n_max, m_iter, 36, tp);
        lemma_triple_plus_one(m);
        lemma_run_straight(prog, s14, tp, (fuel - 14) as nat);
    }
    // 42: it := it + 1, back to the step loop.
    let inc = seq![Instruction::Load(3), Instruction::Push(1), Instruction::Add, Instruction::Store(3)];
    lemma_code_at(n_max, m_iter, 42, inc);
    assert(read_cell(m1, 3) == it);
    lemma_add_store(m1, 3, 1, 3);
    lemma_run_straight(prog, running(42, Seq::empty(), m1, steps + c), inc, (fuel - c) as nat);
    let m2 = m1.insert(3, (it + 1) as i64);
    let s46 = running(46, Seq::empty(), m2, steps + c + 4);
    lemma_step_on(prog, s46, (fuel - c - 4) as nat);
    assert(spec_step(prog, s46) == running(16, Seq::empty(), m2, steps + c + 5));
    assert(read_cell(m2, 0) == n && read_cell(m2, 1) == n_max && read_cell(m2, 4) == m_iter
        && read_cell(m2, 2) == y && read_cell(m2, 3) == it + 1);
    lemma_next_positive(x as int);
    lemma_trajectory(n_max, m_iter, m2, steps + c + 5, (fuel - c - 5) as nat);
}

/// The outer loop from `n`: the program halts with 1 when every number from
/// `n` to the bound reaches 1 in time, and with 0 otherwise.
proof fn lemma_outer(n_max: i64, m_iter: i64, m: Map<usize, i64>, steps: nat, fuel: nat)
    requires
        read_cell(m, 1) == n_max,
        read_cell(m, 4) == m_iter,
        1 <= read_cell(m, 0),
        n_max < i64::MAX || m_iter <= 0,
        trajectories_fit(n_max as int, m_iter as int),
        fuel >= outer_run(n_max as int, read_cell(m, 0) as int, m_iter as int).1 + 1,
    ensures
        spec_run_from(collatz_program(n_max, m_iter), running(6, Seq::empty(), m, steps), fuel).outcome
            == Some(
            VmOutcome::Halted(
                if outer_run(n_max as int, read_cell(m, 0) as int, m_iter as int).0 {
                    1u8
                } else {
                    0u8
                },
            ),
        ),
    decreases (if read_cell(m, 0) <= n_max {
        n_max + 1 - read_cell(m, 0)
    } else {
        0
    }),
{
    let n = read_cell(m, 0);
    let prog = collatz_program(n_max, m_iter);
    let hdr = seq![Instruction::Load(0), Instruction::Load(1), Instruction::Swap, Instruction::Lt];
    lemma_code_at(n_max, m_iter, 6, hdr);
    lemma_bound_check(m);
    lemma_run_straight(prog, running(6, Seq::empty(), m, steps), hdr, fuel);
    if n > n_max {
        let s4 = running(10, seq![1i64], m, steps + 4);
        lemma_step_on(prog, s4, (fuel - 4) as nat);
        assert(seq![1i64].drop_last() =~= Seq::<i64>::empty());
        let s5 = running(11, Seq::empty(), m, steps + 5);
        assert(spec_step(prog, s4) == s5);
        lemma_step_on(prog, s5, (fuel - 5) as nat);
        let s6 = spec_step(prog, s5);
        assert(s6.outcome == Some(VmOutcome::Halted(1)));
        assert(spec_run_from(prog, s6, (fuel - 6) as nat) == s6);
    } else {
        let s4 = running(10, seq![0i64], m, steps + 4);
        lemma_step_on(prog, s4, (fuel - 4) as nat);
        assert(seq![0i64].drop_last() =~= Seq::<i64>::empty());
        let s5 = running(12, Seq::empty(), m, steps + 5);
        assert(spec_step(prog, s4) == s5);
        let cp = seq![Instruction::Load(0), Instruction::Store(2)];
        lemma_code_at(n_max, m_iter, 12, cp);
        lemma_copy(m, 0, 2);
        lemma_run_straight(prog, s5, cp, (fuel - 5) as nat);
        let m1 = m.insert(2, n);
        let z = seq![Instruction::Push(0), Instruction::Store(3)];
        lemma_code_at(n_max, m_iter, 14, z);
        lemma_set(m1, 0, 3);
        lemma_run_straight(prog, running(14, Seq::empty(), m1, steps + 7), z, (fuel - 7) as nat);
        let m2 = m1.insert(3, 0);
        assert(read_cell(m2, 0) == n && read_cell(m2, 1) == n_max && read_cell(m2, 4) == m_iter
            && read_cell(m2, 2) == n && read_cell(m2, 3) == 0);
        assert(trajectory_fits(n as int, 0, m_iter as int));
        let r = trajectory_run(n as int, 0, m_iter as int);
        assert(r.0 ==> n + 1 <= i64::MAX) by {
            if r.0 && m_iter <= 0 && n != 1 {
                assert(!r.0);
            }
        }
        lemma_trajectory(n_max, m_iter, m2, steps + 9, (fuel - 9) as nat);
        if r.0 {
            let m3 = trajectory_memory(m2, n as int, n as int, 0, m_iter as int);
            lemma_outer(n_max, m_iter, m3, steps + 9 + r.1, (fuel - 9 - r.1) as nat);
        }
    }
}

/// Steps the Collatz program takes until it halts.
pub open spec fn collatz_steps(n_max: int, m: int) -> nat {
    6 + outer_run(n_max, 1, m).1 + 1
}

/// The Collatz program for bounds N and M halts within its budget.
proof fn lemma_budget_suffices(n_max: i64, m_iter: i64)
    requires
        (n_max as u64) * (m_iter as u64) * 53 + 1_000_000 <= u64::MAX,
    ensures
        collatz_steps(n_max as int, m_iter as int) <= collatz_budget(n_max, m_iter),
        n_max >= 1 ==> m_iter >= 0,
{
    let nn = n_max as u64;
    let mm = m_iter as u64;
    assert(nn * mm >= 0) by (nonlinear_arith)
        requires
            nn >= 0,
            mm >= 0,
    ;
    if n_max < 1 {
        assert(outer_run(n_max as int, 1, m_iter as int).1 == 5);
        return;
    }
    if m_iter < 0 {
        assert(mm >= 0x8000_0000_0000_0000) by (bit_vector)
            requires
                m_iter < 0,
                mm == m_iter as u64,
        ;
        assert(nn * mm * 53 > u64::MAX) by (nonlinear_arith)
            requires
                nn >= 1,
                mm >= 0x8000_0000_0000_0000,
        ;
    }
    if m_iter == 0 {
        assert(trajectory_run(1, 0, 0) == (true, 10nat));
        if n_max >= 2 {
            assert(trajectory_run(2, 0, 0) == (false, 8nat));
            assert(outer_run(n_max as int, 2, 0) == (false, 17nat));
        } else {
            assert(outer_run(n_max as int, 2, 0) == (true, 5nat));
        }
        assert(outer_run(n_max as int, 1, 0).1 <= 36);
    } else {
        lemma_outer_steps(n_max as int, 1, m_iter as int);
        assert(nn == n_max && mm == m_iter);
        assert(n_max * (25 * m_iter + 19) + 5 + 7 <= n_max * m_iter * 53 + 1_000_000) by (nonlinear_arith)
            requires
                n_max >= 1,
                m_iter >= 1,
        ;
    }
}

/// The Collatz program for bounds N and M, run for its budget, halts with
/// 1 exactly when every n from 1 to N reaches 1 within M applications of
/// the map x -> x / 2 (x even), x -> 3x + 1 (x odd), and with 0 otherwise.
/// This holds for the bounds the builder accepts, when no trajectory it
/// follows leaves 64 bits (`trajectories_fit`).
pub proof fn lemma_collatz_program_decides(n_max: i64, m_iter: i64)
    requires
        (n_max as u64) * (m_iter as u64) * 53 + 1_000_000 <= u64::MAX,
        trajectories_fit(n_max as int, m_iter as int),
    ensures
        reported_outcome(spec_run(collatz_program(n_max, m_iter), collatz_budget(n_max, m_iter) as nat))
            == VmOutcome::Halted(if collatz_up_to(n_max as int, m_iter as int) { 1u8 } else { 0u8 }),
{
    let prog = collatz_program(n_max, m_iter);
    let budget = collatz_budget(n_max, m_iter);
    lemma_budget_suffices(n_max, m_iter);
    let init = seq![
        Instruction::Push(1),
        Instruction::Store(0),
        Instruction::Push(n_max),
        Instruction::Store(1),
        Instruction::Push(m_iter),
        Instruction::Store(4),
    ];
    lemma_code_at(n_max, m_iter, 0, init);
    let m0 = Map::<usize, i64>::empty().insert(0, 1).insert(1, n_max).insert(4, m_iter);
    lemma_set(Map::empty(), 1, 0);
    lemma_set(Map::<usize, i64>::empty().insert(0, 1), n_max, 1);
    lemma_set(Map::<usize, i64>::empty().insert(0, 1).insert(1, n_max), m_iter, 4);
    let a = seq![Instruction::Push(1), Instruction::Store(0)];
    let b = seq![Instruction::Push(n_max), Instruction::Store(1)];
    let c = seq![Instruction::Push(m_iter), Instruction::Store(4)];
    crate::vm::lemma_exec_straight_append(a, b, Seq::empty(), Map::empty());
    crate::vm::lemma_exec_straight_append(a + b, c, Seq::empty(), Map::empty());
    assert(a + b + c =~= init);
    lemma_run_straight(prog, initial_state(), init, budget as nat);
    assert(read_cell(m0, 0) == 1 && read_cell(m0, 1) == n_max && read_cell(m0, 4) == m_iter);
    if n_max >= 1 && m_iter >= 1 {
        assert(n_max < i64::MAX) by {
            let nn = n_max as u64;
            let mm = m_iter as u64;
            assert(nn * mm * 53 >= nn * 53) by (nonlinear_arith)
                requires
                    mm >= 1,
            ;
        }
    }
    if n_max < 1 {
        assert(n_max < i64::MAX);
    }
    lemma_outer(n_max, m_iter, m0, 6, (budget - 6) as nat);
    if n_max >= 1 {
        lemma_outer_found(n_max as int, 1, m_iter as int);
    } else {
        assert(collatz_up_to(n_max as int, m_iter as int));
    }
}

} // verus!
