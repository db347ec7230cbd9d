//! What the inline primality test of the open-problem programs decides.
//!
//! The test rules out values below 2, accepts 2, rules out other even
//! values, and then tries the odd divisors 3, 5, 7, ... while their square
//! does not exceed the value.

use crate::open_problems::primality_block;
use crate::vm::{
    binary_value, exec_straight, flag, lemma_run_straight, read_cell, spec_run_from, spec_step,
    Instruction, MachineState,
};
use vstd::prelude::*;

verus! {

/// `v` is prime: at least 2, and no `k` in `[2, v)` divides it.
pub open spec fn is_prime(v: int) -> bool {
    v >= 2 && forall|k: int| 2 <= k < v ==> #[trigger] (v % k) != 0
}

/// Trial division of `v` from the odd divisor `d` on: whether it reports
/// a prime, the divisor it stops at, and its steps from the loop head to
/// the jump target (8 to report a prime, 14 to report a divisor, 18 more
/// per divisor passed).
pub open spec fn trial_from(v: int, d: int) -> (bool, int, nat)
    decreases v + 2 - d,
{
    if d >= v || v < d * d {
        (true, d, 8)
    } else if v % d == 0 {
        (false, d, 14)
    } else {
        let r = trial_from(v, d + 2);
        (r.0, r.1, 18 + r.2)
    }
}

/// Every square and increment that trial division of `v` from `d` computes
/// fits in 64 bits.
pub open spec fn trial_fits(v: int, d: int) -> bool
    decreases v + 2 - d,
{
    &&& d * d <= i64::MAX
    &&& (d < v && v >= d * d && v % d != 0) ==> d + 2 <= i64::MAX && trial_fits(v, d + 2)
}

/// The whole test on `v`: whether it reports a prime, the divisor the
/// trial loop stopped at (when it ran), and its steps from the test's first
/// instruction to the jump target.
pub open spec fn primality_run(v: int) -> (bool, Option<int>, nat) {
    if v < 2 {
        (false, None, 5)
    } else if v == 2 {
        (true, None, 9)
    } else if v % 2 == 0 {
        (false, None, 15)
    } else {
        let r = trial_from(v, 3);
        (r.0, Some(r.1), 16 + r.2)
    }
}

proof fn lemma_even_divisor(v: int, k: int)
    requires
        v > 0,
        k >= 2,
        v % k == 0,
        k % 2 == 0,
    ensures
        v % 2 == 0,
{
    let q = v / k;
    let j = k / 2;
    assert(v == k * q) by {
        vstd::arithmetic::div_mod::lemma_fundamental_div_mod(v, k);
    }
    assert(k == 2 * j) by {
        vstd::arithmetic::div_mod::lemma_fundamental_div_mod(k, 2);
    }
    assert(v == 2 * (j * q)) by (nonlinear_arith)
        requires
            v == k * q,
            k == 2 * j,
    ;
    vstd::arithmetic::div_mod::lemma_mod_multiples_basic(j * q, 2);
    assert((j * q) * 2 == 2 * (j * q)) by (nonlinear_arith);
}

/// A divisor `k >= d` of `v < d * d` has a cofactor in `[2, d)`.
proof fn lemma_small_cofactor(v: int, k: int, d: int)
    requires
        d >= 2,
        d <= k < v,
        v < d * d,
        v % k == 0,
    ensures
        2 <= v / k < d,
        v % (v / k) == 0,
{
    let q = v / k;
    assert(v == k * q) by {
        vstd::arithmetic::div_mod::lemma_fundamental_div_mod(v, k);
    }
    assert(q >= 2) by (nonlinear_arith)
        requires
            v == k * q,
            2 <= k < v,
    ;
    assert(q < d) by (nonlinear_arith)
        requires
            v == k * q,
            d <= k,
            v < d * d,
            d >= 2,
            q >= 2,
    ;
    vstd::arithmetic::div_mod::lemma_mod_multiples_basic(k, q);
    assert(k * q == q * k) by (nonlinear_arith);
}

/// For odd `v >= 3` with no divisor below the odd `d >= 3`, trial division
/// from `d` reports a prime exactly when `v` is prime.
proof fn lemma_trial_correct(v: int, d: int)
    requires
        v >= 3,
        v % 2 == 1,
        d >= 3,
        d % 2 == 1,
        forall|k: int| 2 <= k < d ==> #[trigger] (v % k) != 0,
    ensures
        trial_from(v, d).0 == is_prime(v),
    decreases v + 2 - d,
{
    if d >= v {
        assert forall|k: int| 2 <= k < v implies #[trigger] (v % k) != 0 by {}
    } else if v < d * d {
        assert forall|k: int| 2 <= k < v implies #[trigger] (v % k) != 0 by {
            if v % k == 0 && k >= d {
                lemma_small_cofactor(v, k, d);
                let q = v / k;
                assert(v % q != 0);
            }
        }
    } else if v % d == 0 {
        assert(!is_prime(v)) by {
            assert(2 <= d < v && v % d == 0);
        }
    } else {
        assert forall|k: int| 2 <= k < d + 2 implies #[trigger] (v % k) != 0 by {
            if k == d + 1 && v % k == 0 {
                assert(k % 2 == 0) by {
                    vstd::arithmetic::div_mod::lemma_fundamental_div_mod(d, 2);
                }
                lemma_even_divisor(v, k);
            }
        }
        lemma_trial_correct(v, d + 2);
    }
}

/// The test reports a prime exactly for the primes.
pub proof fn lemma_primality_run_correct(v: int)
    ensures
        primality_run(v).0 == is_prime(v),
{
    if v < 2 {
    } else if v == 2 {
        assert(is_prime(2));
    } else if v % 2 == 0 {
        assert(!is_prime(v)) by {
            assert(2 <= 2 < v && v % 2 == 0);
        }
    } else {
        assert forall|k: int| 2 <= k < 3 implies #[trigger] (v % k) != 0 by {
            assert(k == 2);
        }
        lemma_trial_correct(v, 3);
    }
}

// ── Running the test ────────────────────────────────────────────────

/// `prog` holds the primality test for `val_slot` at `start`.
pub open spec fn test_placed(
    prog: Seq<Instruction>,
    val_slot: usize,
    div_slot: usize,
    start: nat,
    prime: usize,
    not_prime: usize,
) -> bool {
    &&& start + 39 <= prog.len()
    &&& start + 39 <= usize::MAX
    &&& prog.subrange(start as int, start + 39int) == primality_block(
        val_slot,
        div_slot,
        start as usize,
        prime,
        not_prime,
    )
}

proof fn lemma_placed_sub(
    prog: Seq<Instruction>,
    val_slot: usize,
    div_slot: usize,
    start: nat,
    prime: usize,
    not_prime: usize,
    a: int,
    b: int,
)
    requires
        test_placed(prog, val_slot, div_slot, start, prime, not_prime),
        0 <= a <= b <= 39,
    ensures
        prog.subrange(start + a, start + b) == primality_block(
            val_slot,
            div_slot,
            start as usize,
            prime,
            not_prime,
        ).subrange(a, b),
        forall|k: int| a <= k < b ==> prog[start + k] == #[trigger] primality_block(
            val_slot,
            div_slot,
            start as usize,
            prime,
            not_prime,
        )[k],
{
    let blk = primality_block(val_slot, div_slot, start as usize, prime, not_prime);
    assert forall|k: int| a <= k < b implies prog[start + k] == #[trigger] blk[k] by {
        assert(prog.subrange(start as int, start + 39int)[k] == blk[k]);
    }
    assert(prog.subrange(start + a, start + b) =~= blk.subrange(a, b));
}

/// `Load(slot), Push(c), op` pushes `op` applied to the cell and `c`.
proof fn lemma_load_push_op(slot: usize, c: i64, op: Instruction, st: Seq<i64>, m: Map<usize, i64>)
    requires
        binary_value(op, read_cell(m, slot), c) is Ok,
        op == Instruction::Lt || op == Instruction::Eq || op == Instruction::Mod,
    ensures
        exec_straight(seq![Instruction::Load(slot), Instruction::Push(c), op], st, m) == Ok::<
            (Seq<i64>, Map<usize, i64>),
            crate::vm::Fault,
        >((st.push(binary_value(op, read_cell(m, slot), c)->Ok_0), m)),
{
    reveal_with_fuel(exec_straight, 4);
    let code = seq![Instruction::Load(slot), Instruction::Push(c), op];
    assert(code.skip(1) =~= seq![Instruction::Push(c), op]);
    assert(code.skip(1).skip(1) =~= seq![op]);
    assert(code.skip(1).skip(1).skip(1) =~= Seq::<Instruction>::empty());
    let s2 = st.push(read_cell(m, slot)).push(c);
    assert(s2[s2.len() - 2] == read_cell(m, slot));
    assert(s2.drop_last().drop_last() =~= st);
}

/// `Push(0), Eq` turns the top of the stack into whether it is zero.
proof fn lemma_push0_eq(x: i64, st: Seq<i64>, m: Map<usize, i64>)
    ensures
        exec_straight(seq![Instruction::Push(0), Instruction::Eq], st.push(x), m) == Ok::<
            (Seq<i64>, Map<usize, i64>),
            crate::vm::Fault,
        >((st.push(flag(x == 0)), m)),
{
    reveal_with_fuel(exec_straight, 3);
    let code = seq![Instruction::Push(0), Instruction::Eq];
    assert(code.skip(1) =~= seq![Instruction::Eq]);
    assert(code.skip(1).skip(1) =~= Seq::<Instruction>::empty());
    let s2 = st.push(x).push(0);
    assert(s2[s2.len() - 2] == x);
    assert(s2.drop_last().drop_last() =~= st);
}

/// The loop head `Load(div), Load(div), Mul, Load(val), Swap, Lt` pushes
/// whether the value is below the divisor's square.
proof fn lemma_loop_head(val_slot: usize, div_slot: usize, st: Seq<i64>, m: Map<usize, i64>)
    requires
        read_cell(m, div_slot) * read_cell(m, div_slot) <= i64::MAX,
    ensures
        exec_straight(
            seq![
                Instruction::Load(div_slot),
                Instruction::Load(div_slot),
                Instruction::Mul,
                Instruction::Load(val_slot),
                Instruction::Swap,
                Instruction::Lt,
            ],
            st,
            m,
        ) == Ok::<(Seq<i64>, Map<usize, i64>), crate::vm::Fault>(
            (
                st.push(
                    flag(
                        read_cell(m, val_slot) < read_cell(m, div_slot) * read_cell(m, div_slot),
                    ),
                ),
                m,
            ),
        ),
{
    reveal_with_fuel(exec_straight, 7);
    let d = read_cell(m, div_slot);
    let v = read_cell(m, val_slot);
    assert(d * d >= i64::MIN) by (nonlinear_arith);
    let dd = (d * d) as i64;
    let code = seq![
        Instruction::Load(div_slot),
        Instruction::Load(div_slot),
        Instruction::Mul,
        Instruction::Load(val_slot),
        Instruction::Swap,
        Instruction::Lt,
    ];
    assert(code.skip(1) =~= seq![
        Instruction::Load(div_slot),
        Instruction::Mul,
        Instruction::Load(val_slot),
        Instruction::Swap,
        Instruction::Lt,
    ]);
    assert(code.skip(1).skip(1) =~= seq![
        Instruction::Mul,
        Instruction::Load(val_slot),
        Instruction::Swap,
        Instruction::Lt,
    ]);
    assert(code.skip(1).skip(1).skip(1) =~= seq![
        Instruction::Load(val_slot),
        Instruction::Swap,
        Instruction::Lt,
    ]);
    assert(code.skip(1).skip(1).skip(1).skip(1) =~= seq![Instruction::Swap, Instruction::Lt]);
    assert(code.skip(1).skip(1).skip(1).skip(1).skip(1) =~= seq![Instruction::Lt]);
    assert(code.skip(1).skip(1).skip(1).skip(1).skip(1).skip(1) =~= Seq::<Instruction>::empty());
    let s2 = st.push(d).push(d);
    assert(s2[s2.len() - 2] == d);
    let s3 = s2.drop_last().drop_last().push(dd);
    assert(s3 =~= st.push(dd));
    let s4 = st.push(dd).push(v);
    let s5 = s4.drop_last().drop_last().push(s4.last()).push(s4[s4.len() - 2]);
    assert(s5 =~= st.push(v).push(dd));
    assert(s5[s5.len() - 2] == v);
    assert(s5.drop_last().drop_last() =~= st);
}

/// `Load(val), Load(div), Mod, Push(0), Eq` pushes whether the divisor
/// divides the value (both positive).
proof fn lemma_divides_check(val_slot: usize, div_slot: usize, st: Seq<i64>, m: Map<usize, i64>)
    requires
        read_cell(m, val_slot) > 0,
        read_cell(m, div_slot) > 0,
    ensures
        exec_straight(
            seq![
                Instruction::Load(val_slot),
                Instruction::Load(div_slot),
                Instruction::Mod,
                Instruction::Push(0),
                Instruction::Eq,
            ],
            st,
            m,
        ) == Ok::<(Seq<i64>, Map<usize, i64>), crate::vm::Fault>(
            (st.push(flag(read_cell(m, val_slot) % read_cell(m, div_slot) == 0)), m),
        ),
{
    reveal_with_fuel(exec_straight, 6);
    let d = read_cell(m, div_slot);
    let v = read_cell(m, val_slot);
    let r = (v % d) as i64;
    let code = seq![
        Instruction::Load(val_slot),
        Instruction::Load(div_slot),
        Instruction::Mod,
        Instruction::Push(0),
        Instruction::Eq,
    ];
    assert(code.skip(1) =~= seq![
        Instruction::Load(div_slot),
        Instruction::Mod,
        Instruction::Push(0),
        Instruction::Eq,
    ]);
    assert(code.skip(1).skip(1) =~= seq![Instruction::Mod, Instruction::Push(0), Instruction::Eq]);
    assert(code.skip(1).skip(1).skip(1) =~= seq![Instruction::Push(0), Instruction::Eq]);
    assert(code.skip(1).skip(1).skip(1).skip(1) =~= seq![Instruction::Eq]);
    assert(code.skip(1).skip(1).skip(1).skip(1).skip(1) =~= Seq::<Instruction>::empty());
    let s2 = st.push(v).push(d);
    assert(s2[s2.len() - 2] == v);
    assert(s2.drop_last().drop_last().push(r) =~= st.push(r));
    let s4 = st.push(r).push(0);
    assert(s4[s4.len() - 2] == r);
    assert(s4.drop_last().drop_last() =~= st);
}

/// `Load(div), Push(2), Add, Store(div)` advances the divisor by 2.
proof fn lemma_next_divisor(div_slot: usize, st: Seq<i64>, m: Map<usize, i64>)
    requires
        read_cell(m, div_slot) + 2 <= i64::MAX,
    ensures
        exec_straight(
            seq![
                Instruction::Load(div_slot),
                Instruction::Push(2),
                Instruction::Add,
                Instruction::Store(div_slot),
            ],
            st,
            m,
        ) == Ok::<(Seq<i64>, Map<usize, i64>), crate::vm::Fault>(
            (st, m.insert(div_slot, (read_cell(m, div_slot) + 2) as i64)),
        ),
{
    reveal_with_fuel(exec_straight, 5);
    let d = read_cell(m, div_slot);
    let code = seq![
        Instruction::Load(div_slot),
        Instruction::Push(2),
        Instruction::Add,
        Instruction::Store(div_slot),
    ];
    assert(code.skip(1) =~= seq![Instruction::Push(2), Instruction::Add, Instruction::Store(div_slot)]);
    assert(code.skip(1).skip(1) =~= seq![Instruction::Add, Instruction::Store(div_slot)]);
    assert(code.skip(1).skip(1).skip(1) =~= seq![Instruction::Store(div_slot)]);
    assert(code.skip(1).skip(1).skip(1).skip(1) =~= Seq::<Instruction>::empty());
    let s2 = st.push(d).push(2);
    assert(s2[s2.len() - 2] == d);
    assert(s2.drop_last().drop_last().push((d + 2) as i64) =~= st.push((d + 2) as i64));
    assert(st.push((d + 2) as i64).drop_last() =~= st);
}

/// A running machine with the given position, stack, memory and count.
pub open spec fn running(pc: nat, stack: Seq<i64>, memory: Map<usize, i64>, steps: nat) -> MachineState {
    MachineState { pc, stack, memory, steps, outcome: None }
}

proof fn lemma_step_on(prog: Seq<Instruction>, s: MachineState, fuel: nat)
    requires
        s.outcome is None,
        fuel >= 1,
    ensures
        spec_run_from(prog, s, fuel) == spec_run_from(prog, spec_step(prog, s), (fuel - 1) as nat),
{
}

/// From the loop head with divisor `d` in `div_slot`, trial division runs
/// as `trial_from` says: it reaches `prime` or `not_prime` after its
/// steps, with the stack as before and the divisor it stopped at in
/// `div_slot`.
#[verifier::rlimit(40)]
proof fn lemma_trial_loop(
    prog: Seq<Instruction>,
    val_slot: usize,
    div_slot: usize,
    start: nat,
    prime: usize,
    not_prime: usize,
    st: Seq<i64>,
    m: Map<usize, i64>,
    d: i64,
    steps: nat,
    fuel: nat,
)
    requires
        test_placed(prog, val_slot, div_slot, start, prime, not_prime),
        val_slot != div_slot,
        read_cell(m, val_slot) >= 3,
        d >= 3,
        trial_fits(read_cell(m, val_slot) as int, d as int),
        fuel >= trial_from(read_cell(m, val_slot) as int, d as int).2,
    ensures
        ({
            let r = trial_from(read_cell(m, val_slot) as int, d as int);
            spec_run_from(prog, running(start + 19, st, m.insert(div_slot, d), steps), fuel)
                == spec_run_from(
                prog,
                running(
                    if r.0 {
                        prime as nat
                    } else {
                        not_prime as nat
                    },
                    st,
                    m.insert(div_slot, r.1 as i64),
                    steps + r.2,
                ),
                (fuel - r.2) as nat,
            )
        }),
    decreases read_cell(m, val_slot) + 2 - d,
{
    let v = read_cell(m, val_slot);
    let r = trial_from(v as int, d as int);
    let blk = primality_block(val_slot, div_slot, start as usize, prime, not_prime);
    let m1 = m.insert(div_slot, d);
    assert(read_cell(m1, div_slot) == d);
    assert(read_cell(m1, val_slot) == v);
    lemma_placed_sub(prog, val_slot, div_slot, start, prime, not_prime, 19, 39);
    let head = seq![
        Instruction::Load(div_slot),
        Instruction::Load(div_slot),
        Instruction::Mul,
        Instruction::Load(val_slot),
        Instruction::Swap,
        Instruction::Lt,
    ];
    assert(prog.subrange(start + 19int, start + 25int) =~= head) by {
        lemma_placed_sub(prog, val_slot, div_slot, start, prime, not_prime, 19, 25);
        assert(blk.subrange(19, 25) =~= head);
    }
    lemma_loop_head(val_slot, div_slot, st, m1);
    let s0 = running(start + 19, st, m1, steps);
    lemma_run_straight(prog, s0, head, fuel);
    let lt = v < d * d;
    let s6 = running(start + 25, st.push(flag(lt)), m1, steps + 6);
    assert(prog[start + 25int] == blk[25]);
    assert(blk[25] == Instruction::Jz((start + 27) as usize));
    lemma_step_on(prog, s6, (fuel - 6) as nat);
    assert(st.push(flag(lt)).drop_last() =~= st);
    if d >= v || lt {
        assert(lt) by {
            if d >= v {
                assert(v < d * d) by (nonlinear_arith)
                    requires
                        d >= v,
                        v >= 3,
                ;
            }
        }
        let s7 = running(start + 26, st, m1, steps + 7);
        assert(spec_step(prog, s6) == s7);
        assert(prog[start + 26int] == blk[26]);
        lemma_step_on(prog, s7, (fuel - 7) as nat);
        assert(spec_step(prog, s7) == running(prime as nat, st, m1, steps + 8));
    } else {
        let s7 = running(start + 27, st, m1, steps + 7);
        assert(spec_step(prog, s6) == s7);
        let check = seq![
            Instruction::Load(val_slot),
            Instruction::Load(div_slot),
            Instruction::Mod,
            Instruction::Push(0),
            Instruction::Eq,
        ];
        assert(prog.subrange(start + 27int, start + 32int) =~= check) by {
            lemma_placed_sub(prog, val_slot, div_slot, start, prime, not_prime, 27, 32);
            assert(blk.subrange(27, 32) =~= check);
        }
        lemma_divides_check(val_slot, div_slot, st, m1);
        lemma_run_straight(prog, s7, check, (fuel - 7) as nat);
        let dv = v % d == 0;
        let s12 = running(start + 32, st.push(flag(dv)), m1, steps + 12);
        assert(prog[start + 32int] == blk[32]);
        assert(blk[32] == Instruction::Jz((start + 34) as usize));
        lemma_step_on(prog, s12, (fuel - 12) as nat);
        assert(st.push(flag(dv)).drop_last() =~= st);
        if dv {
            let s13 = running(start + 33, st, m1, steps + 13);
            assert(spec_step(prog, s12) == s13);
            assert(prog[start + 33int] == blk[33]);
            lemma_step_on(prog, s13, (fuel - 13) as nat);
            assert(spec_step(prog, s13) == running(not_prime as nat, st, m1, steps + 14));
        } else {
            let s13 = running(start + 34, st, m1, steps + 13);
            assert(spec_step(prog, s12) == s13);
            let inc = seq![
                Instruction::Load(div_slot),
                Instruction::Push(2),
                Instruction::Add,
                Instruction::Store(div_slot),
            ];
            assert(prog.subrange(start + 34int, start + 38int) =~= inc) by {
                lemma_placed_sub(prog, val_slot, div_slot, start, prime, not_prime, 34, 38);
                assert(blk.subrange(34, 38) =~= inc);
            }
            lemma_next_divisor(div_slot, st, m1);
            lemma_run_straight(prog, s13, inc, (fuel - 13) as nat);
            let d2 = (d + 2) as i64;
            assert(m1.insert(div_slot, d2) =~= m.insert(div_slot, d2));
            let s17 = running(start + 38, st, m.insert(div_slot, d2), steps + 17);
            assert(prog[start + 38int] == blk[38]);
            assert(blk[38] == Instruction::Jmp((start + 19) as usize));
            lemma_step_on(prog, s17, (fuel - 17) as nat);
            assert(spec_step(prog, s17) == running(start + 19, st, m.insert(div_slot, d2), steps + 18));
            lemma_trial_loop(prog, val_slot, div_slot, start, prime, not_prime, st, m, d2, steps + 18, (fuel - 18) as nat);
        }
    }
}

/// The test's first part: values below 2 go to `not_prime`.
proof fn lemma_test_below_two(
    prog: Seq<Instruction>,
    val_slot: usize,
    div_slot: usize,
    start: nat,
    prime: usize,
    not_prime: usize,
    st: Seq<i64>,
    m: Map<usize, i64>,
    steps: nat,
    fuel: nat,
)
    requires
        test_placed(prog, val_slot, div_slot, start, prime, not_prime),
        fuel >= 5,
    ensures
        spec_run_from(prog, running(start, st, m, steps), fuel) == if read_cell(m, val_slot) < 2 {
            spec_run_from(prog, running(not_prime as nat, st, m, steps + 5), (fuel - 5) as nat)
        } else {
            spec_run_from(prog, running(start + 5, st, m, steps + 4), (fuel - 4) as nat)
        },
{
    let v = read_cell(m, val_slot);
    let blk = primality_block(val_slot, div_slot, start as usize, prime, not_prime);
    let a = seq![Instruction::Load(val_slot), Instruction::Push(2), Instruction::Lt];
    lemma_placed_sub(prog, val_slot, div_slot, start, prime, not_prime, 0, 5);
    assert(prog.subrange(start as int, start + 3int) =~= a) by {
        lemma_placed_sub(prog, val_slot, div_slot, start, prime, not_prime, 0, 3);
        assert(blk.subrange(0, 3) =~= a);
    }
    lemma_load_push_op(val_slot, 2, Instruction::Lt, st, m);
    lemma_run_straight(prog, running(start, st, m, steps), a, fuel);
    let s3 = running(start + 3, st.push(flag(v < 2)), m, steps + 3);
    assert(prog[start + 3int] == blk[3]);
    lemma_step_on(prog, s3, (fuel - 3) as nat);
    assert(st.push(flag(v < 2)).drop_last() =~= st);
    if v < 2 {
        let s4 = running(start + 4, st, m, steps + 4);
        assert(spec_step(prog, s3) == s4);
        assert(prog[start + 4int] == blk[4]);
        lemma_step_on(prog, s4, (fuel - 4) as nat);
        assert(spec_step(prog, s4) == running(not_prime as nat, st, m, steps + 5));
    } else {
        assert(spec_step(prog, s3) == running(start + 5, st, m, steps + 4));
    }
}

/// The test's second part: 2 goes to `prime`.
proof fn lemma_test_two(
    prog: Seq<Instruction>,
    val_slot: usize,
    div_slot: usize,
    start: nat,
    prime: usize,
    not_prime: usize,
    st: Seq<i64>,
    m: Map<usize, i64>,
    steps: nat,
    fuel: nat,
)
    requires
        test_placed(prog, val_slot, div_slot, start, prime, not_prime),
        fuel >= 5,
    ensures
        spec_run_from(prog, running(start + 5, st, m, steps), fuel) == if read_cell(m, val_slot) == 2 {
            spec_run_from(prog, running(prime as nat, st, m, steps + 5), (fuel - 5) as nat)
        } else {
            spec_run_from(prog, running(start + 10, st, m, steps + 4), (fuel - 4) as nat)
        },
{
    let v = read_cell(m, val_slot);
    let blk = primality_block(val_slot, div_slot, start as usize, prime, not_prime);
    let b = seq![Instruction::Load(val_slot), Instruction::Push(2), Instruction::Eq];
    lemma_placed_sub(prog, val_slot, div_slot, start, prime, not_prime, 5, 10);
    assert(prog.subrange(start + 5int, start + 8int) =~= b) by {
        lemma_placed_sub(prog, val_slot, div_slot, start, prime, not_prime, 5, 8);
        assert(blk.subrange(5, 8) =~= b);
    }
    lemma_load_push_op(val_slot, 2, Instruction::Eq, st, m);
    lemma_run_straight(prog, running(start + 5, st, m, steps), b, fuel);
    let s3 = running(start + 8, st.push(flag(v == 2)), m, steps + 3);
    assert(prog[start + 8int] == blk[8]);
    lemma_step_on(prog, s3, (fuel - 3) as nat);
    assert(st.push(flag(v == 2)).drop_last() =~= st);
    if v == 2 {
        let s4 = running(start + 9, st, m, steps + 4);
        assert(spec_step(prog, s3) == s4);
        assert(prog[start + 9int] == blk[9]);
        lemma_step_on(prog, s4, (fuel - 4) as nat);
        assert(spec_step(prog, s4) == running(prime as nat, st, m, steps + 5));
    } else {
        assert(spec_step(prog, s3) == running(start + 10, st, m, steps + 4));
    }
}

/// The test's third part, for values of at least 3: even values go to
/// `not_prime`; odd ones reach the trial loop with divisor 3.
proof fn lemma_test_even(
    prog: Seq<Instruction>,
    val_slot: usize,
    div_slot: usize,
    start: nat,
    prime: usize,
    not_prime: usize,
    st: Seq<i64>,
    m: Map<usize, i64>,
    steps: nat,
    fuel: nat,
)
    requires
        test_placed(prog, val_slot, div_slot, start, prime, not_prime),
        read_cell(m, val_slot) >= 3,
        fuel >= if read_cell(m, val_slot) % 2 == 0 {
            7int
        } else {
            8int
        },
    ensures
        spec_run_from(prog, running(start + 10, st, m, steps), fuel) == if read_cell(m, val_slot) % 2
            == 0 {
            spec_run_from(prog, running(not_prime as nat, st, m, steps + 7), (fuel - 7) as nat)
        } else {
            spec_run_from(
                prog,
                running(start + 19, st, m.insert(div_slot, 3), steps + 8),
                (fuel - 8) as nat,
            )
        },
{
    let v = read_cell(m, val_slot);
    let blk = primality_block(val_slot, div_slot, start as usize, prime, not_prime);
    let c1 = seq![Instruction::Load(val_slot), Instruction::Push(2), Instruction::Mod];
    let c2 = seq![Instruction::Push(0), Instruction::Eq];
    lemma_placed_sub(prog, val_slot, div_slot, start, prime, not_prime, 10, 19);
    assert(prog.subrange(start + 10int, start + 15int) =~= c1 + c2) by {
        lemma_placed_sub(prog, val_slot, div_slot, start, prime, not_prime, 10, 15);
        assert(blk.subrange(10, 15) =~= c1 + c2);
    }
    let r2 = (v % 2) as i64;
    assert(binary_value(Instruction::Mod, v, 2) == Ok::<i64, crate::vm::Fault>(r2));
    lemma_load_push_op(val_slot, 2, Instruction::Mod, st, m);
    lemma_push0_eq(r2, st, m);
    crate::vm::lemma_exec_straight_append(c1, c2, st, m);
    lemma_run_straight(prog, running(start + 10, st, m, steps), c1 + c2, fuel);
    let s5 = running(start + 15, st.push(flag(r2 == 0)), m, steps + 5);
    assert(prog[start + 15int] == blk[15]);
    lemma_step_on(prog, s5, (fuel - 5) as nat);
    assert(st.push(flag(r2 == 0)).drop_last() =~= st);
    if r2 == 0 {
        let s6 = running(start + 16, st, m, steps + 6);
        assert(spec_step(prog, s5) == s6);
        assert(prog[start + 16int] == blk[16]);
        lemma_step_on(prog, s6, (fuel - 6) as nat);
        assert(spec_step(prog, s6) == running(not_prime as nat, st, m, steps + 7));
    } else {
        let s6 = running(start + 17, st, m, steps + 6);
        assert(spec_step(prog, s5) == s6);
        let dset = seq![Instruction::Push(3), Instruction::Store(div_slot)];
        assert(prog.subrange(start + 17int, start + 19int) =~= dset) by {
            lemma_placed_sub(prog, val_slot, div_slot, start, prime, not_prime, 17, 19);
            assert(blk.subrange(17, 19) =~= dset);
        }
        assert(exec_straight(dset, st, m) == Ok::<(Seq<i64>, Map<usize, i64>), crate::vm::Fault>(
            (st, m.insert(div_slot, 3)),
        )) by {
            reveal_with_fuel(exec_straight, 3);
            assert(dset.skip(1) =~= seq![Instruction::Store(div_slot)]);
            assert(dset.skip(1).skip(1) =~= Seq::<Instruction>::empty());
            assert(st.push(3).drop_last() =~= st);
        }
        lemma_run_straight(prog, s6, dset, (fuel - 6) as nat);
    }
}

/// Memory after the test: the divisor cell holds the divisor the trial
/// loop stopped at, when the loop ran.
pub open spec fn memory_after_test(m: Map<usize, i64>, div_slot: usize, v: int) -> Map<usize, i64> {
    match primality_run(v).1 {
        Some(d) => m.insert(div_slot, d as i64),
        None => m,
    }
}

/// Placed at `start`, the primality test on the value `v` of `val_slot`
/// jumps to `prime` when `v` is prime and to `not_prime` otherwise, after
/// `primality_run(v)` steps, with the stack as it was and every cell but
/// the divisor cell unchanged. This holds when trial division of an odd
/// `v >= 3` computes no square or sum beyond 64 bits (`trial_fits`); for
/// the largest primes below 2^63 it does not, and the machine faults.
pub proof fn lemma_primality_test(
    prog: Seq<Instruction>,
    val_slot: usize,
    div_slot: usize,
    start: nat,
    prime: usize,
    not_prime: usize,
    st: Seq<i64>,
    m: Map<usize, i64>,
    steps: nat,
    fuel: nat,
)
    requires
        test_placed(prog, val_slot, div_slot, start, prime, not_prime),
        val_slot != div_slot,
        read_cell(m, val_slot) >= 3 && read_cell(m, val_slot) % 2 == 1 ==> trial_fits(
            read_cell(m, val_slot) as int,
            3,
        ),
        fuel >= primality_run(read_cell(m, val_slot) as int).2,
    ensures
        ({
            let v = read_cell(m, val_slot) as int;
            spec_run_from(prog, running(start, st, m, steps), fuel) == spec_run_from(
                prog,
                running(
                    if is_prime(v) {
                        prime as nat
                    } else {
                        not_prime as nat
                    },
                    st,
                    memory_after_test(m, div_slot, v),
                    steps + primality_run(v).2,
                ),
                (fuel - primality_run(v).2) as nat,
            )
        }),
{
    let v = read_cell(m, val_slot);
    lemma_primality_run_correct(v as int);
    lemma_test_below_two(prog, val_slot, div_slot, start, prime, not_prime, st, m, steps, fuel);
    if v < 2 {
        return;
    }
    lemma_test_two(prog, val_slot, div_slot, start, prime, not_prime, st, m, steps + 4, (fuel - 4) as nat);
    if v == 2 {
        return;
    }
    lemma_test_even(prog, val_slot, div_slot, start, prime, not_prime, st, m, steps + 8, (fuel - 8) as nat);
    if v % 2 == 0 {
        return;
    }
    assert(read_cell(m.insert(div_slot, 3), val_slot) == v);
    lemma_trial_loop(prog, val_slot, div_slot, start, prime, not_prime, st, m, 3, steps + 16, (fuel - 16) as nat);
}

/// Trial division of `v` stays within 64 bits.
pub open spec fn test_fits(v: int) -> bool {
    v >= 3 && v % 2 == 1 ==> trial_fits(v, 3)
}

proof fn lemma_trial_fits_small(v: int, d: int)
    requires
        v <= 0x10_0000_0000_0000,
        3 <= d <= 0x400_0002,
    ensures
        trial_fits(v, d),
    decreases v + 2 - d,
{
    assert(d * d <= 0x10_0000_0000_0000 * 2) by (nonlinear_arith)
        requires
            3 <= d <= 0x400_0002,
    ;
    if d < v && v >= d * d && v % d != 0 {
        assert(d <= 0x400_0000) by (nonlinear_arith)
            requires
                v >= d * d,
                v <= 0x10_0000_0000_0000,
                d >= 3,
        ;
        lemma_trial_fits_small(v, d + 2);
    }
}

/// Trial division of values up to `2^52` stays within 64 bits.
pub proof fn lemma_test_fits_small(v: int)
    requires
        v <= 0x10_0000_0000_0000,
    ensures
        test_fits(v),
{
    if v >= 3 && v % 2 == 1 {
        lemma_trial_fits_small(v, 3);
    }
}

} // verus!
