//! What the root-search program decides.
//!
//! The program runs `x` through `[lo, hi]`; for each `x` it evaluates
//! `f(x) = c0 + c1 x + c2 x² + ...` term by term (`pw *= x; acc += c * pw`)
//! and halts with 1 at the first `x` with `f(x) = target`; past `hi` it
//! halts with 0.

use super::{lemma_power_terms_len, power_term, power_terms, root_search_program};
use crate::trial_division::running;
use crate::twin_primes::lemma_step_on;
use crate::vm::{
    binary_value, exec_straight, flag, is_binary, initial_state, lemma_binary_on, lemma_load_on, lemma_push_on,
    lemma_run_straight, lemma_store_on, lemma_then, read_cell, reported_outcome, spec_run, spec_run_from,
    spec_step, Fault, Instruction, VmOutcome,
};
use vstd::arithmetic::power::pow;
use vstd::prelude::*;

verus! {

/// The coefficient the evaluation starts from.
pub open spec fn constant_term(cs: Seq<i64>) -> i64 {
    if cs.len() == 0 {
        0
    } else {
        cs[0]
    }
}

/// The coefficients of `x`, `x²`, ...
pub open spec fn higher_terms(cs: Seq<i64>) -> Seq<i64> {
    if cs.len() == 0 {
        Seq::empty()
    } else {
        cs.skip(1)
    }
}

/// `c0 + c1 x + c2 x² + ...`
pub open spec fn poly_value(cs: Seq<i64>, x: int) -> int
    decreases cs.len(),
{
    if cs.len() == 0 {
        0
    } else {
        poly_value(cs.drop_last(), x) + cs.last() * pow(x, (cs.len() - 1) as nat)
    }
}

/// The machine's evaluation of the terms `cs` from accumulator `acc` and
/// power `pw`: the final pair, or `None` where an operation overflows.
pub open spec fn eval_terms(cs: Seq<i64>, acc: i64, pw: i64, x: i64) -> Option<(i64, i64)>
    decreases cs.len(),
{
    if cs.len() == 0 {
        Some((acc, pw))
    } else {
        match eval_terms(cs.drop_last(), acc, pw, x) {
            None => None,
            Some((a, p)) => match binary_value(Instruction::Mul, p, x) {
                Err(_) => None,
                Ok(p2) => match binary_value(Instruction::Mul, cs.last(), p2) {
                    Err(_) => None,
                    Ok(t) => match binary_value(Instruction::Add, t, a) {
                        Err(_) => None,
                        Ok(a2) => Some((a2, p2)),
                    },
                },
            },
        }
    }
}

/// The machine evaluates `f(x)` without overflow.
pub open spec fn evaluation_fits(cs: Seq<i64>, x: i64) -> bool {
    eval_terms(higher_terms(cs), constant_term(cs), 1, x) is Some
}

/// Some `x` in `[lo, hi]` has `f(x) = target`.
pub open spec fn has_root_in(lo: int, hi: int, cs: Seq<i64>, target: i64) -> bool {
    exists|x: int| lo <= x <= hi && #[trigger] poly_value(cs, x) == target
}

/// Steps that suffice for the root search over `[lo, hi]`.
pub open spec fn root_search_budget(lo: i64, hi: i64, cs: Seq<i64>) -> int {
    (if hi >= lo {
        hi - lo + 1
    } else {
        0
    }) * (10 * cs.len() + 20) + 10
}

proof fn lemma_eval_value(c0: i64, rest: Seq<i64>, x: i64)
    requires
        eval_terms(rest, c0, 1, x) is Some,
    ensures
        eval_terms(rest, c0, 1, x).unwrap().0 == poly_value(seq![c0] + rest, x as int),
        eval_terms(rest, c0, 1, x).unwrap().1 == pow(x as int, rest.len()),
    decreases rest.len(),
{
    let cs = seq![c0] + rest;
    if rest.len() == 0 {
        assert(cs.drop_last() =~= Seq::<i64>::empty());
        assert(pow(x as int, 0) == 1) by {
            reveal(pow);
        }
        assert(poly_value(cs.drop_last(), x as int) == 0);
        assert(cs.last() == c0);
        assert(poly_value(cs, x as int) == 0 + c0 * pow(x as int, 0));
    } else {
        let pre = rest.drop_last();
        lemma_eval_value(c0, pre, x);
        let (a, p) = eval_terms(pre, c0, 1, x).unwrap();
        assert(cs.drop_last() =~= seq![c0] + pre);
        let n = rest.len();
        assert(pow(x as int, n) == x * pow(x as int, (n - 1) as nat)) by {
            reveal(pow);
        }
        assert(p * x == x * p) by (nonlinear_arith);
        let p2 = (p * x) as i64;
        let c = rest.last();
        assert(cs.last() == c);
        assert(cs.len() - 1 == n);
        assert(binary_value(Instruction::Mul, p, x) == Ok::<i64, Fault>(p2));
        let t = (c * p2) as i64;
        assert(binary_value(Instruction::Mul, c, p2) == Ok::<i64, Fault>(t));
        assert(binary_value(Instruction::Add, t, a) == Ok::<i64, Fault>((t + a) as i64));
        assert(poly_value(cs, x as int) == poly_value(cs.drop_last(), x as int) + c * pow(x as int, n));
        assert(eval_terms(rest, c0, 1, x) == Some(((t + a) as i64, p2)));
        assert(t + a == poly_value(cs, x as int));
    }
}

/// `f` evaluates as the machine does where it fits.
proof fn lemma_fits_value(cs: Seq<i64>, x: i64)
    requires
        evaluation_fits(cs, x),
    ensures
        eval_terms(higher_terms(cs), constant_term(cs), 1, x).unwrap().0 == poly_value(cs, x as int),
{
    lemma_eval_value(constant_term(cs), higher_terms(cs), x);
    if cs.len() == 0 {
        let z = seq![0i64];
        assert(z.drop_last() =~= Seq::<i64>::empty());
        assert(z + Seq::<i64>::empty() =~= z);
    } else {
        assert(seq![cs[0]] + cs.skip(1) =~= cs);
    }
}

/// One term, `pw *= x; acc += c * pw`, on a machine whose evaluation fits.
proof fn lemma_term_run(c: i64, m: Map<usize, i64>)
    requires
        m.contains_key(2),
        m.contains_key(3),
        binary_value(Instruction::Mul, m[3], read_cell(m, 0)) is Ok,
        binary_value(Instruction::Mul, c, binary_value(Instruction::Mul, m[3], read_cell(m, 0))->Ok_0) is Ok,
        binary_value(
            Instruction::Add,
            binary_value(Instruction::Mul, c, binary_value(Instruction::Mul, m[3], read_cell(m, 0))->Ok_0)->Ok_0,
            m[2],
        ) is Ok,
    ensures
        ({
            let p2 = binary_value(Instruction::Mul, m[3], read_cell(m, 0))->Ok_0;
            let t = binary_value(Instruction::Mul, c, p2)->Ok_0;
            let a2 = binary_value(Instruction::Add, t, m[2])->Ok_0;
            exec_straight(power_term(c, 2, 3, 0), Seq::empty(), m) == Ok::<(Seq<i64>, Map<usize, i64>), Fault>(
                (Seq::empty(), m.insert(3, p2).insert(2, a2)),
            )
        }),
{
    let e = Seq::<i64>::empty();
    let x = read_cell(m, 0);
    let p = m[3];
    let a = m[2];
    let p2 = binary_value(Instruction::Mul, p, x)->Ok_0;
    let t = binary_value(Instruction::Mul, c, p2)->Ok_0;
    let a2 = binary_value(Instruction::Add, t, a)->Ok_0;
    let m1 = m.insert(3, p2);
    let i1 = seq![Instruction::Load(3)];
    let i2 = seq![Instruction::Load(0)];
    let i3 = seq![Instruction::Mul];
    let i4 = seq![Instruction::Store(3)];
    let i5 = seq![Instruction::Push(c)];
    let i6 = seq![Instruction::Load(3)];
    let i7 = seq![Instruction::Mul];
    let i8 = seq![Instruction::Load(2)];
    let i9 = seq![Instruction::Add];
    let i10 = seq![Instruction::Store(2)];
    lemma_load_on(e, m, 3);
    lemma_load_on(e.push(p), m, 0);
    lemma_binary_on(Instruction::Mul, e, m, p, x);
    lemma_store_on(e, m, 3, p2);
    lemma_push_on(e, m1, c);
    assert(read_cell(m1, 3) == p2);
    lemma_load_on(e.push(c), m1, 3);
    lemma_binary_on(Instruction::Mul, e, m1, c, p2);
    assert(read_cell(m1, 2) == a);
    lemma_load_on(e.push(t), m1, 2);
    lemma_binary_on(Instruction::Add, e, m1, t, a);
    lemma_store_on(e, m1, 2, a2);
    lemma_then(i1, i2, e, m, e.push(p), m);
    lemma_then(i1 + i2, i3, e, m, e.push(p).push(x), m);
    lemma_then(i1 + i2 + i3, i4, e, m, e.push(p2), m);
    lemma_then(i1 + i2 + i3 + i4, i5, e, m, e, m1);
    lemma_then(i1 + i2 + i3 + i4 + i5, i6, e, m, e.push(c), m1);
    lemma_then(i1 + i2 + i3 + i4 + i5 + i6, i7, e, m, e.push(c).push(p2), m1);
    lemma_then(i1 + i2 + i3 + i4 + i5 + i6 + i7, i8, e, m, e.push(t), m1);
    lemma_then(i1 + i2 + i3 + i4 + i5 + i6 + i7 + i8, i9, e, m, e.push(t).push(a), m1);
    lemma_then(i1 + i2 + i3 + i4 + i5 + i6 + i7 + i8 + i9, i10, e, m, e.push(a2), m1);
    assert(power_term(c, 2, 3, 0) =~= i1 + i2 + i3 + i4 + i5 + i6 + i7 + i8 + i9 + i10);
}

/// The terms `cs` run straight through, leaving the machine's evaluation
/// in the accumulator and power cells.
proof fn lemma_terms_run(cs: Seq<i64>, m: Map<usize, i64>)
    requires
        m.contains_key(2),
        m.contains_key(3),
        eval_terms(cs, m[2], m[3], read_cell(m, 0)) is Some,
    ensures
        exec_straight(power_terms(cs, 2, 3, 0), Seq::empty(), m) == Ok::<(Seq<i64>, Map<usize, i64>), Fault>(
            (
                Seq::empty(),
                m.insert(3, eval_terms(cs, m[2], m[3], read_cell(m, 0)).unwrap().1).insert(
                    2,
                    eval_terms(cs, m[2], m[3], read_cell(m, 0)).unwrap().0,
                ),
            ),
        ),
    decreases cs.len(),
{
    let x = read_cell(m, 0);
    if cs.len() == 0 {
        assert(m.insert(3, m[3]).insert(2, m[2]) =~= m);
        assert(exec_straight(Seq::<Instruction>::empty(), Seq::<i64>::empty(), m) == Ok::<
            (Seq<i64>, Map<usize, i64>),
            Fault,
        >((Seq::empty(), m)));
    } else {
        let pre = cs.drop_last();
        lemma_terms_run(pre, m);
        let (a, p) = eval_terms(pre, m[2], m[3], x).unwrap();
        let m1 = m.insert(3, p).insert(2, a);
        assert(read_cell(m1, 0) == x);
        assert(m1[3] == p && m1[2] == a);
        lemma_term_run(cs.last(), m1);
        lemma_then(power_terms(pre, 2, 3, 0), power_term(cs.last(), 2, 3, 0), Seq::empty(), m, Seq::empty(), m1);
        let (a2, p2) = eval_terms(cs, m[2], m[3], x).unwrap();
        assert(m1.insert(3, p2).insert(2, a2) =~= m.insert(3, p2).insert(2, a2));
    }
}

#[verifier::rlimit(40)]
proof fn lemma_layout(lo: i64, hi: i64, cs: Seq<i64>, target: i64)
    requires
        hi < i64::MAX,
    ensures
        ({
            let prog = root_search_program(lo, hi, cs, target);
            let rest = higher_terms(cs);
            let p: int = 12 + 10 * rest.len() as int;
            &&& prog.len() == p + 11
            &&& prog.subrange(0, 4) == seq![
                Instruction::Push(lo),
                Instruction::Store(0),
                Instruction::Push((hi + 1) as i64),
                Instruction::Store(1),
            ]
            &&& prog.subrange(4, 7) == seq![Instruction::Load(0), Instruction::Load(1), Instruction::Lt]
            &&& prog[7] == Instruction::Jz((p + 10) as usize)
            &&& prog.subrange(8, 12) == seq![
                Instruction::Push(constant_term(cs)),
                Instruction::Store(2),
                Instruction::Push(1),
                Instruction::Store(3),
            ]
            &&& prog.subrange(12, p) == power_terms(rest, 2, 3, 0)
            &&& prog.subrange(p, p + 3) == seq![Instruction::Load(2), Instruction::Push(target), Instruction::Eq]
            &&& prog[p + 3] == Instruction::Jz((p + 5) as usize)
            &&& prog[p + 4] == Instruction::Halt(1)
            &&& prog.subrange(p + 5, p + 9) == seq![
                Instruction::Load(0),
                Instruction::Push(1),
                Instruction::Add,
                Instruction::Store(0),
            ]
            &&& prog[p + 9] == Instruction::Jmp(4)
            &&& prog[p + 10] == Instruction::Halt(0)
        }),
{
    let prog = root_search_program(lo, hi, cs, target);
    let rest = higher_terms(cs);
    let p: int = 12 + 10 * rest.len() as int;
    lemma_power_terms_len(rest, 2, 3, 0);
    let head = prog.subrange(0, 12);
    let terms = power_terms(rest, 2, 3, 0);
    assert(prog.subrange(0, 4) =~= seq![
        Instruction::Push(lo),
        Instruction::Store(0),
        Instruction::Push((hi + 1) as i64),
        Instruction::Store(1),
    ]);
    assert(prog.subrange(4, 7) =~= seq![Instruction::Load(0), Instruction::Load(1), Instruction::Lt]);
    assert(prog.subrange(8, 12) =~= seq![
        Instruction::Push(constant_term(cs)),
        Instruction::Store(2),
        Instruction::Push(1),
        Instruction::Store(3),
    ]);
    assert(prog.subrange(12, p) =~= terms);
    assert(prog.subrange(p, p + 3) =~= seq![Instruction::Load(2), Instruction::Push(target), Instruction::Eq]);
    assert(prog.subrange(p + 5, p + 9) =~= seq![
        Instruction::Load(0),
        Instruction::Push(1),
        Instruction::Add,
        Instruction::Store(0),
    ]);
}

/// `Load(a), Load(b), Lt`.
pub(crate) proof fn lemma_compare(m: Map<usize, i64>, a: usize, b: usize)
    ensures
        exec_straight(seq![Instruction::Load(a), Instruction::Load(b), Instruction::Lt], Seq::empty(), m)
            == Ok::<(Seq<i64>, Map<usize, i64>), Fault>(
            (seq![flag(read_cell(m, a) < read_cell(m, b))], m),
        ),
{
    let e = Seq::<i64>::empty();
    let u = read_cell(m, a);
    let v = read_cell(m, b);
    let i1 = seq![Instruction::Load(a)];
    let i2 = seq![Instruction::Load(b)];
    let i3 = seq![Instruction::Lt];
    lemma_load_on(e, m, a);
    lemma_load_on(e.push(u), m, b);
    lemma_binary_on(Instruction::Lt, e, m, u, v);
    lemma_then(i1, i2, e, m, e.push(u), m);
    lemma_then(i1 + i2, i3, e, m, e.push(u).push(v), m);
    assert(seq![Instruction::Load(a), Instruction::Load(b), Instruction::Lt] =~= i1 + i2 + i3);
    assert(e.push(flag(u < v)) =~= seq![flag(u < v)]);
}

/// `Load(slot), Push(c), op` for a binary `op` that evaluates.
pub(crate) proof fn lemma_load_push_op(m: Map<usize, i64>, slot: usize, c: i64, op: Instruction)
    requires
        is_binary(op),
        binary_value(op, read_cell(m, slot), c) is Ok,
    ensures
        exec_straight(seq![Instruction::Load(slot), Instruction::Push(c), op], Seq::empty(), m) == Ok::<
            (Seq<i64>, Map<usize, i64>),
            Fault,
        >((seq![binary_value(op, read_cell(m, slot), c)->Ok_0], m)),
{
    let e = Seq::<i64>::empty();
    let u = read_cell(m, slot);
    let v = binary_value(op, u, c)->Ok_0;
    let i1 = seq![Instruction::Load(slot)];
    let i2 = seq![Instruction::Push(c)];
    let i3 = seq![op];
    lemma_load_on(e, m, slot);
    lemma_push_on(e.push(u), m, c);
    lemma_binary_on(op, e, m, u, c);
    lemma_then(i1, i2, e, m, e.push(u), m);
    lemma_then(i1 + i2, i3, e, m, e.push(u).push(c), m);
    assert(seq![Instruction::Load(slot), Instruction::Push(c), op] =~= i1 + i2 + i3);
    assert(e.push(v) =~= seq![v]);
}

/// `Load(2), Push(target), Eq`.
proof fn lemma_check(m: Map<usize, i64>, target: i64)
    ensures
        exec_straight(seq![Instruction::Load(2), Instruction::Push(target), Instruction::Eq], Seq::empty(), m)
            == Ok::<(Seq<i64>, Map<usize, i64>), Fault>((seq![flag(read_cell(m, 2) == target)], m)),
{
    let e = Seq::<i64>::empty();
    let u = read_cell(m, 2);
    let i1 = seq![Instruction::Load(2)];
    let i2 = seq![Instruction::Push(target)];
    let i3 = seq![Instruction::Eq];
    lemma_load_on(e, m, 2);
    lemma_push_on(e.push(u), m, target);
    lemma_binary_on(Instruction::Eq, e, m, u, target);
    lemma_then(i1, i2, e, m, e.push(u), m);
    lemma_then(i1 + i2, i3, e, m, e.push(u).push(target), m);
    assert(seq![Instruction::Load(2), Instruction::Push(target), Instruction::Eq] =~= i1 + i2 + i3);
    assert(e.push(flag(u == target)) =~= seq![flag(u == target)]);
}

/// `Push(u), Store(a), Push(v), Store(b)`.
pub(crate) proof fn lemma_two_sets(m: Map<usize, i64>, u: i64, a: usize, v: i64, b: usize)
    ensures
        exec_straight(
            seq![Instruction::Push(u), Instruction::Store(a), Instruction::Push(v), Instruction::Store(b)],
            Seq::empty(),
            m,
        ) == Ok::<(Seq<i64>, Map<usize, i64>), Fault>((Seq::empty(), m.insert(a, u).insert(b, v))),
{
    let e = Seq::<i64>::empty();
    let m1 = m.insert(a, u);
    let i1 = seq![Instruction::Push(u)];
    let i2 = seq![Instruction::Store(a)];
    let i3 = seq![Instruction::Push(v)];
    let i4 = seq![Instruction::Store(b)];
    lemma_push_on(e, m, u);
    lemma_store_on(e, m, a, u);
    lemma_push_on(e, m1, v);
    lemma_store_on(e, m1, b, v);
    lemma_then(i1, i2, e, m, e.push(u), m);
    lemma_then(i1 + i2, i3, e, m, e, m1);
    lemma_then(i1 + i2 + i3, i4, e, m, e.push(v), m1);
    assert(seq![Instruction::Push(u), Instruction::Store(a), Instruction::Push(v), Instruction::Store(b)]
        =~= i1 + i2 + i3 + i4);
}

/// `Load(0), Push(1), Add, Store(0)`.
pub(crate) proof fn lemma_increment(m: Map<usize, i64>)
    requires
        read_cell(m, 0) < i64::MAX,
    ensures
        exec_straight(
            seq![Instruction::Load(0), Instruction::Push(1), Instruction::Add, Instruction::Store(0)],
            Seq::empty(),
            m,
        ) == Ok::<(Seq<i64>, Map<usize, i64>), Fault>((Seq::empty(), m.insert(0, (read_cell(m, 0) + 1) as i64))),
{
    let e = Seq::<i64>::empty();
    let x = read_cell(m, 0);
    let y = (x + 1) as i64;
    let i1 = seq![Instruction::Load(0)];
    let i2 = seq![Instruction::Push(1)];
    let i3 = seq![Instruction::Add];
    let i4 = seq![Instruction::Store(0)];
    lemma_load_on(e, m, 0);
    lemma_push_on(e.push(x), m, 1);
    lemma_binary_on(Instruction::Add, e, m, x, 1);
    assert(binary_value(Instruction::Add, x, 1) == Ok::<i64, Fault>(y));
    lemma_store_on(e, m, 0, y);
    lemma_then(i1, i2, e, m, e.push(x), m);
    lemma_then(i1 + i2, i3, e, m, e.push(x).push(1), m);
    lemma_then(i1 + i2 + i3, i4, e, m, e.push(y), m);
    assert(seq![Instruction::Load(0), Instruction::Push(1), Instruction::Add, Instruction::Store(0)]
        =~= i1 + i2 + i3 + i4);
}

/// From the loop head with `x` in cell 0, `hi + 1` in cell 1 and no root
/// below `x`, the search halts with 1 exactly when `[lo, hi]` holds a root.
#[verifier::rlimit(80)]
proof fn lemma_search_loop(
    lo: i64,
    hi: i64,
    cs: Seq<i64>,
    target: i64,
    m: Map<usize, i64>,
    steps: nat,
    fuel: nat,
)
    requires
        hi < i64::MAX,
        10 * cs.len() + 30 <= usize::MAX,
        forall|y: i64|
            lo <= y <= hi && !has_root_in(lo as int, y - 1, cs, target) ==> #[trigger] evaluation_fits(cs, y),
        read_cell(m, 1) == hi + 1,
        lo <= read_cell(m, 0),
        !has_root_in(lo as int, read_cell(m, 0) - 1, cs, target),
        fuel >= (if read_cell(m, 0) <= hi {
            hi + 1 - read_cell(m, 0)
        } else {
            0
        }) * (10 * cs.len() + 20) + 5,
    ensures
        reported_outcome(
            spec_run_from(root_search_program(lo, hi, cs, target), running(4, Seq::empty(), m, steps), fuel),
        ) == VmOutcome::Halted(
            if has_root_in(lo as int, hi as int, cs, target) {
                1u8
            } else {
                0u8
            },
        ),
    decreases hi + 1 - read_cell(m, 0),
{
    let prog = root_search_program(lo, hi, cs, target);
    let rest = higher_terms(cs);
    let r = rest.len();
    let p: int = 12 + 10 * r as int;
    let k: int = 10 * cs.len() as int + 20;
    let x = read_cell(m, 0);
    let e = Seq::<i64>::empty();
    lemma_layout(lo, hi, cs, target);
    assert(r <= cs.len());
    assert((p + 10) as usize == p + 10);
    assert((p + 5) as usize == p + 5);
    let hdr = seq![Instruction::Load(0), Instruction::Load(1), Instruction::Lt];
    lemma_compare(m, 0, 1);
    lemma_run_straight(prog, running(4, e, m, steps), hdr, fuel);
    let f = flag(x < hi + 1);
    let s7 = running(7, seq![f], m, steps + 3);
    lemma_step_on(prog, s7, (fuel - 3) as nat);
    assert(seq![f].drop_last() =~= e);
    if x > hi {
        let s = running((p + 10) as nat, e, m, steps + 4);
        assert(spec_step(prog, s7) == s);
        lemma_step_on(prog, s, (fuel - 4) as nat);
        let h = spec_step(prog, s);
        assert(h.outcome == Some(VmOutcome::Halted(0)));
        assert(spec_run_from(prog, h, (fuel - 5) as nat) == h);
        assert(!has_root_in(lo as int, hi as int, cs, target)) by {
            if has_root_in(lo as int, hi as int, cs, target) {
                let y = choose|y: int| lo <= y <= hi && #[trigger] poly_value(cs, y) == target;
                assert(lo <= y <= x - 1 && poly_value(cs, y) == target);
            }
        }
        return;
    }
    assert(k >= 17 + 10 * r);
    assert((hi + 1 - x) * k == (hi - x) * k + k) by (nonlinear_arith);
    assert((hi - x) * k >= 0) by (nonlinear_arith)
        requires
            hi - x >= 0,
            k >= 0,
    ;
    let s8 = running(8, e, m, steps + 4);
    assert(spec_step(prog, s7) == s8);
    let c0 = constant_term(cs);
    let init = seq![Instruction::Push(c0), Instruction::Store(2), Instruction::Push(1), Instruction::Store(3)];
    lemma_two_sets(m, c0, 2, 1, 3);
    lemma_run_straight(prog, s8, init, (fuel - 4) as nat);
    let m1 = m.insert(2, c0).insert(3, 1);
    assert(m1.contains_key(2) && m1.contains_key(3) && m1[2] == c0 && m1[3] == 1);
    assert(read_cell(m1, 0) == x);
    assert(evaluation_fits(cs, x));
    lemma_terms_run(rest, m1);
    lemma_fits_value(cs, x);
    let (a, pw) = eval_terms(rest, c0, 1, x).unwrap();
    let m2 = m1.insert(3, pw).insert(2, a);
    lemma_power_terms_len(rest, 2, 3, 0);
    lemma_run_straight(prog, running(12, e, m1, steps + 8), power_terms(rest, 2, 3, 0), (fuel - 8) as nat);
    let chk = seq![Instruction::Load(2), Instruction::Push(target), Instruction::Eq];
    lemma_check(m2, target);
    assert(read_cell(m2, 2) == a);
    lemma_run_straight(prog, running(p as nat, e, m2, (steps + 8 + 10 * r) as nat), chk, (fuel - 8 - 10 * r) as nat);
    let g = flag(a == target);
    let sj = running((p + 3) as nat, seq![g], m2, (steps + 11 + 10 * r) as nat);
    lemma_step_on(prog, sj, (fuel - 11 - 10 * r) as nat);
    assert(seq![g].drop_last() =~= e);
    if a == target {
        let sh = running((p + 4) as nat, e, m2, (steps + 12 + 10 * r) as nat);
        assert(spec_step(prog, sj) == sh);
        lemma_step_on(prog, sh, (fuel - 12 - 10 * r) as nat);
        let h = spec_step(prog, sh);
        assert(h.outcome == Some(VmOutcome::Halted(1)));
        assert(spec_run_from(prog, h, (fuel - 13 - 10 * r) as nat) == h);
        assert(has_root_in(lo as int, hi as int, cs, target)) by {
            assert(lo <= x <= hi && poly_value(cs, x as int) == target);
        }
        return;
    }
    let si = running((p + 5) as nat, e, m2, (steps + 12 + 10 * r) as nat);
    assert(spec_step(prog, sj) == si);
    let inc = seq![Instruction::Load(0), Instruction::Push(1), Instruction::Add, Instruction::Store(0)];
    assert(read_cell(m2, 0) == x);
    lemma_increment(m2);
    lemma_run_straight(prog, si, inc, (fuel - 12 - 10 * r) as nat);
    let m3 = m2.insert(0, (x + 1) as i64);
    let sjmp = running((p + 9) as nat, e, m3, (steps + 16 + 10 * r) as nat);
    lemma_step_on(prog, sjmp, (fuel - 16 - 10 * r) as nat);
    let next = running(4, e, m3, (steps + 17 + 10 * r) as nat);
    assert(spec_step(prog, sjmp) == next);
    assert(read_cell(m3, 1) == hi + 1);
    assert(read_cell(m3, 0) == x + 1);
    assert(!has_root_in(lo as int, x as int, cs, target)) by {
        if has_root_in(lo as int, x as int, cs, target) {
            let y = choose|y: int| lo <= y <= x && #[trigger] poly_value(cs, y) == target;
            assert(lo <= y <= x - 1 && poly_value(cs, y) == target);
        }
    }
    lemma_search_loop(lo, hi, cs, target, m3, (steps + 17 + 10 * r) as nat, (fuel - 17 - 10 * r) as nat);
}

/// The root-search program over `[lo, hi]`, run for at least
/// `root_search_budget` steps, halts with 1 exactly when some `x` in
/// `[lo, hi]` has `c0 + c1 x + c2 x² + ... = target`, and with 0 otherwise,
/// provided the machine evaluates `f(x)` without overflow at each `x` it
/// reaches (those up to the first root).
pub proof fn lemma_root_search_program_decides(lo: i64, hi: i64, cs: Seq<i64>, target: i64, fuel: nat)
    requires
        hi < i64::MAX,
        10 * cs.len() + 30 <= usize::MAX,
        forall|x: i64|
            lo <= x <= hi && !has_root_in(lo as int, x - 1, cs, target) ==> #[trigger] evaluation_fits(cs, x),
        fuel >= root_search_budget(lo, hi, cs),
    ensures
        reported_outcome(spec_run(root_search_program(lo, hi, cs, target), fuel)) == VmOutcome::Halted(
            if has_root_in(lo as int, hi as int, cs, target) {
                1u8
            } else {
                0u8
            },
        ),
{
    let prog = root_search_program(lo, hi, cs, target);
    let e = Seq::<i64>::empty();
    lemma_layout(lo, hi, cs, target);
    let init = seq![
        Instruction::Push(lo),
        Instruction::Store(0),
        Instruction::Push((hi + 1) as i64),
        Instruction::Store(1),
    ];
    let m0 = Map::<usize, i64>::empty().insert(0, lo).insert(1, (hi + 1) as i64);
    lemma_two_sets(Map::empty(), lo, 0, (hi + 1) as i64, 1);
    lemma_run_straight(prog, initial_state(), init, fuel);
    assert(read_cell(m0, 0) == lo && read_cell(m0, 1) == hi + 1);
    let k: int = 10 * cs.len() as int + 20;
    assert((if lo <= hi { hi - lo + 1 } else { 0 }) * k >= 0) by (nonlinear_arith)
        requires
            k >= 0,
    ;
    lemma_search_loop(lo, hi, cs, target, m0, 4, (fuel - 4) as nat);
}

} // verus!
