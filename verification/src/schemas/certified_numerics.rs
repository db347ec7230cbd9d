//! The certified-numerics schema's program: a subdivision of `[lo, hi]`
//! into intervals, each checked to lie within `[lo, hi]`.

use super::root_search::{lemma_compare, lemma_increment, lemma_two_sets};
use super::{failure_is, find_param, param_value};
use crate::proof_enum::solve::{decimal, decimal_string};
use crate::schema::{DescModel, SchemaResult, StatementDesc, StatementKind};
use crate::trial_division::running;
use crate::twin_primes::lemma_step_on;
use crate::vm::{
    binary_value, exec_straight, flag, initial_state, lemma_binary_on, lemma_load_on, lemma_push_on,
    lemma_run_straight, lemma_store_on, lemma_then, read_cell, reported_outcome, spec_run, spec_run_from,
    spec_step, Fault, Instruction, Program, VmOutcome,
};
use vstd::prelude::*;

verus! {

/// The certified-numerics schema.
pub struct CertifiedNumericsSchema;

/// The program that runs `i` through `0 .. n_intervals` with
/// `w = (hi - lo) / n_intervals`, computes the interval
/// `[lo + i w, lo + (i + 1) w]`, halts with 0 when it starts below `lo`
/// and with 1 after the last interval.
pub open spec fn interval_check_program(lo: i64, hi: i64, n_intervals: i64) -> Seq<Instruction> {
    seq![
        Instruction::Push(0),
        Instruction::Store(0),
        Instruction::Push(n_intervals),
        Instruction::Store(1),
        Instruction::Push(lo),
        Instruction::Store(2),
        Instruction::Push(hi),
        Instruction::Store(3),
        Instruction::Push((hi - lo) as i64),
        Instruction::Push(n_intervals),
        Instruction::Div,
        Instruction::Store(4),
        // 12: loop
        Instruction::Load(0),
        Instruction::Load(1),
        Instruction::Lt,
        Instruction::Jz(40),
        Instruction::Load(0),
        Instruction::Load(4),
        Instruction::Mul,
        Instruction::Load(2),
        Instruction::Add,
        Instruction::Store(5),
        Instruction::Load(0),
        Instruction::Push(1),
        Instruction::Add,
        Instruction::Load(4),
        Instruction::Mul,
        Instruction::Load(2),
        Instruction::Add,
        Instruction::Store(6),
        Instruction::Load(5),
        Instruction::Load(2),
        Instruction::Lt,
        Instruction::Jz(35),
        Instruction::Halt(0),
        // 35: next interval
        Instruction::Load(0),
        Instruction::Push(1),
        Instruction::Add,
        Instruction::Store(0),
        Instruction::Jmp(12),
        // 40: all intervals checked
        Instruction::Halt(1),
    ]
}

impl CertifiedNumericsSchema {
    /// The interval-subdivision program for `[lo, hi]` in `n_intervals`
    /// pieces.
    pub fn build_interval_check_program(lo: i64, hi: i64, n_intervals: i64) -> (r: Program)
        requires
            i64::MIN <= hi - lo <= i64::MAX,
        ensures
            r@ == interval_check_program(lo, hi, n_intervals),
    {
        let span = hi - lo;
        let instrs: Vec<Instruction> = vec![
            Instruction::Push(0),
            Instruction::Store(0),
            Instruction::Push(n_intervals),
            Instruction::Store(1),
            Instruction::Push(lo),
            Instruction::Store(2),
            Instruction::Push(hi),
            Instruction::Store(3),
            Instruction::Push(span),
            Instruction::Push(n_intervals),
            Instruction::Div,
            Instruction::Store(4),
            Instruction::Load(0),
            Instruction::Load(1),
            Instruction::Lt,
            Instruction::Jz(40),
            Instruction::Load(0),
            Instruction::Load(4),
            Instruction::Mul,
            Instruction::Load(2),
            Instruction::Add,
            Instruction::Store(5),
            Instruction::Load(0),
            Instruction::Push(1),
            Instruction::Add,
            Instruction::Load(4),
            Instruction::Mul,
            Instruction::Load(2),
            Instruction::Add,
            Instruction::Store(6),
            Instruction::Load(5),
            Instruction::Load(2),
            Instruction::Lt,
            Instruction::Jz(35),
            Instruction::Halt(0),
            Instruction::Load(0),
            Instruction::Push(1),
            Instruction::Add,
            Instruction::Store(0),
            Instruction::Jmp(12),
            Instruction::Halt(1),
        ];
        assert(instrs@ =~= interval_check_program(lo, hi, n_intervals));
        Program::new(instrs)
    }
}

/// The number of intervals a statement asks for, 0 without one.
pub open spec fn interval_count(d: DescModel) -> i64 {
    match param_value(d.params, "n_intervals"@) {
        Some(n) => n,
        None => 0,
    }
}

/// The first variable's domain, where both its ends are given.
pub open spec fn domain_bounds(d: DescModel) -> Option<(i64, i64)> {
    if d.variables.len() > 0 && d.variables[0].domain_lo is Some && d.variables[0].domain_hi is Some {
        Some((d.variables[0].domain_lo->Some_0, d.variables[0].domain_hi->Some_0))
    } else {
        None
    }
}

impl CertifiedNumericsSchema {
    /// Reduce an analytic bound over `[lo, hi]` to a check of `n`
    /// subintervals, or say why it cannot be.
    pub fn attempt_reduction(statement: &StatementDesc, max_vm_steps: u64) -> (r: SchemaResult)
        requires
            interval_count(statement@) > 0 ==> interval_count(statement@) * 40 + 30 <= u64::MAX,
            interval_count(statement@) > 0 ==> (domain_bounds(statement@) matches Some((lo, hi)) ==> hi - lo
                <= i64::MAX),
        ensures
            ({
                let d = statement@;
                let n = interval_count(d);
                if d.kind != StatementKind::Analytic {
                    r is NotApplicable
                } else if n <= 0 {
                    failure_is(
                        r,
                        "No interval subdivision count provided"@,
                        Some("Need: error bound → n_intervals for certified enclosure"@),
                    )
                } else {
                    match domain_bounds(d) {
                        None => failure_is(
                            r,
                            "Need explicit domain bounds for interval arithmetic"@,
                            Some("Need: [lo, hi] domain for certified numerics"@),
                        ),
                        Some((lo, hi)) => if hi <= lo {
                            failure_is(r, "Empty domain"@, None)
                        } else if n * 40 + 30 > max_vm_steps {
                            failure_is(
                                r,
                                "B*="@ + decimal((n * 40 + 30) as nat) + " exceeds budget"@,
                                Some("B* = "@ + decimal((n * 40 + 30) as nat)),
                            )
                        } else {
                            r matches SchemaResult::Success { program, b_star } && b_star == n * 40 + 30
                                && program@ == interval_check_program(lo, hi, n)
                        },
                    }
                }
            }),
    {
        match statement.kind {
            StatementKind::Analytic => {},
            _ => return SchemaResult::NotApplicable,
        }
        assert(statement@.params =~= Seq::new(
            statement.params@.len(),
            |i: int| (statement.params@[i].0@, statement.params@[i].1),
        ));
        let n_intervals = match find_param(&statement.params, "n_intervals") {
            Some(v) => v,
            None => 0,
        };
        if n_intervals <= 0 {
            return SchemaResult::Failure {
                goal_statement: "No interval subdivision count provided".to_string(),
                unresolved_bound: Some("Need: error bound → n_intervals for certified enclosure".to_string()),
            };
        }
        let has_domain = if statement.variables.len() > 0 {
            let v = &statement.variables[0];
            assert(statement@.variables[0] == v@);
            v.domain_lo.is_some() && v.domain_hi.is_some()
        } else {
            false
        };
        if !has_domain {
            return SchemaResult::Failure {
                goal_statement: "Need explicit domain bounds for interval arithmetic".to_string(),
                unresolved_bound: Some("Need: [lo, hi] domain for certified numerics".to_string()),
            };
        }
        let lo = match statement.variables[0].domain_lo {
            Some(x) => x,
            None => 0,
        };
        let hi = match statement.variables[0].domain_hi {
            Some(x) => x,
            None => 0,
        };
        if hi <= lo {
            return SchemaResult::Failure { goal_statement: "Empty domain".to_string(), unresolved_bound: None };
        }
        let b_star = (n_intervals as u64) * 40 + 30;
        if b_star > max_vm_steps {
            let text = decimal_string(b_star);
            return SchemaResult::Failure {
                goal_statement: "B*=".to_string().concat(text.as_str()).concat(" exceeds budget"),
                unresolved_bound: Some("B* = ".to_string().concat(text.as_str())),
            };
        }
        SchemaResult::Success { program: Self::build_interval_check_program(lo, hi, n_intervals), b_star }
    }
}

/// `Push(d), Push(n), Div, Store(4)` for `d >= 0` and `n > 0`.
proof fn lemma_width(m: Map<usize, i64>, d: i64, n: i64)
    requires
        d >= 0,
        n > 0,
    ensures
        exec_straight(
            seq![Instruction::Push(d), Instruction::Push(n), Instruction::Div, Instruction::Store(4)],
            Seq::empty(),
            m,
        ) == Ok::<(Seq<i64>, Map<usize, i64>), Fault>((Seq::empty(), m.insert(4, (d / n) as i64))),
{
    let e = Seq::<i64>::empty();
    let w = (d / n) as i64;
    let i1 = seq![Instruction::Push(d)];
    let i2 = seq![Instruction::Push(n)];
    let i3 = seq![Instruction::Div];
    let i4 = seq![Instruction::Store(4)];
    lemma_push_on(e, m, d);
    lemma_push_on(e.push(d), m, n);
    assert(0 <= d / n <= d) by (nonlinear_arith)
        requires
            d >= 0,
            n > 0,
    ;
    assert(binary_value(Instruction::Div, d, n) == Ok::<i64, Fault>(w));
    lemma_binary_on(Instruction::Div, e, m, d, n);
    lemma_store_on(e, m, 4, w);
    lemma_then(i1, i2, e, m, e.push(d), m);
    lemma_then(i1 + i2, i3, e, m, e.push(d).push(n), m);
    lemma_then(i1 + i2 + i3, i4, e, m, e.push(w), m);
    assert(seq![Instruction::Push(d), Instruction::Push(n), Instruction::Div, Instruction::Store(4)]
        =~= i1 + i2 + i3 + i4);
}

/// `load, Load(4), Mul, Load(2), Add, Store(dst)` where `load` pushes
/// `k`: cell `dst` becomes `k * w + lo`.
proof fn lemma_bound_at(m: Map<usize, i64>, load: Seq<Instruction>, k: i64, dst: usize)
    requires
        exec_straight(load, Seq::empty(), m) == Ok::<(Seq<i64>, Map<usize, i64>), Fault>((seq![k], m)),
        i64::MIN <= k * read_cell(m, 4) <= i64::MAX,
        i64::MIN <= k * read_cell(m, 4) + read_cell(m, 2) <= i64::MAX,
    ensures
        exec_straight(
            load + seq![
                Instruction::Load(4),
                Instruction::Mul,
                Instruction::Load(2),
                Instruction::Add,
                Instruction::Store(dst),
            ],
            Seq::empty(),
            m,
        ) == Ok::<(Seq<i64>, Map<usize, i64>), Fault>(
            (Seq::empty(), m.insert(dst, (k * read_cell(m, 4) + read_cell(m, 2)) as i64)),
        ),
{
    let e = Seq::<i64>::empty();
    let w = read_cell(m, 4);
    let lo = read_cell(m, 2);
    let p = (k * w) as i64;
    let a = (k * w + lo) as i64;
    let i2 = seq![Instruction::Load(4)];
    let i3 = seq![Instruction::Mul];
    let i4 = seq![Instruction::Load(2)];
    let i5 = seq![Instruction::Add];
    let i6 = seq![Instruction::Store(dst)];
    assert(seq![k] =~= e.push(k));
    lemma_load_on(e.push(k), m, 4);
    assert(binary_value(Instruction::Mul, k, w) == Ok::<i64, Fault>(p));
    lemma_binary_on(Instruction::Mul, e, m, k, w);
    lemma_load_on(e.push(p), m, 2);
    assert(binary_value(Instruction::Add, p, lo) == Ok::<i64, Fault>(a));
    lemma_binary_on(Instruction::Add, e, m, p, lo);
    lemma_store_on(e, m, dst, a);
    lemma_then(load, i2, e, m, e.push(k), m);
    lemma_then(load + i2, i3, e, m, e.push(k).push(w), m);
    lemma_then(load + i2 + i3, i4, e, m, e.push(p), m);
    lemma_then(load + i2 + i3 + i4, i5, e, m, e.push(p).push(lo), m);
    lemma_then(load + i2 + i3 + i4 + i5, i6, e, m, e.push(a), m);
    assert(load + seq![
        Instruction::Load(4),
        Instruction::Mul,
        Instruction::Load(2),
        Instruction::Add,
        Instruction::Store(dst),
    ] =~= load + i2 + i3 + i4 + i5 + i6);
}

/// `Load(0), Push(1), Add` pushes `i + 1`.
proof fn lemma_next_index(m: Map<usize, i64>)
    requires
        read_cell(m, 0) < i64::MAX,
    ensures
        exec_straight(seq![Instruction::Load(0), Instruction::Push(1), Instruction::Add], Seq::empty(), m)
            == Ok::<(Seq<i64>, Map<usize, i64>), Fault>((seq![(read_cell(m, 0) + 1) as i64], m)),
{
    let e = Seq::<i64>::empty();
    let x = read_cell(m, 0);
    let y = (x + 1) as i64;
    let i1 = seq![Instruction::Load(0)];
    let i2 = seq![Instruction::Push(1)];
    let i3 = seq![Instruction::Add];
    lemma_load_on(e, m, 0);
    lemma_push_on(e.push(x), m, 1);
    assert(binary_value(Instruction::Add, x, 1) == Ok::<i64, Fault>(y));
    lemma_binary_on(Instruction::Add, e, m, x, 1);
    lemma_then(i1, i2, e, m, e.push(x), m);
    lemma_then(i1 + i2, i3, e, m, e.push(x).push(1), m);
    assert(seq![Instruction::Load(0), Instruction::Push(1), Instruction::Add] =~= i1 + i2 + i3);
    assert(e.push(y) =~= seq![y]);
}

/// From the loop head at interval `i` of `n`, with width `w >= 0` and
/// `n w <= hi - lo`: every interval starts at or above `lo`, and the
/// program halts with 1.
#[verifier::rlimit(40)]
proof fn lemma_intervals(lo: i64, hi: i64, n: i64, m: Map<usize, i64>, steps: nat, fuel: nat)
    requires
        lo <= hi,
        hi - lo <= i64::MAX,
        read_cell(m, 1) == n,
        read_cell(m, 2) == lo,
        0 <= read_cell(m, 4),
        n * read_cell(m, 4) <= hi - lo,
        0 <= read_cell(m, 0),
        fuel >= 27 * (if read_cell(m, 0) < n {
            n - read_cell(m, 0)
        } else {
            0
        }) + 5,
    ensures
        reported_outcome(
            spec_run_from(interval_check_program(lo, hi, n), running(12, Seq::empty(), m, steps), fuel),
        ) == VmOutcome::Halted(1),
    decreases n - read_cell(m, 0),
{
    let prog = interval_check_program(lo, hi, n);
    let e = Seq::<i64>::empty();
    let i = read_cell(m, 0);
    let w = read_cell(m, 4);
    let hdr = seq![Instruction::Load(0), Instruction::Load(1), Instruction::Lt];
    assert(prog.subrange(12, 15) =~= hdr);
    lemma_compare(m, 0, 1);
    lemma_run_straight(prog, running(12, e, m, steps), hdr, fuel);
    let f = flag(i < n);
    let s15 = running(15, seq![f], m, steps + 3);
    lemma_step_on(prog, s15, (fuel - 3) as nat);
    assert(seq![f].drop_last() =~= e);
    if i >= n {
        let s = running(40, e, m, steps + 4);
        assert(spec_step(prog, s15) == s);
        lemma_step_on(prog, s, (fuel - 4) as nat);
        let h = spec_step(prog, s);
        assert(h.outcome == Some(VmOutcome::Halted(1)));
        assert(spec_run_from(prog, h, (fuel - 5) as nat) == h);
        return;
    }
    assert(0 <= i * w <= n * w && 0 <= (i + 1) * w <= n * w) by (nonlinear_arith)
        requires
            0 <= i < n,
            0 <= w,
    ;
    let s16 = running(16, e, m, steps + 4);
    assert(spec_step(prog, s15) == s16);
    // a := i w + lo
    let la = seq![Instruction::Load(0)];
    lemma_load_on(e, m, 0);
    assert(e.push(i) =~= seq![i]);
    lemma_bound_at(m, la, i, 5);
    let blk_a = la + seq![
        Instruction::Load(4),
        Instruction::Mul,
        Instruction::Load(2),
        Instruction::Add,
        Instruction::Store(5),
    ];
    assert(prog.subrange(16, 22) =~= blk_a);
    lemma_run_straight(prog, s16, blk_a, (fuel - 4) as nat);
    let a = (i * w + lo) as i64;
    let m1 = m.insert(5, a);
    assert(read_cell(m1, 0) == i && read_cell(m1, 4) == w && read_cell(m1, 2) == lo);
    // b := (i + 1) w + lo
    let lb = seq![Instruction::Load(0), Instruction::Push(1), Instruction::Add];
    lemma_next_index(m1);
    lemma_bound_at(m1, lb, (i + 1) as i64, 6);
    let blk_b = lb + seq![
        Instruction::Load(4),
        Instruction::Mul,
        Instruction::Load(2),
        Instruction::Add,
        Instruction::Store(6),
    ];
    assert(prog.subrange(22, 30) =~= blk_b);
    lemma_run_straight(prog, running(22, e, m1, steps + 10), blk_b, (fuel - 10) as nat);
    let m2 = m1.insert(6, ((i + 1) * w + lo) as i64);
    // a < lo is false
    let chk = seq![Instruction::Load(5), Instruction::Load(2), Instruction::Lt];
    assert(prog.subrange(30, 33) =~= chk);
    lemma_compare(m2, 5, 2);
    assert(read_cell(m2, 5) == a && read_cell(m2, 2) == lo);
    lemma_run_straight(prog, running(30, e, m2, steps + 18), chk, (fuel - 18) as nat);
    let s33 = running(33, seq![0i64], m2, steps + 21);
    lemma_step_on(prog, s33, (fuel - 21) as nat);
    assert(seq![0i64].drop_last() =~= e);
    let s35 = running(35, e, m2, steps + 22);
    assert(spec_step(prog, s33) == s35);
    let inc = seq![Instruction::Load(0), Instruction::Push(1), Instruction::Add, Instruction::Store(0)];
    assert(prog.subrange(35, 39) =~= inc);
    assert(read_cell(m2, 0) == i);
    lemma_increment(m2);
    lemma_run_straight(prog, s35, inc, (fuel - 22) as nat);
    let m3 = m2.insert(0, (i + 1) as i64);
    let s39 = running(39, e, m3, steps + 26);
    lemma_step_on(prog, s39, (fuel - 26) as nat);
    assert(spec_step(prog, s39) == running(12, e, m3, steps + 27));
    assert(read_cell(m3, 0) == i + 1 && read_cell(m3, 1) == n && read_cell(m3, 2) == lo && read_cell(m3, 4) == w);
    lemma_intervals(lo, hi, n, m3, steps + 27, (fuel - 27) as nat);
}

/// For `lo <= hi` and `n > 0` intervals, the interval check halts with 1
/// within `27 n + 17` steps: with the width `w = (hi - lo) / n`, every
/// interval `[lo + i w, lo + (i + 1) w]` starts at or above `lo`.
pub proof fn lemma_interval_check_program_passes(lo: i64, hi: i64, n: i64, fuel: nat)
    requires
        lo <= hi,
        hi - lo <= i64::MAX,
        n > 0,
        fuel >= 27 * n + 17,
    ensures
        reported_outcome(spec_run(interval_check_program(lo, hi, n), fuel)) == VmOutcome::Halted(1),
{
    let prog = interval_check_program(lo, hi, n);
    let e = Seq::<i64>::empty();
    let d = (hi - lo) as i64;
    let c1 = seq![Instruction::Push(0), Instruction::Store(0), Instruction::Push(n), Instruction::Store(1)];
    let c2 = seq![Instruction::Push(lo), Instruction::Store(2), Instruction::Push(hi), Instruction::Store(3)];
    let c3 = seq![Instruction::Push(d), Instruction::Push(n), Instruction::Div, Instruction::Store(4)];
    assert(prog.subrange(0, 4) =~= c1);
    assert(prog.subrange(4, 8) =~= c2);
    assert(prog.subrange(8, 12) =~= c3);
    let m0 = Map::<usize, i64>::empty().insert(0, 0).insert(1, n);
    let m1 = m0.insert(2, lo).insert(3, hi);
    lemma_two_sets(Map::empty(), 0, 0, n, 1);
    lemma_run_straight(prog, initial_state(), c1, fuel);
    lemma_two_sets(m0, lo, 2, hi, 3);
    lemma_run_straight(prog, running(4, e, m0, 4), c2, (fuel - 4) as nat);
    lemma_width(m1, d, n);
    lemma_run_straight(prog, running(8, e, m1, 8), c3, (fuel - 8) as nat);
    let w = (d / n) as i64;
    let m2 = m1.insert(4, w);
    assert(n * (d / n) <= d) by (nonlinear_arith)
        requires
            d >= 0,
            n > 0,
    ;
    assert(0 <= d / n) by (nonlinear_arith)
        requires
            d >= 0,
            n > 0,
    ;
    assert(read_cell(m2, 0) == 0 && read_cell(m2, 1) == n && read_cell(m2, 2) == lo && read_cell(m2, 4) == w);
    lemma_intervals(lo, hi, n, m2, 12, (fuel - 12) as nat);
}

} // verus!
