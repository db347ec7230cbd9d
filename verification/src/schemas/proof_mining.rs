//! The proof-mining schema's program: a search for a window `[N, N + W]`
//! with `N <= B*` on which a property holds throughout (metastability).

use super::root_search::{lemma_load_push_op, lemma_two_sets};
use super::{failure_is, find_param, param_value};
use crate::proof_enum::solve::{decimal, decimal_string};
use crate::schema::{DescModel, SchemaResult, StatementDesc, StatementKind};
use crate::trial_division::running;
use crate::twin_primes::lemma_step_on;
use crate::vm::{
    binary_value, exec_straight, flag, initial_state, lemma_binary_on, lemma_load_on, lemma_push_on,
    lemma_run_straight, lemma_store_on, lemma_then, read_cell, reported_outcome, spec_run, spec_run_from,
    spec_step, Fault, Instruction, Program, VmOutcome,
};
use vstd::prelude::*;

verus! {

/// The proof-mining schema.
pub struct ProofMiningSchema;

/// The program that runs `N` through `0 ..= B*`, checks each element of
/// `[N, N + W)`, moves on to `N + 1` at the first element below 0, halts
/// with 1 once a window passes and with 0 past `B*`.
pub open spec fn metastability_program(b_star: i64, window: i64) -> Seq<Instruction> {
    seq![
        Instruction::Push(0),
        Instruction::Store(0),
        Instruction::Push(b_star),
        Instruction::Store(1),
        Instruction::Push(window),
        Instruction::Store(2),
        // 6: outer loop
        Instruction::Load(0),
        Instruction::Load(1),
        Instruction::Push(1),
        Instruction::Add,
        Instruction::Lt,
        Instruction::Jz(35),
        Instruction::Load(0),
        Instruction::Store(3),
        // 14: inner loop
        Instruction::Load(3),
        Instruction::Load(0),
        Instruction::Load(2),
        Instruction::Add,
        Instruction::Lt,
        Instruction::Jz(34),
        Instruction::Load(3),
        Instruction::Push(0),
        Instruction::Lt,
        Instruction::Jz(29),
        Instruction::Load(0),
        Instruction::Push(1),
        Instruction::Add,
        Instruction::Store(0),
        Instruction::Jmp(6),
        // 29: next element
        Instruction::Load(3),
        Instruction::Push(1),
        Instruction::Add,
        Instruction::Store(3),
        Instruction::Jmp(14),
        // 34: window complete
        Instruction::Halt(1),
        // 35: all windows exhausted
        Instruction::Halt(0),
    ]
}

impl ProofMiningSchema {
    /// The metastability program for the bound `B*` and window `W`.
    pub fn build_metastability_program(b_star_val: i64, window_size: i64) -> (r: Program)
        ensures
            r@ == metastability_program(b_star_val, window_size),
    {
        let instrs: Vec<Instruction> = vec![
            Instruction::Push(0),
            Instruction::Store(0),
            Instruction::Push(b_star_val),
            Instruction::Store(1),
            Instruction::Push(window_size),
            Instruction::Store(2),
            Instruction::Load(0),
            Instruction::Load(1),
            Instruction::Push(1),
            Instruction::Add,
            Instruction::Lt,
            Instruction::Jz(35),
            Instruction::Load(0),
            Instruction::Store(3),
            Instruction::Load(3),
            Instruction::Load(0),
            Instruction::Load(2),
            Instruction::Add,
            Instruction::Lt,
            Instruction::Jz(34),
            Instruction::Load(3),
            Instruction::Push(0),
            Instruction::Lt,
            Instruction::Jz(29),
            Instruction::Load(0),
            Instruction::Push(1),
            Instruction::Add,
            Instruction::Store(0),
            Instruction::Jmp(6),
            Instruction::Load(3),
            Instruction::Push(1),
            Instruction::Add,
            Instruction::Store(3),
            Instruction::Jmp(14),
            Instruction::Halt(1),
            Instruction::Halt(0),
        ];
        assert(instrs@ =~= metastability_program(b_star_val, window_size));
        Program::new(instrs)
    }
}

/// The metastability bound and window a statement gives, if both are
/// given and positive.
pub open spec fn mining_bounds(d: DescModel) -> Option<(i64, i64)> {
    match (param_value(d.params, "metastability_bound"@), param_value(d.params, "window_size"@)) {
        (Some(b), Some(w)) => if b > 0 && w > 0 {
            Some((b, w))
        } else {
            None
        },
        _ => None,
    }
}

impl ProofMiningSchema {
    /// Reduce a convergence statement with a metastability bound to a
    /// search for a stable window, or say why it cannot be.
    pub fn attempt_reduction(statement: &StatementDesc, max_vm_steps: u64) -> (r: SchemaResult)
        requires
            mining_bounds(statement@) matches Some((b, w)) ==> b * w * 15 + 20 <= u64::MAX,
        ensures
            ({
                let d = statement@;
                if !(d.kind == StatementKind::UniversalInfinite || d.kind == StatementKind::Analytic) {
                    r is NotApplicable
                } else {
                    match mining_bounds(d) {
                        None => failure_is(
                            r,
                            "No metastability bound or window size provided"@,
                            Some("Need: metastability bound B* and window size W from proof analysis"@),
                        ),
                        Some((b, w)) => if b * w * 15 + 20 > max_vm_steps {
                            failure_is(
                                r,
                                "Metastability bound too large: B*="@ + decimal((b * w * 15 + 20) as nat),
                                Some(
                                    "B* = "@ + decimal(b as nat) + " × "@ + decimal(w as nat) + " × 15 = "@
                                        + decimal((b * w * 15 + 20) as nat),
                                ),
                            )
                        } else {
                            r matches SchemaResult::Success { program, b_star } && b_star == b * w * 15 + 20
                                && program@ == metastability_program(b, w)
                        },
                    }
                }
            }),
    {
        match statement.kind {
            StatementKind::UniversalInfinite | StatementKind::Analytic => {},
            _ => return SchemaResult::NotApplicable,
        }
        assert(statement@.params =~= Seq::new(
            statement.params@.len(),
            |i: int| (statement.params@[i].0@, statement.params@[i].1),
        ));
        let meta_bound = find_param(&statement.params, "metastability_bound");
        let window = find_param(&statement.params, "window_size");
        let (bound_val, window_val) = match (meta_bound, window) {
            (Some(b), Some(w)) if b > 0 && w > 0 => (b, w),
            _ => {
                return SchemaResult::Failure {
                    goal_statement: "No metastability bound or window size provided".to_string(),
                    unresolved_bound: Some(
                        "Need: metastability bound B* and window size W from proof analysis".to_string(),
                    ),
                };
            },
        };
        assert(0 <= bound_val * window_val <= u64::MAX) by (nonlinear_arith)
            requires
                bound_val > 0,
                window_val > 0,
                bound_val * window_val * 15 + 20 <= u64::MAX,
        ;
        let bw = (bound_val as u64) * (window_val as u64);
        let b_star = bw * 15 + 20;
        if b_star > max_vm_steps {
            let text = decimal_string(b_star);
            return SchemaResult::Failure {
                goal_statement: "Metastability bound too large: B*=".to_string().concat(text.as_str()),
                unresolved_bound: Some(
                    "B* = ".to_string().concat(decimal_string(bound_val as u64).as_str()).concat(" × ").concat(
                        decimal_string(window_val as u64).as_str(),
                    ).concat(" × 15 = ").concat(text.as_str()),
                ),
            };
        }
        SchemaResult::Success { program: Self::build_metastability_program(bound_val, window_val), b_star }
    }
}

/// `Load(a), Load(b), third, Add, Lt`, where `third` pushes `v`: whether
/// `cell a < cell b + v`.
proof fn lemma_lt_sum(m: Map<usize, i64>, a: usize, b: usize, third: Instruction, v: i64)
    requires
        third == Instruction::Push(v) || (third matches Instruction::Load(k) && read_cell(m, k) == v),
        binary_value(Instruction::Add, read_cell(m, b), v) is Ok,
    ensures
        exec_straight(
            seq![Instruction::Load(a), Instruction::Load(b), third, Instruction::Add, Instruction::Lt],
            Seq::empty(),
            m,
        ) == Ok::<(Seq<i64>, Map<usize, i64>), Fault>(
            (seq![flag(read_cell(m, a) < read_cell(m, b) + v)], m),
        ),
{
    let e = Seq::<i64>::empty();
    let x = read_cell(m, a);
    let y = read_cell(m, b);
    let z = (y + v) as i64;
    let i1 = seq![Instruction::Load(a)];
    let i2 = seq![Instruction::Load(b)];
    let i3 = seq![third];
    let i4 = seq![Instruction::Add];
    let i5 = seq![Instruction::Lt];
    lemma_load_on(e, m, a);
    lemma_load_on(e.push(x), m, b);
    match third {
        Instruction::Push(c) => lemma_push_on(e.push(x).push(y), m, c),
        Instruction::Load(k) => lemma_load_on(e.push(x).push(y), m, k),
        _ => {},
    }
    lemma_binary_on(Instruction::Add, e.push(x), m, y, v);
    assert(binary_value(Instruction::Add, y, v) == Ok::<i64, Fault>(z));
    lemma_binary_on(Instruction::Lt, e, m, x, z);
    lemma_then(i1, i2, e, m, e.push(x), m);
    lemma_then(i1 + i2, i3, e, m, e.push(x).push(y), m);
    lemma_then(i1 + i2 + i3, i4, e, m, e.push(x).push(y).push(v), m);
    lemma_then(i1 + i2 + i3 + i4, i5, e, m, e.push(x).push(z), m);
    assert(seq![Instruction::Load(a), Instruction::Load(b), third, Instruction::Add, Instruction::Lt]
        =~= i1 + i2 + i3 + i4 + i5);
    assert(e.push(flag(x < z)) =~= seq![flag(x < z)]);
}

/// The window loop from element `i >= 0` of the window `[0, w)`: every
/// element passes, and the program halts with 1.
proof fn lemma_window(b: i64, w: i64, m: Map<usize, i64>, steps: nat, fuel: nat)
    requires
        read_cell(m, 0) == 0,
        read_cell(m, 2) == w,
        0 <= read_cell(m, 3),
        fuel >= 15 * (if read_cell(m, 3) < w {
            w - read_cell(m, 3)
        } else {
            0
        }) + 7,
    ensures
        reported_outcome(spec_run_from(metastability_program(b, w), running(14, Seq::empty(), m, steps), fuel))
            == VmOutcome::Halted(1),
    decreases w - read_cell(m, 3),
{
    let prog = metastability_program(b, w);
    let e = Seq::<i64>::empty();
    let i = read_cell(m, 3);
    let hdr = seq![Instruction::Load(3), Instruction::Load(0), Instruction::Load(2), Instruction::Add, Instruction::Lt];
    assert(prog.subrange(14, 19) =~= hdr);
    assert(binary_value(Instruction::Add, 0, w) == Ok::<i64, Fault>(w));
    lemma_lt_sum(m, 3, 0, Instruction::Load(2), w);
    lemma_run_straight(prog, running(14, e, m, steps), hdr, fuel);
    let f = flag(i < w);
    let s19 = running(19, seq![f], m, steps + 5);
    lemma_step_on(prog, s19, (fuel - 5) as nat);
    assert(seq![f].drop_last() =~= e);
    if i >= w {
        let s = running(34, e, m, steps + 6);
        assert(spec_step(prog, s19) == s);
        lemma_step_on(prog, s, (fuel - 6) as nat);
        let h = spec_step(prog, s);
        assert(h.outcome == Some(VmOutcome::Halted(1)));
        assert(spec_run_from(prog, h, (fuel - 7) as nat) == h);
        return;
    }
    let s20 = running(20, e, m, steps + 6);
    assert(spec_step(prog, s19) == s20);
    let chk = seq![Instruction::Load(3), Instruction::Push(0), Instruction::Lt];
    assert(prog.subrange(20, 23) =~= chk);
    assert(binary_value(Instruction::Lt, i, 0) == Ok::<i64, Fault>(0));
    lemma_load_push_op(m, 3, 0, Instruction::Lt);
    lemma_run_straight(prog, s20, chk, (fuel - 6) as nat);
    let s23 = running(23, seq![0i64], m, steps + 9);
    lemma_step_on(prog, s23, (fuel - 9) as nat);
    assert(seq![0i64].drop_last() =~= e);
    let s29 = running(29, e, m, steps + 10);
    assert(spec_step(prog, s23) == s29);
    let inc = seq![Instruction::Load(3), Instruction::Push(1), Instruction::Add, Instruction::Store(3)];
    assert(prog.subrange(29, 33) =~= inc);
    lemma_inc3(m);
    lemma_run_straight(prog, s29, inc, (fuel - 10) as nat);
    let m1 = m.insert(3, (i + 1) as i64);
    let s33 = running(33, e, m1, steps + 14);
    lemma_step_on(prog, s33, (fuel - 14) as nat);
    assert(spec_step(prog, s33) == running(14, e, m1, steps + 15));
    assert(read_cell(m1, 0) == 0 && read_cell(m1, 2) == w && read_cell(m1, 3) == i + 1);
    lemma_window(b, w, m1, steps + 15, (fuel - 15) as nat);
}

/// `Load(3), Push(1), Add, Store(3)`.
proof fn lemma_inc3(m: Map<usize, i64>)
    requires
        read_cell(m, 3) < i64::MAX,
    ensures
        exec_straight(
            seq![Instruction::Load(3), Instruction::Push(1), Instruction::Add, Instruction::Store(3)],
            Seq::empty(),
            m,
        ) == Ok::<(Seq<i64>, Map<usize, i64>), Fault>((Seq::empty(), m.insert(3, (read_cell(m, 3) + 1) as i64))),
{
    let e = Seq::<i64>::empty();
    let x = read_cell(m, 3);
    let y = (x + 1) as i64;
    let i1 = seq![Instruction::Load(3)];
    let i2 = seq![Instruction::Push(1)];
    let i3 = seq![Instruction::Add];
    let i4 = seq![Instruction::Store(3)];
    lemma_load_on(e, m, 3);
    lemma_push_on(e.push(x), m, 1);
    lemma_binary_on(Instruction::Add, e, m, x, 1);
    assert(binary_value(Instruction::Add, x, 1) == Ok::<i64, Fault>(y));
    lemma_store_on(e, m, 3, y);
    lemma_then(i1, i2, e, m, e.push(x), m);
    lemma_then(i1 + i2, i3, e, m, e.push(x).push(1), m);
    lemma_then(i1 + i2 + i3, i4, e, m, e.push(y), m);
    assert(seq![Instruction::Load(3), Instruction::Push(1), Instruction::Add, Instruction::Store(3)]
        =~= i1 + i2 + i3 + i4);
}

/// The metastability program halts with 1 exactly when `B* >= 0`: the
/// first window `[0, W)` has no element below 0, so it passes as soon as
/// the bound admits `N = 0`. It takes at most `15 W + 21` steps.
pub proof fn lemma_metastability_program_decides(b_star: i64, window: i64, fuel: nat)
    requires
        b_star < i64::MAX,
        fuel >= 15 * (if window > 0 {
            window as int
        } else {
            0
        }) + 21,
    ensures
        reported_outcome(spec_run(metastability_program(b_star, window), fuel)) == VmOutcome::Halted(
            if b_star >= 0 {
                1u8
            } else {
                0u8
            },
        ),
{
    let prog = metastability_program(b_star, window);
    let e = Seq::<i64>::empty();
    let init1 = seq![Instruction::Push(0), Instruction::Store(0), Instruction::Push(b_star), Instruction::Store(1)];
    let init2 = seq![Instruction::Push(window), Instruction::Store(2)];
    assert(prog.subrange(0, 4) =~= init1);
    lemma_two_sets(Map::empty(), 0, 0, b_star, 1);
    lemma_run_straight(prog, initial_state(), init1, fuel);
    let m0 = Map::<usize, i64>::empty().insert(0, 0).insert(1, b_star);
    assert(prog.subrange(4, 6) =~= init2);
    lemma_push_on(e, m0, window);
    lemma_store_on(e, m0, 2, window);
    lemma_then(seq![Instruction::Push(window)], seq![Instruction::Store(2)], e, m0, e.push(window), m0);
    assert(init2 =~= seq![Instruction::Push(window)] + seq![Instruction::Store(2)]);
    lemma_run_straight(prog, running(4, e, m0, 4), init2, (fuel - 4) as nat);
    let m1 = m0.insert(2, window);
    assert(read_cell(m1, 0) == 0 && read_cell(m1, 1) == b_star && read_cell(m1, 2) == window);
    let hdr = seq![Instruction::Load(0), Instruction::Load(1), Instruction::Push(1), Instruction::Add, Instruction::Lt];
    assert(prog.subrange(6, 11) =~= hdr);
    assert(binary_value(Instruction::Add, b_star, 1) == Ok::<i64, Fault>((b_star + 1) as i64));
    lemma_lt_sum(m1, 0, 1, Instruction::Push(1), 1);
    lemma_run_straight(prog, running(6, e, m1, 6), hdr, (fuel - 6) as nat);
    let f = flag(0 < b_star + 1);
    let s11 = running(11, seq![f], m1, 11);
    lemma_step_on(prog, s11, (fuel - 11) as nat);
    assert(seq![f].drop_last() =~= e);
    if b_star < 0 {
        let s = running(35, e, m1, 12);
        assert(spec_step(prog, s11) == s);
        lemma_step_on(prog, s, (fuel - 12) as nat);
        let h = spec_step(prog, s);
        assert(h.outcome == Some(VmOutcome::Halted(0)));
        assert(spec_run_from(prog, h, (fuel - 13) as nat) == h);
        return;
    }
    let s12 = running(12, e, m1, 12);
    assert(spec_step(prog, s11) == s12);
    let cp = seq![Instruction::Load(0), Instruction::Store(3)];
    assert(prog.subrange(12, 14) =~= cp);
    lemma_load_on(e, m1, 0);
    lemma_store_on(e, m1, 3, 0);
    lemma_then(seq![Instruction::Load(0)], seq![Instruction::Store(3)], e, m1, e.push(0), m1);
    assert(cp =~= seq![Instruction::Load(0)] + seq![Instruction::Store(3)]);
    lemma_run_straight(prog, s12, cp, (fuel - 12) as nat);
    let m2 = m1.insert(3, 0);
    assert(read_cell(m2, 0) == 0 && read_cell(m2, 2) == window && read_cell(m2, 3) == 0);
    lemma_window(b_star, window, m2, 14, (fuel - 14) as nat);
}

} // verus!
