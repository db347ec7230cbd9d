//! What the nested-loop search programs decide.
//!
//! The program for `n` variables keeps variable `i` in memory slot `i` and
//! its loop limit `hi + 1` in slot `n + i`. Its loops form an odometer: the
//! innermost variable advances first, and when a loop runs past its limit
//! the variable is reset to its lower bound and the next outer one
//! advances. Exists programs halt with 1 at the first satisfying
//! assignment; ForAll programs halt with 0 at the first counterexample.

use crate::predicate::{
    compile_pred_spec, eval_pred_spec, lemma_compiled_pred_pushes_truth,
    lemma_pred_count_is_code_length, pred_count_spec, SpecPred,
};
use crate::program_builder::{
    bind_all, block_code, build_admissible, cascade_code, check_code, exit_pos, init_code,
    multi_code, problem_search, search_admissible, search_result, SearchProblem,
};
use crate::vm::{
    exec_straight, flag, initial_state, lemma_run_straight, reported_outcome, spec_run,
    spec_run_from, spec_step, Instruction, MachineState, VmOutcome,
};
use vstd::prelude::*;

verus! {

// ── The search, stated over assignments ─────────────────────────────

/// Memory of a nested-loop program: slot `j < n` holds `vals[j]`, slot
/// `n + j` the limit `hi_j + 1`.
pub open spec fn nest_memory(vs: Seq<(Seq<char>, i64, i64)>, vals: Seq<i64>) -> Map<usize, i64> {
    Map::new(
        |k: usize| k < 2 * vs.len(),
        |k: usize|
            if k < vs.len() {
                vals[k as int]
            } else {
                (vs[k - vs.len()].2 + 1) as i64
            },
    )
}

/// The assignment that sets every variable to its lower bound.
pub open spec fn lower_bounds(vs: Seq<(Seq<char>, i64, i64)>) -> Seq<i64> {
    Seq::new(vs.len(), |j: int| vs[j].1)
}

/// Truth of the predicate at an assignment, as the program evaluates it
/// (`None` where an operand does not evaluate).
pub open spec fn value_at(vs: Seq<(Seq<char>, i64, i64)>, p: SpecPred, vals: Seq<i64>) -> Option<
    bool,
> {
    eval_pred_spec(bind_all(vs), 0, nest_memory(vs, vals), p)
}

/// `w` is an assignment of the variables' domains.
pub open spec fn in_domains(vs: Seq<(Seq<char>, i64, i64)>, w: Seq<i64>) -> bool {
    w.len() == vs.len() && forall|j: int| 0 <= j < vs.len() ==> vs[j].1 <= #[trigger] w[j] <= vs[j].2
}

/// `w` agrees with `vals` below position `i`, has at position `i` a value
/// from `vals[i]` to `hi_i`, and values in the domains above `i`.
pub open spec fn in_rest(vs: Seq<(Seq<char>, i64, i64)>, i: int, vals: Seq<i64>, w: Seq<i64>) -> bool {
    &&& w.len() == vs.len()
    &&& forall|j: int| 0 <= j < i ==> #[trigger] w[j] == vals[j]
    &&& vals[i] <= w[i] <= vs[i].2
    &&& forall|j: int| i < j < vs.len() ==> vs[j].1 <= #[trigger] w[j] <= vs[j].2
}

/// Some assignment of the rest of the search from `vals` at level `i`
/// gives the predicate the value `t`.
pub open spec fn found_in_rest(
    vs: Seq<(Seq<char>, i64, i64)>,
    p: SpecPred,
    t: bool,
    i: int,
    vals: Seq<i64>,
) -> bool {
    exists|w: Seq<i64>| #[trigger] in_rest(vs, i, vals, w) && value_at(vs, p, w) == Some(t)
}

/// The search from the head of loop `i` with assignment `vals`: whether it
/// meets an assignment where the predicate has the value `t`, and the
/// number of steps until the program reaches the halting instruction (when
/// it does) or the exit of loop `i` (when it does not). `pl` is the length
/// of the predicate's code.
pub open spec fn level_run(
    vs: Seq<(Seq<char>, i64, i64)>,
    p: SpecPred,
    pl: nat,
    t: bool,
    i: nat,
    vals: Seq<i64>,
) -> (bool, nat)
    decreases vs.len() - i, (if i < vs.len() && vals[i as int] <= vs[i as int].2 {
        vs[i as int].2 - vals[i as int] + 1
    } else {
        0
    }),
{
    if i >= vs.len() || vals.len() != vs.len() || vals[i as int] > vs[i as int].2 || vs[i as int].2
        == i64::MAX {
        (false, 4)
    } else if i + 1 == vs.len() {
        if value_at(vs, p, vals) == Some(t) {
            (true, 4 + pl + 1)
        } else {
            let r = level_run(vs, p, pl, t, i, vals.update(i as int, (vals[i as int] + 1) as i64));
            (r.0, 4 + pl + 6 + r.1)
        }
    } else {
        let inner = level_run(vs, p, pl, t, i + 1, vals.update(i + 1int, vs[i + 1int].1));
        if inner.0 {
            (true, 4 + inner.1)
        } else {
            let next = vals.update(i + 1int, vs[i + 1int].1).update(i as int, (vals[i as int] + 1) as i64);
            let r = level_run(vs, p, pl, t, i, next);
            (r.0, 4 + inner.1 + 7 + r.1)
        }
    }
}

// ── Program layout ──────────────────────────────────────────────────

/// Where the increments begin: after the predicate's jump (and, for an
/// Exists program, its `Halt(1)`).
pub open spec fn cascade_start(n: nat, pl: nat, t: bool) -> nat {
    8 * n + pl + if t {
        2nat
    } else {
        1nat
    }
}

/// Where the program halts on meeting the value `t`.
pub open spec fn found_pos(n: nat, pl: nat, t: bool) -> nat {
    if t {
        8 * n + pl + 1
    } else {
        (cascade_start(n, pl, t) + 7 * (n - 1) + 6) as nat
    }
}

/// Start of the increment block of variable `i`.
pub open spec fn block_pos(n: nat, c: nat, i: nat) -> nat {
    (c + 7 * (n - 1 - i)) as nat
}

pub open spec fn header_code(n: nat, c: nat, i: nat) -> Seq<Instruction> {
    seq![
        Instruction::Load(i as usize),
        Instruction::Load((n + i) as usize),
        Instruction::Lt,
        Instruction::Jz(exit_pos(n, c, i)),
    ]
}

pub open spec fn block_len(i: nat) -> nat {
    if i > 0 {
        7
    } else {
        5
    }
}

proof fn lemma_sub_right<A>(a: Seq<A>, b: Seq<A>, x: int, y: int)
    requires
        0 <= x <= y <= b.len(),
    ensures
        (a + b).subrange(a.len() + x, a.len() + y) == b.subrange(x, y),
{
    assert((a + b).subrange(a.len() + x, a.len() + y) =~= b.subrange(x, y));
}

proof fn lemma_sub_left<A>(a: Seq<A>, b: Seq<A>, x: int, y: int)
    requires
        0 <= x <= y <= a.len(),
    ensures
        (a + b).subrange(x, y) == a.subrange(x, y),
{
    assert((a + b).subrange(x, y) =~= a.subrange(x, y));
}

proof fn lemma_init_len(vs: Seq<(Seq<char>, i64, i64)>, n: nat)
    ensures
        init_code(vs, n).len() == 4 * vs.len(),
    decreases vs.len(),
{
    if vs.len() > 0 {
        lemma_init_len(vs.drop_last(), n);
    }
}

proof fn lemma_check_len(n: nat, c: nat, k: nat)
    ensures
        check_code(n, c, k).len() == 4 * k,
    decreases k,
{
    if k > 0 {
        lemma_check_len(n, c, (k - 1) as nat);
    }
}

proof fn lemma_check_at(n: nat, c: nat, k: nat, i: nat)
    requires
        i < k,
    ensures
        check_code(n, c, k).subrange(4 * i as int, 4 * i + 4int) == header_code(n, c, i),
    decreases k,
{
    let prev = check_code(n, c, (k - 1) as nat);
    lemma_check_len(n, c, (k - 1) as nat);
    let last = seq![
        Instruction::Load((k - 1) as usize),
        Instruction::Load((n + (k - 1)) as usize),
        Instruction::Lt,
        Instruction::Jz(exit_pos(n, c, (k - 1) as nat)),
    ];
    assert(check_code(n, c, k) == prev + last);
    if i == k - 1 {
        lemma_sub_right(prev, last, 0, 4);
        assert(last.subrange(0, 4) =~= last);
    } else {
        lemma_check_at(n, c, (k - 1) as nat, i);
        lemma_sub_left(prev, last, 4 * i as int, 4 * i + 4int);
    }
}

proof fn lemma_cascade_len(vs: Seq<(Seq<char>, i64, i64)>, n: nat, m: nat)
    requires
        m <= n,
    ensures
        cascade_code(vs, n, m).len() == if m < n {
            7 * m
        } else if n == 0 {
            0nat
        } else {
            (7 * (n - 1) + 5) as nat
        },
    decreases m,
{
    if m > 0 {
        lemma_cascade_len(vs, n, (m - 1) as nat);
    }
}

proof fn lemma_cascade_at(vs: Seq<(Seq<char>, i64, i64)>, n: nat, m: nat, i: nat)
    requires
        m <= n,
        n - m <= i < n,
    ensures
        cascade_code(vs, n, m).subrange(7 * (n - 1 - i), 7 * (n - 1 - i) + block_len(i)) == block_code(
            vs,
            n,
            i,
        ),
    decreases m,
{
    let prev = cascade_code(vs, n, (m - 1) as nat);
    let b = block_code(vs, n, (n - m) as nat);
    lemma_cascade_len(vs, n, (m - 1) as nat);
    assert(cascade_code(vs, n, m) == prev + b);
    if i == n - m {
        assert(b.len() == block_len(i));
        lemma_sub_right(prev, b, 0, b.len() as int);
        assert(b.subrange(0, b.len() as int) =~= b);
    } else {
        lemma_cascade_at(vs, n, (m - 1) as nat, i);
        lemma_sub_left(prev, b, 7 * (n - 1 - i), 7 * (n - 1 - i) + block_len(i));
    }
}

/// The parts of a nested-loop program: initialisation, loop headers,
/// predicate, predicate jump (and `Halt(1)` for Exists), increments, and
/// the final halts.
proof fn lemma_layout(vs: Seq<(Seq<char>, i64, i64)>, pc: Seq<Instruction>, t: bool)
    requires
        vs.len() >= 1,
        16 * vs.len() + pc.len() + 16 <= usize::MAX,
    ensures
        ({
            let n = vs.len() as int;
            let pl = pc.len() as int;
            let c = cascade_start(vs.len(), pc.len(), t);
            let prog = multi_code(vs, pc, t);
            &&& prog.len() == c + 7 * (n - 1) + 5 + if t { 1int } else { 2int }
            &&& prog.subrange(0, 4 * n) == init_code(vs, vs.len())
            &&& prog.subrange(8 * n, 8 * n + pl) == pc
            &&& prog[8 * n + pl] == Instruction::Jz(
                if t {
                    c as usize
                } else {
                    found_pos(vs.len(), pc.len(), t) as usize
                },
            )
            &&& t ==> prog[8 * n + pl + 1] == Instruction::Halt(1)
            &&& prog[exit_pos(vs.len(), c, 0) as int] == Instruction::Halt(if t { 0u8 } else { 1u8 })
            &&& !t ==> prog[found_pos(vs.len(), pc.len(), t) as int] == Instruction::Halt(0)
            &&& prog.subrange(4 * n, 8 * n) == check_code(vs.len(), c, vs.len())
            &&& prog.subrange(c as int, c + 7 * (n - 1) + 5) == cascade_code(vs, vs.len(), vs.len())
        }),
{
    let n = vs.len();
    let pl = pc.len();
    let c = cascade_start(n, pl, t);
    let prog = multi_code(vs, pc, t);
    lemma_init_len(vs, n);
    lemma_check_len(n, c, n);
    lemma_cascade_len(vs, n, n);
    let a = init_code(vs, n);
    let b = check_code(n, c, n);
    let e = cascade_code(vs, n, n);
    if t {
        let d = seq![Instruction::Jz(c as usize), Instruction::Halt(1)];
        let f = seq![Instruction::Halt(0)];
        assert(prog == a + b + pc + d + e + f);
    } else {
        let d = seq![Instruction::Jz((c + 7 * (n - 1) + 6) as usize)];
        let f = seq![Instruction::Halt(1), Instruction::Halt(0)];
        assert(prog == a + b + pc + d + e + f);
    }
    assert(prog.subrange(0, 4 * n as int) =~= a);
    assert(prog.subrange(8 * n as int, 8 * n + pl as int) =~= pc);
    assert(prog.subrange(4 * n as int, 8 * n as int) =~= b);
    assert(prog.subrange(c as int, c + 7 * (n - 1) + 5) =~= e);
    assert(prog.len() == c + 7 * (n - 1) + 5 + if t { 1int } else { 2int });
    assert(prog[8 * n + pl as int] == Instruction::Jz(
        if t {
            c as usize
        } else {
            found_pos(n, pl, t) as usize
        },
    ));
    assert(t ==> prog[8 * n + pl + 1int] == Instruction::Halt(1));
    assert(prog[exit_pos(n, c, 0) as int] == Instruction::Halt(if t { 0u8 } else { 1u8 }));
    assert(!t ==> prog[found_pos(n, pl, t) as int] == Instruction::Halt(0));
}

/// The header of loop `i` sits at `4n + 4i`.
proof fn lemma_header_at(vs: Seq<(Seq<char>, i64, i64)>, pc: Seq<Instruction>, t: bool, i: nat)
    requires
        i < vs.len(),
        16 * vs.len() + pc.len() + 16 <= usize::MAX,
    ensures
        multi_code(vs, pc, t).subrange(4 * vs.len() + 4 * i as int, 4 * vs.len() + 4 * i + 4int)
            == header_code(vs.len(), cascade_start(vs.len(), pc.len(), t), i),
{
    let n = vs.len();
    let c = cascade_start(n, pc.len(), t);
    let prog = multi_code(vs, pc, t);
    lemma_layout(vs, pc, t);
    lemma_check_at(n, c, n, i);
    let b = prog.subrange(4 * n as int, 8 * n as int);
    assert(b.subrange(4 * i as int, 4 * i + 4int) =~= prog.subrange(
        4 * n + 4 * i as int,
        4 * n + 4 * i + 4int,
    ));
}

/// The increment block of variable `i` sits at `block_pos(i)`.
proof fn lemma_block_at(vs: Seq<(Seq<char>, i64, i64)>, pc: Seq<Instruction>, t: bool, i: nat)
    requires
        i < vs.len(),
        16 * vs.len() + pc.len() + 16 <= usize::MAX,
    ensures
        ({
            let n = vs.len();
            let c = cascade_start(n, pc.len(), t);
            multi_code(vs, pc, t).subrange(
                block_pos(n, c, i) as int,
                block_pos(n, c, i) + block_len(i) as int,
            ) == block_code(vs, n, i)
        }),
{
    let n = vs.len();
    let c = cascade_start(n, pc.len(), t);
    let prog = multi_code(vs, pc, t);
    lemma_layout(vs, pc, t);
    lemma_cascade_at(vs, n, n, i);
    let e = prog.subrange(c as int, c + 7 * (n - 1) + 5);
    assert(e.subrange(7 * (n - 1 - i), 7 * (n - 1 - i) + block_len(i)) =~= prog.subrange(
        block_pos(n, c, i) as int,
        block_pos(n, c, i) + block_len(i) as int,
    ));
}

// ── Straight-line pieces ────────────────────────────────────────────

/// Storing into the slot of a variable updates the assignment.
proof fn lemma_store_var(vs: Seq<(Seq<char>, i64, i64)>, vals: Seq<i64>, i: int, v: i64)
    requires
        0 <= i < vs.len(),
        2 * vs.len() <= usize::MAX,
        vals.len() == vs.len(),
    ensures
        nest_memory(vs, vals).insert(i as usize, v) == nest_memory(vs, vals.update(i, v)),
{
    assert(nest_memory(vs, vals).insert(i as usize, v) =~= nest_memory(vs, vals.update(i, v)));
}

/// The loop header `Load(i), Load(n+i), Lt` pushes whether variable `i`
/// is below its limit.
proof fn lemma_header_runs(vs: Seq<(Seq<char>, i64, i64)>, vals: Seq<i64>, c: nat, i: nat)
    requires
        i < vs.len(),
        vals.len() == vs.len(),
        vs[i as int].2 < i64::MAX,
        2 * vs.len() <= usize::MAX,
    ensures
        exec_straight(
            header_code(vs.len(), c, i).take(3),
            Seq::empty(),
            nest_memory(vs, vals),
        ) == Ok::<(Seq<i64>, Map<usize, i64>), crate::vm::Fault>(
            (seq![flag(vals[i as int] < vs[i as int].2 + 1)], nest_memory(vs, vals)),
        ),
{
    reveal_with_fuel(exec_straight, 4);
    let n = vs.len();
    let m = nest_memory(vs, vals);
    assert(m.contains_key(i as usize) && m[i as usize] == vals[i as int]);
    assert(m.contains_key((n + i) as usize) && m[(n + i) as usize] == vs[i as int].2 + 1);
    let code = header_code(n, c, i).take(3);
    assert(code =~= seq![Instruction::Load(i as usize), Instruction::Load((n + i) as usize), Instruction::Lt]);
    assert(code.skip(1) =~= seq![Instruction::Load((n + i) as usize), Instruction::Lt]);
    assert(code.skip(1).skip(1) =~= seq![Instruction::Lt]);
    assert(code.skip(1).skip(1).skip(1) =~= Seq::<Instruction>::empty());
    let s2 = Seq::<i64>::empty().push(vals[i as int]).push((vs[i as int].2 + 1) as i64);
    assert(s2.drop_last().drop_last().push(flag(vals[i as int] < vs[i as int].2 + 1)) =~= seq![
        flag(vals[i as int] < vs[i as int].2 + 1),
    ]);
}

/// `Load(i), Push(1), Add, Store(i)` advances variable `i`.
proof fn lemma_increment_runs(vs: Seq<(Seq<char>, i64, i64)>, vals: Seq<i64>, i: nat)
    requires
        i < vs.len(),
        2 * vs.len() <= usize::MAX,
        vals.len() == vs.len(),
        vals[i as int] < i64::MAX,
    ensures
        exec_straight(
            block_code(vs, vs.len(), i).take(4),
            Seq::empty(),
            nest_memory(vs, vals),
        ) == Ok::<(Seq<i64>, Map<usize, i64>), crate::vm::Fault>(
            (Seq::empty(), nest_memory(vs, vals.update(i as int, (vals[i as int] + 1) as i64))),
        ),
{
    reveal_with_fuel(exec_straight, 5);
    let m = nest_memory(vs, vals);
    let x = vals[i as int];
    assert(m.contains_key(i as usize) && m[i as usize] == x);
    let code = block_code(vs, vs.len(), i).take(4);
    assert(code =~= seq![
        Instruction::Load(i as usize),
        Instruction::Push(1),
        Instruction::Add,
        Instruction::Store(i as usize),
    ]);
    assert(code.skip(1) =~= seq![Instruction::Push(1), Instruction::Add, Instruction::Store(i as usize)]);
    assert(code.skip(1).skip(1) =~= seq![Instruction::Add, Instruction::Store(i as usize)]);
    assert(code.skip(1).skip(1).skip(1) =~= seq![Instruction::Store(i as usize)]);
    assert(code.skip(1).skip(1).skip(1).skip(1) =~= Seq::<Instruction>::empty());
    let s2 = Seq::<i64>::empty().push(x).push(1);
    assert(s2.drop_last().drop_last().push((x + 1) as i64) =~= seq![(x + 1) as i64]);
    assert(seq![(x + 1) as i64].drop_last() =~= Seq::<i64>::empty());
    lemma_store_var(vs, vals, i as int, (x + 1) as i64);
}

/// `Push(lo_i), Store(i)` resets variable `i` to its lower bound.
proof fn lemma_reset_runs(vs: Seq<(Seq<char>, i64, i64)>, vals: Seq<i64>, i: nat)
    requires
        0 < i < vs.len(),
        2 * vs.len() <= usize::MAX,
        vals.len() == vs.len(),
    ensures
        exec_straight(
            block_code(vs, vs.len(), i).skip(5),
            Seq::empty(),
            nest_memory(vs, vals),
        ) == Ok::<(Seq<i64>, Map<usize, i64>), crate::vm::Fault>(
            (Seq::empty(), nest_memory(vs, vals.update(i as int, vs[i as int].1))),
        ),
{
    reveal_with_fuel(exec_straight, 3);
    let code = block_code(vs, vs.len(), i).skip(5);
    assert(code =~= seq![Instruction::Push(vs[i as int].1), Instruction::Store(i as usize)]);
    assert(code.skip(1) =~= seq![Instruction::Store(i as usize)]);
    assert(code.skip(1).skip(1) =~= Seq::<Instruction>::empty());
    assert(Seq::<i64>::empty().push(vs[i as int].1).drop_last() =~= Seq::<i64>::empty());
    lemma_store_var(vs, vals, i as int, vs[i as int].1);
}

/// Memory after initialising the variables `ws`, for `n` variables in all.
pub open spec fn init_memory(ws: Seq<(Seq<char>, i64, i64)>, n: nat) -> Map<usize, i64> {
    Map::new(
        |k: usize| k < ws.len() || (n <= k < n + ws.len()),
        |k: usize|
            if k < ws.len() {
                ws[k as int].1
            } else {
                (ws[k - n].2 + 1) as i64
            },
    )
}

proof fn lemma_init_runs(ws: Seq<(Seq<char>, i64, i64)>, n: nat)
    requires
        ws.len() <= n,
        2 * n <= usize::MAX,
    ensures
        exec_straight(init_code(ws, n), Seq::empty(), Map::empty()) == Ok::<
            (Seq<i64>, Map<usize, i64>),
            crate::vm::Fault,
        >((Seq::empty(), init_memory(ws, n))),
    decreases ws.len(),
{
    if ws.len() == 0 {
        assert(init_memory(ws, n) =~= Map::<usize, i64>::empty());
    } else {
        let prev = ws.drop_last();
        let k = (ws.len() - 1) as nat;
        let v = ws.last();
        lemma_init_runs(prev, n);
        let tail = seq![
            Instruction::Push(v.1),
            Instruction::Store(k as usize),
            Instruction::Push((v.2 + 1) as i64),
            Instruction::Store((n + k) as usize),
        ];
        lemma_exec_straight_append_here(init_code(prev, n), tail, init_memory(prev, n));
        lemma_init_tail(init_memory(prev, n), k, n, v);
        assert(init_memory(prev, n).insert(k as usize, v.1).insert((n + k) as usize, (v.2 + 1) as i64)
            =~= init_memory(ws, n));
    }
}

proof fn lemma_exec_straight_append_here(
    c1: Seq<Instruction>,
    c2: Seq<Instruction>,
    m1: Map<usize, i64>,
)
    requires
        exec_straight(c1, Seq::empty(), Map::empty()) == Ok::<
            (Seq<i64>, Map<usize, i64>),
            crate::vm::Fault,
        >((Seq::empty(), m1)),
    ensures
        exec_straight(c1 + c2, Seq::empty(), Map::empty()) == exec_straight(c2, Seq::empty(), m1),
{
    crate::vm::lemma_exec_straight_append(c1, c2, Seq::empty(), Map::empty());
}

proof fn lemma_init_tail(m: Map<usize, i64>, k: nat, n: nat, v: (Seq<char>, i64, i64))
    requires
        n + k <= usize::MAX,
    ensures
        exec_straight(
            seq![
                Instruction::Push(v.1),
                Instruction::Store(k as usize),
                Instruction::Push((v.2 + 1) as i64),
                Instruction::Store((n + k) as usize),
            ],
            Seq::empty(),
            m,
        ) == Ok::<(Seq<i64>, Map<usize, i64>), crate::vm::Fault>(
            (Seq::empty(), m.insert(k as usize, v.1).insert((n + k) as usize, (v.2 + 1) as i64)),
        ),
{
    reveal_with_fuel(exec_straight, 5);
    let tail = seq![
        Instruction::Push(v.1),
        Instruction::Store(k as usize),
        Instruction::Push((v.2 + 1) as i64),
        Instruction::Store((n + k) as usize),
    ];
    assert(tail.skip(1) =~= seq![
        Instruction::Store(k as usize),
        Instruction::Push((v.2 + 1) as i64),
        Instruction::Store((n + k) as usize),
    ]);
    assert(tail.skip(1).skip(1) =~= seq![Instruction::Push((v.2 + 1) as i64), Instruction::Store((n + k) as usize)]);
    assert(tail.skip(1).skip(1).skip(1) =~= seq![Instruction::Store((n + k) as usize)]);
    assert(tail.skip(1).skip(1).skip(1).skip(1) =~= Seq::<Instruction>::empty());
    assert(Seq::<i64>::empty().push(v.1).drop_last() =~= Seq::<i64>::empty());
    assert(Seq::<i64>::empty().push((v.2 + 1) as i64).drop_last() =~= Seq::<i64>::empty());
}

// ── Running the loops ───────────────────────────────────────────────

/// The conditions under which the nested-loop program over `vs` with
/// predicate code `pc` is examined: at least one variable, the code is the
/// predicate compiled against the bound variables, every limit `hi + 1`
/// fits, the program's positions fit, and the predicate evaluates at every
/// assignment of the domains.
pub open spec fn nest_ok(vs: Seq<(Seq<char>, i64, i64)>, p: SpecPred, pc: Seq<Instruction>) -> bool {
    &&& vs.len() >= 1
    &&& compile_pred_spec(bind_all(vs), 0, p) == Ok::<Seq<Instruction>, Seq<char>>(pc)
    &&& forall|j: int| 0 <= j < vs.len() ==> #[trigger] vs[j].2 < i64::MAX
    &&& 16 * vs.len() + pc.len() + 16 <= usize::MAX
    &&& forall|w: Seq<i64>| #[trigger] in_domains(vs, w) ==> value_at(vs, p, w) is Some
}

/// The machine at the head of loop `i`.
pub open spec fn head_at(
    vs: Seq<(Seq<char>, i64, i64)>,
    i: nat,
    vals: Seq<i64>,
    steps: nat,
) -> MachineState {
    MachineState {
        pc: 4 * vs.len() + 4 * i,
        stack: Seq::empty(),
        memory: nest_memory(vs, vals),
        steps,
        outcome: None,
    }
}

/// The machine at `pc` with an empty stack and the memory of `vals`.
pub open spec fn at_pos(
    vs: Seq<(Seq<char>, i64, i64)>,
    pc: nat,
    vals: Seq<i64>,
    steps: nat,
) -> MachineState {
    MachineState { pc, stack: Seq::empty(), memory: nest_memory(vs, vals), steps, outcome: None }
}

/// The value a variable holds when its loop exits, having started at `x`.
pub open spec fn exit_value(vs: Seq<(Seq<char>, i64, i64)>, i: int, x: i64) -> i64 {
    if x > vs[i].2 {
        x
    } else {
        (vs[i].2 + 1) as i64
    }
}

/// The placement of the parts of the nested-loop program over `vs` with
/// predicate code `pc` in `prog`.
pub open spec fn laid_out(
    prog: Seq<Instruction>,
    vs: Seq<(Seq<char>, i64, i64)>,
    pc: Seq<Instruction>,
    t: bool,
) -> bool {
    let n = vs.len();
    let pl = pc.len();
    let c = cascade_start(n, pl, t);
    &&& prog.len() == c + 7 * (n - 1) + 5 + if t { 1int } else { 2int }
    &&& prog.subrange(0, 4 * n as int) == init_code(vs, n)
    &&& prog.subrange(8 * n as int, 8 * n + pl as int) == pc
    &&& prog[8 * n + pl as int] == Instruction::Jz(
        if t {
            c as usize
        } else {
            found_pos(n, pl, t) as usize
        },
    )
    &&& t ==> prog[8 * n + pl + 1int] == Instruction::Halt(1)
    &&& prog[exit_pos(n, c, 0) as int] == Instruction::Halt(if t { 0u8 } else { 1u8 })
    &&& !t ==> prog[found_pos(n, pl, t) as int] == Instruction::Halt(0)
    &&& forall|i: nat|
        i < n ==> prog.subrange(4 * n + 4 * i as int, 4 * n + 4 * i + 4int) == #[trigger] header_code(
            n,
            c,
            i,
        )
    &&& forall|i: nat|
        i < n ==> prog.subrange(block_pos(n, c, i) as int, block_pos(n, c, i) + block_len(i) as int)
            == #[trigger] block_code(vs, n, i)
}

proof fn lemma_laid_out(vs: Seq<(Seq<char>, i64, i64)>, pc: Seq<Instruction>, t: bool)
    requires
        vs.len() >= 1,
        16 * vs.len() + pc.len() + 16 <= usize::MAX,
    ensures
        laid_out(multi_code(vs, pc, t), vs, pc, t),
{
    let n = vs.len();
    let c = cascade_start(n, pc.len(), t);
    lemma_layout(vs, pc, t);
    assert forall|i: nat| i < n implies multi_code(vs, pc, t).subrange(
        4 * n + 4 * i as int,
        4 * n + 4 * i + 4int,
    ) == #[trigger] header_code(n, c, i) by {
        lemma_header_at(vs, pc, t, i);
    }
    assert forall|i: nat| i < n implies multi_code(vs, pc, t).subrange(
        block_pos(n, c, i) as int,
        block_pos(n, c, i) + block_len(i) as int,
    ) == #[trigger] block_code(vs, n, i) by {
        lemma_block_at(vs, pc, t, i);
    }
}

/// One more step, from a running machine.
proof fn lemma_one_step(prog: Seq<Instruction>, s: MachineState, fuel: nat)
    requires
        s.outcome is None,
        fuel >= 1,
    ensures
        spec_run_from(prog, s, fuel) == spec_run_from(prog, spec_step(prog, s), (fuel - 1) as nat),
{
}

/// The header of loop `i` takes four steps: into the loop body when the
/// variable is within its domain, else to the loop's exit.
proof fn lemma_head_steps(
    prog: Seq<Instruction>,
    vs: Seq<(Seq<char>, i64, i64)>,
    p: SpecPred,
    pc: Seq<Instruction>,
    t: bool,
    i: nat,
    vals: Seq<i64>,
    steps: nat,
    fuel: nat,
)
    requires
        laid_out(prog, vs, pc, t),
        nest_ok(vs, p, pc),
        i < vs.len(),
        vals.len() == vs.len(),
        fuel >= 4,
    ensures
        spec_run_from(prog, head_at(vs, i, vals, steps), fuel) == spec_run_from(
            prog,
            if vals[i as int] <= vs[i as int].2 {
                at_pos(vs, 4 * vs.len() + 4 * i + 4, vals, steps + 4)
            } else {
                at_pos(
                    vs,
                    exit_pos(vs.len(), cascade_start(vs.len(), pc.len(), t), i) as nat,
                    vals,
                    steps + 4,
                )
            },
            (fuel - 4) as nat,
        ),
{
    let n = vs.len();
    let c = cascade_start(n, pc.len(), t);
    let x = vals[i as int];
    let hd = 4 * n + 4 * i;
    let hc = header_code(n, c, i);
    assert(prog.subrange(hd as int, hd + 4int) == hc);
    assert(vs[i as int].2 < i64::MAX);
    lemma_header_runs(vs, vals, c, i);
    let code = hc.take(3);
    assert(prog.subrange(hd as int, hd + 3int) =~= code) by {
        assert forall|k: int| 0 <= k < 3 implies prog.subrange(hd as int, hd + 3int)[k] == code[k] by {
            assert(prog.subrange(hd as int, hd + 4int)[k] == hc[k]);
        }
    }
    lemma_run_straight(prog, head_at(vs, i, vals, steps), code, fuel);
    let s3 = MachineState {
        pc: hd + 3,
        stack: seq![flag(x < vs[i as int].2 + 1)],
        memory: nest_memory(vs, vals),
        steps: steps + 3,
        outcome: None,
    };
    assert(prog[hd + 3int] == prog.subrange(hd as int, hd + 4int)[3]);
    assert(prog[hd + 3int] == Instruction::Jz(exit_pos(n, c, i)));
    lemma_one_step(prog, s3, (fuel - 3) as nat);
    assert(seq![flag(x < vs[i as int].2 + 1)].drop_last() =~= Seq::<i64>::empty());
}

/// The innermost body: the predicate's code, then its jump. At the value
/// `t` the machine halts with `t`'s code; otherwise it moves on to the
/// increments.
proof fn lemma_body_steps(
    prog: Seq<Instruction>,
    vs: Seq<(Seq<char>, i64, i64)>,
    p: SpecPred,
    pc: Seq<Instruction>,
    t: bool,
    vals: Seq<i64>,
    steps: nat,
    fuel: nat,
)
    requires
        laid_out(prog, vs, pc, t),
        nest_ok(vs, p, pc),
        in_domains(vs, vals),
        fuel >= pc.len() + 1,
    ensures
        value_at(vs, p, vals) == Some(t) && fuel >= pc.len() + 2 ==> spec_run_from(
            prog,
            at_pos(vs, 8 * vs.len(), vals, steps),
            fuel,
        ).outcome == Some(VmOutcome::Halted(if t { 1u8 } else { 0u8 })),
        value_at(vs, p, vals) != Some(t) ==> spec_run_from(
            prog,
            at_pos(vs, 8 * vs.len(), vals, steps),
            fuel,
        ) == spec_run_from(
            prog,
            at_pos(vs, cascade_start(vs.len(), pc.len(), t), vals, steps + pc.len() + 1),
            (fuel - pc.len() - 1) as nat,
        ),
{
    let n = vs.len();
    let pl = pc.len();
    let c = cascade_start(n, pl, t);
    let m = nest_memory(vs, vals);
    assert(value_at(vs, p, vals) is Some);
    let truth = value_at(vs, p, vals)->Some_0;
    lemma_compiled_pred_pushes_truth(bind_all(vs), 0, m, p, Seq::empty());
    let s0 = at_pos(vs, 8 * n, vals, steps);
    lemma_run_straight(prog, s0, pc, fuel);
    assert(Seq::<i64>::empty().push(flag(truth)) =~= seq![flag(truth)]);
    let s1 = MachineState {
        pc: 8 * n + pl,
        stack: seq![flag(truth)],
        memory: m,
        steps: steps + pl,
        outcome: None,
    };
    let f1 = (fuel - pl) as nat;
    lemma_one_step(prog, s1, f1);
    assert(seq![flag(truth)].drop_last() =~= Seq::<i64>::empty());
    let s2 = spec_step(prog, s1);
    if truth == t {
        assert(s2 == at_pos(vs, found_pos(n, pl, t), vals, steps + pl + 1));
        if fuel >= pl + 2 {
            lemma_one_step(prog, s2, (f1 - 1) as nat);
            assert(prog[found_pos(n, pl, t) as int] == Instruction::Halt(if t { 1u8 } else { 0u8 }));
            let s3 = spec_step(prog, s2);
            assert(s3.outcome == Some(VmOutcome::Halted(if t { 1u8 } else { 0u8 })));
            assert(spec_run_from(prog, s3, (f1 - 2) as nat) == s3);
        }
    } else {
        assert(s2 == at_pos(vs, c, vals, steps + pl + 1));
    }
}

/// The increment of variable `i`: five steps from the start of its block
/// back to the head of its loop with the next value.
proof fn lemma_advance_steps(
    prog: Seq<Instruction>,
    vs: Seq<(Seq<char>, i64, i64)>,
    p: SpecPred,
    pc: Seq<Instruction>,
    t: bool,
    i: nat,
    vals: Seq<i64>,
    steps: nat,
    fuel: nat,
)
    requires
        laid_out(prog, vs, pc, t),
        nest_ok(vs, p, pc),
        i < vs.len(),
        vals.len() == vs.len(),
        vals[i as int] < i64::MAX,
        fuel >= 5,
    ensures
        spec_run_from(
            prog,
            at_pos(vs, block_pos(vs.len(), cascade_start(vs.len(), pc.len(), t), i), vals, steps),
            fuel,
        ) == spec_run_from(
            prog,
            head_at(vs, i, vals.update(i as int, (vals[i as int] + 1) as i64), steps + 5),
            (fuel - 5) as nat,
        ),
{
    let n = vs.len();
    let c = cascade_start(n, pc.len(), t);
    let bp = block_pos(n, c, i);
    let bc = block_code(vs, n, i);
    assert(prog.subrange(bp as int, bp + block_len(i) as int) == bc);
    lemma_increment_runs(vs, vals, i);
    let code = bc.take(4);
    assert(prog.subrange(bp as int, bp + 4int) =~= code) by {
        assert forall|k: int| 0 <= k < 4 implies prog.subrange(bp as int, bp + 4int)[k] == code[k] by {
            assert(prog.subrange(bp as int, bp + block_len(i) as int)[k] == bc[k]);
        }
    }
    let s0 = at_pos(vs, bp, vals, steps);
    lemma_run_straight(prog, s0, code, fuel);
    let vals2 = vals.update(i as int, (vals[i as int] + 1) as i64);
    let s4 = at_pos(vs, bp + 4, vals2, steps + 4);
    assert(prog[bp + 4int] == prog.subrange(bp as int, bp + block_len(i) as int)[4]);
    assert(prog[bp + 4int] == Instruction::Jmp((4 * n + 4 * i) as usize));
    lemma_one_step(prog, s4, (fuel - 4) as nat);
    assert(spec_step(prog, s4) == head_at(vs, i, vals2, steps + 5));
}

/// At the exit of an inner loop `i`, its variable is reset to its lower
/// bound in two steps, reaching the block of the next outer variable.
proof fn lemma_reset_steps(
    prog: Seq<Instruction>,
    vs: Seq<(Seq<char>, i64, i64)>,
    p: SpecPred,
    pc: Seq<Instruction>,
    t: bool,
    i: nat,
    vals: Seq<i64>,
    steps: nat,
    fuel: nat,
)
    requires
        laid_out(prog, vs, pc, t),
        nest_ok(vs, p, pc),
        0 < i < vs.len(),
        vals.len() == vs.len(),
        fuel >= 2,
    ensures
        spec_run_from(
            prog,
            at_pos(vs, exit_pos(vs.len(), cascade_start(vs.len(), pc.len(), t), i) as nat, vals, steps),
            fuel,
        ) == spec_run_from(
            prog,
            at_pos(
                vs,
                block_pos(vs.len(), cascade_start(vs.len(), pc.len(), t), (i - 1) as nat),
                vals.update(i as int, vs[i as int].1),
                steps + 2,
            ),
            (fuel - 2) as nat,
        ),
{
    let n = vs.len();
    let c = cascade_start(n, pc.len(), t);
    let bp = block_pos(n, c, i);
    let bc = block_code(vs, n, i);
    assert(prog.subrange(bp as int, bp + block_len(i) as int) == bc);
    lemma_reset_runs(vs, vals, i);
    let code = bc.skip(5);
    assert(exit_pos(n, c, i) as nat == bp + 5);
    assert(prog.subrange(bp + 5int, bp + 7int) =~= code) by {
        assert forall|k: int| 0 <= k < 2 implies prog.subrange(bp + 5int, bp + 7int)[k] == code[k] by {
            assert(prog.subrange(bp as int, bp + block_len(i) as int)[k + 5] == bc[k + 5]);
        }
    }
    lemma_run_straight(prog, at_pos(vs, bp + 5, vals, steps), code, fuel);
}

/// At the exit of the outermost loop the machine halts with the code for
/// "not met".
proof fn lemma_final_halt(
    prog: Seq<Instruction>,
    vs: Seq<(Seq<char>, i64, i64)>,
    pc: Seq<Instruction>,
    t: bool,
    vals: Seq<i64>,
    steps: nat,
    fuel: nat,
)
    requires
        laid_out(prog, vs, pc, t),
        vs.len() >= 1,
        fuel >= 1,
    ensures
        spec_run_from(
            prog,
            at_pos(vs, exit_pos(vs.len(), cascade_start(vs.len(), pc.len(), t), 0) as nat, vals, steps),
            fuel,
        ).outcome == Some(VmOutcome::Halted(if t { 0u8 } else { 1u8 })),
{
    let s = at_pos(vs, exit_pos(vs.len(), cascade_start(vs.len(), pc.len(), t), 0) as nat, vals, steps);
    lemma_one_step(prog, s, fuel);
    let s1 = spec_step(prog, s);
    assert(s1.outcome == Some(VmOutcome::Halted(if t { 0u8 } else { 1u8 })));
    assert(spec_run_from(prog, s1, (fuel - 1) as nat) == s1);
}

/// From the head of loop `i`, with the outer variables inside their
/// domains and the inner ones at their lower bounds: when the search meets
/// an assignment where the predicate has the value `t`, the machine halts
/// with `t`'s code; otherwise after `level_run` steps it stands at the exit
/// of loop `i`, with variable `i` past its domain.
#[verifier::rlimit(50)]
proof fn lemma_level(
    prog: Seq<Instruction>,
    vs: Seq<(Seq<char>, i64, i64)>,
    p: SpecPred,
    pc: Seq<Instruction>,
    t: bool,
    i: nat,
    vals: Seq<i64>,
    steps: nat,
    fuel: nat,
)
    requires
        laid_out(prog, vs, pc, t),
        nest_ok(vs, p, pc),
        i < vs.len(),
        vals.len() == vs.len(),
        forall|j: int| 0 <= j < i ==> vs[j].1 <= #[trigger] vals[j] <= vs[j].2,
        vs[i as int].1 <= vals[i as int],
        forall|j: int| i < j < vs.len() ==> #[trigger] vals[j] == vs[j].1,
        fuel >= level_run(vs, p, pc.len(), t, i, vals).1 + if level_run(
            vs,
            p,
            pc.len(),
            t,
            i,
            vals,
        ).0 {
            1int
        } else {
            0int
        },
    ensures
        level_run(vs, p, pc.len(), t, i, vals).0 ==> spec_run_from(
            prog,
            head_at(vs, i, vals, steps),
            fuel,
        ).outcome == Some(VmOutcome::Halted(if t { 1u8 } else { 0u8 })),
        !level_run(vs, p, pc.len(), t, i, vals).0 ==> spec_run_from(
            prog,
            head_at(vs, i, vals, steps),
            fuel,
        ) == spec_run_from(
            prog,
            at_pos(
                vs,
                exit_pos(vs.len(), cascade_start(vs.len(), pc.len(), t), i) as nat,
                vals.update(i as int, exit_value(vs, i as int, vals[i as int])),
                steps + level_run(vs, p, pc.len(), t, i, vals).1,
            ),
            (fuel - level_run(vs, p, pc.len(), t, i, vals).1) as nat,
        ),
    decreases vs.len() - i, (if vals[i as int] <= vs[i as int].2 {
        vs[i as int].2 - vals[i as int] + 1
    } else {
        0
    }),
{
    let n = vs.len();
    let pl = pc.len();
    let c = cascade_start(n, pl, t);
    let x = vals[i as int];
    let r = level_run(vs, p, pl, t, i, vals);
    assert(vs[i as int].2 < i64::MAX);
    lemma_head_steps(prog, vs, p, pc, t, i, vals, steps, fuel);
    if x > vs[i as int].2 {
        assert(r == (false, 4nat));
        assert(vals.update(i as int, exit_value(vs, i as int, x)) =~= vals);
    } else if i + 1 == n {
        assert(in_domains(vs, vals)) by {
            assert forall|j: int| 0 <= j < vs.len() implies vs[j].1 <= #[trigger] vals[j] <= vs[j].2 by {
                if j < i {
                } else {
                    assert(j == i);
                }
            }
        }
        assert(at_pos(vs, 4 * n + 4 * i + 4, vals, steps + 4) == at_pos(vs, 8 * n, vals, steps + 4));
        lemma_body_steps(prog, vs, p, pc, t, vals, steps + 4, (fuel - 4) as nat);
        if value_at(vs, p, vals) == Some(t) {
            assert(r == (true, 4 + pl + 1));
        } else {
            let vals2 = vals.update(i as int, (x + 1) as i64);
            assert(block_pos(n, c, i) == c);
            lemma_advance_steps(prog, vs, p, pc, t, i, vals, steps + 4 + pl + 1, (fuel - 4 - pl - 1) as nat);
            let r2 = level_run(vs, p, pl, t, i, vals2);
            assert(r == (r2.0, 4 + pl + 6 + r2.1));
            assert forall|j: int| i < j < vs.len() implies #[trigger] vals2[j] == vs[j].1 by {}
            assert forall|j: int| 0 <= j < i implies vs[j].1 <= #[trigger] vals2[j] <= vs[j].2 by {}
            lemma_level(prog, vs, p, pc, t, i, vals2, steps + pl + 10, (fuel - pl - 10) as nat);
            assert(vals2.update(i as int, exit_value(vs, i as int, (x + 1) as i64)) =~= vals.update(
                i as int,
                exit_value(vs, i as int, x),
            ));
        }
    } else {
        let j1 = (i + 1) as nat;
        assert(vals.update(j1 as int, vs[j1 as int].1) =~= vals);
        assert(at_pos(vs, 4 * n + 4 * i + 4, vals, steps + 4) == head_at(vs, j1, vals, steps + 4));
        let inner = level_run(vs, p, pl, t, j1, vals);
        assert forall|j: int| 0 <= j < j1 implies vs[j].1 <= #[trigger] vals[j] <= vs[j].2 by {
            if j < i {
            } else {
                assert(j == i);
            }
        }
        lemma_level(prog, vs, p, pc, t, j1, vals, steps + 4, (fuel - 4) as nat);
        if inner.0 {
            assert(r == (true, 4 + inner.1));
        } else {
            let k1 = inner.1;
            let vals1 = vals.update(j1 as int, exit_value(vs, j1 as int, vals[j1 as int]));
            lemma_reset_steps(prog, vs, p, pc, t, j1, vals1, steps + 4 + k1, (fuel - 4 - k1) as nat);
            assert(vals1.update(j1 as int, vs[j1 as int].1) =~= vals);
            assert(block_pos(n, c, i) == block_pos(n, c, (j1 - 1) as nat));
            lemma_advance_steps(prog, vs, p, pc, t, i, vals, steps + 4 + k1 + 2, (fuel - 4 - k1 - 2) as nat);
            let vals2 = vals.update(i as int, (x + 1) as i64);
            let r2 = level_run(vs, p, pl, t, i, vals2);
            assert(r == (r2.0, 4 + k1 + 7 + r2.1));
            assert forall|j: int| i < j < vs.len() implies #[trigger] vals2[j] == vs[j].1 by {}
            assert forall|j: int| 0 <= j < i implies vs[j].1 <= #[trigger] vals2[j] <= vs[j].2 by {}
            lemma_level(prog, vs, p, pc, t, i, vals2, steps + 4 + k1 + 7, (fuel - 4 - k1 - 7) as nat);
            assert(vals2.update(i as int, exit_value(vs, i as int, (x + 1) as i64)) =~= vals.update(
                i as int,
                exit_value(vs, i as int, x),
            ));
        }
    }
}

/// Whether the search from the head of loop `i` meets the value `t` is
/// whether some assignment of the rest of the search gives it.
proof fn lemma_level_found(
    vs: Seq<(Seq<char>, i64, i64)>,
    p: SpecPred,
    pl: nat,
    t: bool,
    i: nat,
    vals: Seq<i64>,
)
    requires
        i < vs.len(),
        vals.len() == vs.len(),
        forall|j: int| 0 <= j < vs.len() ==> #[trigger] vs[j].2 < i64::MAX,
        forall|j: int| i < j < vs.len() ==> #[trigger] vals[j] == vs[j].1,
    ensures
        level_run(vs, p, pl, t, i, vals).0 == found_in_rest(vs, p, t, i as int, vals),
    decreases vs.len() - i, (if vals[i as int] <= vs[i as int].2 {
        vs[i as int].2 - vals[i as int] + 1
    } else {
        0
    }),
{
    let n = vs.len();
    let x = vals[i as int];
    assert(vs[i as int].2 < i64::MAX);
    if x > vs[i as int].2 {
        if found_in_rest(vs, p, t, i as int, vals) {
            let w = choose|w: Seq<i64>| #[trigger] in_rest(vs, i as int, vals, w) && value_at(vs, p, w) == Some(t);
            assert(false);
        }
    } else {
        let vals2 = vals.update(i as int, (x + 1) as i64);
        // Assignments with a later value at position `i`.
        assert forall|w: Seq<i64>| #[trigger] in_rest(vs, i as int, vals2, w) implies in_rest(
            vs,
            i as int,
            vals,
            w,
        ) by {
            assert forall|j: int| 0 <= j < i implies #[trigger] w[j] == vals[j] by {
                assert(w[j] == vals2[j]);
            }
        }
        if i + 1 == n {
            if value_at(vs, p, vals) == Some(t) {
                assert(in_rest(vs, i as int, vals, vals));
            } else {
                lemma_level_found(vs, p, pl, t, i, vals2);
                if found_in_rest(vs, p, t, i as int, vals) {
                    let w = choose|w: Seq<i64>| #[trigger] in_rest(vs, i as int, vals, w) && value_at(vs, p, w) == Some(t);
                    if w[i as int] == x {
                        assert(w =~= vals);
                        assert(false);
                    }
                    assert(in_rest(vs, i as int, vals2, w));
                }
                if found_in_rest(vs, p, t, i as int, vals2) {
                    let w = choose|w: Seq<i64>| #[trigger] in_rest(vs, i as int, vals2, w) && value_at(vs, p, w) == Some(t);
                    assert(in_rest(vs, i as int, vals, w));
                }
            }
        } else {
            let j1 = (i + 1) as nat;
            assert(vals.update(j1 as int, vs[j1 as int].1) =~= vals);
            lemma_level_found(vs, p, pl, t, j1, vals);
            let inner = level_run(vs, p, pl, t, j1, vals);
            if inner.0 {
                let w = choose|w: Seq<i64>| #[trigger] in_rest(vs, j1 as int, vals, w) && value_at(vs, p, w) == Some(t);
                assert(in_rest(vs, i as int, vals, w)) by {
                    assert(w[i as int] == vals[i as int]);
                    assert forall|j: int| i < j < vs.len() implies vs[j].1 <= #[trigger] w[j] <= vs[j].2 by {
                        if j == j1 {
                            assert(vals[j] == vs[j].1);
                        }
                    }
                }
            } else {
                assert(vals.update(j1 as int, vs[j1 as int].1).update(i as int, (x + 1) as i64) =~= vals2);
                lemma_level_found(vs, p, pl, t, i, vals2);
                if found_in_rest(vs, p, t, i as int, vals) {
                    let w = choose|w: Seq<i64>| #[trigger] in_rest(vs, i as int, vals, w) && value_at(vs, p, w) == Some(t);
                    if w[i as int] == x {
                        assert(in_rest(vs, j1 as int, vals, w)) by {
                            assert forall|j: int| 0 <= j < j1 implies #[trigger] w[j] == vals[j] by {
                                if j < i {
                                } else {
                                    assert(j == i);
                                }
                            }
                            assert(vals[j1 as int] == vs[j1 as int].1);
                        }
                        assert(false);
                    }
                    assert(in_rest(vs, i as int, vals2, w));
                }
                if found_in_rest(vs, p, t, i as int, vals2) {
                    let w = choose|w: Seq<i64>| #[trigger] in_rest(vs, i as int, vals2, w) && value_at(vs, p, w) == Some(t);
                    assert(in_rest(vs, i as int, vals, w));
                }
            }
        }
    }
}

// ── What the program decides ────────────────────────────────────────

/// Some assignment of the variables' domains gives the predicate the
/// value `t`.
pub open spec fn met_somewhere(vs: Seq<(Seq<char>, i64, i64)>, p: SpecPred, t: bool) -> bool {
    exists|w: Seq<i64>| #[trigger] in_domains(vs, w) && value_at(vs, p, w) == Some(t)
}

/// Every assignment of the variables' domains satisfies the predicate.
pub open spec fn satisfied_everywhere(vs: Seq<(Seq<char>, i64, i64)>, p: SpecPred) -> bool {
    forall|w: Seq<i64>| #[trigger] in_domains(vs, w) ==> value_at(vs, p, w) == Some(true)
}

/// The steps a nested-loop program takes until it decides: the
/// initialisation, the search up to its halting instruction, and the halt.
pub open spec fn decision_steps(vs: Seq<(Seq<char>, i64, i64)>, p: SpecPred, t: bool) -> nat {
    4 * vs.len() + level_run(vs, p, pred_count_spec(p), t, 0, lower_bounds(vs)).1 + 1
}

/// Run from the start for at least its decision steps, the nested-loop
/// program halts with `t`'s code exactly when some assignment gives the
/// predicate the value `t`, and with the other code otherwise.
proof fn lemma_nested_run(
    vs: Seq<(Seq<char>, i64, i64)>,
    p: SpecPred,
    pc: Seq<Instruction>,
    t: bool,
    fuel: nat,
)
    requires
        nest_ok(vs, p, pc),
        fuel >= 4 * vs.len() + level_run(vs, p, pc.len(), t, 0, lower_bounds(vs)).1 + 1,
    ensures
        spec_run_from(multi_code(vs, pc, t), initial_state(), fuel).outcome == Some(
            VmOutcome::Halted(
                if met_somewhere(vs, p, t) == t {
                    1u8
                } else {
                    0u8
                },
            ),
        ),
{
    let n = vs.len();
    let prog = multi_code(vs, pc, t);
    let lb = lower_bounds(vs);
    lemma_laid_out(vs, pc, t);
    lemma_init_len(vs, n);
    lemma_init_runs(vs, n);
    assert(init_memory(vs, n) =~= nest_memory(vs, lb));
    lemma_run_straight(prog, initial_state(), init_code(vs, n), fuel);
    assert(MachineState {
        pc: 0 + init_code(vs, n).len(),
        stack: Seq::<i64>::empty(),
        memory: nest_memory(vs, lb),
        steps: 0 + init_code(vs, n).len(),
        outcome: None,
    } == head_at(vs, 0, lb, 4 * n));
    let f = (fuel - 4 * n) as nat;
    lemma_level(prog, vs, p, pc, t, 0, lb, 4 * n, f);
    lemma_level_found(vs, p, pc.len(), t, 0, lb);
    assert(found_in_rest(vs, p, t, 0, lb) == met_somewhere(vs, p, t)) by {
        if found_in_rest(vs, p, t, 0, lb) {
            let w = choose|w: Seq<i64>| #[trigger] in_rest(vs, 0, lb, w) && value_at(vs, p, w) == Some(t);
            assert(in_domains(vs, w)) by {
                assert forall|j: int| 0 <= j < vs.len() implies vs[j].1 <= #[trigger] w[j] <= vs[j].2 by {
                    if j == 0 {
                        assert(lb[0] == vs[0].1);
                    }
                }
            }
        }
        if met_somewhere(vs, p, t) {
            let w = choose|w: Seq<i64>| #[trigger] in_domains(vs, w) && value_at(vs, p, w) == Some(t);
            assert(in_rest(vs, 0, lb, w)) by {
                assert(vs[0].1 <= w[0]);
            }
        }
    }
    let r = level_run(vs, p, pc.len(), t, 0, lb);
    if !r.0 {
        lemma_final_halt(
            prog,
            vs,
            pc,
            t,
            lb.update(0, exit_value(vs, 0, lb[0])),
            4 * n + r.1,
            (f - r.1) as nat,
        );
    }
}

/// The program built for a search over two or more variables, run for its
/// B* steps, halts with 1 exactly when some assignment of the variables'
/// domains satisfies the predicate (Exists) or every assignment does
/// (ForAll), and with 0 otherwise. This holds when the predicate
/// evaluates, without overflow or division by zero, at every assignment,
/// and when the program decides within B* steps (`decision_steps`): B* as
/// derived from the program's structure does not cover every search, for
/// instance not an outer domain of many values around an inner domain of
/// one.
pub proof fn lemma_nested_program_decides(problem: SearchProblem)
    requires
        build_admissible(problem),
        problem_search(problem).0.len() >= 2,
        search_result(problem_search(problem).0, problem_search(problem).1, problem_search(problem).2) is Ok,
        forall|w: Seq<i64>|
            #[trigger] in_domains(problem_search(problem).0, w) ==> value_at(
                problem_search(problem).0,
                problem_search(problem).1,
                w,
            ) is Some,
        decision_steps(problem_search(problem).0, problem_search(problem).1, problem_search(problem).2)
            <= search_result(
            problem_search(problem).0,
            problem_search(problem).1,
            problem_search(problem).2,
        )->Ok_0.1,
    ensures
        ({
            let (vs, p, exists) = problem_search(problem);
            let (code, b) = search_result(vs, p, exists)->Ok_0;
            reported_outcome(spec_run(code, b as nat)) == VmOutcome::Halted(
                if exists {
                    if met_somewhere(vs, p, true) { 1u8 } else { 0u8 }
                } else {
                    if satisfied_everywhere(vs, p) { 1u8 } else { 0u8 }
                },
            )
        }),
{
    let (vs, p, exists) = problem_search(problem);
    let pc = compile_pred_spec(bind_all(vs), 0, p)->Ok_0;
    lemma_pred_count_is_code_length(bind_all(vs), 0, p);
    assert(search_admissible(vs, p));
    assert(nest_ok(vs, p, pc)) by {
        assert forall|j: int| 0 <= j < vs.len() implies #[trigger] vs[j].2 < i64::MAX by {
            assert(vs[j].2 < i64::MAX);
        }
    }
    let (code, b) = search_result(vs, p, exists)->Ok_0;
    assert(code == multi_code(vs, pc, exists));
    lemma_nested_run(vs, p, pc, exists, b as nat);
    if !exists {
        if met_somewhere(vs, p, false) {
            let w = choose|w: Seq<i64>| #[trigger] in_domains(vs, w) && value_at(vs, p, w) == Some(false);
            assert(!satisfied_everywhere(vs, p));
        } else {
            assert forall|w: Seq<i64>| #[trigger] in_domains(vs, w) implies value_at(vs, p, w) == Some(true) by {
                assert(value_at(vs, p, w) is Some);
                if value_at(vs, p, w) == Some(false) {
                    assert(met_somewhere(vs, p, false));
                }
            }
        }
    }
}

} // verus!
