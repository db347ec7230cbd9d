//! A small deterministic stack machine.
//!
//! Programs are flat instruction vectors. The machine has an operand stack
//! of `i64`, a sparse memory of `i64` cells addressed by `usize` (unwritten
//! cells read as 0), a program counter and a step counter. Every executed
//! instruction costs one step, including the one that halts or faults.
//!
//! Binary operators pop `b` (top) and then `a`, and push `a op b`.
//! Arithmetic is checked: overflow and division by zero fault.

use std::collections::HashMap;
use vstd::prelude::*;

verus! {

broadcast use vstd::std_specs::hash::group_hash_axioms;

/// One machine instruction.
#[derive(Debug, Clone, Copy, PartialEq, Eq, Structural)]
pub enum Instruction {
    /// Push a constant.
    Push(i64),
    /// Discard the top of the stack.
    Drop,
    /// Duplicate the top of the stack.
    Dup,
    /// Exchange the two topmost values.
    Swap,
    /// Push the value of a memory cell (0 when never written).
    Load(usize),
    /// Pop a value into a memory cell.
    Store(usize),
    Add,
    Sub,
    Mul,
    /// Truncating division.
    Div,
    /// Remainder of truncating division.
    Mod,
    Neg,
    /// Push 1 if `a == b`, else 0.
    Eq,
    /// Push 1 if `a < b`, else 0.
    Lt,
    /// Push 1 if the popped value is 0, else 0.
    Not,
    /// Bitwise and.
    And,
    /// Bitwise or.
    Or,
    /// Unconditional jump.
    Jmp(usize),
    /// Pop a value; jump when it is 0, fall through otherwise.
    Jz(usize),
    /// Stop with an exit code.
    Halt(u8),
}

/// Why execution stopped abnormally.
#[derive(Debug, Clone, Copy, PartialEq, Eq, Structural)]
pub enum Fault {
    StackUnderflow,
    DivisionByZero,
    ArithmeticOverflow,
    PcOutOfBounds,
}

/// Final outcome of a run.
#[derive(Debug, Clone, Copy, PartialEq, Eq, Structural)]
pub enum VmOutcome {
    Halted(u8),
    BudgetExhausted,
    Fault(Fault),
}

/// A program: a flat vector of instructions.
#[derive(Debug, Clone, PartialEq, Eq)]
pub struct Program {
    pub instructions: Vec<Instruction>,
}

impl View for Program {
    type V = Seq<Instruction>;

    open spec fn view(&self) -> Seq<Instruction> {
        self.instructions@
    }
}

impl Program {
    pub fn new(instructions: Vec<Instruction>) -> (p: Program)
        ensures
            p@ == instructions@,
    {
        Program { instructions }
    }

    pub fn len(&self) -> (n: usize)
        ensures
            n == self@.len(),
    {
        self.instructions.len()
    }

    pub fn is_empty(&self) -> (b: bool)
        ensures
            b == (self@.len() == 0),
    {
        self.instructions.len() == 0
    }
}

/// Abstract machine state.
pub struct MachineState {
    pub pc: nat,
    pub stack: Seq<i64>,
    pub memory: Map<usize, i64>,
    pub steps: nat,
    pub outcome: Option<VmOutcome>,
}

/// Concrete machine state.
#[derive(Debug, Clone)]
pub struct VmState {
    pub pc: usize,
    pub stack: Vec<i64>,
    pub memory: HashMap<usize, i64>,
    pub steps_taken: u64,
    pub outcome: Option<VmOutcome>,
}

impl View for VmState {
    type V = MachineState;

    open spec fn view(&self) -> MachineState {
        MachineState {
            pc: self.pc as nat,
            stack: self.stack@,
            memory: self.memory@,
            steps: self.steps_taken as nat,
            outcome: self.outcome,
        }
    }
}

/// Value of a memory cell; cells never written read as 0.
pub open spec fn read_cell(memory: Map<usize, i64>, slot: usize) -> i64 {
    if memory.contains_key(slot) {
        memory[slot]
    } else {
        0
    }
}

pub open spec fn flag(b: bool) -> i64 {
    if b {
        1
    } else {
        0
    }
}

/// Result of a binary arithmetic or logic operator on `a` (second) and `b` (top).
pub open spec fn binary_value(op: Instruction, a: i64, b: i64) -> Result<i64, Fault> {
    match op {
        Instruction::Add => match a.checked_add(b) {
            Some(v) => Ok(v),
            None => Err(Fault::ArithmeticOverflow),
        },
        Instruction::Sub => match a.checked_sub(b) {
            Some(v) => Ok(v),
            None => Err(Fault::ArithmeticOverflow),
        },
        Instruction::Mul => match a.checked_mul(b) {
            Some(v) => Ok(v),
            None => Err(Fault::ArithmeticOverflow),
        },
        Instruction::Div => if b == 0 {
            Err(Fault::DivisionByZero)
        } else {
            match a.checked_div(b) {
                Some(v) => Ok(v),
                None => Err(Fault::ArithmeticOverflow),
            }
        },
        Instruction::Mod => if b == 0 {
            Err(Fault::DivisionByZero)
        } else {
            match a.checked_rem(b) {
                Some(v) => Ok(v),
                None => Err(Fault::ArithmeticOverflow),
            }
        },
        Instruction::Eq => Ok(flag(a == b)),
        Instruction::Lt => Ok(flag(a < b)),
        Instruction::And => Ok(a & b),
        Instruction::Or => Ok(a | b),
        _ => Err(Fault::StackUnderflow),
    }
}

pub open spec fn is_binary(op: Instruction) -> bool {
    match op {
        Instruction::Add | Instruction::Sub | Instruction::Mul | Instruction::Div
        | Instruction::Mod | Instruction::Eq | Instruction::Lt | Instruction::And
        | Instruction::Or => true,
        _ => false,
    }
}

pub open spec fn is_control(op: Instruction) -> bool {
    match op {
        Instruction::Jmp(_) | Instruction::Jz(_) | Instruction::Halt(_) => true,
        _ => false,
    }
}

/// Effect of a non-control instruction on the stack and memory.
pub open spec fn data_effect(op: Instruction, stack: Seq<i64>, memory: Map<usize, i64>) -> Result<
    (Seq<i64>, Map<usize, i64>),
    Fault,
> {
    let n = stack.len();
    match op {
        Instruction::Push(v) => Ok((stack.push(v), memory)),
        Instruction::Load(slot) => Ok((stack.push(read_cell(memory, slot)), memory)),
        Instruction::Drop => if n < 1 {
            Err(Fault::StackUnderflow)
        } else {
            Ok((stack.drop_last(), memory))
        },
        Instruction::Dup => if n < 1 {
            Err(Fault::StackUnderflow)
        } else {
            Ok((stack.push(stack.last()), memory))
        },
        Instruction::Swap => if n < 2 {
            Err(Fault::StackUnderflow)
        } else {
            Ok((stack.drop_last().drop_last().push(stack.last()).push(stack[n - 2]), memory))
        },
        Instruction::Store(slot) => if n < 1 {
            Err(Fault::StackUnderflow)
        } else {
            Ok((stack.drop_last(), memory.insert(slot, stack.last())))
        },
        Instruction::Neg => if n < 1 {
            Err(Fault::StackUnderflow)
        } else {
            match 0i64.checked_sub(stack.last()) {
                Some(v) => Ok((stack.drop_last().push(v), memory)),
                None => Err(Fault::ArithmeticOverflow),
            }
        },
        Instruction::Not => if n < 1 {
            Err(Fault::StackUnderflow)
        } else {
            Ok((stack.drop_last().push(flag(stack.last() == 0)), memory))
        },
        _ => if n < 2 {
            Err(Fault::StackUnderflow)
        } else {
            match binary_value(op, stack[n - 2], stack.last()) {
                Ok(v) => Ok((stack.drop_last().drop_last().push(v), memory)),
                Err(f) => Err(f),
            }
        },
    }
}

pub open spec fn stopped(s: MachineState, outcome: VmOutcome) -> MachineState {
    MachineState {
        pc: s.pc,
        stack: s.stack,
        memory: s.memory,
        steps: s.steps + 1,
        outcome: Some(outcome),
    }
}

/// One step of the machine. A stopped machine does not move.
pub open spec fn spec_step(prog: Seq<Instruction>, s: MachineState) -> MachineState {
    if s.outcome is Some {
        s
    } else if s.pc >= prog.len() {
        stopped(s, VmOutcome::Fault(Fault::PcOutOfBounds))
    } else {
        match prog[s.pc as int] {
            Instruction::Halt(code) => stopped(s, VmOutcome::Halted(code)),
            Instruction::Jmp(target) => MachineState {
                pc: target as nat,
                stack: s.stack,
                memory: s.memory,
                steps: s.steps + 1,
                outcome: None,
            },
            Instruction::Jz(target) => if s.stack.len() == 0 {
                stopped(s, VmOutcome::Fault(Fault::StackUnderflow))
            } else {
                MachineState {
                    pc: if s.stack.last() == 0 {
                        target as nat
                    } else {
                        s.pc + 1
                    },
                    stack: s.stack.drop_last(),
                    memory: s.memory,
                    steps: s.steps + 1,
                    outcome: None,
                }
            },
            op => match data_effect(op, s.stack, s.memory) {
                Ok((stack, memory)) => MachineState {
                    pc: s.pc + 1,
                    stack,
                    memory,
                    steps: s.steps + 1,
                    outcome: None,
                },
                Err(f) => stopped(s, VmOutcome::Fault(f)),
            },
        }
    }
}

/// Run for at most `fuel` steps, stopping early when the machine stops.
pub open spec fn spec_run_from(prog: Seq<Instruction>, s: MachineState, fuel: nat) -> MachineState
    decreases fuel,
{
    if s.outcome is Some || fuel == 0 {
        s
    } else {
        spec_run_from(prog, spec_step(prog, s), (fuel - 1) as nat)
    }
}

/// Execute straight-line code (no jumps or halts) on a stack and memory.
pub open spec fn exec_straight(code: Seq<Instruction>, stack: Seq<i64>, memory: Map<usize, i64>) -> Result<
    (Seq<i64>, Map<usize, i64>),
    Fault,
>
    decreases code.len(),
{
    if code.len() == 0 {
        Ok((stack, memory))
    } else {
        match data_effect(code[0], stack, memory) {
            Ok((s, m)) => exec_straight(code.skip(1), s, m),
            Err(f) => Err(f),
        }
    }
}

/// Straight-line execution of a concatenation runs the parts in turn.
pub proof fn lemma_exec_straight_append(
    c1: Seq<Instruction>,
    c2: Seq<Instruction>,
    stack: Seq<i64>,
    memory: Map<usize, i64>,
)
    ensures
        exec_straight(c1 + c2, stack, memory) == (match exec_straight(c1, stack, memory) {
            Ok((s, m)) => exec_straight(c2, s, m),
            Err(f) => Err(f),
        }),
    decreases c1.len(),
{
    if c1.len() == 0 {
        assert(c1 + c2 =~= c2);
    } else {
        assert((c1 + c2).skip(1) =~= c1.skip(1) + c2);
        assert((c1 + c2)[0] == c1[0]);
        match data_effect(c1[0], stack, memory) {
            Ok((s, m)) => lemma_exec_straight_append(c1.skip(1), c2, s, m),
            Err(_) => {},
        }
    }
}

/// Straight-line execution of a single instruction.
pub proof fn lemma_exec_straight_single(i: Instruction, stack: Seq<i64>, memory: Map<usize, i64>)
    ensures
        exec_straight(seq![i], stack, memory) == data_effect(i, stack, memory),
{
    assert(seq![i].skip(1) =~= Seq::<Instruction>::empty());
    match data_effect(i, stack, memory) {
        Ok((s, m)) => {
            assert(exec_straight(Seq::<Instruction>::empty(), s, m) == Ok::<
                (Seq<i64>, Map<usize, i64>),
                Fault,
            >((s, m)));
        },
        Err(_) => {},
    }
}

/// A binary operator on the stack `st` followed by `u` and `v`.
pub proof fn lemma_binary_on(op: Instruction, st: Seq<i64>, m: Map<usize, i64>, u: i64, v: i64)
    requires
        is_binary(op),
    ensures
        exec_straight(seq![op], st.push(u).push(v), m) == (match binary_value(op, u, v) {
            Ok(w) => Ok::<(Seq<i64>, Map<usize, i64>), Fault>((st.push(w), m)),
            Err(f) => Err(f),
        }),
{
    reveal_with_fuel(exec_straight, 2);
    assert(seq![op].skip(1) =~= Seq::<Instruction>::empty());
    let s2 = st.push(u).push(v);
    assert(s2[s2.len() - 2] == u);
    assert(s2.drop_last().drop_last() =~= st);
}

/// `Load(s)` on the stack `st`.
pub proof fn lemma_load_on(st: Seq<i64>, m: Map<usize, i64>, s: usize)
    ensures
        exec_straight(seq![Instruction::Load(s)], st, m) == Ok::<(Seq<i64>, Map<usize, i64>), Fault>(
            (st.push(read_cell(m, s)), m),
        ),
{
    reveal_with_fuel(exec_straight, 2);
    assert(seq![Instruction::Load(s)].skip(1) =~= Seq::<Instruction>::empty());
}

/// `Push(c)` on the stack `st`.
pub proof fn lemma_push_on(st: Seq<i64>, m: Map<usize, i64>, c: i64)
    ensures
        exec_straight(seq![Instruction::Push(c)], st, m) == Ok::<(Seq<i64>, Map<usize, i64>), Fault>(
            (st.push(c), m),
        ),
{
    reveal_with_fuel(exec_straight, 2);
    assert(seq![Instruction::Push(c)].skip(1) =~= Seq::<Instruction>::empty());
}

/// `Swap` on the stack `st` followed by `u` and `v`.
pub proof fn lemma_swap_on(st: Seq<i64>, m: Map<usize, i64>, u: i64, v: i64)
    ensures
        exec_straight(seq![Instruction::Swap], st.push(u).push(v), m) == Ok::<
            (Seq<i64>, Map<usize, i64>),
            Fault,
        >((st.push(v).push(u), m)),
{
    reveal_with_fuel(exec_straight, 2);
    assert(seq![Instruction::Swap].skip(1) =~= Seq::<Instruction>::empty());
    let s2 = st.push(u).push(v);
    assert(s2[s2.len() - 2] == u);
    assert(s2.drop_last().drop_last() =~= st);
}

/// `Store(s)` on the stack `st` followed by `v`.
pub proof fn lemma_store_on(st: Seq<i64>, m: Map<usize, i64>, s: usize, v: i64)
    ensures
        exec_straight(seq![Instruction::Store(s)], st.push(v), m) == Ok::<
            (Seq<i64>, Map<usize, i64>),
            Fault,
        >((st, m.insert(s, v))),
{
    reveal_with_fuel(exec_straight, 2);
    assert(seq![Instruction::Store(s)].skip(1) =~= Seq::<Instruction>::empty());
    assert(st.push(v).drop_last() =~= st);
}

/// Running `c1` then `c2`.
pub proof fn lemma_then(
    c1: Seq<Instruction>,
    c2: Seq<Instruction>,
    st: Seq<i64>,
    m: Map<usize, i64>,
    st1: Seq<i64>,
    m1: Map<usize, i64>,
)
    requires
        exec_straight(c1, st, m) == Ok::<(Seq<i64>, Map<usize, i64>), Fault>((st1, m1)),
    ensures
        exec_straight(c1 + c2, st, m) == exec_straight(c2, st1, m1),
{
    lemma_exec_straight_append(c1, c2, st, m);
}

/// `Dup` on the stack `st` followed by `v`.
pub proof fn lemma_dup_on(st: Seq<i64>, m: Map<usize, i64>, v: i64)
    ensures
        exec_straight(seq![Instruction::Dup], st.push(v), m) == Ok::<(Seq<i64>, Map<usize, i64>), Fault>(
            (st.push(v).push(v), m),
        ),
{
    reveal_with_fuel(exec_straight, 2);
    assert(seq![Instruction::Dup].skip(1) =~= Seq::<Instruction>::empty());
}

/// Control instructions have no data effect: straight-line code that runs
/// holds none.
pub proof fn lemma_data_effect_not_control(op: Instruction, stack: Seq<i64>, memory: Map<usize, i64>)
    requires
        data_effect(op, stack, memory) is Ok,
    ensures
        !is_control(op),
{
}

/// Running straight-line code in place: after as many steps as the code
/// has instructions, the machine is past the code with the stack and
/// memory that straight-line execution gives.
pub proof fn lemma_run_straight(prog: Seq<Instruction>, s: MachineState, code: Seq<Instruction>, fuel: nat)
    requires
        s.outcome is None,
        s.pc + code.len() <= prog.len(),
        prog.subrange(s.pc as int, (s.pc + code.len()) as int) == code,
        exec_straight(code, s.stack, s.memory) is Ok,
        fuel >= code.len(),
    ensures
        spec_run_from(prog, s, fuel) == spec_run_from(
            prog,
            MachineState {
                pc: s.pc + code.len(),
                stack: exec_straight(code, s.stack, s.memory)->Ok_0.0,
                memory: exec_straight(code, s.stack, s.memory)->Ok_0.1,
                steps: s.steps + code.len(),
                outcome: None,
            },
            (fuel - code.len()) as nat,
        ),
    decreases code.len(),
{
    if code.len() == 0 {
        assert(s == MachineState {
            pc: s.pc + code.len(),
            stack: exec_straight(code, s.stack, s.memory)->Ok_0.0,
            memory: exec_straight(code, s.stack, s.memory)->Ok_0.1,
            steps: s.steps + code.len(),
            outcome: None,
        });
    } else {
        let op = code[0];
        assert(prog[s.pc as int] == prog.subrange(s.pc as int, (s.pc + code.len()) as int)[0]);
        lemma_data_effect_not_control(op, s.stack, s.memory);
        let (st, m) = data_effect(op, s.stack, s.memory)->Ok_0;
        let s1 = MachineState { pc: s.pc + 1, stack: st, memory: m, steps: s.steps + 1, outcome: None };
        assert(spec_step(prog, s) == s1);
        let rest = code.skip(1);
        assert(prog.subrange(s1.pc as int, (s1.pc + rest.len()) as int) =~= rest);
        lemma_run_straight(prog, s1, rest, (fuel - 1) as nat);
    }
}

pub open spec fn initial_state() -> MachineState {
    MachineState {
        pc: 0,
        stack: Seq::empty(),
        memory: Map::empty(),
        steps: 0,
        outcome: None,
    }
}

/// The outcome reported for a final state: its stop reason, or budget exhaustion.
pub open spec fn reported_outcome(s: MachineState) -> VmOutcome {
    match s.outcome {
        Some(o) => o,
        None => VmOutcome::BudgetExhausted,
    }
}

/// `budget` steps from the initial state.
pub open spec fn spec_run(prog: Seq<Instruction>, budget: nat) -> MachineState {
    spec_run_from(prog, initial_state(), budget)
}

impl VmState {
    /// The state every run starts from.
    pub fn initial() -> (s: VmState)
        ensures
            s@ == initial_state(),
    {
        VmState {
            pc: 0,
            stack: Vec::new(),
            memory: HashMap::new(),
            steps_taken: 0,
            outcome: None,
        }
    }
}

/// The machine itself (stateless; all state lives in `VmState`).
pub struct Vm;

fn read_memory(memory: &HashMap<usize, i64>, slot: usize) -> (v: i64)
    ensures
        v == read_cell(memory@, slot),
{
    match memory.get(&slot) {
        Some(v) => *v,
        None => 0,
    }
}

fn binary_exec(op: Instruction, a: i64, b: i64) -> (r: Result<i64, Fault>)
    requires
        is_binary(op),
    ensures
        r == binary_value(op, a, b),
{
    match op {
        Instruction::Add => match a.checked_add(b) {
            Some(v) => Ok(v),
            None => Err(Fault::ArithmeticOverflow),
        },
        Instruction::Sub => match a.checked_sub(b) {
            Some(v) => Ok(v),
            None => Err(Fault::ArithmeticOverflow),
        },
        Instruction::Mul => match a.checked_mul(b) {
            Some(v) => Ok(v),
            None => Err(Fault::ArithmeticOverflow),
        },
        Instruction::Div => if b == 0 {
            Err(Fault::DivisionByZero)
        } else {
            match a.checked_div(b) {
                Some(v) => Ok(v),
                None => Err(Fault::ArithmeticOverflow),
            }
        },
        Instruction::Mod => if b == 0 {
            Err(Fault::DivisionByZero)
        } else {
            match a.checked_rem(b) {
                Some(v) => Ok(v),
                None => Err(Fault::ArithmeticOverflow),
            }
        },
        Instruction::Eq => Ok(if a == b { 1 } else { 0 }),
        Instruction::Lt => Ok(if a < b { 1 } else { 0 }),
        Instruction::And => Ok(a & b),
        _ => Ok(a | b),
    }
}

/// Apply a non-control instruction to the stack and memory in place.
/// On a fault nothing is changed.
fn data_exec(op: Instruction, stack: &mut Vec<i64>, memory: &mut HashMap<usize, i64>) -> (r: Result<(), Fault>)
    requires
        !is_control(op),
    ensures
        match data_effect(op, old(stack)@, old(memory)@) {
            Ok((st, m)) => r is Ok && final(stack)@ == st && final(memory)@ == m,
            Err(f) => r == Err::<(), Fault>(f) && final(stack)@ == old(stack)@ && final(memory)@
                == old(memory)@,
        },
{
    let n = stack.len();
    match op {
        Instruction::Push(v) => {
            stack.push(v);
            Ok(())
        },
        Instruction::Load(slot) => {
            let v = read_memory(memory, slot);
            stack.push(v);
            Ok(())
        },
        Instruction::Drop => {
            if n < 1 {
                return Err(Fault::StackUnderflow);
            }
            stack.pop();
            Ok(())
        },
        Instruction::Dup => {
            if n < 1 {
                return Err(Fault::StackUnderflow);
            }
            let v = stack[n - 1];
            stack.push(v);
            Ok(())
        },
        Instruction::Swap => {
            if n < 2 {
                return Err(Fault::StackUnderflow);
            }
            let b = stack[n - 1];
            let a = stack[n - 2];
            stack.pop();
            stack.pop();
            stack.push(b);
            stack.push(a);
            Ok(())
        },
        Instruction::Store(slot) => {
            if n < 1 {
                return Err(Fault::StackUnderflow);
            }
            let v = stack[n - 1];
            stack.pop();
            memory.insert(slot, v);
            Ok(())
        },
        Instruction::Neg => {
            if n < 1 {
                return Err(Fault::StackUnderflow);
            }
            let a = stack[n - 1];
            match 0i64.checked_sub(a) {
                Some(v) => {
                    stack.pop();
                    stack.push(v);
                    Ok(())
                },
                None => Err(Fault::ArithmeticOverflow),
            }
        },
        Instruction::Not => {
            if n < 1 {
                return Err(Fault::StackUnderflow);
            }
            let a = stack[n - 1];
            stack.pop();
            stack.push(if a == 0 { 1 } else { 0 });
            Ok(())
        },
        _ => {
            if n < 2 {
                return Err(Fault::StackUnderflow);
            }
            let b = stack[n - 1];
            let a = stack[n - 2];
            match binary_exec(op, a, b) {
                Ok(v) => {
                    stack.pop();
                    stack.pop();
                    stack.push(v);
                    Ok(())
                },
                Err(f) => Err(f),
            }
        },
    }
}

impl Vm {
    /// Execute one instruction. Returns whether the machine may continue
    /// (false once it has halted or faulted).
    pub fn step(program: &Program, state: &mut VmState) -> (running: bool)
        requires
            old(state).steps_taken < u64::MAX,
        ensures
            final(state)@ == spec_step(program@, old(state)@),
            running == (final(state)@.outcome is None),
    {
        if state.outcome.is_some() {
            return false;
        }
        let pc = state.pc;
        if pc >= program.instructions.len() {
            state.outcome = Some(VmOutcome::Fault(Fault::PcOutOfBounds));
            state.steps_taken = state.steps_taken + 1;
            return false;
        }
        let instr = program.instructions[pc];
        match instr {
            Instruction::Halt(code) => {
                state.outcome = Some(VmOutcome::Halted(code));
                state.steps_taken = state.steps_taken + 1;
                false
            },
            Instruction::Jmp(target) => {
                state.pc = target;
                state.steps_taken = state.steps_taken + 1;
                true
            },
            Instruction::Jz(target) => {
                let n = state.stack.len();
                if n == 0 {
                    state.outcome = Some(VmOutcome::Fault(Fault::StackUnderflow));
                    state.steps_taken = state.steps_taken + 1;
                    return false;
                }
                let v = state.stack[n - 1];
                state.stack.pop();
                if v == 0 {
                    state.pc = target;
                } else {
                    state.pc = pc + 1;
                }
                state.steps_taken = state.steps_taken + 1;
                true
            },
            _ => {
                match data_exec(instr, &mut state.stack, &mut state.memory) {
                    Ok(()) => {
                        state.pc = pc + 1;
                        state.steps_taken = state.steps_taken + 1;
                        true
                    },
                    Err(f) => {
                        state.outcome = Some(VmOutcome::Fault(f));
                        state.steps_taken = state.steps_taken + 1;
                        false
                    },
                }
            },
        }
    }

    /// Run a program from the initial state for at most `budget` steps.
    /// Returns the outcome (`BudgetExhausted` when the machine is still
    /// running after `budget` steps) and the final state.
    pub fn run(program: &Program, budget: u64) -> (res: (VmOutcome, VmState))
        ensures
            res.1@ == spec_run(program@, budget as nat),
            res.0 == reported_outcome(res.1@),
            res.1.steps_taken <= budget,
    {
        let mut state = VmState::initial();
        while state.steps_taken < budget && state.outcome.is_none()
            invariant
                state.steps_taken <= budget,
                spec_run(program@, budget as nat) == spec_run_from(
                    program@,
                    state@,
                    (budget - state.steps_taken) as nat,
                ),
            decreases budget - state.steps_taken,
        {
            let ghost before = state@;
            Vm::step(program, &mut state);
            assert(state@.steps == before.steps + 1);
        }
        let outcome = match state.outcome {
            Some(o) => o,
            None => VmOutcome::BudgetExhausted,
        };
        (outcome, state)
    }
}

} // verus!
