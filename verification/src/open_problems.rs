//! Stack-machine programs for finite fragments of open mathematical problems.
//!
//! Each builder returns a program that checks one statement over a bounded
//! range, a step budget for running it, and a description. The programs are
//! deterministic and total: they halt with 1 when the bounded statement
//! holds and with 0 when a counterexample is found.
//!
//! What each program checks:
//!   Goldbach:       every even n in [4, N] is the sum of two primes
//!   Collatz:        every n in [1, N] reaches 1 under the 3n+1 map within M iterations
//!   Twin primes:    some twin prime pair (p, p+2) has p in [2, N]
//!   FLT:            no a^n + b^n = c^n for n in [3, E] and a, b, c in [1, B]
//!   Odd perfect:    no odd perfect number in [1, N]
//!   Mersenne:       some Mersenne prime 2^p - 1 has a prime p in [2, P]
//!   ZFC 0 != 1:     0 differs from 1
//!   Mertens:        M(n)^2 <= n for all n <= N (a Riemann Hypothesis fragment)
//!   BSD count:      the number of points of E(F_p) satisfies the Hasse bound
//!   Legendre:       a prime lies between n^2 and (n+1)^2 for all n <= N
//!   Erdos-Straus:   4/n = 1/x + 1/y + 1/z for all n in [2, N]
//!   Weak Goldbach:  every odd n > 5 up to N is the sum of three primes
//!   Bertrand:       a prime lies between n and 2n for all n <= N
//!   Lagrange:       every n <= N is a sum of four squares
//!
//! The contract of each builder gives the program instruction by
//! instruction, with every jump target resolved, and the budget formula.

use crate::vm::{reported_outcome, spec_run, spec_run_from, spec_step, initial_state, Instruction, Program, VmOutcome};
use vstd::prelude::*;

verus! {

/// The inline primality test placed at address `start`.
///
/// It tests the value in `val_slot`, using `div_slot` for the trial divisor,
/// and jumps to `prime` when the value is prime and to `not_prime` otherwise.
/// The value cell is left unchanged and the operand stack is as before.
///
///   if val < 2: not prime
///   if val == 2: prime
///   if val % 2 == 0: not prime
///   for d = 3, 5, 7, ... while d*d <= val: if val % d == 0: not prime
///   prime
pub open spec fn primality_block(
    val_slot: usize,
    div_slot: usize,
    start: usize,
    prime: usize,
    not_prime: usize,
) -> Seq<Instruction> {
    seq![
        Instruction::Load(val_slot),
        Instruction::Push(2),
        Instruction::Lt,
        Instruction::Jz((start + 5) as usize),
        Instruction::Jmp(not_prime),
        // start + 5: is it 2?
        Instruction::Load(val_slot),
        Instruction::Push(2),
        Instruction::Eq,
        Instruction::Jz((start + 10) as usize),
        Instruction::Jmp(prime),
        // start + 10: is it even?
        Instruction::Load(val_slot),
        Instruction::Push(2),
        Instruction::Mod,
        Instruction::Push(0),
        Instruction::Eq,
        Instruction::Jz((start + 17) as usize),
        Instruction::Jmp(not_prime),
        // start + 17: d = 3
        Instruction::Push(3),
        Instruction::Store(div_slot),
        // start + 19: val < d*d means prime
        Instruction::Load(div_slot),
        Instruction::Load(div_slot),
        Instruction::Mul,
        Instruction::Load(val_slot),
        Instruction::Swap,
        Instruction::Lt,
        Instruction::Jz((start + 27) as usize),
        Instruction::Jmp(prime),
        // start + 27: d divides val means not prime
        Instruction::Load(val_slot),
        Instruction::Load(div_slot),
        Instruction::Mod,
        Instruction::Push(0),
        Instruction::Eq,
        Instruction::Jz((start + 34) as usize),
        Instruction::Jmp(not_prime),
        // start + 34: d += 2
        Instruction::Load(div_slot),
        Instruction::Push(2),
        Instruction::Add,
        Instruction::Store(div_slot),
        Instruction::Jmp((start + 19) as usize),
    ]
}

/// Append the primality test for the value in `val_slot` at the end of `code`.
fn emit_primality_test(
    code: &mut Vec<Instruction>,
    val_slot: usize,
    div_slot: usize,
    prime: usize,
    not_prime: usize,
)
    requires
        old(code)@.len() + 39 <= usize::MAX,
    ensures
        final(code)@ == old(code)@ + primality_block(
            val_slot,
            div_slot,
            old(code)@.len() as usize,
            prime,
            not_prime,
        ),
{
    let start = code.len();
    let mut block: Vec<Instruction> = vec![
        Instruction::Load(val_slot),
        Instruction::Push(2),
        Instruction::Lt,
        Instruction::Jz(start + 5),
        Instruction::Jmp(not_prime),
        Instruction::Load(val_slot),
        Instruction::Push(2),
        Instruction::Eq,
        Instruction::Jz(start + 10),
        Instruction::Jmp(prime),
        Instruction::Load(val_slot),
        Instruction::Push(2),
        Instruction::Mod,
        Instruction::Push(0),
        Instruction::Eq,
        Instruction::Jz(start + 17),
        Instruction::Jmp(not_prime),
        Instruction::Push(3),
        Instruction::Store(div_slot),
        Instruction::Load(div_slot),
        Instruction::Load(div_slot),
        Instruction::Mul,
        Instruction::Load(val_slot),
        Instruction::Swap,
        Instruction::Lt,
        Instruction::Jz(start + 27),
        Instruction::Jmp(prime),
        Instruction::Load(val_slot),
        Instruction::Load(div_slot),
        Instruction::Mod,
        Instruction::Push(0),
        Instruction::Eq,
        Instruction::Jz(start + 34),
        Instruction::Jmp(not_prime),
        Instruction::Load(div_slot),
        Instruction::Push(2),
        Instruction::Add,
        Instruction::Store(div_slot),
        Instruction::Jmp(start + 19),
    ];
    assert(block@ =~= primality_block(val_slot, div_slot, start, prime, not_prime));
    code.append(&mut block);
}

/// Coefficients (a, b) of the curve y^2 = x^3 + a x + b selected by `curve_id`:
/// 1 is y^2 = x^3 + 1, 2 is y^2 = x^3 - x + 1, anything else y^2 = x^3 - x.
pub open spec fn curve_coefficients(curve_id: i64) -> (i64, i64) {
    if curve_id == 1 {
        (0i64, 1i64)
    } else if curve_id == 2 {
        (-1i64, 1i64)
    } else {
        (-1i64, 0i64)
    }
}

fn curve_coefficients_exec(curve_id: i64) -> (r: (i64, i64))
    ensures
        r == curve_coefficients(curve_id),
{
    match curve_id {
        1 => (0i64, 1i64),
        2 => (-1i64, 1i64),
        _ => (-1i64, 0i64),
    }
}

/// The first `s` counting up from `from` with `s * s > n`.
pub open spec fn root_search(n: nat, from: nat) -> nat
    decreases n + 1 - from,
{
    if from * from > n || from > n {
        from
    } else {
        root_search(n, from + 1)
    }
}

/// The least `s >= 1` with `s * s > n`.
pub open spec fn root_above(n: nat) -> nat {
    root_search(n, 1)
}

pub(crate) proof fn lemma_root_search(n: nat, from: nat)
    requires
        from >= 1,
    ensures
        root_search(n, from) >= from,
        root_search(n, from) * root_search(n, from) > n,
    decreases n + 1 - from,
{
    if from * from > n {
    } else if from > n {
        assert(from * from >= from) by (nonlinear_arith)
            requires
                from >= 1,
        ;
    } else {
        lemma_root_search(n, from + 1);
    }
}

/// Count `s` up from 1 while `s * s <= n`.
fn least_root_above(n: u64) -> (s: u64)
    requires
        root_above(n as nat) * root_above(n as nat) <= u64::MAX,
    ensures
        s == root_above(n as nat),
        s >= 1,
{
    proof {
        lemma_root_search(n as nat, 1);
    }
    let ghost r = root_above(n as nat);
    let mut s: u64 = 1;
    while s * s <= n
        invariant
            1 <= s <= r,
            s * s <= r * r,
            r == root_above(n as nat),
            r * r <= u64::MAX,
            root_search(n as nat, s as nat) == r,
        decreases r - s,
    {
        proof {
            assert(s <= s * s) by (nonlinear_arith)
                requires
                    1 <= s,
            ;
            assert(s < u64::MAX) by (nonlinear_arith)
                requires
                    1 <= s,
                    s * s <= n,
                    n <= u64::MAX,
            ;
        }
        s = s + 1;
        proof {
            lemma_root_search(n as nat, s as nat);
            assert(s * s <= r * r) by (nonlinear_arith)
                requires
                    1 <= s <= r,
            ;
        }
    }
    s
}

proof fn lemma_product_nonneg(x: int, y: int)
    requires
        x >= 0,
        y >= 0,
    ensures
        x * y >= 0,
{
    assert(x * y >= 0) by (nonlinear_arith)
        requires
            x >= 0,
            y >= 0,
    ;
}

proof fn lemma_mul_grows(x: int, y: int)
    requires
        x >= 0,
        y >= 1,
    ensures
        x <= x * y,
{
    assert(x <= x * y) by (nonlinear_arith)
        requires
            x >= 0,
            y >= 1,
    ;
}

/// Straight-line part of the program built by `build_goldbach`.
pub open spec fn goldbach_part_0(n_max: i64) -> Seq<Instruction> {
    seq![
        Instruction::Push(4),
        Instruction::Store(0),
        Instruction::Push(n_max),
        Instruction::Store(1),
        // 4: outer
        Instruction::Load(0),
        Instruction::Load(1),
        Instruction::Swap,
        Instruction::Lt,
        Instruction::Jz(10),
        Instruction::Halt(1),
        // 10: outer_body
        Instruction::Push(2),
        Instruction::Store(2),
        // 12: inner
        Instruction::Load(2),
        Instruction::Load(0),
        Instruction::Push(2),
        Instruction::Div,
        Instruction::Swap,
        Instruction::Lt,
        Instruction::Jz(20),
        Instruction::Halt(0),
        // 20: inner_body
        Instruction::Load(0),
        Instruction::Load(2),
        Instruction::Sub,
        Instruction::Store(3),
        Instruction::Load(2),
        Instruction::Store(10),
    ]
}

/// Straight-line part of the program built by `build_goldbach`.
pub open spec fn goldbach_part_1() -> Seq<Instruction> {
    seq![
        // 65: p_not_prime
        Instruction::Jmp(113),
        // 66: p_prime
        Instruction::Load(3),
        Instruction::Store(12),
    ]
}

/// Straight-line part of the program built by `build_goldbach`.
pub open spec fn goldbach_part_2() -> Seq<Instruction> {
    seq![
        // 107: q_not_prime
        Instruction::Jmp(113),
        // 108: q_prime
        Instruction::Load(0),
        Instruction::Push(2),
        Instruction::Add,
        Instruction::Store(0),
        Instruction::Jmp(4),
        // 113: next_p
        Instruction::Load(2),
        Instruction::Push(1),
        Instruction::Add,
        Instruction::Store(2),
        Instruction::Jmp(12),
    ]
}

/// The program built by `build_goldbach`.
pub open spec fn goldbach_program(n_max: i64) -> Seq<Instruction> {
    goldbach_part_0(n_max)
        + primality_block(10, 11, 26, 66, 65)
        + goldbach_part_1()
        + primality_block(12, 13, 68, 108, 107)
        + goldbach_part_2()
}

/// The step budget returned by `build_goldbach`.
pub open spec fn goldbach_budget(n_max: i64) -> int {
    ((n_max as u64) / 2) * ((n_max as u64) / 2) * 2 * 40 * 118 / 10 + 1_000_000
}

/// Goldbach verification: every even n in [4, n_max] is the sum of two primes.
///
/// Memory layout:
///   slot 0: n (current even number)
///   slot 1: limit (n_max)
///   slot 2: p (candidate prime)
///   slot 3: q (= n - p, checked for primality)
///   slot 10: val for primality test of p
///   slot 11: divisor scratch for p test
///   slot 12: val for primality test of q
///   slot 13: divisor scratch for q test
///
/// Returns: Halt(1) = all verified, Halt(0) = counterexample found.
pub fn build_goldbach(n_max: i64) -> (res: (Program, u64, &'static str))
    requires
        ((n_max as u64) / 2) * ((n_max as u64) / 2) * 2 * 40 * 118 <= u64::MAX,
        ((n_max as u64) / 2) * ((n_max as u64) / 2) * 2 * 40 * 118 / 10 + 1_000_000 <= u64::MAX,
    ensures
        res.0@ == goldbach_program(n_max),
        res.1 == goldbach_budget(n_max),
        res.2@ == "Goldbach verified for all even n in [4, N]"@,
{
    let mut code: Vec<Instruction> = vec![
        Instruction::Push(4),
        Instruction::Store(0),
        Instruction::Push(n_max),
        Instruction::Store(1),
        // 4: outer
        Instruction::Load(0),
        Instruction::Load(1),
        Instruction::Swap,
        Instruction::Lt,
        Instruction::Jz(10),
        Instruction::Halt(1),
        // 10: outer_body
        Instruction::Push(2),
        Instruction::Store(2),
        // 12: inner
        Instruction::Load(2),
        Instruction::Load(0),
        Instruction::Push(2),
        Instruction::Div,
        Instruction::Swap,
        Instruction::Lt,
        Instruction::Jz(20),
        Instruction::Halt(0),
        // 20: inner_body
        Instruction::Load(0),
        Instruction::Load(2),
        Instruction::Sub,
        Instruction::Store(3),
        Instruction::Load(2),
        Instruction::Store(10),
    ];
    assert(code@ =~= goldbach_part_0(n_max));
    emit_primality_test(&mut code, 10, 11, 66, 65);
    let mut part: Vec<Instruction> = vec![
        // 65: p_not_prime
        Instruction::Jmp(113),
        // 66: p_prime
        Instruction::Load(3),
        Instruction::Store(12),
    ];
    assert(part@ =~= goldbach_part_1());
    code.append(&mut part);
    emit_primality_test(&mut code, 12, 13, 108, 107);
    let mut part: Vec<Instruction> = vec![
        // 107: q_not_prime
        Instruction::Jmp(113),
        // 108: q_prime
        Instruction::Load(0),
        Instruction::Push(2),
        Instruction::Add,
        Instruction::Store(0),
        Instruction::Jmp(4),
        // 113: next_p
        Instruction::Load(2),
        Instruction::Push(1),
        Instruction::Add,
        Instruction::Store(2),
        Instruction::Jmp(12),
    ];
    assert(part@ =~= goldbach_part_2());
    code.append(&mut part);
    let ic = code.len() as u64;
    assert(ic == 118);
    let h = (n_max as u64) / 2;
    proof { lemma_product_nonneg(h as int, h as int); }
    let b_star = h * h * 2 * 40 * ic / 10 + 1_000_000;
    (Program::new(code), b_star, "Goldbach verified for all even n in [4, N]")
}

/// The program built by `build_collatz`.
pub open spec fn collatz_program(n_max: i64, max_iter: i64) -> Seq<Instruction> {
    seq![
        Instruction::Push(1),
        Instruction::Store(0),
        Instruction::Push(n_max),
        Instruction::Store(1),
        Instruction::Push(max_iter),
        Instruction::Store(4),
        // 6: outer
        Instruction::Load(0),
        Instruction::Load(1),
        Instruction::Swap,
        Instruction::Lt,
        Instruction::Jz(12),
        Instruction::Halt(1),
        // 12: test_n
        Instruction::Load(0),
        Instruction::Store(2),
        Instruction::Push(0),
        Instruction::Store(3),
        // 16: collatz_step
        Instruction::Load(2),
        Instruction::Push(1),
        Instruction::Eq,
        Instruction::Jz(21),
        Instruction::Jmp(47),
        // 21: check_budget
        Instruction::Load(3),
        Instruction::Load(4),
        Instruction::Lt,
        Instruction::Jz(52),
        Instruction::Load(2),
        Instruction::Push(2),
        Instruction::Mod,
        Instruction::Push(0),
        Instruction::Eq,
        Instruction::Jz(36),
        Instruction::Load(2),
        Instruction::Push(2),
        Instruction::Div,
        Instruction::Store(2),
        Instruction::Jmp(42),
        // 36: odd_step
        Instruction::Load(2),
        Instruction::Push(3),
        Instruction::Mul,
        Instruction::Push(1),
        Instruction::Add,
        Instruction::Store(2),
        // 42: inc_iter
        Instruction::Load(3),
        Instruction::Push(1),
        Instruction::Add,
        Instruction::Store(3),
        Instruction::Jmp(16),
        // 47: converged
        Instruction::Load(0),
        Instruction::Push(1),
        Instruction::Add,
        Instruction::Store(0),
        Instruction::Jmp(6),
        // 52: did_not_converge
        Instruction::Halt(0),
    ]
}

/// The step budget returned by `build_collatz`.
pub open spec fn collatz_budget(n_max: i64, max_iter: i64) -> int {
    (n_max as u64) * (max_iter as u64) * 53 + 1_000_000
}

/// Collatz verification: every n in [1, n_max] reaches 1 within max_iter steps.
///
/// Memory layout:
///   slot 0: n (starting value being tested)
///   slot 1: limit (n_max)
///   slot 2: current (value in the Collatz sequence)
///   slot 3: iter_count
///   slot 4: max_iter
///
/// Returns: Halt(1) = all converge, Halt(0) = some n did not converge.
pub fn build_collatz(n_max: i64, max_iter: i64) -> (res: (Program, u64, &'static str))
    requires
        (n_max as u64) * (max_iter as u64) * 53 + 1_000_000 <= u64::MAX,
    ensures
        res.0@ == collatz_program(n_max, max_iter),
        res.1 == collatz_budget(n_max, max_iter),
        res.2@ == "Collatz verified for all n in [1, N]"@,
{
    let mut code: Vec<Instruction> = vec![
        Instruction::Push(1),
        Instruction::Store(0),
        Instruction::Push(n_max),
        Instruction::Store(1),
        Instruction::Push(max_iter),
        Instruction::Store(4),
        // 6: outer
        Instruction::Load(0),
        Instruction::Load(1),
        Instruction::Swap,
        Instruction::Lt,
        Instruction::Jz(12),
        Instruction::Halt(1),
        // 12: test_n
        Instruction::Load(0),
        Instruction::Store(2),
        Instruction::Push(0),
        Instruction::Store(3),
        // 16: collatz_step
        Instruction::Load(2),
        Instruction::Push(1),
        Instruction::Eq,
        Instruction::Jz(21),
        Instruction::Jmp(47),
        // 21: check_budget
        Instruction::Load(3),
        Instruction::Load(4),
        Instruction::Lt,
        Instruction::Jz(52),
        Instruction::Load(2),
        Instruction::Push(2),
        Instruction::Mod,
        Instruction::Push(0),
        Instruction::Eq,
        Instruction::Jz(36),
        Instruction::Load(2),
        Instruction::Push(2),
        Instruction::Div,
        Instruction::Store(2),
        Instruction::Jmp(42),
        // 36: odd_step
        Instruction::Load(2),
        Instruction::Push(3),
        Instruction::Mul,
        Instruction::Push(1),
        Instruction::Add,
        Instruction::Store(2),
        // 42: inc_iter
        Instruction::Load(3),
        Instruction::Push(1),
        Instruction::Add,
        Instruction::Store(3),
        Instruction::Jmp(16),
        // 47: converged
        Instruction::Load(0),
        Instruction::Push(1),
        Instruction::Add,
        Instruction::Store(0),
        Instruction::Jmp(6),
        // 52: did_not_converge
        Instruction::Halt(0),
    ];
    assert(code@ =~= collatz_program(n_max, max_iter));
    let ic = code.len() as u64;
    assert(ic == 53);
    let n = n_max as u64;
    let m = max_iter as u64;
    proof { lemma_product_nonneg(n as int, m as int); }
    let b_star = n * m * ic + 1_000_000;
    (Program::new(code), b_star, "Collatz verified for all n in [1, N]")
}

/// Straight-line part of the program built by `build_twin_prime_search`.
pub open spec fn twin_prime_part_0(n_max: i64) -> Seq<Instruction> {
    seq![
        Instruction::Push(2),
        Instruction::Store(0),
        Instruction::Push(n_max),
        Instruction::Store(1),
        // 4: search
        Instruction::Load(0),
        Instruction::Load(1),
        Instruction::Swap,
        Instruction::Lt,
        Instruction::Jz(10),
        Instruction::Halt(0),
        // 10: test_p
        Instruction::Load(0),
        Instruction::Store(10),
    ]
}

/// Straight-line part of the program built by `build_twin_prime_search`.
pub open spec fn twin_prime_part_1() -> Seq<Instruction> {
    seq![
        // 51: tp_p_not_prime
        Instruction::Jmp(97),
        // 52: tp_p_prime
        Instruction::Load(0),
        Instruction::Push(2),
        Instruction::Add,
        Instruction::Store(12),
    ]
}

/// Straight-line part of the program built by `build_twin_prime_search`.
pub open spec fn twin_prime_part_2() -> Seq<Instruction> {
    seq![
        // 95: tp_q_not_prime
        Instruction::Jmp(97),
        // 96: tp_q_prime
        Instruction::Halt(1),
        // 97: next_p
        Instruction::Load(0),
        Instruction::Push(1),
        Instruction::Add,
        Instruction::Store(0),
        Instruction::Jmp(4),
    ]
}

/// The program built by `build_twin_prime_search`.
pub open spec fn twin_prime_program(n_max: i64) -> Seq<Instruction> {
    twin_prime_part_0(n_max)
        + primality_block(10, 11, 12, 52, 51)
        + twin_prime_part_1()
        + primality_block(12, 13, 56, 96, 95)
        + twin_prime_part_2()
}

/// The step budget returned by `build_twin_prime_search`.
pub open spec fn twin_prime_budget(n_max: i64) -> int {
    (n_max as u64) * 2 * 40 * 102 + 1_000_000
}

/// Twin prime search: find a twin prime pair (p, p+2) with p in [2, n_max].
///
/// Memory layout:
///   slot 0: p (candidate)
///   slot 1: limit (n_max)
///   slot 10: val for primality test of p
///   slot 11: divisor scratch for p test
///   slot 12: val for primality test of p+2
///   slot 13: divisor scratch for p+2 test
///
/// Returns: Halt(1) = found twin primes, Halt(0) = none found in range.
pub fn build_twin_prime_search(n_max: i64) -> (res: (Program, u64, &'static str))
    requires
        (n_max as u64) * 2 * 40 * 102 + 1_000_000 <= u64::MAX,
    ensures
        res.0@ == twin_prime_program(n_max),
        res.1 == twin_prime_budget(n_max),
        res.2@ == "Twin prime pair exists in [2, N]"@,
{
    let mut code: Vec<Instruction> = vec![
        Instruction::Push(2),
        Instruction::Store(0),
        Instruction::Push(n_max),
        Instruction::Store(1),
        // 4: search
        Instruction::Load(0),
        Instruction::Load(1),
        Instruction::Swap,
        Instruction::Lt,
        Instruction::Jz(10),
        Instruction::Halt(0),
        // 10: test_p
        Instruction::Load(0),
        Instruction::Store(10),
    ];
    assert(code@ =~= twin_prime_part_0(n_max));
    emit_primality_test(&mut code, 10, 11, 52, 51);
    let mut part: Vec<Instruction> = vec![
        // 51: tp_p_not_prime
        Instruction::Jmp(97),
        // 52: tp_p_prime
        Instruction::Load(0),
        Instruction::Push(2),
        Instruction::Add,
        Instruction::Store(12),
    ];
    assert(part@ =~= twin_prime_part_1());
    code.append(&mut part);
    emit_primality_test(&mut code, 12, 13, 96, 95);
    let mut part: Vec<Instruction> = vec![
        // 95: tp_q_not_prime
        Instruction::Jmp(97),
        // 96: tp_q_prime
        Instruction::Halt(1),
        // 97: next_p
        Instruction::Load(0),
        Instruction::Push(1),
        Instruction::Add,
        Instruction::Store(0),
        Instruction::Jmp(4),
    ];
    assert(part@ =~= twin_prime_part_2());
    code.append(&mut part);
    let ic = code.len() as u64;
    assert(ic == 102);
    let n = n_max as u64;
    let b_star = n * 2 * 40 * ic + 1_000_000;
    (Program::new(code), b_star, "Twin prime pair exists in [2, N]")
}

/// The program built by `build_flt`.
pub open spec fn flt_program(max_exp: i64, max_base: i64) -> Seq<Instruction> {
    seq![
        Instruction::Push(max_exp),
        Instruction::Store(4),
        Instruction::Push(max_base),
        Instruction::Store(5),
        Instruction::Push(3),
        Instruction::Store(0),
        // 6: loop_n
        Instruction::Load(0),
        Instruction::Load(4),
        Instruction::Swap,
        Instruction::Lt,
        Instruction::Jz(12),
        Instruction::Halt(1),
        // 12: body_n
        Instruction::Push(1),
        Instruction::Store(1),
        // 14: loop_a
        Instruction::Load(1),
        Instruction::Load(5),
        Instruction::Swap,
        Instruction::Lt,
        Instruction::Jz(20),
        Instruction::Jmp(112),
        // 20: body_a
        Instruction::Push(1),
        Instruction::Store(6),
        Instruction::Load(0),
        Instruction::Store(10),
        // 24: pow_a
        Instruction::Load(10),
        Instruction::Push(0),
        Instruction::Eq,
        Instruction::Jz(29),
        Instruction::Jmp(38),
        // 29: pow_a_step
        Instruction::Load(6),
        Instruction::Load(1),
        Instruction::Mul,
        Instruction::Store(6),
        Instruction::Load(10),
        Instruction::Push(1),
        Instruction::Sub,
        Instruction::Store(10),
        Instruction::Jmp(24),
        // 38: pow_a_done
        Instruction::Push(1),
        Instruction::Store(2),
        // 40: loop_b
        Instruction::Load(2),
        Instruction::Load(5),
        Instruction::Swap,
        Instruction::Lt,
        Instruction::Jz(46),
        Instruction::Jmp(107),
        // 46: body_b
        Instruction::Push(1),
        Instruction::Store(7),
        Instruction::Load(0),
        Instruction::Store(10),
        // 50: pow_b
        Instruction::Load(10),
        Instruction::Push(0),
        Instruction::Eq,
        Instruction::Jz(55),
        Instruction::Jmp(64),
        // 55: pow_b_step
        Instruction::Load(7),
        Instruction::Load(2),
        Instruction::Mul,
        Instruction::Store(7),
        Instruction::Load(10),
        Instruction::Push(1),
        Instruction::Sub,
        Instruction::Store(10),
        Instruction::Jmp(50),
        // 64: pow_b_done
        Instruction::Push(1),
        Instruction::Store(3),
        // 66: loop_c
        Instruction::Load(3),
        Instruction::Load(5),
        Instruction::Swap,
        Instruction::Lt,
        Instruction::Jz(72),
        Instruction::Jmp(102),
        // 72: body_c
        Instruction::Push(1),
        Instruction::Store(8),
        Instruction::Load(0),
        Instruction::Store(10),
        // 76: pow_c
        Instruction::Load(10),
        Instruction::Push(0),
        Instruction::Eq,
        Instruction::Jz(81),
        Instruction::Jmp(90),
        // 81: pow_c_step
        Instruction::Load(8),
        Instruction::Load(3),
        Instruction::Mul,
        Instruction::Store(8),
        Instruction::Load(10),
        Instruction::Push(1),
        Instruction::Sub,
        Instruction::Store(10),
        Instruction::Jmp(76),
        // 90: pow_c_done
        Instruction::Load(6),
        Instruction::Load(7),
        Instruction::Add,
        Instruction::Load(8),
        Instruction::Eq,
        Instruction::Jz(97),
        Instruction::Halt(0),
        // 97: next_c
        Instruction::Load(3),
        Instruction::Push(1),
        Instruction::Add,
        Instruction::Store(3),
        Instruction::Jmp(66),
        // 102: next_b
        Instruction::Load(2),
        Instruction::Push(1),
        Instruction::Add,
        Instruction::Store(2),
        Instruction::Jmp(40),
        // 107: next_a
        Instruction::Load(1),
        Instruction::Push(1),
        Instruction::Add,
        Instruction::Store(1),
        Instruction::Jmp(14),
        // 112: next_n
        Instruction::Load(0),
        Instruction::Push(1),
        Instruction::Add,
        Instruction::Store(0),
        Instruction::Jmp(6),
    ]
}

/// The step budget returned by `build_flt`.
pub open spec fn flt_budget(max_exp: i64, max_base: i64) -> int {
    ((max_exp - 2) as u64) * ((max_base as u64) * (max_base as u64) * (max_base as u64)) * (max_exp as u64) * 117 + 1_000_000
}

/// FLT small cases: verify no a^n + b^n = c^n for n in [3, max_exp], a,b,c in [1, max_base].
///
/// Memory layout:
///   slot 0: n (exponent)
///   slot 1: a
///   slot 2: b
///   slot 3: c
///   slot 4: max_exp
///   slot 5: max_base
///   slot 6: a^n (computed)
///   slot 7: b^n (computed)
///   slot 8: c^n (computed)
///   slot 9: scratch for power computation
///   slot 10: power loop counter
///
/// Returns: Halt(1) = no counterexample (FLT verified), Halt(0) = counterexample found.
pub fn build_flt(max_exp: i64, max_base: i64) -> (res: (Program, u64, &'static str))
    requires
        max_exp >= i64::MIN + 2,
        (max_base as u64) * (max_base as u64) * (max_base as u64) <= u64::MAX,
        ((max_exp - 2) as u64) * ((max_base as u64) * (max_base as u64) * (max_base as u64)) <= u64::MAX,
        ((max_exp - 2) as u64) * ((max_base as u64) * (max_base as u64) * (max_base as u64)) * (max_exp as u64) * 117 + 1_000_000 <= u64::MAX,
    ensures
        res.0@ == flt_program(max_exp, max_base),
        res.1 == flt_budget(max_exp, max_base),
        res.2@ == "FLT verified for small cases"@,
{
    let mut code: Vec<Instruction> = vec![
        Instruction::Push(max_exp),
        Instruction::Store(4),
        Instruction::Push(max_base),
        Instruction::Store(5),
        Instruction::Push(3),
        Instruction::Store(0),
        // 6: loop_n
        Instruction::Load(0),
        Instruction::Load(4),
        Instruction::Swap,
        Instruction::Lt,
        Instruction::Jz(12),
        Instruction::Halt(1),
        // 12: body_n
        Instruction::Push(1),
        Instruction::Store(1),
        // 14: loop_a
        Instruction::Load(1),
        Instruction::Load(5),
        Instruction::Swap,
        Instruction::Lt,
        Instruction::Jz(20),
        Instruction::Jmp(112),
        // 20: body_a
        Instruction::Push(1),
        Instruction::Store(6),
        Instruction::Load(0),
        Instruction::Store(10),
        // 24: pow_a
        Instruction::Load(10),
        Instruction::Push(0),
        Instruction::Eq,
        Instruction::Jz(29),
        Instruction::Jmp(38),
        // 29: pow_a_step
        Instruction::Load(6),
        Instruction::Load(1),
        Instruction::Mul,
        Instruction::Store(6),
        Instruction::Load(10),
        Instruction::Push(1),
        Instruction::Sub,
        Instruction::Store(10),
        Instruction::Jmp(24),
        // 38: pow_a_done
        Instruction::Push(1),
        Instruction::Store(2),
        // 40: loop_b
        Instruction::Load(2),
        Instruction::Load(5),
        Instruction::Swap,
        Instruction::Lt,
        Instruction::Jz(46),
        Instruction::Jmp(107),
        // 46: body_b
        Instruction::Push(1),
        Instruction::Store(7),
        Instruction::Load(0),
        Instruction::Store(10),
        // 50: pow_b
        Instruction::Load(10),
        Instruction::Push(0),
        Instruction::Eq,
        Instruction::Jz(55),
        Instruction::Jmp(64),
        // 55: pow_b_step
        Instruction::Load(7),
        Instruction::Load(2),
        Instruction::Mul,
        Instruction::Store(7),
        Instruction::Load(10),
        Instruction::Push(1),
        Instruction::Sub,
        Instruction::Store(10),
        Instruction::Jmp(50),
        // 64: pow_b_done
        Instruction::Push(1),
        Instruction::Store(3),
        // 66: loop_c
        Instruction::Load(3),
        Instruction::Load(5),
        Instruction::Swap,
        Instruction::Lt,
        Instruction::Jz(72),
        Instruction::Jmp(102),
        // 72: body_c
        Instruction::Push(1),
        Instruction::Store(8),
        Instruction::Load(0),
        Instruction::Store(10),
        // 76: pow_c
        Instruction::Load(10),
        Instruction::Push(0),
        Instruction::Eq,
        Instruction::Jz(81),
        Instruction::Jmp(90),
        // 81: pow_c_step
        Instruction::Load(8),
        Instruction::Load(3),
        Instruction::Mul,
        Instruction::Store(8),
        Instruction::Load(10),
        Instruction::Push(1),
        Instruction::Sub,
        Instruction::Store(10),
        Instruction::Jmp(76),
        // 90: pow_c_done
        Instruction::Load(6),
        Instruction::Load(7),
        Instruction::Add,
        Instruction::Load(8),
        Instruction::Eq,
        Instruction::Jz(97),
        Instruction::Halt(0),
        // 97: next_c
        Instruction::Load(3),
        Instruction::Push(1),
        Instruction::Add,
        Instruction::Store(3),
        Instruction::Jmp(66),
        // 102: next_b
        Instruction::Load(2),
        Instruction::Push(1),
        Instruction::Add,
        Instruction::Store(2),
        Instruction::Jmp(40),
        // 107: next_a
        Instruction::Load(1),
        Instruction::Push(1),
        Instruction::Add,
        Instruction::Store(1),
        Instruction::Jmp(14),
        // 112: next_n
        Instruction::Load(0),
        Instruction::Push(1),
        Instruction::Add,
        Instruction::Store(0),
        Instruction::Jmp(6),
    ];
    assert(code@ =~= flt_program(max_exp, max_base));
    let ic = code.len() as u64;
    assert(ic == 117);
    let exp_range = (max_exp - 2) as u64;
    let b = max_base as u64;
    let m = max_exp as u64;
    proof {
        assert(b * b <= u64::MAX) by (nonlinear_arith)
            requires
                b * b * b <= u64::MAX,
        ;
    }
    let base_cubed = b * b * b;
    proof { lemma_product_nonneg(exp_range as int, base_cubed as int); lemma_product_nonneg(exp_range as int * base_cubed as int, m as int); }
    let b_star = exp_range * base_cubed * m * ic + 1_000_000;
    (Program::new(code), b_star, "FLT verified for small cases")
}

/// The program built by `build_odd_perfect`.
pub open spec fn odd_perfect_program(n_max: i64) -> Seq<Instruction> {
    seq![
        Instruction::Push(1),
        Instruction::Store(0),
        Instruction::Push(n_max),
        Instruction::Store(1),
        // 4: outer
        Instruction::Load(0),
        Instruction::Load(1),
        Instruction::Swap,
        Instruction::Lt,
        Instruction::Jz(10),
        Instruction::Halt(1),
        // 10: test_n
        Instruction::Push(0),
        Instruction::Store(3),
        Instruction::Push(1),
        Instruction::Store(2),
        // 14: div_loop
        Instruction::Load(2),
        Instruction::Load(0),
        Instruction::Swap,
        Instruction::Lt,
        Instruction::Jz(20),
        Instruction::Jmp(35),
        // 20: div_check
        Instruction::Load(0),
        Instruction::Load(2),
        Instruction::Mod,
        Instruction::Push(0),
        Instruction::Eq,
        Instruction::Jz(30),
        Instruction::Load(3),
        Instruction::Load(2),
        Instruction::Add,
        Instruction::Store(3),
        // 30: div_next
        Instruction::Load(2),
        Instruction::Push(1),
        Instruction::Add,
        Instruction::Store(2),
        Instruction::Jmp(14),
        // 35: check_perfect
        Instruction::Load(3),
        Instruction::Load(0),
        Instruction::Push(2),
        Instruction::Mul,
        Instruction::Eq,
        Instruction::Jz(42),
        Instruction::Halt(0),
        // 42: next_odd
        Instruction::Load(0),
        Instruction::Push(2),
        Instruction::Add,
        Instruction::Store(0),
        Instruction::Jmp(4),
    ]
}

/// The step budget returned by `build_odd_perfect`.
pub open spec fn odd_perfect_budget(n_max: i64) -> int {
    ((n_max as u64) / 2) * (n_max as u64) * 47 + 1_000_000
}

/// Odd perfect number search: verify no odd perfect number in [1, n_max].
///
/// A perfect number n has sigma(n) = 2n where sigma is the sum of divisors.
///
/// Memory layout:
///   slot 0: n (current odd number)
///   slot 1: limit (n_max)
///   slot 2: d (divisor being tested)
///   slot 3: sigma (sum of divisors)
///
/// Returns: Halt(1) = none found, Halt(0) = found one.
pub fn build_odd_perfect(n_max: i64) -> (res: (Program, u64, &'static str))
    requires
        ((n_max as u64) / 2) * (n_max as u64) * 47 + 1_000_000 <= u64::MAX,
    ensures
        res.0@ == odd_perfect_program(n_max),
        res.1 == odd_perfect_budget(n_max),
        res.2@ == "No odd perfect number in [1, N]"@,
{
    let mut code: Vec<Instruction> = vec![
        Instruction::Push(1),
        Instruction::Store(0),
        Instruction::Push(n_max),
        Instruction::Store(1),
        // 4: outer
        Instruction::Load(0),
        Instruction::Load(1),
        Instruction::Swap,
        Instruction::Lt,
        Instruction::Jz(10),
        Instruction::Halt(1),
        // 10: test_n
        Instruction::Push(0),
        Instruction::Store(3),
        Instruction::Push(1),
        Instruction::Store(2),
        // 14: div_loop
        Instruction::Load(2),
        Instruction::Load(0),
        Instruction::Swap,
        Instruction::Lt,
        Instruction::Jz(20),
        Instruction::Jmp(35),
        // 20: div_check
        Instruction::Load(0),
        Instruction::Load(2),
        Instruction::Mod,
        Instruction::Push(0),
        Instruction::Eq,
        Instruction::Jz(30),
        Instruction::Load(3),
        Instruction::Load(2),
        Instruction::Add,
        Instruction::Store(3),
        // 30: div_next
        Instruction::Load(2),
        Instruction::Push(1),
        Instruction::Add,
        Instruction::Store(2),
        Instruction::Jmp(14),
        // 35: check_perfect
        Instruction::Load(3),
        Instruction::Load(0),
        Instruction::Push(2),
        Instruction::Mul,
        Instruction::Eq,
        Instruction::Jz(42),
        Instruction::Halt(0),
        // 42: next_odd
        Instruction::Load(0),
        Instruction::Push(2),
        Instruction::Add,
        Instruction::Store(0),
        Instruction::Jmp(4),
    ];
    assert(code@ =~= odd_perfect_program(n_max));
    let ic = code.len() as u64;
    assert(ic == 47);
    let n = n_max as u64;
    proof { lemma_product_nonneg((n / 2) as int, n as int); }
    let b_star = (n / 2) * n * ic + 1_000_000;
    (Program::new(code), b_star, "No odd perfect number in [1, N]")
}

/// Straight-line part of the program built by `build_mersenne`.
pub open spec fn mersenne_part_0(p_max: i64) -> Seq<Instruction> {
    seq![
        Instruction::Push(2),
        Instruction::Store(0),
        Instruction::Push(p_max),
        Instruction::Store(1),
        // 4: search
        Instruction::Load(0),
        Instruction::Load(1),
        Instruction::Swap,
        Instruction::Lt,
        Instruction::Jz(10),
        Instruction::Halt(0),
        // 10: test_p
        Instruction::Load(0),
        Instruction::Store(10),
    ]
}

/// Straight-line part of the program built by `build_mersenne`.
pub open spec fn mersenne_part_1() -> Seq<Instruction> {
    seq![
        // 51: mp_p_not_prime
        Instruction::Jmp(117),
        // 52: mp_p_prime
        Instruction::Push(1),
        Instruction::Store(2),
        Instruction::Load(0),
        Instruction::Store(14),
        // 56: pow2_loop
        Instruction::Load(14),
        Instruction::Push(0),
        Instruction::Eq,
        Instruction::Jz(61),
        Instruction::Jmp(70),
        // 61: pow2_step
        Instruction::Load(2),
        Instruction::Push(2),
        Instruction::Mul,
        Instruction::Store(2),
        Instruction::Load(14),
        Instruction::Push(1),
        Instruction::Sub,
        Instruction::Store(14),
        Instruction::Jmp(56),
        // 70: pow2_done
        Instruction::Load(2),
        Instruction::Push(1),
        Instruction::Sub,
        Instruction::Store(2),
        Instruction::Load(2),
        Instruction::Store(12),
    ]
}

/// Straight-line part of the program built by `build_mersenne`.
pub open spec fn mersenne_part_2() -> Seq<Instruction> {
    seq![
        // 115: mp_mersenne_not_prime
        Instruction::Jmp(117),
        // 116: mp_mersenne_prime
        Instruction::Halt(1),
        // 117: next_p
        Instruction::Load(0),
        Instruction::Push(1),
        Instruction::Add,
        Instruction::Store(0),
        Instruction::Jmp(4),
    ]
}

/// The program built by `build_mersenne`.
pub open spec fn mersenne_program(p_max: i64) -> Seq<Instruction> {
    mersenne_part_0(p_max)
        + primality_block(10, 11, 12, 52, 51)
        + mersenne_part_1()
        + primality_block(12, 13, 76, 116, 115)
        + mersenne_part_2()
}

/// The step budget returned by `build_mersenne`.
pub open spec fn mersenne_budget(p_max: i64) -> int {
    (p_max as u64) * (p_max as u64) * 40 * 122 + 1_000_000
}

/// Mersenne prime search: find a Mersenne prime 2^p - 1 for prime p in [2, p_max].
///
/// Memory layout:
///   slot 0: p (candidate exponent)
///   slot 1: limit (p_max)
///   slot 2: 2^p - 1 (Mersenne candidate)
///   slot 10: val for primality test of p
///   slot 11: divisor scratch for p test
///   slot 12: val for primality test of Mersenne candidate
///   slot 13: divisor scratch for Mersenne test
///   slot 14: power computation scratch
///
/// Returns: Halt(1) = found Mersenne prime, Halt(0) = none found.
pub fn build_mersenne(p_max: i64) -> (res: (Program, u64, &'static str))
    requires
        (p_max as u64) * (p_max as u64) * 40 * 122 + 1_000_000 <= u64::MAX,
    ensures
        res.0@ == mersenne_program(p_max),
        res.1 == mersenne_budget(p_max),
        res.2@ == "Mersenne prime exists for p in [2, P]"@,
{
    let mut code: Vec<Instruction> = vec![
        Instruction::Push(2),
        Instruction::Store(0),
        Instruction::Push(p_max),
        Instruction::Store(1),
        // 4: search
        Instruction::Load(0),
        Instruction::Load(1),
        Instruction::Swap,
        Instruction::Lt,
        Instruction::Jz(10),
        Instruction::Halt(0),
        // 10: test_p
        Instruction::Load(0),
        Instruction::Store(10),
    ];
    assert(code@ =~= mersenne_part_0(p_max));
    emit_primality_test(&mut code, 10, 11, 52, 51);
    let mut part: Vec<Instruction> = vec![
        // 51: mp_p_not_prime
        Instruction::Jmp(117),
        // 52: mp_p_prime
        Instruction::Push(1),
        Instruction::Store(2),
        Instruction::Load(0),
        Instruction::Store(14),
        // 56: pow2_loop
        Instruction::Load(14),
        Instruction::Push(0),
        Instruction::Eq,
        Instruction::Jz(61),
        Instruction::Jmp(70),
        // 61: pow2_step
        Instruction::Load(2),
        Instruction::Push(2),
        Instruction::Mul,
        Instruction::Store(2),
        Instruction::Load(14),
        Instruction::Push(1),
        Instruction::Sub,
        Instruction::Store(14),
        Instruction::Jmp(56),
        // 70: pow2_done
        Instruction::Load(2),
        Instruction::Push(1),
        Instruction::Sub,
        Instruction::Store(2),
        Instruction::Load(2),
        Instruction::Store(12),
    ];
    assert(part@ =~= mersenne_part_1());
    code.append(&mut part);
    emit_primality_test(&mut code, 12, 13, 116, 115);
    let mut part: Vec<Instruction> = vec![
        // 115: mp_mersenne_not_prime
        Instruction::Jmp(117),
        // 116: mp_mersenne_prime
        Instruction::Halt(1),
        // 117: next_p
        Instruction::Load(0),
        Instruction::Push(1),
        Instruction::Add,
        Instruction::Store(0),
        Instruction::Jmp(4),
    ];
    assert(part@ =~= mersenne_part_2());
    code.append(&mut part);
    let ic = code.len() as u64;
    assert(ic == 122);
    let p = p_max as u64;
    proof { lemma_product_nonneg(p as int, p as int); }
    let b_star = p * p * 40 * ic + 1_000_000;
    (Program::new(code), b_star, "Mersenne prime exists for p in [2, P]")
}

/// The program built by `build_mertens`.
pub open spec fn mertens_program(n_max: i64) -> Seq<Instruction> {
    seq![
        Instruction::Push(n_max),
        Instruction::Store(1),
        Instruction::Push(1),
        Instruction::Store(2),
        Instruction::Push(2),
        Instruction::Store(0),
        // 6: mert_outer
        Instruction::Load(0),
        Instruction::Load(1),
        Instruction::Swap,
        Instruction::Lt,
        Instruction::Jz(12),
        Instruction::Halt(1),
        // 12: mert_factor_start
        Instruction::Load(0),
        Instruction::Store(3),
        Instruction::Push(0),
        Instruction::Store(5),
        Instruction::Push(0),
        Instruction::Store(6),
        Instruction::Push(2),
        Instruction::Store(4),
        // 20: mert_floop
        Instruction::Load(6),
        Instruction::Push(1),
        Instruction::Eq,
        Instruction::Jz(25),
        Instruction::Jmp(90),
        // 25: mert_check_dd
        Instruction::Load(4),
        Instruction::Dup,
        Instruction::Mul,
        Instruction::Load(3),
        Instruction::Swap,
        Instruction::Lt,
        Instruction::Jz(33),
        Instruction::Jmp(61),
        // 33: mert_try_div
        Instruction::Load(3),
        Instruction::Load(4),
        Instruction::Mod,
        Instruction::Push(0),
        Instruction::Eq,
        Instruction::Jz(56),
        Instruction::Load(3),
        Instruction::Load(4),
        Instruction::Div,
        Instruction::Store(3),
        Instruction::Load(5),
        Instruction::Push(1),
        Instruction::Add,
        Instruction::Store(5),
        Instruction::Load(3),
        Instruction::Load(4),
        Instruction::Mod,
        Instruction::Push(0),
        Instruction::Eq,
        Instruction::Jz(56),
        Instruction::Push(1),
        Instruction::Store(6),
        Instruction::Jmp(90),
        // 56: mert_inc_d
        Instruction::Load(4),
        Instruction::Push(1),
        Instruction::Add,
        Instruction::Store(4),
        Instruction::Jmp(20),
        // 61: mert_fdone
        Instruction::Push(1),
        Instruction::Load(3),
        Instruction::Lt,
        Instruction::Jz(69),
        Instruction::Load(5),
        Instruction::Push(1),
        Instruction::Add,
        Instruction::Store(5),
        // 69: mert_compute_mu
        Instruction::Load(6),
        Instruction::Push(1),
        Instruction::Eq,
        Instruction::Jz(74),
        Instruction::Jmp(90),
        // 74: mert_mu_real
        Instruction::Load(5),
        Instruction::Push(2),
        Instruction::Mod,
        Instruction::Push(0),
        Instruction::Eq,
        Instruction::Jz(85),
        Instruction::Load(2),
        Instruction::Push(1),
        Instruction::Add,
        Instruction::Store(2),
        Instruction::Jmp(90),
        // 85: mert_mu_neg
        Instruction::Load(2),
        Instruction::Push(1),
        Instruction::Sub,
        Instruction::Store(2),
        Instruction::Jmp(90),
        // 90: mert_mu_zero, mert_check
        Instruction::Load(0),
        Instruction::Load(2),
        Instruction::Dup,
        Instruction::Mul,
        Instruction::Lt,
        Instruction::Jz(97),
        Instruction::Halt(0),
        // 97: mert_next
        Instruction::Load(0),
        Instruction::Push(1),
        Instruction::Add,
        Instruction::Store(0),
        Instruction::Jmp(6),
    ]
}

/// The step budget returned by `build_mertens`.
pub open spec fn mertens_budget(n_max: i64) -> int {
    (n_max as u64) * root_above((n_max as u64) as nat) * 20 * 102 / 10 + 1_000_000
}

/// Mertens function verification (Riemann Hypothesis finite fragment).
///
/// Computes M(n) = Σ_{k=1}^{n} μ(k) where μ is the Möbius function.
/// Verifies |M(n)| ≤ √n (i.e., M(n)² ≤ n) for all n in [1, n_max].
///
/// The bound M(x) = O(x^{1/2+ε}) is equivalent to the Riemann Hypothesis.
/// This program verifies the finite fragment: M(n)² ≤ n for all n ≤ N.
///
/// Memory layout:
///   slot 0: n (current number, 1 to n_max)
///   slot 1: n_max
///   slot 2: mertens_sum M(n)
///   slot 3: remaining (n being factored)
///   slot 4: d (trial divisor)
///   slot 5: factor_count
///   slot 6: has_square flag
///
/// Returns: Halt(1) = bound verified for all n, Halt(0) = violation found.
pub fn build_mertens(n_max: i64) -> (res: (Program, u64, &'static str))
    requires
        root_above((n_max as u64) as nat) * root_above((n_max as u64) as nat) <= u64::MAX,
        (n_max as u64) * root_above((n_max as u64) as nat) * 20 * 102 <= u64::MAX,
        (n_max as u64) * root_above((n_max as u64) as nat) * 20 * 102 / 10 + 1_000_000 <= u64::MAX,
    ensures
        res.0@ == mertens_program(n_max),
        res.1 == mertens_budget(n_max),
        res.2@ == "Mertens |M(n)| ≤ √n verified for all n ≤ N (Riemann Hypothesis fragment)"@,
{
    let mut code: Vec<Instruction> = vec![
        Instruction::Push(n_max),
        Instruction::Store(1),
        Instruction::Push(1),
        Instruction::Store(2),
        Instruction::Push(2),
        Instruction::Store(0),
        // 6: mert_outer
        Instruction::Load(0),
        Instruction::Load(1),
        Instruction::Swap,
        Instruction::Lt,
        Instruction::Jz(12),
        Instruction::Halt(1),
        // 12: mert_factor_start
        Instruction::Load(0),
        Instruction::Store(3),
        Instruction::Push(0),
        Instruction::Store(5),
        Instruction::Push(0),
        Instruction::Store(6),
        Instruction::Push(2),
        Instruction::Store(4),
        // 20: mert_floop
        Instruction::Load(6),
        Instruction::Push(1),
        Instruction::Eq,
        Instruction::Jz(25),
        Instruction::Jmp(90),
        // 25: mert_check_dd
        Instruction::Load(4),
        Instruction::Dup,
        Instruction::Mul,
        Instruction::Load(3),
        Instruction::Swap,
        Instruction::Lt,
        Instruction::Jz(33),
        Instruction::Jmp(61),
        // 33: mert_try_div
        Instruction::Load(3),
        Instruction::Load(4),
        Instruction::Mod,
        Instruction::Push(0),
        Instruction::Eq,
        Instruction::Jz(56),
        Instruction::Load(3),
        Instruction::Load(4),
        Instruction::Div,
        Instruction::Store(3),
        Instruction::Load(5),
        Instruction::Push(1),
        Instruction::Add,
        Instruction::Store(5),
        Instruction::Load(3),
        Instruction::Load(4),
        Instruction::Mod,
        Instruction::Push(0),
        Instruction::Eq,
        Instruction::Jz(56),
        Instruction::Push(1),
        Instruction::Store(6),
        Instruction::Jmp(90),
        // 56: mert_inc_d
        Instruction::Load(4),
        Instruction::Push(1),
        Instruction::Add,
        Instruction::Store(4),
        Instruction::Jmp(20),
        // 61: mert_fdone
        Instruction::Push(1),
        Instruction::Load(3),
        Instruction::Lt,
        Instruction::Jz(69),
        Instruction::Load(5),
        Instruction::Push(1),
        Instruction::Add,
        Instruction::Store(5),
        // 69: mert_compute_mu
        Instruction::Load(6),
        Instruction::Push(1),
        Instruction::Eq,
        Instruction::Jz(74),
        Instruction::Jmp(90),
        // 74: mert_mu_real
        Instruction::Load(5),
        Instruction::Push(2),
        Instruction::Mod,
        Instruction::Push(0),
        Instruction::Eq,
        Instruction::Jz(85),
        Instruction::Load(2),
        Instruction::Push(1),
        Instruction::Add,
        Instruction::Store(2),
        Instruction::Jmp(90),
        // 85: mert_mu_neg
        Instruction::Load(2),
        Instruction::Push(1),
        Instruction::Sub,
        Instruction::Store(2),
        Instruction::Jmp(90),
        // 90: mert_mu_zero, mert_check
        Instruction::Load(0),
        Instruction::Load(2),
        Instruction::Dup,
        Instruction::Mul,
        Instruction::Lt,
        Instruction::Jz(97),
        Instruction::Halt(0),
        // 97: mert_next
        Instruction::Load(0),
        Instruction::Push(1),
        Instruction::Add,
        Instruction::Store(0),
        Instruction::Jmp(6),
    ];
    assert(code@ =~= mertens_program(n_max));
    let ic = code.len() as u64;
    assert(ic == 102);
    let n = n_max as u64;
    let sqrt_n = least_root_above(n);
    proof { lemma_product_nonneg(n as int, sqrt_n as int); }
    let b_star = n * sqrt_n * 20 * ic / 10 + 1_000_000;
    (Program::new(code), b_star, "Mertens |M(n)| ≤ √n verified for all n ≤ N (Riemann Hypothesis fragment)")
}

/// Straight-line part of the program built by `build_legendre`.
pub open spec fn legendre_part_0(n_max: i64) -> Seq<Instruction> {
    seq![
        Instruction::Push(n_max),
        Instruction::Store(1),
        Instruction::Push(1),
        Instruction::Store(0),
        // 4: leg_outer
        Instruction::Load(0),
        Instruction::Load(1),
        Instruction::Swap,
        Instruction::Lt,
        Instruction::Jz(10),
        Instruction::Halt(1),
        // 10: leg_body
        Instruction::Load(0),
        Instruction::Dup,
        Instruction::Mul,
        Instruction::Push(1),
        Instruction::Add,
        Instruction::Store(2),
        Instruction::Load(0),
        Instruction::Dup,
        Instruction::Mul,
        Instruction::Load(0),
        Instruction::Push(2),
        Instruction::Mul,
        Instruction::Add,
        Instruction::Store(3),
        Instruction::Load(2),
        Instruction::Store(4),
        // 26: leg_search
        Instruction::Load(4),
        Instruction::Load(3),
        Instruction::Swap,
        Instruction::Lt,
        Instruction::Jz(32),
        Instruction::Halt(0),
        // 32: leg_test
        Instruction::Load(4),
        Instruction::Store(10),
    ]
}

/// Straight-line part of the program built by `build_legendre`.
pub open spec fn legendre_part_1() -> Seq<Instruction> {
    seq![
        // 73: leg_not_prime
        Instruction::Load(4),
        Instruction::Push(1),
        Instruction::Add,
        Instruction::Store(4),
        Instruction::Jmp(26),
        // 78: leg_found
        Instruction::Load(0),
        Instruction::Push(1),
        Instruction::Add,
        Instruction::Store(0),
        Instruction::Jmp(4),
    ]
}

/// The program built by `build_legendre`.
pub open spec fn legendre_program(n_max: i64) -> Seq<Instruction> {
    legendre_part_0(n_max)
        + primality_block(10, 11, 34, 78, 73)
        + legendre_part_1()
}

/// The step budget returned by `build_legendre`.
pub open spec fn legendre_budget(n_max: i64) -> int {
    (n_max as u64) * (n_max as u64) * 2 * 40 * 83 / 10 + 1_000_000
}

/// Legendre's conjecture verification: prime between n² and (n+1)² for all n.
///
/// Legendre's conjecture (open): for every positive integer n, there exists
/// a prime p such that n² < p < (n+1)². Verified computationally up to ~10^9.
///
/// Memory layout:
///   slot 0: n (1 to n_max)
///   slot 1: n_max
///   slot 2: lo (n² + 1)
///   slot 3: hi ((n+1)² - 1 = n² + 2n)
///   slot 4: candidate
///   slot 10: val for primality test
///   slot 11: divisor scratch
///
/// Returns: Halt(1) = verified for all n, Halt(0) = counterexample found.
pub fn build_legendre(n_max: i64) -> (res: (Program, u64, &'static str))
    requires
        (n_max as u64) * (n_max as u64) * 2 * 40 * 83 <= u64::MAX,
        (n_max as u64) * (n_max as u64) * 2 * 40 * 83 / 10 + 1_000_000 <= u64::MAX,
    ensures
        res.0@ == legendre_program(n_max),
        res.1 == legendre_budget(n_max),
        res.2@ == "Legendre: prime between n² and (n+1)² for all n ≤ N"@,
{
    let mut code: Vec<Instruction> = vec![
        Instruction::Push(n_max),
        Instruction::Store(1),
        Instruction::Push(1),
        Instruction::Store(0),
        // 4: leg_outer
        Instruction::Load(0),
        Instruction::Load(1),
        Instruction::Swap,
        Instruction::Lt,
        Instruction::Jz(10),
        Instruction::Halt(1),
        // 10: leg_body
        Instruction::Load(0),
        Instruction::Dup,
        Instruction::Mul,
        Instruction::Push(1),
        Instruction::Add,
        Instruction::Store(2),
        Instruction::Load(0),
        Instruction::Dup,
        Instruction::Mul,
        Instruction::Load(0),
        Instruction::Push(2),
        Instruction::Mul,
        Instruction::Add,
        Instruction::Store(3),
        Instruction::Load(2),
        Instruction::Store(4),
        // 26: leg_search
        Instruction::Load(4),
        Instruction::Load(3),
        Instruction::Swap,
        Instruction::Lt,
        Instruction::Jz(32),
        Instruction::Halt(0),
        // 32: leg_test
        Instruction::Load(4),
        Instruction::Store(10),
    ];
    assert(code@ =~= legendre_part_0(n_max));
    emit_primality_test(&mut code, 10, 11, 78, 73);
    let mut part: Vec<Instruction> = vec![
        // 73: leg_not_prime
        Instruction::Load(4),
        Instruction::Push(1),
        Instruction::Add,
        Instruction::Store(4),
        Instruction::Jmp(26),
        // 78: leg_found
        Instruction::Load(0),
        Instruction::Push(1),
        Instruction::Add,
        Instruction::Store(0),
        Instruction::Jmp(4),
    ];
    assert(part@ =~= legendre_part_1());
    code.append(&mut part);
    let ic = code.len() as u64;
    assert(ic == 83);
    let n = n_max as u64;
    proof { lemma_product_nonneg(n as int, n as int); }
    let b_star = n * n * 2 * 40 * ic / 10 + 1_000_000;
    (Program::new(code), b_star, "Legendre: prime between n² and (n+1)² for all n ≤ N")
}

/// The program built by `build_erdos_straus`.
pub open spec fn erdos_straus_program(n_max: i64) -> Seq<Instruction> {
    seq![
        Instruction::Push(n_max),
        Instruction::Store(1),
        Instruction::Push(2),
        Instruction::Store(0),
        // 4: es_outer
        Instruction::Load(0),
        Instruction::Load(1),
        Instruction::Swap,
        Instruction::Lt,
        Instruction::Jz(10),
        Instruction::Halt(1),
        // 10: es_body
        Instruction::Push(1),
        Instruction::Store(2),
        // 12: es_x_loop
        Instruction::Load(2),
        Instruction::Load(0),
        Instruction::Swap,
        Instruction::Lt,
        Instruction::Jz(18),
        Instruction::Halt(0),
        // 18: es_x_body
        Instruction::Load(2),
        Instruction::Push(4),
        Instruction::Mul,
        Instruction::Load(0),
        Instruction::Sub,
        Instruction::Store(3),
        Instruction::Load(3),
        Instruction::Push(1),
        Instruction::Lt,
        Instruction::Jz(29),
        Instruction::Jmp(80),
        // 29: es_compute_b
        Instruction::Load(0),
        Instruction::Load(2),
        Instruction::Mul,
        Instruction::Store(4),
        Instruction::Load(4),
        Instruction::Load(3),
        Instruction::Add,
        Instruction::Push(1),
        Instruction::Sub,
        Instruction::Load(3),
        Instruction::Div,
        Instruction::Store(5),
        Instruction::Load(4),
        Instruction::Push(2),
        Instruction::Mul,
        Instruction::Load(3),
        Instruction::Div,
        Instruction::Store(6),
        // 47: es_y_loop
        Instruction::Load(5),
        Instruction::Load(6),
        Instruction::Swap,
        Instruction::Lt,
        Instruction::Jz(53),
        Instruction::Jmp(80),
        // 53: es_y_body
        Instruction::Load(3),
        Instruction::Load(5),
        Instruction::Mul,
        Instruction::Load(4),
        Instruction::Sub,
        Instruction::Store(7),
        Instruction::Load(7),
        Instruction::Push(1),
        Instruction::Lt,
        Instruction::Jz(64),
        Instruction::Jmp(75),
        // 64: es_check_z
        Instruction::Load(4),
        Instruction::Load(5),
        Instruction::Mul,
        Instruction::Store(8),
        Instruction::Load(8),
        Instruction::Load(7),
        Instruction::Mod,
        Instruction::Push(0),
        Instruction::Eq,
        Instruction::Jz(75),
        Instruction::Jmp(85),
        // 75: es_next_y
        Instruction::Load(5),
        Instruction::Push(1),
        Instruction::Add,
        Instruction::Store(5),
        Instruction::Jmp(47),
        // 80: es_next_x
        Instruction::Load(2),
        Instruction::Push(1),
        Instruction::Add,
        Instruction::Store(2),
        Instruction::Jmp(12),
        // 85: es_found
        Instruction::Load(0),
        Instruction::Push(1),
        Instruction::Add,
        Instruction::Store(0),
        Instruction::Jmp(4),
    ]
}

/// The step budget returned by `build_erdos_straus`.
pub open spec fn erdos_straus_budget(n_max: i64) -> int {
    (n_max as u64) * (n_max as u64) * 10 * 90 + 1_000_000
}

/// Erdős–Straus conjecture verification: 4/n = 1/x + 1/y + 1/z for all n ≥ 2.
///
/// For each n, finds positive integers x, y, z such that 4/n = 1/x + 1/y + 1/z.
/// Equivalent: find x with 4x > n, then solve 1/y + 1/z = (4x-n)/(nx).
///
/// Let A = 4x-n, B = nx. Then y ranges over [⌈B/A⌉, ⌊2B/A⌋]
/// and z = By/(Ay-B) must be a positive integer.
///
/// Memory layout:
///   slot 0: n (2 to n_max)
///   slot 1: n_max
///   slot 2: x
///   slot 3: A (= 4x - n)
///   slot 4: B (= n*x)
///   slot 5: y
///   slot 6: y_hi (= 2*B/A)
///   slot 7: z_den (= A*y - B)
///   slot 8: z_num (= B*y)
///
/// Returns: Halt(1) = decomposition found for all n, Halt(0) = counterexample.
pub fn build_erdos_straus(n_max: i64) -> (res: (Program, u64, &'static str))
    requires
        (n_max as u64) * (n_max as u64) * 10 * 90 + 1_000_000 <= u64::MAX,
    ensures
        res.0@ == erdos_straus_program(n_max),
        res.1 == erdos_straus_budget(n_max),
        res.2@ == "Erdős–Straus: 4/n = 1/x + 1/y + 1/z for all n in [2, N]"@,
{
    let mut code: Vec<Instruction> = vec![
        Instruction::Push(n_max),
        Instruction::Store(1),
        Instruction::Push(2),
        Instruction::Store(0),
        // 4: es_outer
        Instruction::Load(0),
        Instruction::Load(1),
        Instruction::Swap,
        Instruction::Lt,
        Instruction::Jz(10),
        Instruction::Halt(1),
        // 10: es_body
        Instruction::Push(1),
        Instruction::Store(2),
        // 12: es_x_loop
        Instruction::Load(2),
        Instruction::Load(0),
        Instruction::Swap,
        Instruction::Lt,
        Instruction::Jz(18),
        Instruction::Halt(0),
        // 18: es_x_body
        Instruction::Load(2),
        Instruction::Push(4),
        Instruction::Mul,
        Instruction::Load(0),
        Instruction::Sub,
        Instruction::Store(3),
        Instruction::Load(3),
        Instruction::Push(1),
        Instruction::Lt,
        Instruction::Jz(29),
        Instruction::Jmp(80),
        // 29: es_compute_b
        Instruction::Load(0),
        Instruction::Load(2),
        Instruction::Mul,
        Instruction::Store(4),
        Instruction::Load(4),
        Instruction::Load(3),
        Instruction::Add,
        Instruction::Push(1),
        Instruction::Sub,
        Instruction::Load(3),
        Instruction::Div,
        Instruction::Store(5),
        Instruction::Load(4),
        Instruction::Push(2),
        Instruction::Mul,
        Instruction::Load(3),
        Instruction::Div,
        Instruction::Store(6),
        // 47: es_y_loop
        Instruction::Load(5),
        Instruction::Load(6),
        Instruction::Swap,
        Instruction::Lt,
        Instruction::Jz(53),
        Instruction::Jmp(80),
        // 53: es_y_body
        Instruction::Load(3),
        Instruction::Load(5),
        Instruction::Mul,
        Instruction::Load(4),
        Instruction::Sub,
        Instruction::Store(7),
        Instruction::Load(7),
        Instruction::Push(1),
        Instruction::Lt,
        Instruction::Jz(64),
        Instruction::Jmp(75),
        // 64: es_check_z
        Instruction::Load(4),
        Instruction::Load(5),
        Instruction::Mul,
        Instruction::Store(8),
        Instruction::Load(8),
        Instruction::Load(7),
        Instruction::Mod,
        Instruction::Push(0),
        Instruction::Eq,
        Instruction::Jz(75),
        Instruction::Jmp(85),
        // 75: es_next_y
        Instruction::Load(5),
        Instruction::Push(1),
        Instruction::Add,
        Instruction::Store(5),
        Instruction::Jmp(47),
        // 80: es_next_x
        Instruction::Load(2),
        Instruction::Push(1),
        Instruction::Add,
        Instruction::Store(2),
        Instruction::Jmp(12),
        // 85: es_found
        Instruction::Load(0),
        Instruction::Push(1),
        Instruction::Add,
        Instruction::Store(0),
        Instruction::Jmp(4),
    ];
    assert(code@ =~= erdos_straus_program(n_max));
    let ic = code.len() as u64;
    assert(ic == 90);
    let n = n_max as u64;
    proof { lemma_product_nonneg(n as int, n as int); }
    let b_star = n * n * 10 * ic + 1_000_000;
    (Program::new(code), b_star, "Erdős–Straus: 4/n = 1/x + 1/y + 1/z for all n in [2, N]")
}

/// The program built by `build_bsd_ec_count`.
pub open spec fn bsd_ec_count_program(p: i64, curve_id: i64) -> Seq<Instruction> {
    let (a_val, b_val) = curve_coefficients(curve_id);
    seq![
        Instruction::Push(p),
        Instruction::Store(1),
        Instruction::Push(a_val),
        Instruction::Store(2),
        Instruction::Push(b_val),
        Instruction::Store(3),
        Instruction::Push(1),
        Instruction::Store(4),
        Instruction::Push(0),
        Instruction::Store(0),
        // 10: ec_x_loop
        Instruction::Load(0),
        Instruction::Load(1),
        Instruction::Lt,
        Instruction::Jz(68),
        Instruction::Load(0),
        Instruction::Load(0),
        Instruction::Mul,
        Instruction::Load(0),
        Instruction::Mul,
        Instruction::Load(2),
        Instruction::Load(0),
        Instruction::Mul,
        Instruction::Add,
        Instruction::Load(3),
        Instruction::Add,
        Instruction::Load(1),
        Instruction::Mod,
        Instruction::Dup,
        Instruction::Push(0),
        Instruction::Lt,
        Instruction::Jz(33),
        Instruction::Load(1),
        Instruction::Add,
        // 33: ec_rhs_ok
        Instruction::Store(5),
        Instruction::Push(0),
        Instruction::Store(6),
        // 36: ec_y_loop
        Instruction::Load(6),
        Instruction::Load(1),
        Instruction::Lt,
        Instruction::Jz(63),
        Instruction::Load(6),
        Instruction::Load(6),
        Instruction::Mul,
        Instruction::Load(1),
        Instruction::Mod,
        Instruction::Dup,
        Instruction::Push(0),
        Instruction::Lt,
        Instruction::Jz(51),
        Instruction::Load(1),
        Instruction::Add,
        // 51: ec_y2_ok
        Instruction::Load(5),
        Instruction::Eq,
        Instruction::Jz(58),
        Instruction::Load(4),
        Instruction::Push(1),
        Instruction::Add,
        Instruction::Store(4),
        // 58: ec_y_inc
        Instruction::Load(6),
        Instruction::Push(1),
        Instruction::Add,
        Instruction::Store(6),
        Instruction::Jmp(36),
        // 63: ec_next_x
        Instruction::Load(0),
        Instruction::Push(1),
        Instruction::Add,
        Instruction::Store(0),
        Instruction::Jmp(10),
        // 68: ec_hasse
        Instruction::Load(4),
        Instruction::Load(1),
        Instruction::Sub,
        Instruction::Push(1),
        Instruction::Sub,
        Instruction::Dup,
        Instruction::Mul,
        Instruction::Store(7),
        Instruction::Load(1),
        Instruction::Push(4),
        Instruction::Mul,
        Instruction::Load(7),
        Instruction::Lt,
        Instruction::Jz(83),
        Instruction::Halt(0),
        // 83: ec_ok
        Instruction::Halt(1),
    ]
}

/// The step budget returned by `build_bsd_ec_count`.
pub open spec fn bsd_ec_count_budget(p: i64, curve_id: i64) -> int {
    (p as u64) * (p as u64) * 84 + 1_000_000
}

/// BSD finite fragment: elliptic curve point counting over F_p with Hasse bound.
///
/// Counts points on y² = x³ + ax + b over F_p (including point at infinity)
/// and verifies the Hasse bound: |#E(F_p) - (p+1)| ≤ 2√p.
///
/// Curve selection via curve_id:
///   0: y² = x³ - x   (a=-1, b=0)  — conductor 32, rank 0
///   1: y² = x³ + 1    (a=0, b=1)   — conductor 36, rank 0
///   2: y² = x³ - x + 1 (a=-1, b=1) — conductor 37, rank 1
///
/// Memory layout:
///   slot 0: x (0 to p-1)
///   slot 1: p
///   slot 2: a (curve parameter)
///   slot 3: b (curve parameter)
///   slot 4: count
///   slot 5: rhs (x³+ax+b mod p)
///   slot 6: y (0 to p-1)
///   slot 7: temp
///
/// Returns: Halt(1) = count computed, Hasse bound verified.
pub fn build_bsd_ec_count(p: i64, curve_id: i64) -> (res: (Program, u64, &'static str))
    requires
        (p as u64) * (p as u64) * 84 + 1_000_000 <= u64::MAX,
    ensures
        res.0@ == bsd_ec_count_program(p, curve_id),
        res.1 == bsd_ec_count_budget(p, curve_id),
        res.2@ == "BSD: elliptic curve point count over F_p with Hasse bound"@,
{
    let (a_val, b_val) = curve_coefficients_exec(curve_id);
    let mut code: Vec<Instruction> = vec![
        Instruction::Push(p),
        Instruction::Store(1),
        Instruction::Push(a_val),
        Instruction::Store(2),
        Instruction::Push(b_val),
        Instruction::Store(3),
        Instruction::Push(1),
        Instruction::Store(4),
        Instruction::Push(0),
        Instruction::Store(0),
        // 10: ec_x_loop
        Instruction::Load(0),
        Instruction::Load(1),
        Instruction::Lt,
        Instruction::Jz(68),
        Instruction::Load(0),
        Instruction::Load(0),
        Instruction::Mul,
        Instruction::Load(0),
        Instruction::Mul,
        Instruction::Load(2),
        Instruction::Load(0),
        Instruction::Mul,
        Instruction::Add,
        Instruction::Load(3),
        Instruction::Add,
        Instruction::Load(1),
        Instruction::Mod,
        Instruction::Dup,
        Instruction::Push(0),
        Instruction::Lt,
        Instruction::Jz(33),
        Instruction::Load(1),
        Instruction::Add,
        // 33: ec_rhs_ok
        Instruction::Store(5),
        Instruction::Push(0),
        Instruction::Store(6),
        // 36: ec_y_loop
        Instruction::Load(6),
        Instruction::Load(1),
        Instruction::Lt,
        Instruction::Jz(63),
        Instruction::Load(6),
        Instruction::Load(6),
        Instruction::Mul,
        Instruction::Load(1),
        Instruction::Mod,
        Instruction::Dup,
        Instruction::Push(0),
        Instruction::Lt,
        Instruction::Jz(51),
        Instruction::Load(1),
        Instruction::Add,
        // 51: ec_y2_ok
        Instruction::Load(5),
        Instruction::Eq,
        Instruction::Jz(58),
        Instruction::Load(4),
        Instruction::Push(1),
        Instruction::Add,
        Instruction::Store(4),
        // 58: ec_y_inc
        Instruction::Load(6),
        Instruction::Push(1),
        Instruction::Add,
        Instruction::Store(6),
        Instruction::Jmp(36),
        // 63: ec_next_x
        Instruction::Load(0),
        Instruction::Push(1),
        Instruction::Add,
        Instruction::Store(0),
        Instruction::Jmp(10),
        // 68: ec_hasse
        Instruction::Load(4),
        Instruction::Load(1),
        Instruction::Sub,
        Instruction::Push(1),
        Instruction::Sub,
        Instruction::Dup,
        Instruction::Mul,
        Instruction::Store(7),
        Instruction::Load(1),
        Instruction::Push(4),
        Instruction::Mul,
        Instruction::Load(7),
        Instruction::Lt,
        Instruction::Jz(83),
        Instruction::Halt(0),
        // 83: ec_ok
        Instruction::Halt(1),
    ];
    assert(code@ =~= bsd_ec_count_program(p, curve_id));
    let ic = code.len() as u64;
    assert(ic == 84);
    let q = p as u64;
    proof { lemma_product_nonneg(q as int, q as int); }
    let b_star = q * q * ic + 1_000_000;
    (Program::new(code), b_star, "BSD: elliptic curve point count over F_p with Hasse bound")
}

/// Straight-line part of the program built by `build_weak_goldbach`.
pub open spec fn weak_goldbach_part_0(n_max: i64) -> Seq<Instruction> {
    seq![
        Instruction::Push(n_max),
        Instruction::Store(1),
        Instruction::Push(7),
        Instruction::Store(0),
        // 4: wg_outer
        Instruction::Load(0),
        Instruction::Load(1),
        Instruction::Swap,
        Instruction::Lt,
        Instruction::Jz(10),
        Instruction::Halt(1),
        // 10: wg_body
        Instruction::Push(2),
        Instruction::Store(2),
        // 12: wg_p1_loop
        Instruction::Load(2),
        Instruction::Load(0),
        Instruction::Push(3),
        Instruction::Div,
        Instruction::Swap,
        Instruction::Lt,
        Instruction::Jz(20),
        Instruction::Halt(0),
        // 20: wg_p1_test
        Instruction::Load(2),
        Instruction::Store(10),
    ]
}

/// Straight-line part of the program built by `build_weak_goldbach`.
pub open spec fn weak_goldbach_part_1() -> Seq<Instruction> {
    seq![
        // 61: wg_p1_next
        Instruction::Load(2),
        Instruction::Push(1),
        Instruction::Add,
        Instruction::Store(2),
        Instruction::Jmp(12),
        // 66: wg_p1_prime
        Instruction::Load(2),
        Instruction::Store(3),
        // 68: wg_p2_loop
        Instruction::Load(0),
        Instruction::Load(2),
        Instruction::Sub,
        Instruction::Load(3),
        Instruction::Sub,
        Instruction::Store(4),
        Instruction::Load(4),
        Instruction::Load(3),
        Instruction::Lt,
        Instruction::Jz(79),
        Instruction::Jmp(61),
        // 79: wg_p2_test
        Instruction::Load(4),
        Instruction::Push(2),
        Instruction::Lt,
        Instruction::Jz(84),
        Instruction::Jmp(125),
        // 84: wg_check_p2
        Instruction::Load(3),
        Instruction::Store(12),
    ]
}

/// Straight-line part of the program built by `build_weak_goldbach`.
pub open spec fn weak_goldbach_part_2() -> Seq<Instruction> {
    seq![
        // 125: wg_p2_next
        Instruction::Load(3),
        Instruction::Push(1),
        Instruction::Add,
        Instruction::Store(3),
        Instruction::Jmp(68),
        // 130: wg_p2_prime
        Instruction::Load(4),
        Instruction::Store(14),
    ]
}

/// Straight-line part of the program built by `build_weak_goldbach`.
pub open spec fn weak_goldbach_part_3() -> Seq<Instruction> {
    seq![
        // 171: wg_found
        Instruction::Load(0),
        Instruction::Push(2),
        Instruction::Add,
        Instruction::Store(0),
        Instruction::Jmp(4),
    ]
}

/// The program built by `build_weak_goldbach`.
pub open spec fn weak_goldbach_program(n_max: i64) -> Seq<Instruction> {
    weak_goldbach_part_0(n_max)
        + primality_block(10, 11, 22, 66, 61)
        + weak_goldbach_part_1()
        + primality_block(12, 13, 86, 130, 125)
        + weak_goldbach_part_2()
        + primality_block(14, 15, 132, 171, 125)
        + weak_goldbach_part_3()
}

/// The step budget returned by `build_weak_goldbach`.
pub open spec fn weak_goldbach_budget(n_max: i64) -> int {
    ((n_max as u64) / 2) * ((n_max as u64) / 3 + 1) * ((n_max as u64) / 3 + 1) * 3 * 40 * 176 / 100 + 1_000_000
}

/// Weak Goldbach verification (Helfgott 2013, proved):
/// every odd integer n > 5 is the sum of three primes.
///
/// Memory layout:
///   slot 0: n (current odd number, 7 to n_max)
///   slot 1: n_max
///   slot 2: p1 (first prime candidate)
///   slot 3: p2 (second prime candidate)
///   slot 4: p3 (= n - p1 - p2)
///   slot 10-11: primality test for p1
///   slot 12-13: primality test for p2
///   slot 14-15: primality test for p3
///
/// Returns: Halt(1) = verified, Halt(0) = counterexample.
pub fn build_weak_goldbach(n_max: i64) -> (res: (Program, u64, &'static str))
    requires
        ((n_max as u64) / 2) * ((n_max as u64) / 3 + 1) * ((n_max as u64) / 3 + 1) * 3 * 40 * 176 <= u64::MAX,
        ((n_max as u64) / 2) * ((n_max as u64) / 3 + 1) * ((n_max as u64) / 3 + 1) * 3 * 40 * 176 / 100 + 1_000_000 <= u64::MAX,
    ensures
        res.0@ == weak_goldbach_program(n_max),
        res.1 == weak_goldbach_budget(n_max),
        res.2@ == "Weak Goldbach: every odd n > 5 is sum of three primes (Helfgott)"@,
{
    let mut code: Vec<Instruction> = vec![
        Instruction::Push(n_max),
        Instruction::Store(1),
        Instruction::Push(7),
        Instruction::Store(0),
        // 4: wg_outer
        Instruction::Load(0),
        Instruction::Load(1),
        Instruction::Swap,
        Instruction::Lt,
        Instruction::Jz(10),
        Instruction::Halt(1),
        // 10: wg_body
        Instruction::Push(2),
        Instruction::Store(2),
        // 12: wg_p1_loop
        Instruction::Load(2),
        Instruction::Load(0),
        Instruction::Push(3),
        Instruction::Div,
        Instruction::Swap,
        Instruction::Lt,
        Instruction::Jz(20),
        Instruction::Halt(0),
        // 20: wg_p1_test
        Instruction::Load(2),
        Instruction::Store(10),
    ];
    assert(code@ =~= weak_goldbach_part_0(n_max));
    emit_primality_test(&mut code, 10, 11, 66, 61);
    let mut part: Vec<Instruction> = vec![
        // 61: wg_p1_next
        Instruction::Load(2),
        Instruction::Push(1),
        Instruction::Add,
        Instruction::Store(2),
        Instruction::Jmp(12),
        // 66: wg_p1_prime
        Instruction::Load(2),
        Instruction::Store(3),
        // 68: wg_p2_loop
        Instruction::Load(0),
        Instruction::Load(2),
        Instruction::Sub,
        Instruction::Load(3),
        Instruction::Sub,
        Instruction::Store(4),
        Instruction::Load(4),
        Instruction::Load(3),
        Instruction::Lt,
        Instruction::Jz(79),
        Instruction::Jmp(61),
        // 79: wg_p2_test
        Instruction::Load(4),
        Instruction::Push(2),
        Instruction::Lt,
        Instruction::Jz(84),
        Instruction::Jmp(125),
        // 84: wg_check_p2
        Instruction::Load(3),
        Instruction::Store(12),
    ];
    assert(part@ =~= weak_goldbach_part_1());
    code.append(&mut part);
    emit_primality_test(&mut code, 12, 13, 130, 125);
    let mut part: Vec<Instruction> = vec![
        // 125: wg_p2_next
        Instruction::Load(3),
        Instruction::Push(1),
        Instruction::Add,
        Instruction::Store(3),
        Instruction::Jmp(68),
        // 130: wg_p2_prime
        Instruction::Load(4),
        Instruction::Store(14),
    ];
    assert(part@ =~= weak_goldbach_part_2());
    code.append(&mut part);
    emit_primality_test(&mut code, 14, 15, 171, 125);
    let mut part: Vec<Instruction> = vec![
        // 171: wg_found
        Instruction::Load(0),
        Instruction::Push(2),
        Instruction::Add,
        Instruction::Store(0),
        Instruction::Jmp(4),
    ];
    assert(part@ =~= weak_goldbach_part_3());
    code.append(&mut part);
    let ic = code.len() as u64;
    assert(ic == 176);
    let n = n_max as u64;
    proof { lemma_product_nonneg((n / 2) as int, (n / 3 + 1) as int); lemma_mul_grows((n / 2) as int * (n / 3 + 1) as int, (n / 3 + 1) as int); }
    let b_star = (n / 2) * (n / 3 + 1) * (n / 3 + 1) * 3 * 40 * ic / 100 + 1_000_000;
    (Program::new(code), b_star, "Weak Goldbach: every odd n > 5 is sum of three primes (Helfgott)")
}

/// Straight-line part of the program built by `build_bertrand`.
pub open spec fn bertrand_part_0(n_max: i64) -> Seq<Instruction> {
    seq![
        Instruction::Push(n_max),
        Instruction::Store(1),
        Instruction::Push(1),
        Instruction::Store(0),
        // 4: bert_outer
        Instruction::Load(0),
        Instruction::Load(1),
        Instruction::Swap,
        Instruction::Lt,
        Instruction::Jz(10),
        Instruction::Halt(1),
        // 10: bert_body
        Instruction::Load(0),
        Instruction::Push(1),
        Instruction::Add,
        Instruction::Store(2),
        Instruction::Load(0),
        Instruction::Push(2),
        Instruction::Mul,
        Instruction::Store(3),
        // 18: bert_search
        Instruction::Load(2),
        Instruction::Load(3),
        Instruction::Swap,
        Instruction::Lt,
        Instruction::Jz(24),
        Instruction::Halt(0),
        // 24: bert_test
        Instruction::Load(2),
        Instruction::Store(10),
    ]
}

/// Straight-line part of the program built by `build_bertrand`.
pub open spec fn bertrand_part_1() -> Seq<Instruction> {
    seq![
        // 65: bert_next
        Instruction::Load(2),
        Instruction::Push(1),
        Instruction::Add,
        Instruction::Store(2),
        Instruction::Jmp(18),
        // 70: bert_found
        Instruction::Load(0),
        Instruction::Push(1),
        Instruction::Add,
        Instruction::Store(0),
        Instruction::Jmp(4),
    ]
}

/// The program built by `build_bertrand`.
pub open spec fn bertrand_program(n_max: i64) -> Seq<Instruction> {
    bertrand_part_0(n_max)
        + primality_block(10, 11, 26, 70, 65)
        + bertrand_part_1()
}

/// The step budget returned by `build_bertrand`.
pub open spec fn bertrand_budget(n_max: i64) -> int {
    (n_max as u64) * (n_max as u64) * 40 * 75 / 10 + 1_000_000
}

/// Bertrand's postulate verification (Chebyshev, proved 1852):
/// for every n ≥ 1, there exists a prime p with n < p ≤ 2n.
///
/// Memory layout:
///   slot 0: n (1 to n_max)
///   slot 1: n_max
///   slot 2: candidate (n+1 to 2n)
///   slot 3: hi (= 2*n)
///   slot 10: val for primality test
///   slot 11: divisor scratch
///
/// Returns: Halt(1) = verified, Halt(0) = counterexample.
pub fn build_bertrand(n_max: i64) -> (res: (Program, u64, &'static str))
    requires
        (n_max as u64) * (n_max as u64) * 40 * 75 <= u64::MAX,
        (n_max as u64) * (n_max as u64) * 40 * 75 / 10 + 1_000_000 <= u64::MAX,
    ensures
        res.0@ == bertrand_program(n_max),
        res.1 == bertrand_budget(n_max),
        res.2@ == "Bertrand: prime between n and 2n for all n ≤ N (Chebyshev)"@,
{
    let mut code: Vec<Instruction> = vec![
        Instruction::Push(n_max),
        Instruction::Store(1),
        Instruction::Push(1),
        Instruction::Store(0),
        // 4: bert_outer
        Instruction::Load(0),
        Instruction::Load(1),
        Instruction::Swap,
        Instruction::Lt,
        Instruction::Jz(10),
        Instruction::Halt(1),
        // 10: bert_body
        Instruction::Load(0),
        Instruction::Push(1),
        Instruction::Add,
        Instruction::Store(2),
        Instruction::Load(0),
        Instruction::Push(2),
        Instruction::Mul,
        Instruction::Store(3),
        // 18: bert_search
        Instruction::Load(2),
        Instruction::Load(3),
        Instruction::Swap,
        Instruction::Lt,
        Instruction::Jz(24),
        Instruction::Halt(0),
        // 24: bert_test
        Instruction::Load(2),
        Instruction::Store(10),
    ];
    assert(code@ =~= bertrand_part_0(n_max));
    emit_primality_test(&mut code, 10, 11, 70, 65);
    let mut part: Vec<Instruction> = vec![
        // 65: bert_next
        Instruction::Load(2),
        Instruction::Push(1),
        Instruction::Add,
        Instruction::Store(2),
        Instruction::Jmp(18),
        // 70: bert_found
        Instruction::Load(0),
        Instruction::Push(1),
        Instruction::Add,
        Instruction::Store(0),
        Instruction::Jmp(4),
    ];
    assert(part@ =~= bertrand_part_1());
    code.append(&mut part);
    let ic = code.len() as u64;
    assert(ic == 75);
    let n = n_max as u64;
    proof { lemma_product_nonneg(n as int, n as int); }
    let b_star = n * n * 40 * ic / 10 + 1_000_000;
    (Program::new(code), b_star, "Bertrand: prime between n and 2n for all n ≤ N (Chebyshev)")
}

/// The program built by `build_lagrange_four_squares`.
pub open spec fn lagrange_program(n_max: i64) -> Seq<Instruction> {
    seq![
        Instruction::Push(n_max),
        Instruction::Store(1),
        Instruction::Push(1),
        Instruction::Store(0),
        // 4: lfs_outer
        Instruction::Load(0),
        Instruction::Load(1),
        Instruction::Swap,
        Instruction::Lt,
        Instruction::Jz(10),
        Instruction::Halt(1),
        // 10: lfs_body
        Instruction::Push(0),
        Instruction::Store(2),
        // 12: lfs_a_loop
        Instruction::Load(2),
        Instruction::Dup,
        Instruction::Mul,
        Instruction::Load(0),
        Instruction::Swap,
        Instruction::Lt,
        Instruction::Jz(20),
        Instruction::Halt(0),
        // 20: lfs_a_body
        Instruction::Push(0),
        Instruction::Store(3),
        // 22: lfs_b_loop
        Instruction::Load(2),
        Instruction::Dup,
        Instruction::Mul,
        Instruction::Load(3),
        Instruction::Dup,
        Instruction::Mul,
        Instruction::Add,
        Instruction::Load(0),
        Instruction::Swap,
        Instruction::Lt,
        Instruction::Jz(34),
        Instruction::Jmp(87),
        // 34: lfs_b_body
        Instruction::Push(0),
        Instruction::Store(4),
        // 36: lfs_c_loop
        Instruction::Load(0),
        Instruction::Load(2),
        Instruction::Dup,
        Instruction::Mul,
        Instruction::Sub,
        Instruction::Load(3),
        Instruction::Dup,
        Instruction::Mul,
        Instruction::Sub,
        Instruction::Load(4),
        Instruction::Dup,
        Instruction::Mul,
        Instruction::Sub,
        Instruction::Store(5),
        Instruction::Load(5),
        Instruction::Push(0),
        Instruction::Lt,
        Instruction::Jz(55),
        Instruction::Jmp(82),
        // 55: lfs_check_sq
        Instruction::Push(0),
        Instruction::Store(6),
        // 57: lfs_d_loop
        Instruction::Load(6),
        Instruction::Dup,
        Instruction::Mul,
        Instruction::Load(5),
        Instruction::Eq,
        Instruction::Jz(64),
        Instruction::Jmp(92),
        // 64: lfs_d_check_over
        Instruction::Load(6),
        Instruction::Dup,
        Instruction::Mul,
        Instruction::Load(5),
        Instruction::Swap,
        Instruction::Lt,
        Instruction::Jz(72),
        Instruction::Jmp(77),
        // 72: lfs_d_inc
        Instruction::Load(6),
        Instruction::Push(1),
        Instruction::Add,
        Instruction::Store(6),
        Instruction::Jmp(57),
        // 77: lfs_next_c
        Instruction::Load(4),
        Instruction::Push(1),
        Instruction::Add,
        Instruction::Store(4),
        Instruction::Jmp(36),
        // 82: lfs_next_b
        Instruction::Load(3),
        Instruction::Push(1),
        Instruction::Add,
        Instruction::Store(3),
        Instruction::Jmp(22),
        // 87: lfs_next_a
        Instruction::Load(2),
        Instruction::Push(1),
        Instruction::Add,
        Instruction::Store(2),
        Instruction::Jmp(12),
        // 92: lfs_found
        Instruction::Load(0),
        Instruction::Push(1),
        Instruction::Add,
        Instruction::Store(0),
        Instruction::Jmp(4),
    ]
}

/// The step budget returned by `build_lagrange_four_squares`.
pub open spec fn lagrange_budget(n_max: i64) -> int {
    (n_max as u64) * root_above((n_max as u64) as nat) * root_above((n_max as u64) as nat) * root_above((n_max as u64) as nat) * 20 * 97 / 10 + 1_000_000
}

/// Lagrange's four-square theorem verification (proved 1770):
/// every positive integer n is the sum of four squares: n = a² + b² + c² + d².
///
/// Memory layout:
///   slot 0: n (1 to n_max)
///   slot 1: n_max
///   slot 2: a
///   slot 3: b
///   slot 4: c
///   slot 5: remainder (n - a² - b² - c²)
///   slot 6: d (candidate for √remainder)
///
/// Returns: Halt(1) = verified, Halt(0) = counterexample.
pub fn build_lagrange_four_squares(n_max: i64) -> (res: (Program, u64, &'static str))
    requires
        root_above((n_max as u64) as nat) * root_above((n_max as u64) as nat) <= u64::MAX,
        (n_max as u64) * root_above((n_max as u64) as nat) * root_above((n_max as u64) as nat) * root_above((n_max as u64) as nat) * 20 * 97 <= u64::MAX,
        (n_max as u64) * root_above((n_max as u64) as nat) * root_above((n_max as u64) as nat) * root_above((n_max as u64) as nat) * 20 * 97 / 10 + 1_000_000 <= u64::MAX,
    ensures
        res.0@ == lagrange_program(n_max),
        res.1 == lagrange_budget(n_max),
        res.2@ == "Lagrange: every n is sum of four squares"@,
{
    let mut code: Vec<Instruction> = vec![
        Instruction::Push(n_max),
        Instruction::Store(1),
        Instruction::Push(1),
        Instruction::Store(0),
        // 4: lfs_outer
        Instruction::Load(0),
        Instruction::Load(1),
        Instruction::Swap,
        Instruction::Lt,
        Instruction::Jz(10),
        Instruction::Halt(1),
        // 10: lfs_body
        Instruction::Push(0),
        Instruction::Store(2),
        // 12: lfs_a_loop
        Instruction::Load(2),
        Instruction::Dup,
        Instruction::Mul,
        Instruction::Load(0),
        Instruction::Swap,
        Instruction::Lt,
        Instruction::Jz(20),
        Instruction::Halt(0),
        // 20: lfs_a_body
        Instruction::Push(0),
        Instruction::Store(3),
        // 22: lfs_b_loop
        Instruction::Load(2),
        Instruction::Dup,
        Instruction::Mul,
        Instruction::Load(3),
        Instruction::Dup,
        Instruction::Mul,
        Instruction::Add,
        Instruction::Load(0),
        Instruction::Swap,
        Instruction::Lt,
        Instruction::Jz(34),
        Instruction::Jmp(87),
        // 34: lfs_b_body
        Instruction::Push(0),
        Instruction::Store(4),
        // 36: lfs_c_loop
        Instruction::Load(0),
        Instruction::Load(2),
        Instruction::Dup,
        Instruction::Mul,
        Instruction::Sub,
        Instruction::Load(3),
        Instruction::Dup,
        Instruction::Mul,
        Instruction::Sub,
        Instruction::Load(4),
        Instruction::Dup,
        Instruction::Mul,
        Instruction::Sub,
        Instruction::Store(5),
        Instruction::Load(5),
        Instruction::Push(0),
        Instruction::Lt,
        Instruction::Jz(55),
        Instruction::Jmp(82),
        // 55: lfs_check_sq
        Instruction::Push(0),
        Instruction::Store(6),
        // 57: lfs_d_loop
        Instruction::Load(6),
        Instruction::Dup,
        Instruction::Mul,
        Instruction::Load(5),
        Instruction::Eq,
        Instruction::Jz(64),
        Instruction::Jmp(92),
        // 64: lfs_d_check_over
        Instruction::Load(6),
        Instruction::Dup,
        Instruction::Mul,
        Instruction::Load(5),
        Instruction::Swap,
        Instruction::Lt,
        Instruction::Jz(72),
        Instruction::Jmp(77),
        // 72: lfs_d_inc
        Instruction::Load(6),
        Instruction::Push(1),
        Instruction::Add,
        Instruction::Store(6),
        Instruction::Jmp(57),
        // 77: lfs_next_c
        Instruction::Load(4),
        Instruction::Push(1),
        Instruction::Add,
        Instruction::Store(4),
        Instruction::Jmp(36),
        // 82: lfs_next_b
        Instruction::Load(3),
        Instruction::Push(1),
        Instruction::Add,
        Instruction::Store(3),
        Instruction::Jmp(22),
        // 87: lfs_next_a
        Instruction::Load(2),
        Instruction::Push(1),
        Instruction::Add,
        Instruction::Store(2),
        Instruction::Jmp(12),
        // 92: lfs_found
        Instruction::Load(0),
        Instruction::Push(1),
        Instruction::Add,
        Instruction::Store(0),
        Instruction::Jmp(4),
    ];
    assert(code@ =~= lagrange_program(n_max));
    let ic = code.len() as u64;
    assert(ic == 97);
    let n = n_max as u64;
    let sqrt_n = least_root_above(n);
    proof { lemma_product_nonneg(n as int, sqrt_n as int); lemma_mul_grows(n as int * sqrt_n as int, sqrt_n as int); lemma_mul_grows(n as int * sqrt_n as int * sqrt_n as int, sqrt_n as int); }
    let b_star = n * sqrt_n * sqrt_n * sqrt_n * 20 * ic / 10 + 1_000_000;
    (Program::new(code), b_star, "Lagrange: every n is sum of four squares")
}

/// The program built by `build_zero_ne_one`.
pub open spec fn zero_ne_one_program() -> Seq<Instruction> {
    seq![
        Instruction::Push(0),
        Instruction::Push(1),
        Instruction::Eq,
        Instruction::Jz(5),
        Instruction::Halt(0),
        // 5: disproved
        Instruction::Halt(1),
    ]
}

/// The step budget returned by `build_zero_ne_one`.
pub open spec fn zero_ne_one_budget() -> int {
    10
}

/// ZFC 0≠1: trivially disproves "0=1" — Push(0), Push(1), Eq → 0 → Halt(1).
///
/// Returns: Halt(1) = 0≠1 confirmed (statement disproved).
pub fn build_zero_ne_one() -> (res: (Program, u64, &'static str))
    ensures
        res.0@ == zero_ne_one_program(),
        res.1 == zero_ne_one_budget(),
        res.2@ == "0 ≠ 1 (ZFC consistency)"@,
{
    let mut code: Vec<Instruction> = vec![
        Instruction::Push(0),
        Instruction::Push(1),
        Instruction::Eq,
        Instruction::Jz(5),
        Instruction::Halt(0),
        // 5: disproved
        Instruction::Halt(1),
    ];
    assert(code@ =~= zero_ne_one_program());
    let ic = code.len() as u64;
    assert(ic == 6);
    let b_star: u64 = 10;
    (Program::new(code), b_star, "0 ≠ 1 (ZFC consistency)")
}
/// The program built by `build_zero_ne_one`, run for its budget, halts
/// with 1: 0 and 1 compare unequal.
pub proof fn lemma_zero_ne_one_program_halts_with_one()
    ensures
        reported_outcome(spec_run(zero_ne_one_program(), zero_ne_one_budget() as nat))
            == VmOutcome::Halted(1),
{
    let prog = zero_ne_one_program();
    reveal_with_fuel(spec_run_from, 6);
    let s1 = spec_step(prog, initial_state());
    let s2 = spec_step(prog, s1);
    let s3 = spec_step(prog, s2);
    assert(s3.stack =~= seq![0i64]);
    let s4 = spec_step(prog, s3);
    assert(s4.pc == 5);
    let s5 = spec_step(prog, s4);
    assert(s5.outcome == Some(VmOutcome::Halted(1)));
}

} // verus!
