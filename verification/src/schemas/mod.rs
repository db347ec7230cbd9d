//! The reduction schemas' search programs.

pub mod algebraic_decision;
pub mod bounded_counterexample;
pub mod certified_numerics;
pub mod effective_compactness;
pub mod finite_search;
pub mod proof_mining;
pub mod root_search;

use crate::proof_enum::solve::{decimal, decimal_string};
use crate::proof_enum::statement::str_eq;
use crate::vm::Instruction;
use vstd::prelude::*;

verus! {

/// One term of a polynomial evaluation: `pw *= x; acc += c * pw`.
pub open spec fn power_term(c: i64, acc: usize, pw: usize, x: usize) -> Seq<Instruction> {
    seq![
        Instruction::Load(pw),
        Instruction::Load(x),
        Instruction::Mul,
        Instruction::Store(pw),
        Instruction::Push(c),
        Instruction::Load(pw),
        Instruction::Mul,
        Instruction::Load(acc),
        Instruction::Add,
        Instruction::Store(acc),
    ]
}

/// The terms for the coefficients `cs`, in order.
pub open spec fn power_terms(cs: Seq<i64>, acc: usize, pw: usize, x: usize) -> Seq<Instruction>
    decreases cs.len(),
{
    if cs.len() == 0 {
        Seq::empty()
    } else {
        power_terms(cs.drop_last(), acc, pw, x) + power_term(cs.last(), acc, pw, x)
    }
}

pub proof fn lemma_power_terms_len(cs: Seq<i64>, acc: usize, pw: usize, x: usize)
    ensures
        power_terms(cs, acc, pw, x).len() == 10 * cs.len(),
    decreases cs.len(),
{
    if cs.len() > 0 {
        lemma_power_terms_len(cs.drop_last(), acc, pw, x);
    }
}

/// Appends the terms for `cs[from..]`.
pub(crate) fn emit_power_terms(instrs: &mut Vec<Instruction>, cs: &[i64], from: usize, acc: usize, pw: usize, x: usize)
    requires
        from <= cs@.len(),
    ensures
        final(instrs)@ == old(instrs)@ + power_terms(cs@.subrange(from as int, cs@.len() as int), acc, pw, x),
{
    let mut i = from;
    while i < cs.len()
        invariant
            from <= i <= cs@.len(),
            instrs@ == old(instrs)@ + power_terms(cs@.subrange(from as int, i as int), acc, pw, x),
        decreases cs@.len() - i,
    {
        let c = cs[i];
        let ghost before = instrs@;
        instrs.push(Instruction::Load(pw));
        instrs.push(Instruction::Load(x));
        instrs.push(Instruction::Mul);
        instrs.push(Instruction::Store(pw));
        instrs.push(Instruction::Push(c));
        instrs.push(Instruction::Load(pw));
        instrs.push(Instruction::Mul);
        instrs.push(Instruction::Load(acc));
        instrs.push(Instruction::Add);
        instrs.push(Instruction::Store(acc));
        proof {
            let s = cs@.subrange(from as int, i + 1);
            assert(s.drop_last() =~= cs@.subrange(from as int, i as int));
            assert(s.last() == c);
            assert(instrs@ =~= before + power_term(c, acc, pw, x));
        }
        i = i + 1;
    }
}

/// The program that runs `x` through `[lo, hi]` and halts with 1 at the
/// first `x` with `f(x) = target`, with 0 when there is none, where
/// `f(x) = c0 + c1 x + c2 x² + ...`.
pub open spec fn root_search_program(lo: i64, hi: i64, cs: Seq<i64>, target: i64) -> Seq<Instruction> {
    let rest = if cs.len() == 0 {
        Seq::<i64>::empty()
    } else {
        cs.skip(1)
    };
    let p = 12 + 10 * rest.len();
    seq![
        Instruction::Push(lo),
        Instruction::Store(0),
        Instruction::Push((hi + 1) as i64),
        Instruction::Store(1),
        // 4: loop
        Instruction::Load(0),
        Instruction::Load(1),
        Instruction::Lt,
        Instruction::Jz((p + 10) as usize),
        Instruction::Push(
            if cs.len() == 0 {
                0
            } else {
                cs[0]
            },
        ),
        Instruction::Store(2),
        Instruction::Push(1),
        Instruction::Store(3),
    ] + power_terms(rest, 2, 3, 0) + seq![
        Instruction::Load(2),
        Instruction::Push(target),
        Instruction::Eq,
        Instruction::Jz((p + 5) as usize),
        Instruction::Halt(1),
        Instruction::Load(0),
        Instruction::Push(1),
        Instruction::Add,
        Instruction::Store(0),
        Instruction::Jmp(4),
        Instruction::Halt(0),
    ]
}


/// The code of `root_search_program`.
pub(crate) fn emit_root_search(lo: i64, hi: i64, cs: &[i64], target: i64) -> (instrs: Vec<Instruction>)
    requires
        hi < i64::MAX,
    ensures
        instrs@ == root_search_program(lo, hi, cs@, target),
{
    let first = if cs.len() == 0 {
        0
    } else {
        cs[0]
    };
    let from: usize = if cs.len() == 0 {
        0
    } else {
        1
    };
    let mut instrs: Vec<Instruction> = vec![
        Instruction::Push(lo),
        Instruction::Store(0),
        Instruction::Push(hi + 1),
        Instruction::Store(1),
        Instruction::Load(0),
        Instruction::Load(1),
        Instruction::Lt,
        Instruction::Jz(0),
        Instruction::Push(first),
        Instruction::Store(2),
        Instruction::Push(1),
        Instruction::Store(3),
    ];
    let ghost head = instrs@;
    emit_power_terms(&mut instrs, cs, from, 2, 3, 0);
    let ghost rest = cs@.subrange(from as int, cs@.len() as int);
    proof {
        lemma_power_terms_len(rest, 2, 3, 0);
    }
    let jz_next = instrs.len() + 3;
    instrs.push(Instruction::Load(2));
    instrs.push(Instruction::Push(target));
    instrs.push(Instruction::Eq);
    instrs.push(Instruction::Jz(0));
    instrs.push(Instruction::Halt(1));
    let next_iter = instrs.len();
    instrs.set(jz_next, Instruction::Jz(next_iter));
    instrs.push(Instruction::Load(0));
    instrs.push(Instruction::Push(1));
    instrs.push(Instruction::Add);
    instrs.push(Instruction::Store(0));
    instrs.push(Instruction::Jmp(4));
    let fail = instrs.len();
    instrs.push(Instruction::Halt(0));
    instrs.set(7, Instruction::Jz(fail));
    proof {
        let spec_rest = if cs@.len() == 0 {
            Seq::<i64>::empty()
        } else {
            cs@.skip(1)
        };
        assert(rest =~= spec_rest);
        let tail = seq![
            Instruction::Load(2),
            Instruction::Push(target),
            Instruction::Eq,
            Instruction::Jz(next_iter),
            Instruction::Halt(1),
            Instruction::Load(0),
            Instruction::Push(1),
            Instruction::Add,
            Instruction::Store(0),
            Instruction::Jmp(4),
            Instruction::Halt(0),
        ];
        let new_head = head.update(7, Instruction::Jz(fail));
        assert(instrs@ =~= new_head + power_terms(rest, 2, 3, 0) + tail);
        assert(instrs@ =~= root_search_program(lo, hi, cs@, target));
    }
    instrs
}

/// A parameter name that starts with `c`: a coefficient.
pub open spec fn is_coefficient_key(k: Seq<char>) -> bool {
    k.len() > 0 && k[0] == 'c'
}

/// The values of the coefficient parameters, in order.
pub open spec fn coefficient_list(ps: Seq<(Seq<char>, i64)>) -> Seq<i64>
    decreases ps.len(),
{
    if ps.len() == 0 {
        Seq::empty()
    } else {
        coefficient_list(ps.drop_last()) + if is_coefficient_key(ps.last().0) {
            seq![ps.last().1]
        } else {
            Seq::empty()
        }
    }
}

/// The value of the first parameter named `key`.
pub open spec fn param_value(ps: Seq<(Seq<char>, i64)>, key: Seq<char>) -> Option<i64>
    decreases ps.len(),
{
    if ps.len() == 0 {
        None
    } else {
        match param_value(ps.drop_last(), key) {
            Some(v) => Some(v),
            None => if ps.last().0 == key {
                Some(ps.last().1)
            } else {
                None
            },
        }
    }
}

/// The values of the coefficient parameters.
pub(crate) fn coefficients_of(params: &Vec<(String, i64)>) -> (r: Vec<i64>)
    ensures
        r@ == coefficient_list(Seq::new(params@.len(), |i: int| (params@[i].0@, params@[i].1))),
{
    let ghost ps = Seq::new(params@.len(), |i: int| (params@[i].0@, params@[i].1));
    let mut r: Vec<i64> = Vec::new();
    let mut i: usize = 0;
    while i < params.len()
        invariant
            i <= params@.len(),
            ps == Seq::new(params@.len(), |i: int| (params@[i].0@, params@[i].1)),
            r@ == coefficient_list(ps.take(i as int)),
        decreases params@.len() - i,
    {
        assert(ps.take(i + 1).drop_last() =~= ps.take(i as int));
        let k = params[i].0.as_str();
        let is_c = k.unicode_len() > 0 && k.get_char(0) == 'c';
        if is_c {
            r.push(params[i].1);
        }
        i = i + 1;
        assert(r@ =~= coefficient_list(ps.take(i as int)));
    }
    assert(ps.take(i as int) =~= ps);
    r
}

/// The value of the first parameter named `key`.
pub(crate) fn find_param(params: &Vec<(String, i64)>, key: &str) -> (r: Option<i64>)
    ensures
        r == param_value(Seq::new(params@.len(), |i: int| (params@[i].0@, params@[i].1)), key@),
{
    let ghost ps = Seq::new(params@.len(), |i: int| (params@[i].0@, params@[i].1));
    let mut i: usize = 0;
    while i < params.len()
        invariant
            i <= params@.len(),
            ps == Seq::new(params@.len(), |i: int| (params@[i].0@, params@[i].1)),
            param_value(ps.take(i as int), key@) is None,
        decreases params@.len() - i,
    {
        assert(ps.take(i + 1).drop_last() =~= ps.take(i as int));
        if str_eq(params[i].0.as_str(), key) {
            proof {
                lemma_param_value_prefix(ps, i + 1, key@);
            }
            return Some(params[i].1);
        }
        i = i + 1;
    }
    assert(ps.take(i as int) =~= ps);
    None
}

/// A parameter found in a prefix is the first in the whole list.
proof fn lemma_param_value_prefix(ps: Seq<(Seq<char>, i64)>, k: int, key: Seq<char>)
    requires
        0 <= k <= ps.len(),
        param_value(ps.take(k), key) is Some,
    ensures
        param_value(ps, key) == param_value(ps.take(k), key),
    decreases ps.len(),
{
    if k < ps.len() {
        assert(ps.drop_last().take(k) =~= ps.take(k));
        lemma_param_value_prefix(ps.drop_last(), k, key);
    } else {
        assert(ps.take(k) =~= ps);
    }
}

/// The value of the first parameter named `k1` or `k2`.
pub open spec fn param_value_either(ps: Seq<(Seq<char>, i64)>, k1: Seq<char>, k2: Seq<char>) -> Option<i64>
    decreases ps.len(),
{
    if ps.len() == 0 {
        None
    } else {
        match param_value_either(ps.drop_last(), k1, k2) {
            Some(v) => Some(v),
            None => if ps.last().0 == k1 || ps.last().0 == k2 {
                Some(ps.last().1)
            } else {
                None
            },
        }
    }
}

proof fn lemma_param_value_either_prefix(ps: Seq<(Seq<char>, i64)>, k: int, k1: Seq<char>, k2: Seq<char>)
    requires
        0 <= k <= ps.len(),
        param_value_either(ps.take(k), k1, k2) is Some,
    ensures
        param_value_either(ps, k1, k2) == param_value_either(ps.take(k), k1, k2),
    decreases ps.len(),
{
    if k < ps.len() {
        assert(ps.drop_last().take(k) =~= ps.take(k));
        lemma_param_value_either_prefix(ps.drop_last(), k, k1, k2);
    } else {
        assert(ps.take(k) =~= ps);
    }
}

/// The value of the first parameter named `k1` or `k2`.
pub(crate) fn find_param_either(params: &Vec<(String, i64)>, k1: &str, k2: &str) -> (r: Option<i64>)
    ensures
        r == param_value_either(Seq::new(params@.len(), |i: int| (params@[i].0@, params@[i].1)), k1@, k2@),
{
    let ghost ps = Seq::new(params@.len(), |i: int| (params@[i].0@, params@[i].1));
    let mut i: usize = 0;
    while i < params.len()
        invariant
            i <= params@.len(),
            ps == Seq::new(params@.len(), |i: int| (params@[i].0@, params@[i].1)),
            param_value_either(ps.take(i as int), k1@, k2@) is None,
        decreases params@.len() - i,
    {
        assert(ps.take(i + 1).drop_last() =~= ps.take(i as int));
        if str_eq(params[i].0.as_str(), k1) || str_eq(params[i].0.as_str(), k2) {
            proof {
                lemma_param_value_either_prefix(ps, i + 1, k1@, k2@);
            }
            return Some(params[i].1);
        }
        i = i + 1;
    }
    assert(ps.take(i as int) =~= ps);
    None
}

/// The decimal text of an integer, with a minus sign below 0.
pub open spec fn signed_decimal(v: int) -> Seq<char> {
    if v < 0 {
        "-"@ + decimal((-v) as nat)
    } else {
        decimal(v as nat)
    }
}

pub(crate) fn signed_decimal_string(v: i64) -> (s: String)
    ensures
        s@ == signed_decimal(v as int),
{
    if v < 0 {
        let u: u64 = (-(v + 1)) as u64 + 1;
        "-".to_string().concat(decimal_string(u).as_str())
    } else {
        decimal_string(v as u64)
    }
}

/// The text of a failure: `goal` and the optional unresolved bound.
pub open spec fn failure_is(r: crate::schema::SchemaResult, goal: Seq<char>, bound: Option<Seq<char>>) -> bool {
    r matches crate::schema::SchemaResult::Failure { goal_statement, unresolved_bound } && goal_statement@ == goal
        && match bound {
        None => unresolved_bound is None,
        Some(b) => unresolved_bound is Some && unresolved_bound->Some_0@ == b,
    }
}

} // verus!
