//! The algebraic-decision schema: a polynomial equation over a bounded
//! integer range becomes a search of that range for a root. The range is
//! the variable's explicit domain, or, without one, `[-B, B]` for the
//! bound `B = degree · max|c| + 1`; the step bound of the search must fit
//! the budget.

use super::{
    coefficient_list, coefficients_of, emit_root_search, find_param, param_value, root_search_program,
};
use crate::proof_enum::solve::{decimal, decimal_string};
use crate::schema::{DescModel, SchemaResult, StatementDesc, StatementKind};
use crate::vm::Program;
use vstd::prelude::*;

verus! {

broadcast use vstd::string::group_string_axioms;

/// The algebraic-decision schema.
pub struct AlgebraicDecisionSchema;

/// The schema applies to algebraic statements and to searches for an `x`
/// with `f(x) = target`.
pub open spec fn algebraic_applies(kind: StatementKind) -> bool {
    kind == StatementKind::Algebraic || kind == StatementKind::ArithFind
}

/// The first variable's explicit finite domain, if it has one.
pub open spec fn explicit_domain(d: DescModel) -> Option<(i64, i64)> {
    if d.variables.len() > 0 && d.variables[0].is_finite && d.variables[0].domain_lo is Some
        && d.variables[0].domain_hi is Some {
        Some((d.variables[0].domain_lo->Some_0, d.variables[0].domain_hi->Some_0))
    } else {
        None
    }
}

/// A parameter that enters the coefficient bound: any but `degree` and
/// `target`.
pub open spec fn is_bound_key(k: Seq<char>) -> bool {
    k != "degree"@ && k != "target"@
}

pub open spec fn abs_value(v: i64) -> int {
    if v < 0 {
        -v
    } else {
        v as int
    }
}

/// The largest absolute value of the parameters that enter the bound.
pub open spec fn max_abs(ps: Seq<(Seq<char>, i64)>) -> Option<int>
    decreases ps.len(),
{
    if ps.len() == 0 {
        None
    } else {
        let m = max_abs(ps.drop_last());
        if is_bound_key(ps.last().0) {
            let a = abs_value(ps.last().1);
            match m {
                None => Some(a),
                Some(x) => Some(if x >= a {
                    x
                } else {
                    a
                }),
            }
        } else {
            m
        }
    }
}

/// No parameter that enters the bound is `i64::MIN`, whose absolute value
/// is no `i64`.
pub open spec fn abs_safe(ps: Seq<(Seq<char>, i64)>) -> bool {
    forall|i: int| 0 <= i < ps.len() && #[trigger] is_bound_key(ps[i].0) ==> ps[i].1 != i64::MIN
}

/// The declared degree, 0 without one.
pub open spec fn degree_of(d: DescModel) -> i64 {
    match param_value(d.params, "degree"@) {
        Some(v) => v,
        None => 0,
    }
}

/// The bound `degree · max|c| + 1` of the derived range.
pub open spec fn derived_bound(d: DescModel) -> int {
    degree_of(d) * match max_abs(d.params) {
        Some(m) => m,
        None => 1,
    } + 1
}

/// Steps of a root search over `[lo, hi]` with `n` coefficients.
pub open spec fn search_steps(lo: int, hi: int, n: nat) -> int {
    (hi - lo + 1) * (10 * n + 20) + 10
}

/// The search's arithmetic stays within machine integers.
pub open spec fn search_fits(lo: int, hi: int, n: nat, max_steps: u64) -> bool {
    &&& 0 <= hi - lo + 1 <= i64::MAX
    &&& 10 * n + 20 <= u64::MAX
    &&& search_steps(lo, hi, n) <= u64::MAX
    &&& search_steps(lo, hi, n) <= max_steps ==> hi < i64::MAX
}

/// The reduction's arithmetic stays within machine integers.
pub open spec fn algebraic_fits(d: DescModel, max_steps: u64) -> bool {
    let n = coefficient_list(d.params).len();
    algebraic_applies(d.kind) ==> match explicit_domain(d) {
        Some((lo, hi)) => search_fits(lo as int, hi as int, n, max_steps),
        None => degree_of(d) > 0 ==> {
            &&& abs_safe(d.params)
            &&& derived_bound(d) <= i64::MAX
            &&& search_fits(-derived_bound(d), derived_bound(d), n, max_steps)
        },
    }
}

/// The outcome `r` of a search over `[lo, hi]` with the step bound `b`:
/// the program where `b` fits the budget, else a failure that reports `b`.
pub open spec fn search_outcome(
    r: SchemaResult,
    lo: i64,
    hi: i64,
    cs: Seq<i64>,
    b: int,
    max_steps: u64,
    prefix: Seq<char>,
) -> bool {
    if b > max_steps {
        r matches SchemaResult::Failure { goal_statement, unresolved_bound } && goal_statement@ == prefix
            + decimal(b as nat) + " exceeds budget"@ && unresolved_bound is Some && unresolved_bound->Some_0@
            == "B* = "@ + decimal(b as nat)
    } else {
        r matches SchemaResult::Success { program, b_star } && b_star == b && program@ == root_search_program(
            lo,
            hi,
            cs,
            0,
        )
    }
}

/// The largest absolute value of the parameters that enter the bound.
fn max_abs_param(params: &Vec<(String, i64)>) -> (r: Option<i64>)
    requires
        abs_safe(Seq::new(params@.len(), |i: int| (params@[i].0@, params@[i].1))),
    ensures
        match max_abs(Seq::new(params@.len(), |i: int| (params@[i].0@, params@[i].1))) {
            None => r is None,
            Some(m) => r == Some(m as i64) && 0 <= m <= i64::MAX,
        },
{
    let ghost ps = Seq::new(params@.len(), |i: int| (params@[i].0@, params@[i].1));
    let mut r: Option<i64> = None;
    let mut i: usize = 0;
    while i < params.len()
        invariant
            i <= params@.len(),
            ps == Seq::new(params@.len(), |i: int| (params@[i].0@, params@[i].1)),
            abs_safe(ps),
            match max_abs(ps.take(i as int)) {
                None => r is None,
                Some(m) => r == Some(m as i64) && 0 <= m <= i64::MAX,
            },
        decreases params@.len() - i,
    {
        assert(ps.take(i + 1).drop_last() =~= ps.take(i as int));
        assert(ps.take(i + 1).last() == ps[i as int]);
        let k = params[i].0.as_str();
        if !crate::proof_enum::statement::str_eq(k, "degree") && !crate::proof_enum::statement::str_eq(
            k,
            "target",
        ) {
            let v = params[i].1;
            assert(is_bound_key(ps[i as int].0));
            let a: i64 = if v < 0 {
                -v
            } else {
                v
            };
            r = match r {
                None => Some(a),
                Some(x) => Some(if x >= a {
                    x
                } else {
                    a
                }),
            };
        }
        i = i + 1;
    }
    assert(ps.take(i as int) =~= ps);
    r
}

impl AlgebraicDecisionSchema {
    /// The program that runs `x` through `[lo, hi]` and halts with 1 at the
    /// first root of `P(x) = c0 + c1 x + c2 x² + ...`, with 0 when there is
    /// none.
    pub fn build_polynomial_check_program(lo: i64, hi: i64, coefficients: &[i64]) -> (r: Program)
        requires
            hi < i64::MAX,
        ensures
            r@ == root_search_program(lo, hi, coefficients@, 0),
    {
        Program::new(emit_root_search(lo, hi, coefficients, 0))
    }

    /// Reduce an algebraic statement to a bounded root search, or say why
    /// it cannot be.
    pub fn attempt_reduction(statement: &StatementDesc, max_vm_steps: u64) -> (r: SchemaResult)
        requires
            algebraic_fits(statement@, max_vm_steps),
        ensures
            ({
                let d = statement@;
                let cs = coefficient_list(d.params);
                if !algebraic_applies(d.kind) {
                    r is NotApplicable
                } else {
                    match explicit_domain(d) {
                        Some((lo, hi)) => search_outcome(
                            r,
                            lo,
                            hi,
                            cs,
                            search_steps(lo as int, hi as int, cs.len()),
                            max_vm_steps,
                            "B*="@,
                        ),
                        None => if degree_of(d) <= 0 {
                            r matches SchemaResult::Failure { goal_statement, unresolved_bound }
                                && goal_statement@ == "No effective bound: need degree or explicit domain"@
                                && unresolved_bound is Some && unresolved_bound->Some_0@
                                == "Need: polynomial degree → Nullstellensatz bound"@
                        } else {
                            search_outcome(
                                r,
                                (-derived_bound(d)) as i64,
                                derived_bound(d) as i64,
                                cs,
                                search_steps(-derived_bound(d), derived_bound(d), cs.len()),
                                max_vm_steps,
                                "Algebraic bound B*="@,
                            )
                        },
                    }
                }
            }),
    {
        match statement.kind {
            StatementKind::Algebraic | StatementKind::ArithFind => {},
            _ => return SchemaResult::NotApplicable,
        }
        let ghost d = statement@;
        let explicit = if statement.variables.len() > 0 {
            let v = &statement.variables[0];
            assert(d.variables[0] == v@);
            v.is_finite && v.domain_lo.is_some() && v.domain_hi.is_some()
        } else {
            false
        };
        assert(d.params =~= Seq::new(statement.params@.len(), |i: int| (statement.params@[i].0@, statement.params@[i].1)));
        let coefficients = coefficients_of(&statement.params);
        let (lo, hi, prefix) = if !explicit {
            let degree = match find_param(&statement.params, "degree") {
                Some(v) => v,
                None => 0,
            };
            if degree <= 0 {
                return SchemaResult::Failure {
                    goal_statement: "No effective bound: need degree or explicit domain".to_string(),
                    unresolved_bound: Some("Need: polynomial degree → Nullstellensatz bound".to_string()),
                };
            }
            let max_coeff = match max_abs_param(&statement.params) {
                Some(m) => m,
                None => 1,
            };
            assert(0 <= degree * max_coeff <= i64::MAX) by (nonlinear_arith)
                requires
                    degree > 0,
                    max_coeff >= 0,
                    degree * max_coeff + 1 <= i64::MAX,
            ;
            let bound = degree * max_coeff + 1;
            (-bound, bound, "Algebraic bound B*=")
        } else {
            let v = &statement.variables[0];
            let lo = match v.domain_lo {
                Some(x) => x,
                None => 0,
            };
            let hi = match v.domain_hi {
                Some(x) => x,
                None => 0,
            };
            (lo, hi, "B*=")
        };
        let domain_size = (hi - lo + 1) as u64;
        let per = coefficients.len() as u64 * 10 + 20;
        assert(domain_size * per <= u64::MAX);
        let b_star = domain_size * per + 10;
        if b_star > max_vm_steps {
            let text = decimal_string(b_star);
            return SchemaResult::Failure {
                goal_statement: prefix.to_string().concat(text.as_str()).concat(" exceeds budget"),
                unresolved_bound: Some("B* = ".to_string().concat(text.as_str())),
            };
        }
        let program = Self::build_polynomial_check_program(lo, hi, coefficients.as_slice());
        SchemaResult::Success { program, b_star }
    }
}

} // verus!
