//! Statement descriptions consumed by the reduction schemas. A schema tries
//! to turn a statement into a finite computation: a stack-machine program,
//! a step bound, and the proof obligations that tie them to the statement.

use crate::vm::Program;
use vstd::prelude::*;

verus! {

/// Structured description of a statement.
#[derive(Debug, Clone)]
pub struct StatementDesc {
    /// Statement kind: decides which schemas apply.
    pub kind: StatementKind,
    /// The statement text.
    pub text: String,
    /// Variables and their domains.
    pub variables: Vec<VariableDesc>,
    /// The predicate to check.
    pub predicate: String,
    /// Additional named parameters.
    pub params: Vec<(String, i64)>,
}

/// What kind of statement this is.
#[derive(Debug, Clone, Copy, PartialEq, Eq, Structural)]
pub enum StatementKind {
    /// For all x in a finite domain.
    UniversalFinite,
    /// Exists x in a finite domain.
    ExistentialFinite,
    /// For all x in a possibly infinite domain.
    UniversalInfinite,
    /// Exists x in a possibly infinite domain.
    ExistentialInfinite,
    /// P if and only if Q.
    Equivalence,
    /// Algebraic identity or equation.
    Algebraic,
    /// Analytic inequality or bound.
    Analytic,
    /// Boolean satisfiability.
    BoolSat,
    /// Find x with f(x) = target.
    ArithFind,
}

/// A variable of a statement and its domain.
#[derive(Debug, Clone)]
pub struct VariableDesc {
    pub name: String,
    pub domain_lo: Option<i64>,
    pub domain_hi: Option<i64>,
    pub is_finite: bool,
}

/// Model of a variable.
pub struct VariableModel {
    pub name: Seq<char>,
    pub domain_lo: Option<i64>,
    pub domain_hi: Option<i64>,
    pub is_finite: bool,
}

impl View for VariableDesc {
    type V = VariableModel;

    open spec fn view(&self) -> VariableModel {
        VariableModel {
            name: self.name@,
            domain_lo: self.domain_lo,
            domain_hi: self.domain_hi,
            is_finite: self.is_finite,
        }
    }
}

/// Model of a statement description.
pub struct DescModel {
    pub kind: StatementKind,
    pub text: Seq<char>,
    pub variables: Seq<VariableModel>,
    pub predicate: Seq<char>,
    pub params: Seq<(Seq<char>, i64)>,
}

impl View for StatementDesc {
    type V = DescModel;

    open spec fn view(&self) -> DescModel {
        DescModel {
            kind: self.kind,
            text: self.text@,
            variables: Seq::new(self.variables@.len(), |i: int| self.variables@[i]@),
            predicate: self.predicate@,
            params: Seq::new(self.params@.len(), |i: int| (self.params@[i].0@, self.params@[i].1)),
        }
    }
}

/// What a schema makes of a statement.
#[derive(Debug)]
pub enum SchemaResult {
    /// A program that decides the statement, and its step bound.
    Success { program: Program, b_star: u64 },
    /// The schema applies, but a bound is missing or too large.
    Failure { goal_statement: String, unresolved_bound: Option<String> },
    /// The schema does not apply to statements of this kind.
    NotApplicable,
}

} // verus!
