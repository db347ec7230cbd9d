//! The witness generator G.
//!
//! G(S) = the rewrite basis's answer for S, else the least witness under
//! the enumeration order whose candidate type-checks against S. A proof G
//! finds is compiled into rules of the basis, so the same goal is answered
//! at once the next time. Statements with only the placeholder
//! formalization `True` are not in the universe G works on.

use super::core_term::{lemma_args_model, serialize, CoreEnv, CoreTerm, Term};
use super::decide::{checkable_until, enumerate_verdicts, first_verdict, WitnessSearch};
use super::elab::{elab_bytes, elab_statement, lean_prop, ElabResult};
use super::extract::{extract_rules, extracted, fresh_rules};
use super::rewrite::{
    add_all, basis_after_run, rewrite_run, rewrite_run_ok, run_counts_fit, sides, RewriteBasis, RuleModel,
};
use super::solve::{decimal, decimal_string};
use super::statement::{get_statement, is_formalized, statement_of, str_eq};
use super::witness::nth_witness;
use vstd::prelude::*;

verus! {

/// The collected (statement, proof) evidence of a generator run.
#[derive(Debug)]
pub struct CompleteEvidence {
    /// Number of problems proved so far.
    pub proved_count: usize,
    /// Identifiers of the proved problems.
    pub proved_ids: Vec<String>,
    /// Number of statements in the universe.
    pub total_in_universe: usize,
    /// Number of rules compiled from proofs.
    pub basis_size: usize,
    /// Whether every statement of the universe is proved.
    pub is_complete: bool,
}

/// The computation G(S), for at most `budget` candidates: the least
/// witness whose candidate proves S.
pub fn generate_by_enumeration(goal: &CoreTerm, env: &CoreEnv, budget: u64) -> (r: WitnessSearch)
    requires
        checkable_until(budget as nat, goal@, *env, false),
    ensures
        match first_verdict(0, budget as nat, goal@, *env, false) {
            Some((k, v)) => r matches WitnessSearch::Found { rank, witness, candidate, classification }
                && rank == k && witness@ == nth_witness(k) && classification == v && elab_bytes(
                nth_witness(k),
            ) == Some(candidate@),
            None => r matches WitnessSearch::Computing { candidates_computed, current_rank }
                && candidates_computed == budget && current_rank == budget,
        },
{
    enumerate_verdicts(goal, env, budget, false)
}

/// Steps the rewrite basis gets to answer a goal.
pub open spec fn cache_steps() -> nat {
    10000
}

/// The marker term `Proved.mk ..`, the basis's answer that a goal is proved.
pub open spec fn is_proved_marker(t: Term) -> bool {
    t matches Term::Constructor(tn, cn, _) && tn == "Proved"@ && cn == "mk"@
}

pub(crate) fn proved_marker_exec(t: &CoreTerm) -> (b: bool)
    ensures
        b == is_proved_marker(t@),
{
    proof {
        lemma_args_model(t);
    }
    match t {
        CoreTerm::Constructor { inductive, ctor_name, .. } => str_eq(inductive.as_str(), "Proved") && str_eq(
            ctor_name.as_str(),
            "mk",
        ),
        _ => false,
    }
}

/// The goal of a problem: its elaborated Lean proposition.
pub open spec fn problem_goal(id: Seq<char>) -> Term {
    lean_prop(statement_of(id).lean_prop)
}

/// The problem has only the placeholder formalization `True`.
pub open spec fn is_placeholder(id: Seq<char>) -> bool {
    statement_of(id).lean_prop == "True"@
}

/// Why a placeholder problem is not in the universe.
pub open spec fn placeholder_reason(id: Seq<char>) -> Seq<char> {
    "'"@ + id + "' has placeholder formalization (True)"@
}

/// A computation for the problem stays within machine integers: the
/// basis's normalization of its goal, and the candidates checked when the
/// basis does not answer.
pub open spec fn generation_fits(b: Seq<RuleModel>, env: CoreEnv, budget: nat, id: Seq<char>) -> bool {
    !is_placeholder(id) ==> {
        let goal = problem_goal(id);
        &&& rewrite_run_ok(sides(b), goal, env, cache_steps())
        &&& run_counts_fit(b, goal, env, cache_steps())
        &&& (!is_proved_marker(rewrite_run(sides(b), goal, env, cache_steps()).0) ==> checkable_until(
            budget,
            goal,
            env,
            false,
        ))
    }
}

/// Result of the generator.
#[derive(Debug)]
pub enum GeneratorResult {
    /// The proof was found.
    Proved {
        statement_id: String,
        witness: CoreTerm,
        witness_bytes: Vec<u8>,
        method: String,
        rank: u64,
        rules_extracted: usize,
    },
    /// The snapshot budget ran out first.
    Computing { statement_id: String, candidates_computed: u64, current_rank: u64 },
    /// The statement is not in the universe: it is not formalized.
    NotInUniverse { statement_id: String, reason: String },
}

impl GeneratorResult {
    pub fn is_proved(&self) -> (b: bool)
        ensures
            b == (self is Proved),
    {
        match self {
            GeneratorResult::Proved { .. } => true,
            _ => false,
        }
    }

    pub fn is_computing(&self) -> (b: bool)
        ensures
            b == (self is Computing),
    {
        match self {
            GeneratorResult::Computing { .. } => true,
            _ => false,
        }
    }

    pub fn status_str(&self) -> (s: &str)
        ensures
            s@ == (match self {
                GeneratorResult::Proved { .. } => "PROVED"@,
                GeneratorResult::Computing { .. } => "COMPUTING"@,
                GeneratorResult::NotInUniverse { .. } => "NOT_IN_𝒰"@,
            }),
    {
        match self {
            GeneratorResult::Proved { .. } => "PROVED",
            GeneratorResult::Computing { .. } => "COMPUTING",
            GeneratorResult::NotInUniverse { .. } => "NOT_IN_𝒰",
        }
    }

    pub fn problem_id(&self) -> (s: &str)
        ensures
            s@ == (match self {
                GeneratorResult::Proved { statement_id, .. } => statement_id@,
                GeneratorResult::Computing { statement_id, .. } => statement_id@,
                GeneratorResult::NotInUniverse { statement_id, .. } => statement_id@,
            }),
    {
        match self {
            GeneratorResult::Proved { statement_id, .. } => statement_id.as_str(),
            GeneratorResult::Computing { statement_id, .. } => statement_id.as_str(),
            GeneratorResult::NotInUniverse { statement_id, .. } => statement_id.as_str(),
        }
    }
}

/// The generator: its rewrite basis (the compiled cache of the proofs it
/// found), the definitions, and the number of candidates it computes
/// before it reports a snapshot.
pub struct Generator {
    pub basis: RewriteBasis,
    pub env: CoreEnv,
    pub snapshot_budget: u64,
}

impl Generator {
    /// A generator with an empty basis, run as far as ranks go.
    pub fn new() -> (g: Generator)
        ensures
            g.basis@ == Seq::<RuleModel>::empty(),
            g.env.defs() == Seq::<super::core_term::CoreDef>::empty(),
            g.snapshot_budget == u64::MAX,
    {
        Generator { basis: RewriteBasis::new(), env: CoreEnv::new(), snapshot_budget: u64::MAX }
    }

    /// A generator that reports a snapshot after `budget` candidates.
    pub fn testing(budget: u64) -> (g: Generator)
        ensures
            g.basis@ == Seq::<RuleModel>::empty(),
            g.env.defs() == Seq::<super::core_term::CoreDef>::empty(),
            g.snapshot_budget == budget,
    {
        Generator { basis: RewriteBasis::new(), env: CoreEnv::new(), snapshot_budget: budget }
    }

    /// G(S) for the problem `problem_id`.
    pub fn generate(&mut self, problem_id: &str) -> (r: GeneratorResult)
        requires
            generation_fits(old(self).basis@, old(self).env, old(self).snapshot_budget as nat, problem_id@),
        ensures
            final(self).env == old(self).env,
            final(self).snapshot_budget == old(self).snapshot_budget,
            is_placeholder(problem_id@) ==> (r matches GeneratorResult::NotInUniverse { statement_id, reason }
                && statement_id@ == problem_id@ && reason@ == placeholder_reason(problem_id@)
                && final(self).basis@ == old(self).basis@),
            ({
                let goal = problem_goal(problem_id@);
                let env = old(self).env;
                let budget = old(self).snapshot_budget;
                let run = rewrite_run(sides(old(self).basis@), goal, env, cache_steps());
                let normalized = basis_after_run(old(self).basis@, goal, env, cache_steps());
                !is_placeholder(problem_id@) ==> if is_proved_marker(run.0) {
                    &&& r matches GeneratorResult::Proved {
                        statement_id,
                        witness,
                        witness_bytes,
                        method,
                        rank,
                        rules_extracted,
                    } && statement_id@ == problem_id@ && witness@ == run.0 && witness_bytes@ == serialize(run.0)
                        && method@ == "R_cache"@ && rank == 0 && rules_extracted == 0
                    &&& final(self).basis@ == normalized
                } else {
                    match first_verdict(0, budget as nat, goal, env, false) {
                        Some((k, _)) => r matches GeneratorResult::Proved {
                            statement_id,
                            witness,
                            witness_bytes,
                            method,
                            rank,
                            rules_extracted,
                        } && statement_id@ == problem_id@ && rank == k && elab_bytes(nth_witness(k)) == Some(
                            witness@,
                        ) && witness_bytes@ == nth_witness(k) && method@ == "G_compute(rank="@ + decimal(k)
                            + ")"@ && rules_extracted == extracted(witness@, goal).len() && final(self).basis@
                            == add_all(normalized, fresh_rules(extracted(witness@, goal), serialize(witness@))),
                        None => r matches GeneratorResult::Computing {
                            statement_id,
                            candidates_computed,
                            current_rank,
                        } && statement_id@ == problem_id@ && candidates_computed == budget && current_rank
                            == budget && final(self).basis@ == normalized,
                    }
                }
            }),
    {
        let statement = get_statement(problem_id);
        if !is_formalized(&statement) {
            let reason = "'".to_string().concat(problem_id).concat("' has placeholder formalization (True)");
            return GeneratorResult::NotInUniverse { statement_id: problem_id.to_string(), reason };
        }
        let goal = match elab_statement(&statement) {
            ElabResult::Elaborated { goal, .. } => goal,
            ElabResult::IllTyped { statement_id } => {
                let reason = "statement '".to_string().concat(statement_id.as_str()).concat(
                    "' has placeholder formalization (True)",
                );
                return GeneratorResult::NotInUniverse { statement_id: problem_id.to_string(), reason };
            },
        };
        let ghost b0 = self.basis@;
        let (nf, _) = self.basis.normalize(&goal, &self.env, 10000);
        assert(self.basis@ =~= basis_after_run(b0, goal@, self.env, cache_steps()));
        if proved_marker_exec(&nf) {
            let witness_bytes = nf.to_bytes();
            return GeneratorResult::Proved {
                statement_id: problem_id.to_string(),
                witness: nf,
                witness_bytes,
                method: "R_cache".to_string(),
                rank: 0,
                rules_extracted: 0,
            };
        }
        match generate_by_enumeration(&goal, &self.env, self.snapshot_budget) {
            WitnessSearch::Found { rank, witness, candidate, .. } => {
                let rules = extract_rules(&candidate, &goal);
                let n = rules.len();
                self.basis.add_rules(rules);
                let d = decimal_string(rank);
                let method = "G_compute(rank=".to_string().concat(d.as_str()).concat(")");
                GeneratorResult::Proved {
                    statement_id: problem_id.to_string(),
                    witness: candidate,
                    witness_bytes: witness,
                    method,
                    rank,
                    rules_extracted: n,
                }
            },
            WitnessSearch::Computing { candidates_computed, current_rank } => GeneratorResult::Computing {
                statement_id: problem_id.to_string(),
                candidates_computed,
                current_rank,
            },
        }
    }
}

} // verus!
