//! Building blocks of the decision operator: every well-formed statement S
//! is classified by a witness for S, for its negation, or for its
//! independence IND(S).

use super::core_term::{lemma_args_model, models, CoreCtx, CoreEnv, CoreTerm, Term};
use super::core_term::serialize;
use super::elab::{elab_bytes, elab_statement, elab_witness_bytes, ElabResult};
use super::extract::{extract_rules, extracted, fresh_rules};
use super::generator::{cache_steps, is_placeholder, is_proved_marker, problem_goal, proved_marker_exec};
use super::rewrite::{
    add_all, basis_after_run, rewrite_run, rewrite_run_ok, run_counts_fit, sides, RewriteBasis, RuleModel,
};
use super::solve::{decimal, decimal_string};
use super::statement::{get_statement, is_formalized};
use super::type_check::{defeq, defeq_ok, infer, infer_ok, type_check, CtxModel};
use super::witness::{nth_witness, WitnessEnumerator};
use vstd::prelude::*;

verus! {

broadcast use vstd::string::group_string_axioms;

/// The negation of a goal: `goal -> False`.
pub open spec fn negation(goal: Term) -> Term {
    Term::Pi(Box::new(goal), Box::new(Term::Const("False"@, Seq::empty())))
}

/// The independence type IND(S): `Independent.mk S`.
pub open spec fn independence(goal: Term) -> Term {
    Term::Constructor("Independent"@, "mk"@, seq![goal])
}

/// Construct the negation `Pi (goal) False`.
pub fn negate(goal: &CoreTerm) -> (r: CoreTerm)
    ensures
        r@ == negation(goal@),
{
    let levels: Vec<u32> = Vec::new();
    let f = CoreTerm::Const { name: "False".to_string(), levels };
    assert(levels@ =~= Seq::<u32>::empty());
    proof {
        reveal_with_fuel(CoreTerm::model, 2);
    }
    CoreTerm::Pi { param_type: Box::new(goal.clone()), body: Box::new(f) }
}

/// Construct the independence type `Independent.mk goal`.
pub fn independence_type(goal: &CoreTerm) -> (r: CoreTerm)
    ensures
        r@ == independence(goal@),
{
    let g = goal.clone();
    let args = vec![g];
    assert(models(args@) =~= seq![goal@]);
    let r = CoreTerm::Constructor {
        inductive: "Independent".to_string(),
        ctor_name: "mk".to_string(),
        args,
    };
    proof {
        lemma_args_model(&r);
    }
    r
}

/// Which of S, its negation and its independence a witness proves.
#[derive(Debug, PartialEq, Eq, Structural)]
pub enum Classification {
    /// The witness proves S.
    ProvedTrue,
    /// The witness proves ¬S.
    ProvedFalse,
    /// The witness proves IND(S).
    ProvedIndependent,
}

/// `term` inhabits `goal`: its type equals the goal up to normalization.
pub open spec fn inhabits(ctx: CtxModel, term: Term, goal: Term, env: CoreEnv) -> bool {
    infer(ctx, term, env) matches Ok(t) && defeq(t, goal, env)
}

/// The classification a candidate settles: the first of S, ¬S and IND(S)
/// that it inhabits, in that order; none where it inhabits none of them.
pub open spec fn classification(ctx: CtxModel, term: Term, goal: Term, env: CoreEnv) -> Option<Classification> {
    if inhabits(ctx, term, goal, env) {
        Some(Classification::ProvedTrue)
    } else if inhabits(ctx, term, negation(goal), env) {
        Some(Classification::ProvedFalse)
    } else if inhabits(ctx, term, independence(goal), env) {
        Some(Classification::ProvedIndependent)
    } else {
        None
    }
}

/// Check a candidate witness against S, ¬S and IND(S) in turn; the first
/// that it passes classifies the statement.
pub fn classify_candidate(ctx: &CoreCtx, candidate: &CoreTerm, goal: &CoreTerm, env: &CoreEnv) -> (r: Option<
    Classification,
>)
    requires
        infer_ok(ctx@, candidate@, *env),
        infer(ctx@, candidate@, *env) matches Ok(t) ==> defeq_ok(t, goal@, *env) && defeq_ok(
            t,
            negation(goal@),
            *env,
        ) && defeq_ok(t, independence(goal@), *env),
    ensures
        r == classification(ctx@, candidate@, goal@, *env),
{
    if type_check(ctx, candidate, goal, env).is_pass() {
        return Some(Classification::ProvedTrue);
    }
    let goal_false = negate(goal);
    if type_check(ctx, candidate, &goal_false, env).is_pass() {
        return Some(Classification::ProvedFalse);
    }
    let goal_indep = independence_type(goal);
    if type_check(ctx, candidate, &goal_indep, env).is_pass() {
        return Some(Classification::ProvedIndependent);
    }
    None
}

/// What checking the candidate `c` gives: in three-way mode its
/// classification, otherwise `ProvedTrue` exactly when it proves S.
pub open spec fn candidate_verdict(c: Term, goal: Term, env: CoreEnv, three_way: bool) -> Option<Classification> {
    if three_way {
        classification(Seq::empty(), c, goal, env)
    } else if inhabits(Seq::empty(), c, goal, env) {
        Some(Classification::ProvedTrue)
    } else {
        None
    }
}

/// The candidate `c` can be checked against the goals of the mode within
/// machine integers.
pub open spec fn checkable(c: Term, goal: Term, env: CoreEnv, three_way: bool) -> bool {
    infer_ok(Seq::empty(), c, env) && (infer(Seq::empty(), c, env) matches Ok(t) ==> defeq_ok(t, goal, env)
        && (three_way ==> defeq_ok(t, negation(goal), env) && defeq_ok(t, independence(goal), env)))
}

/// The verdict at rank `k` of the enumeration: none where its bytes do not
/// elaborate to a term.
pub open spec fn verdict_at(k: nat, goal: Term, env: CoreEnv, three_way: bool) -> Option<Classification> {
    match elab_bytes(nth_witness(k)) {
        None => None,
        Some(c) => candidate_verdict(c, goal, env, three_way),
    }
}

/// No rank below `k` has a verdict.
pub open spec fn no_verdict_before(k: nat, goal: Term, env: CoreEnv, three_way: bool) -> bool {
    forall|j: nat| j < k ==> #[trigger] verdict_at(j, goal, env, three_way) is None
}

/// The candidate at rank `k`, if any, can be checked.
pub open spec fn checkable_at(k: nat, goal: Term, env: CoreEnv, three_way: bool) -> bool {
    elab_bytes(nth_witness(k)) matches Some(c) ==> checkable(c, goal, env, three_way)
}

/// Every candidate the enumeration checks before it stops, at a verdict or
/// after `budget` ranks, can be checked.
pub open spec fn checkable_until(budget: nat, goal: Term, env: CoreEnv, three_way: bool) -> bool {
    forall|k: nat|
        k < budget && no_verdict_before(k, goal, env, three_way) ==> #[trigger] checkable_at(
            k,
            goal,
            env,
            three_way,
        )
}

/// The least rank in `[from, budget)` with a verdict, and that verdict.
pub open spec fn first_verdict(from: nat, budget: nat, goal: Term, env: CoreEnv, three_way: bool) -> Option<
    (nat, Classification),
>
    decreases budget - from,
{
    if from >= budget {
        None
    } else {
        match verdict_at(from, goal, env, three_way) {
            Some(c) => Some((from, c)),
            None => first_verdict(from + 1, budget, goal, env, three_way),
        }
    }
}

/// Where an enumeration of candidates stopped.
#[derive(Debug)]
pub enum WitnessSearch {
    /// The least candidate with a verdict.
    Found { rank: u64, witness: Vec<u8>, candidate: CoreTerm, classification: Classification },
    /// The budget of candidates ran out first.
    Computing { candidates_computed: u64, current_rank: u64 },
}

/// Checks a candidate against the goals of the mode.
fn candidate_verdict_exec(c: &CoreTerm, goal: &CoreTerm, env: &CoreEnv, three_way: bool) -> (r: Option<
    Classification,
>)
    requires
        checkable(c@, goal@, *env, three_way),
    ensures
        r == candidate_verdict(c@, goal@, *env, three_way),
{
    let ctx = CoreCtx::new();
    if three_way {
        classify_candidate(&ctx, c, goal, env)
    } else if type_check(&ctx, c, goal, env).is_pass() {
        Some(Classification::ProvedTrue)
    } else {
        None
    }
}

/// Runs through the witnesses in rank order, elaborating each into a
/// candidate and checking it, until a candidate has a verdict or `budget`
/// candidates have been computed.
pub(crate) fn enumerate_verdicts(goal: &CoreTerm, env: &CoreEnv, budget: u64, three_way: bool) -> (r: WitnessSearch)
    requires
        checkable_until(budget as nat, goal@, *env, three_way),
    ensures
        match first_verdict(0, budget as nat, goal@, *env, three_way) {
            Some((k, v)) => r matches WitnessSearch::Found { rank, witness, candidate, classification }
                && rank == k && witness@ == nth_witness(k) && classification == v && elab_bytes(
                nth_witness(k),
            ) == Some(candidate@),
            None => r matches WitnessSearch::Computing { candidates_computed, current_rank }
                && candidates_computed == budget && current_rank == budget,
        },
{
    let mut enumerator = WitnessEnumerator::new();
    let mut checked: u64 = 0;
    while checked < budget
        invariant
            enumerator.spec_rank() == checked,
            checked <= budget,
            checkable_until(budget as nat, goal@, *env, three_way),
            no_verdict_before(checked as nat, goal@, *env, three_way),
            first_verdict(0, budget as nat, goal@, *env, three_way) == first_verdict(
                checked as nat,
                budget as nat,
                goal@,
                *env,
                three_way,
            ),
        decreases budget - checked,
    {
        let (rank, bytes) = match enumerator.next() {
            Some(x) => x,
            None => (0, Vec::new()),
        };
        assert(rank == checked && bytes@ == nth_witness(checked as nat));
        let ghost k = checked as nat;
        assert(checkable_at(k, goal@, *env, three_way));
        match elab_witness_bytes(bytes.as_slice()) {
            None => {
                assert(verdict_at(k, goal@, *env, three_way) is None);
            },
            Some(candidate) => {
                assert(elab_bytes(nth_witness(k)) matches Some(c) && c == candidate@);
                let v = candidate_verdict_exec(&candidate, goal, env, three_way);
                if let Some(classification) = v {
                    return WitnessSearch::Found { rank, witness: bytes, candidate, classification };
                }
            },
        }
        assert(verdict_at(k, goal@, *env, three_way) is None);
        checked = checked + 1;
        assert(no_verdict_before(checked as nat, goal@, *env, three_way)) by {
            assert forall|j: nat| j < checked implies #[trigger] verdict_at(j, goal@, *env, three_way) is None by {
                if j < k {
                    assert(no_verdict_before(k, goal@, *env, three_way));
                }
            }
        }
    }
    WitnessSearch::Computing { candidates_computed: budget, current_rank: budget }
}

/// The three-way computation of the decision operator, for at most
/// `budget` candidates: the least witness that proves S, ¬S or IND(S),
/// checked in that order, with its classification.
pub fn decide_by_enumeration(goal: &CoreTerm, env: &CoreEnv, budget: u64) -> (r: WitnessSearch)
    requires
        checkable_until(budget as nat, goal@, *env, true),
    ensures
        match first_verdict(0, budget as nat, goal@, *env, true) {
            Some((k, v)) => r matches WitnessSearch::Found { rank, witness, candidate, classification }
                && rank == k && witness@ == nth_witness(k) && classification == v && elab_bytes(
                nth_witness(k),
            ) == Some(candidate@),
            None => r matches WitnessSearch::Computing { candidates_computed, current_rank }
                && candidates_computed == budget && current_rank == budget,
        },
{
    enumerate_verdicts(goal, env, budget, true)
}

/// The goal whose proof a classification stands for: S, ¬S or IND(S).
pub open spec fn classified_goal(goal: Term, c: Classification) -> Term {
    match c {
        Classification::ProvedTrue => goal,
        Classification::ProvedFalse => negation(goal),
        Classification::ProvedIndependent => independence(goal),
    }
}

/// The tag of a classification in the method text.
pub open spec fn classification_tag(c: Classification) -> Seq<char> {
    match c {
        Classification::ProvedTrue => "TRUE"@,
        Classification::ProvedFalse => "FALSE"@,
        Classification::ProvedIndependent => "IND"@,
    }
}

/// A decision for the problem stays within machine integers: the basis's
/// normalization of S, and the candidates checked when the basis does not
/// answer.
pub open spec fn decision_fits(b: Seq<RuleModel>, env: CoreEnv, budget: nat, id: Seq<char>) -> bool {
    !is_placeholder(id) ==> {
        let goal = problem_goal(id);
        &&& rewrite_run_ok(sides(b), goal, env, cache_steps())
        &&& run_counts_fit(b, goal, env, cache_steps())
        &&& (!is_proved_marker(rewrite_run(sides(b), goal, env, cache_steps()).0) ==> checkable_until(
            budget,
            goal,
            env,
            true,
        ))
    }
}

/// The classification of a statement.
#[derive(Debug)]
pub enum Decision {
    /// A witness proves S.
    ProvedTrue { statement_id: String, witness: CoreTerm, method: String, rank: u64, rules_extracted: usize },
    /// A witness proves ¬S.
    ProvedFalse {
        statement_id: String,
        counterexample: CoreTerm,
        method: String,
        rank: u64,
        rules_extracted: usize,
    },
    /// A witness proves IND(S).
    ProvedIndependent {
        statement_id: String,
        independence_proof: CoreTerm,
        method: String,
        rank: u64,
        rules_extracted: usize,
    },
    /// The snapshot budget ran out first.
    Computing { statement_id: String, candidates_computed: u64, current_rank: u64 },
    /// The statement is not in the universe: it is not formalized.
    NotInUniverse { statement_id: String, reason: String },
}

impl Decision {
    pub fn is_decided(&self) -> (b: bool)
        ensures
            b == (self is ProvedTrue || self is ProvedFalse || self is ProvedIndependent),
    {
        match self {
            Decision::ProvedTrue { .. } | Decision::ProvedFalse { .. } | Decision::ProvedIndependent { .. } => true,
            _ => false,
        }
    }

    pub fn is_proved_true(&self) -> (b: bool)
        ensures
            b == (self is ProvedTrue),
    {
        match self {
            Decision::ProvedTrue { .. } => true,
            _ => false,
        }
    }

    pub fn status_str(&self) -> (s: &str)
        ensures
            s@ == (match self {
                Decision::ProvedTrue { .. } => "PROVED(S)"@,
                Decision::ProvedFalse { .. } => "PROVED(¬S)"@,
                Decision::ProvedIndependent { .. } => "PROVED(IND)"@,
                Decision::Computing { .. } => "COMPUTING"@,
                Decision::NotInUniverse { .. } => "NOT_IN_𝒰"@,
            }),
    {
        match self {
            Decision::ProvedTrue { .. } => "PROVED(S)",
            Decision::ProvedFalse { .. } => "PROVED(¬S)",
            Decision::ProvedIndependent { .. } => "PROVED(IND)",
            Decision::Computing { .. } => "COMPUTING",
            Decision::NotInUniverse { .. } => "NOT_IN_𝒰",
        }
    }

    pub fn problem_id(&self) -> (s: &str)
        ensures
            s@ == (match self {
                Decision::ProvedTrue { statement_id, .. } => statement_id@,
                Decision::ProvedFalse { statement_id, .. } => statement_id@,
                Decision::ProvedIndependent { statement_id, .. } => statement_id@,
                Decision::Computing { statement_id, .. } => statement_id@,
                Decision::NotInUniverse { statement_id, .. } => statement_id@,
            }),
    {
        match self {
            Decision::ProvedTrue { statement_id, .. } => statement_id.as_str(),
            Decision::ProvedFalse { statement_id, .. } => statement_id.as_str(),
            Decision::ProvedIndependent { statement_id, .. } => statement_id.as_str(),
            Decision::Computing { statement_id, .. } => statement_id.as_str(),
            Decision::NotInUniverse { statement_id, .. } => statement_id.as_str(),
        }
    }
}

/// The decision operator: its rewrite basis (the compiled cache of
/// decisions), the definitions, and the number of candidates it computes
/// before it reports a snapshot.
pub struct PiDecide {
    pub basis: RewriteBasis,
    pub env: CoreEnv,
    pub snapshot_budget: u64,
}

impl PiDecide {
    /// An operator with an empty basis, run as far as ranks go.
    pub fn new() -> (d: PiDecide)
        ensures
            d.basis@ == Seq::<RuleModel>::empty(),
            d.env.defs() == Seq::<super::core_term::CoreDef>::empty(),
            d.snapshot_budget == u64::MAX,
    {
        PiDecide { basis: RewriteBasis::new(), env: CoreEnv::new(), snapshot_budget: u64::MAX }
    }

    /// An operator that reports a snapshot after `budget` candidates.
    pub fn testing(budget: u64) -> (d: PiDecide)
        ensures
            d.basis@ == Seq::<RuleModel>::empty(),
            d.env.defs() == Seq::<super::core_term::CoreDef>::empty(),
            d.snapshot_budget == budget,
    {
        PiDecide { basis: RewriteBasis::new(), env: CoreEnv::new(), snapshot_budget: budget }
    }

    /// Classify the problem `problem_id` as true, false or independent: by
    /// the basis's answer for S, else by the least witness that proves S,
    /// ¬S or IND(S), whose proof is then compiled into the basis.
    pub fn decide(&mut self, problem_id: &str) -> (r: Decision)
        requires
            decision_fits(old(self).basis@, old(self).env, old(self).snapshot_budget as nat, problem_id@),
        ensures
            final(self).env == old(self).env,
            final(self).snapshot_budget == old(self).snapshot_budget,
            is_placeholder(problem_id@) ==> (r matches Decision::NotInUniverse { statement_id, reason }
                && statement_id@ == problem_id@ && reason@ == "'"@ + problem_id@
                + "' has placeholder formalization"@ && final(self).basis@ == old(self).basis@),
            ({
                let goal = problem_goal(problem_id@);
                let env = old(self).env;
                let budget = old(self).snapshot_budget;
                let run = rewrite_run(sides(old(self).basis@), goal, env, cache_steps());
                let normalized = basis_after_run(old(self).basis@, goal, env, cache_steps());
                !is_placeholder(problem_id@) ==> if is_proved_marker(run.0) {
                    &&& r matches Decision::ProvedTrue { statement_id, witness, method, rank, rules_extracted }
                        && statement_id@ == problem_id@ && witness@ == run.0 && method@ == "R_cache"@ && rank
                        == 0 && rules_extracted == 0
                    &&& final(self).basis@ == normalized
                } else {
                    match first_verdict(0, budget as nat, goal, env, true) {
                        Some((k, c)) => {
                            let w = elab_bytes(nth_witness(k))->Some_0;
                            let g = classified_goal(goal, c);
                            &&& match c {
                                Classification::ProvedTrue => r matches Decision::ProvedTrue {
                                    statement_id,
                                    witness,
                                    method,
                                    rank,
                                    rules_extracted,
                                } && statement_id@ == problem_id@ && witness@ == w && rank == k && method@
                                    == "G_decide(rank="@ + decimal(k) + ",TRUE)"@ && rules_extracted
                                    == extracted(w, g).len(),
                                Classification::ProvedFalse => r matches Decision::ProvedFalse {
                                    statement_id,
                                    counterexample,
                                    method,
                                    rank,
                                    rules_extracted,
                                } && statement_id@ == problem_id@ && counterexample@ == w && rank == k && method@
                                    == "G_decide(rank="@ + decimal(k) + ",FALSE)"@ && rules_extracted
                                    == extracted(w, g).len(),
                                Classification::ProvedIndependent => r matches Decision::ProvedIndependent {
                                    statement_id,
                                    independence_proof,
                                    method,
                                    rank,
                                    rules_extracted,
                                } && statement_id@ == problem_id@ && independence_proof@ == w && rank == k
                                    && method@ == "G_decide(rank="@ + decimal(k) + ",IND)"@ && rules_extracted
                                    == extracted(w, g).len(),
                            }
                            &&& final(self).basis@ == add_all(normalized, fresh_rules(extracted(w, g), serialize(w)))
                        },
                        None => r matches Decision::Computing { statement_id, candidates_computed, current_rank }
                            && statement_id@ == problem_id@ && candidates_computed == budget && current_rank
                            == budget && final(self).basis@ == normalized,
                    }
                }
            }),
    {
        let statement = get_statement(problem_id);
        if !is_formalized(&statement) {
            let reason = "'".to_string().concat(problem_id).concat("' has placeholder formalization");
            return Decision::NotInUniverse { statement_id: problem_id.to_string(), reason };
        }
        let goal = match elab_statement(&statement) {
            ElabResult::Elaborated { goal, .. } => goal,
            ElabResult::IllTyped { statement_id } => {
                let reason = "statement '".to_string().concat(statement_id.as_str()).concat(
                    "' has placeholder formalization (True)",
                );
                return Decision::NotInUniverse { statement_id: problem_id.to_string(), reason };
            },
        };
        let ghost b0 = self.basis@;
        let (nf, _) = self.basis.normalize(&goal, &self.env, 10000);
        assert(self.basis@ =~= basis_after_run(b0, goal@, self.env, cache_steps()));
        if proved_marker_exec(&nf) {
            return Decision::ProvedTrue {
                statement_id: problem_id.to_string(),
                witness: nf,
                method: "R_cache".to_string(),
                rank: 0,
                rules_extracted: 0,
            };
        }
        match decide_by_enumeration(&goal, &self.env, self.snapshot_budget) {
            WitnessSearch::Found { rank, candidate, classification, .. } => {
                let d = decimal_string(rank);
                let prefix = "G_decide(rank=".to_string().concat(d.as_str());
                match classification {
                    Classification::ProvedTrue => {
                        let rules = extract_rules(&candidate, &goal);
                        let n = rules.len();
                        self.basis.add_rules(rules);
                        Decision::ProvedTrue {
                            statement_id: problem_id.to_string(),
                            witness: candidate,
                            method: prefix.concat(",TRUE)"),
                            rank,
                            rules_extracted: n,
                        }
                    },
                    Classification::ProvedFalse => {
                        let goal_false = negate(&goal);
                        let rules = extract_rules(&candidate, &goal_false);
                        let n = rules.len();
                        self.basis.add_rules(rules);
                        Decision::ProvedFalse {
                            statement_id: problem_id.to_string(),
                            counterexample: candidate,
                            method: prefix.concat(",FALSE)"),
                            rank,
                            rules_extracted: n,
                        }
                    },
                    Classification::ProvedIndependent => {
                        let goal_indep = independence_type(&goal);
                        let rules = extract_rules(&candidate, &goal_indep);
                        let n = rules.len();
                        self.basis.add_rules(rules);
                        Decision::ProvedIndependent {
                            statement_id: problem_id.to_string(),
                            independence_proof: candidate,
                            method: prefix.concat(",IND)"),
                            rank,
                            rules_extracted: n,
                        }
                    },
                }
            },
            WitnessSearch::Computing { candidates_computed, current_rank } => Decision::Computing {
                statement_id: problem_id.to_string(),
                candidates_computed,
                current_rank,
            },
        }
    }
}

/// Summary of a decision run over the universe of statements.
#[derive(Debug, Clone)]
pub struct DecideEvidence {
    pub decided_count: usize,
    pub decided_ids: Vec<String>,
    pub total_in_universe: usize,
    pub basis_size: usize,
    pub is_complete: bool,
}

} // verus!
