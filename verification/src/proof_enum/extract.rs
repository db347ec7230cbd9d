//! Rule extraction: a verified proof becomes rewrite rules.
//!
//! When the checker accepts a witness for a goal, the goal rewrites to the
//! marker `Proved.mk goal`, so that the same goal is recognised at once the
//! next time; and the proof's structure yields further rules: each
//! application of an application, and the same inside lambda bodies, `let`
//! parts and constructor arguments of more than two nodes. Every rule
//! carries the witness's bytes as its soundness proof.

use super::core_term::{args_size, lemma_args_model, models, term_size, CoreTerm, Term};
use super::rewrite::{make_rule, rule_models, RewriteRule, RuleModel};
use vstd::prelude::*;

verus! {

broadcast use vstd::string::group_string_axioms;

/// The marker `Proved.mk goal`: the goal is already proved.
pub open spec fn proved_marker(goal: Term) -> Term {
    Term::Constructor("Proved"@, "mk"@, seq![goal])
}

/// The rules a proof term yields beyond the goal's own rule.
pub open spec fn sublemmas(t: Term) -> Seq<(Term, Term)>
    decreases t,
{
    match t {
        Term::App(f, a) => (if *f is App {
            seq![(t, t)]
        } else {
            Seq::empty()
        }) + sublemmas(*f) + sublemmas(*a),
        Term::Lam(_, body) => sublemmas(*body),
        Term::Let(_, v, body) => sublemmas(*v) + sublemmas(*body),
        Term::Constructor(_, _, args) => sublemmas_args(args),
        _ => Seq::empty(),
    }
}

/// The rules of the constructor arguments of more than two nodes.
pub open spec fn sublemmas_args(args: Seq<Term>) -> Seq<(Term, Term)>
    decreases args,
{
    if args.len() == 0 {
        Seq::empty()
    } else {
        sublemmas_args(args.drop_last()) + if term_size(args.last()) > 2 {
            sublemmas(args.last())
        } else {
            Seq::empty()
        }
    }
}

/// All the rules a proof of `goal` yields: first `goal → Proved.mk goal`,
/// then the sub-lemmas of the proof.
pub open spec fn extracted(witness: Term, goal: Term) -> Seq<(Term, Term)> {
    seq![(goal, proved_marker(goal))] + sublemmas(witness)
}

/// Fresh rules for the pairs `pairs`, each with the proof `proof`.
pub open spec fn fresh_rules(pairs: Seq<(Term, Term)>, proof: Seq<u8>) -> Seq<RuleModel> {
    Seq::new(pairs.len(), |i: int| RuleModel { lhs: pairs[i].0, rhs: pairs[i].1, proof, count: 0 })
}

proof fn lemma_size_positive(t: Term)
    ensures
        term_size(t) >= 1,
{
}

proof fn lemma_args_size_len(args: Seq<Term>)
    ensures
        args_size(args) >= args.len(),
    decreases args.len(),
{
    if args.len() > 0 {
        lemma_args_size_len(args.drop_last());
        lemma_size_positive(args.last());
    }
}

/// Whether a term has at size at least two: anything but an atom or a
/// constructor or recursor without arguments.
fn size_at_least_two(t: &CoreTerm) -> (b: bool)
    ensures
        b == (term_size(t@) >= 2),
{
    proof {
        lemma_args_model(t);
        reveal_with_fuel(CoreTerm::model, 2);
    }
    match t {
        CoreTerm::Lam { param_type, body } => {
            proof {
                lemma_size_positive(param_type@);
                lemma_size_positive(body@);
            }
            true
        },
        CoreTerm::Pi { param_type, body } => {
            proof {
                lemma_size_positive(param_type@);
                lemma_size_positive(body@);
            }
            true
        },
        CoreTerm::App { func, arg } => {
            proof {
                lemma_size_positive(func@);
                lemma_size_positive(arg@);
            }
            true
        },
        CoreTerm::Let { bound_type, value, body } => {
            proof {
                lemma_size_positive(bound_type@);
            }
            true
        },
        CoreTerm::Constructor { args, .. } => {
            proof {
                lemma_args_size_len(models(args@));
                if args@.len() == 0 {
                    assert(models(args@) =~= Seq::<Term>::empty());
                }
            }
            args.len() >= 1
        },
        CoreTerm::Recursor { args, .. } => {
            proof {
                lemma_args_size_len(models(args@));
                if args@.len() == 0 {
                    assert(models(args@) =~= Seq::<Term>::empty());
                }
            }
            args.len() >= 1
        },
        _ => false,
    }
}

/// Whether a term has more than two nodes.
fn size_above_two(t: &CoreTerm) -> (b: bool)
    ensures
        b == (term_size(t@) > 2),
{
    proof {
        lemma_args_model(t);
        reveal_with_fuel(CoreTerm::model, 2);
    }
    match t {
        CoreTerm::Lam { param_type, body } => {
            proof {
                lemma_size_positive(param_type@);
                lemma_size_positive(body@);
            }
            true
        },
        CoreTerm::Pi { param_type, body } => {
            proof {
                lemma_size_positive(param_type@);
                lemma_size_positive(body@);
            }
            true
        },
        CoreTerm::App { func, arg } => {
            proof {
                lemma_size_positive(func@);
                lemma_size_positive(arg@);
            }
            true
        },
        CoreTerm::Let { bound_type, value, body } => {
            proof {
                lemma_size_positive(bound_type@);
                lemma_size_positive(value@);
                lemma_size_positive(body@);
            }
            true
        },
        CoreTerm::Constructor { args, .. } => {
            let ghost ms = models(args@);
            proof {
                lemma_args_size_len(ms);
                if ms.len() == 1 {
                    assert(ms.drop_last() =~= Seq::<Term>::empty());
                    assert(args_size(ms.drop_last()) == 0);
                    assert(args_size(ms) == term_size(args@[0]@));
                }
                if ms.len() == 0 {
                    assert(ms =~= Seq::<Term>::empty());
                }
            }
            args.len() >= 2 || (args.len() == 1 && size_at_least_two(&args[0]))
        },
        CoreTerm::Recursor { args, .. } => {
            let ghost ms = models(args@);
            proof {
                lemma_args_size_len(ms);
                if ms.len() == 1 {
                    assert(ms.drop_last() =~= Seq::<Term>::empty());
                    assert(args_size(ms.drop_last()) == 0);
                    assert(args_size(ms) == term_size(args@[0]@));
                }
                if ms.len() == 0 {
                    assert(ms =~= Seq::<Term>::empty());
                }
            }
            args.len() >= 2 || (args.len() == 1 && size_at_least_two(&args[0]))
        },
        _ => false,
    }
}

/// Appends the sub-lemma rules of `term`.
fn extract_sublemmas(term: &CoreTerm, proof: &[u8], rules: &mut Vec<RewriteRule>)
    ensures
        rule_models(final(rules)@) == rule_models(old(rules)@) + fresh_rules(sublemmas(term@), proof@),
    decreases term,
{
    proof {
        lemma_args_model(term);
        reveal_with_fuel(CoreTerm::model, 2);
    }
    let ghost start = rule_models(rules@);
    match term {
        CoreTerm::App { func, arg } => {
            let ghost before = rules@;
            let nested = match &**func {
                CoreTerm::App { .. } => true,
                _ => false,
            };
            if nested {
                rules.push(make_rule(term.clone(), term.clone(), proof));
                assert(rule_models(rules@) =~= rule_models(before) + fresh_rules(seq![(term@, term@)], proof@));
            } else {
                assert(rule_models(rules@) =~= rule_models(before) + fresh_rules(Seq::empty(), proof@));
            }
            let ghost own = if nested {
                seq![(term@, term@)]
            } else {
                Seq::<(Term, Term)>::empty()
            };
            extract_sublemmas(func, proof, rules);
            extract_sublemmas(arg, proof, rules);
            assert(fresh_rules(own + sublemmas(func@) + sublemmas(arg@), proof@) =~= fresh_rules(own, proof@)
                + fresh_rules(sublemmas(func@), proof@) + fresh_rules(sublemmas(arg@), proof@));
            assert(rule_models(rules@) =~= start + fresh_rules(sublemmas(term@), proof@));
        },
        CoreTerm::Lam { param_type, body } => {
            extract_sublemmas(body, proof, rules);
        },
        CoreTerm::Let { bound_type, value, body } => {
            extract_sublemmas(value, proof, rules);
            extract_sublemmas(body, proof, rules);
            assert(fresh_rules(sublemmas(value@) + sublemmas(body@), proof@) =~= fresh_rules(
                sublemmas(value@),
                proof@,
            ) + fresh_rules(sublemmas(body@), proof@));
            assert(rule_models(rules@) =~= start + fresh_rules(sublemmas(term@), proof@));
        },
        CoreTerm::Constructor { args, .. } => {
            extract_args(args, proof, rules);
        },
        _ => {
            assert(rule_models(rules@) =~= start + fresh_rules(Seq::empty(), proof@));
        },
    }
}

/// Appends the sub-lemma rules of the arguments of more than two nodes.
fn extract_args(args: &Vec<CoreTerm>, proof: &[u8], rules: &mut Vec<RewriteRule>)
    ensures
        rule_models(final(rules)@) == rule_models(old(rules)@) + fresh_rules(
            sublemmas_args(models(args@)),
            proof@,
        ),
    decreases args,
{
    let ghost ms = models(args@);
    let ghost start = rule_models(rules@);
    let mut i: usize = 0;
    while i < args.len()
        invariant
            i <= args@.len(),
            ms == models(args@),
            rule_models(rules@) == start + fresh_rules(sublemmas_args(ms.take(i as int)), proof@),
        decreases args@.len() - i,
    {
        let ghost mid = rule_models(rules@);
        let ghost pre = ms.take(i as int);
        let ghost cur = ms.take(i + 1);
        assert(cur.drop_last() =~= pre);
        assert(cur.last() == args@[i as int]@);
        if size_above_two(&args[i]) {
            extract_sublemmas(&args[i], proof, rules);
            assert(fresh_rules(sublemmas_args(pre) + sublemmas(args@[i as int]@), proof@) =~= fresh_rules(
                sublemmas_args(pre),
                proof@,
            ) + fresh_rules(sublemmas(args@[i as int]@), proof@));
        } else {
            assert(sublemmas_args(pre) + Seq::<(Term, Term)>::empty() =~= sublemmas_args(pre));
        }
        i = i + 1;
        assert(rule_models(rules@) =~= start + fresh_rules(sublemmas_args(ms.take(i as int)), proof@));
    }
    assert(ms.take(i as int) =~= ms);
}

/// The rules a verified proof `witness` of `goal` yields, each carrying the
/// witness's canonical bytes as its soundness proof.
pub fn extract_rules(witness: &CoreTerm, goal: &CoreTerm) -> (r: Vec<RewriteRule>)
    ensures
        rule_models(r@) == fresh_rules(extracted(witness@, goal@), super::core_term::serialize(witness@)),
{
    let bytes = witness.to_bytes();
    let mut rules: Vec<RewriteRule> = Vec::new();
    let g = goal.clone();
    let args = vec![g];
    assert(models(args@) =~= seq![goal@]);
    let marker = CoreTerm::Constructor { inductive: "Proved".to_string(), ctor_name: "mk".to_string(), args };
    proof {
        lemma_args_model(&marker);
    }
    rules.push(make_rule(goal.clone(), marker, bytes.as_slice()));
    assert(rule_models(rules@) =~= fresh_rules(seq![(goal@, proved_marker(goal@))], bytes@));
    extract_sublemmas(witness, bytes.as_slice(), &mut rules);
    assert(fresh_rules(extracted(witness@, goal@), bytes@) =~= fresh_rules(
        seq![(goal@, proved_marker(goal@))],
        bytes@,
    ) + fresh_rules(sublemmas(witness@), bytes@));
    rules
}

} // verus!
