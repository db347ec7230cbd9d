use kernel_frc::proof_enum::candidate::{CandidateEnumerator, ProofCandidate, Tactic};

#[test]
fn tactic_render() {
    assert_eq!(Tactic::Decide.to_lean(), "decide");
    assert_eq!(Tactic::Intro("n".into()).to_lean(), "intro n");
    assert_eq!(Tactic::SimpWith(vec!["Nat.Prime".into()]).to_lean(), "simp [Nat.Prime]");
    assert_eq!(Tactic::Use("42".into()).to_lean(), "use 42");
}

#[test]
fn candidate_render() {
    let c = ProofCandidate {
        tactics: vec![Tactic::Intro("n".into()), Tactic::Omega],
        rank: 0,
    };
    assert_eq!(c.to_lean_tactics(), "intro n\n  omega");
}

#[test]
fn enumerator_produces_candidates() {
    let e = CandidateEnumerator::new();
    assert!(e.total() > 0, "enumerator must produce candidates");
    // First candidate should be trivial
    let first: Vec<_> = e.iter_up_to(1);
    assert_eq!(first.len(), 1);
    assert_eq!(first[0].tactics, vec![Tactic::Trivial]);
}

#[test]
fn enumerator_rank_monotone() {
    let e = CandidateEnumerator::new();
    let mut prev_rank = None;
    for c in e.iter_up_to(e.total()) {
        if let Some(pr) = prev_rank {
            assert!(c.rank > pr, "ranks must be strictly increasing");
        }
        prev_rank = Some(c.rank);
    }
}

#[test]
fn enumerator_has_decide_early() {
    let e = CandidateEnumerator::new();
    let first_10: Vec<_> = e.iter_up_to(10);
    let has_decide = first_10.iter().any(|c| c.tactics == vec![Tactic::Decide]);
    assert!(has_decide, "decide should be in the first 10 candidates");
}

#[test]
fn enumerator_substantial_count() {
    let e = CandidateEnumerator::new();
    // Should have a reasonable number of candidates for exploration
    assert!(e.total() >= 100, "enumerator should have ≥100 candidates, got {}", e.total());
}
