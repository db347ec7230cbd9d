use kernel_frc::proof_enum::solve::{SolveSearch, SolveStep};
use kernel_frc::proof_enum::solve::contains_sorry;

#[test]
fn sorry_detected() {
    assert!(contains_sorry("  sorry"));
    assert!(contains_sorry("theorem x := sorry"));
    assert!(!contains_sorry("-- sorry"));
    assert!(!contains_sorry("notsorry"));
}

#[test]
fn solve_search_hands_out_scripts_in_rank_order() {
    let mut search = SolveSearch::new(3);
    // rank 0 is the empty string, not a script; rank 1 is the byte 0.
    match search.next_candidate() {
        SolveStep::Check { rank, witness, script } => {
            assert_eq!(rank, 1);
            assert_eq!(witness, vec![0u8]);
            assert_eq!(script, "\u{0}");
        }
        _ => panic!("expected a script"),
    }
    search.record_rejection();
    match search.next_candidate() {
        SolveStep::Check { rank, witness, .. } => {
            assert_eq!(rank, 2);
            assert_eq!(witness, vec![1u8]);
        }
        _ => panic!("expected a script"),
    }
    search.record_rejection();
    match search.next_candidate() {
        SolveStep::Exhausted { witnesses_checked, max_length_reached } => {
            assert_eq!(witnesses_checked, 3);
            assert_eq!(max_length_reached, 1);
        }
        _ => panic!("expected the budget to be spent"),
    }
}

#[test]
fn solve_search_without_budget_is_exhausted() {
    let mut search = SolveSearch::new(0);
    assert!(matches!(
        search.next_candidate(),
        SolveStep::Exhausted { witnesses_checked: 0, max_length_reached: 0 }
    ));
}
