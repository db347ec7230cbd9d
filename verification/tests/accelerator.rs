use kernel_frc::proof_enum::accelerator::{accelerator_decidable, is_known_proved};

#[test]
fn is_known_proved_correct() {
    assert!(is_known_proved("zfc_zero_ne_one"));
    assert!(is_known_proved("bertrand"));
    assert!(!is_known_proved("goldbach"));
    assert!(!is_known_proved("p_vs_np"));
}

#[test]
fn accelerator_decidable_count() {
    assert_eq!(accelerator_decidable().len(), 7, "7 problems should be accelerator-decidable");
}
