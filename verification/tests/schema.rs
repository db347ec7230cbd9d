use kernel_frc::schema::StatementKind;

#[test]
fn statement_kind_equality() {
    assert_eq!(StatementKind::BoolSat, StatementKind::BoolSat);
    assert_ne!(StatementKind::BoolSat, StatementKind::ArithFind);
}
