use kernel_frc::proof_enum::engine::parse_problem_list;

#[test]
fn parse_problem_list_all() {
    assert_eq!(parse_problem_list("all").len(), 20);
}

#[test]
fn parse_problem_list_proved() {
    assert_eq!(parse_problem_list("proved").len(), 7);
}

#[test]
fn parse_problem_list_millennium() {
    assert_eq!(parse_problem_list("millennium").len(), 6);
}

#[test]
fn parse_problem_list_custom() {
    assert_eq!(parse_problem_list("goldbach,collatz"), vec!["goldbach", "collatz"]);
}
