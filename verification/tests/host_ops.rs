use fsutils::host::{cd_outcome, exit_code, path_exists};

#[test]
fn exit_code_reports_the_code() {
    assert_eq!(exit_code(Some(Some(0))), Some(0));
    assert_eq!(exit_code(Some(Some(7))), Some(7));
}

#[test]
fn exit_code_absent_cases() {
    assert_eq!(exit_code(Some(None)), None);
    assert_eq!(exit_code(None), None);
}

#[test]
fn cd_outcome_signals() {
    assert!(cd_outcome(true).is_some());
    assert!(cd_outcome(false).is_none());
}

#[test]
fn live_path_exists() {
    assert_eq!(path_exists("."), true);
    assert_eq!(path_exists("a_very_1234_unlikely_9876_filename"), false);
}
