use cargo_abc::driver::{
    check_root, completion_message, exit_code, RootProblem, EXIT_DONE, EXIT_INVALID_ROOT,
};

#[test]
fn missing_root_is_refused() {
    assert_eq!(check_root(false, false), Err(RootProblem::Missing));
    assert_eq!(check_root(false, true), Err(RootProblem::Missing));
    assert_ne!(exit_code(check_root(false, false)), 0);
    assert_eq!(exit_code(check_root(false, false)), 1);
}

#[test]
fn root_that_is_a_file_is_refused() {
    assert_eq!(check_root(true, false), Err(RootProblem::NotADirectory));
    assert_eq!(exit_code(check_root(true, false)), 1);
}

#[test]
fn directory_is_accepted() {
    assert_eq!(check_root(true, true), Ok(()));
    assert_eq!(exit_code(check_root(true, true)), 0);
}

#[test]
fn exit_codes_are_zero_and_one() {
    assert_eq!(EXIT_DONE, 0);
    assert_eq!(EXIT_INVALID_ROOT, 1);
}

#[test]
fn messages_name_the_path() {
    assert_eq!(
        RootProblem::Missing.message("./nowhere"),
        "Error: The path './nowhere' does not exist."
    );
    assert_eq!(
        RootProblem::NotADirectory.message("Cargo.toml"),
        "Error: The path 'Cargo.toml' is not a directory."
    );
}

#[test]
fn run_ends_with_one_line() {
    assert_eq!(completion_message(), "Dependencies sorted successfully.");
}
