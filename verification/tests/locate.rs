use cargo_abc::locate::{manifest_pattern, split_outcomes};
use glob::Pattern;

#[test]
fn pattern_is_the_root_and_any_depth_below_it() {
    assert_eq!(manifest_pattern("."), "./**/Cargo.toml");
    assert_eq!(manifest_pattern("/work/project"), "/work/project/**/Cargo.toml");
    assert_eq!(manifest_pattern(""), "/**/Cargo.toml");
}

#[test]
fn pattern_characters_of_the_root_are_put_in_brackets() {
    assert_eq!(manifest_pattern("r[1]"), "r[[]1[]]/**/Cargo.toml");
    assert_eq!(manifest_pattern("what?"), "what[?]/**/Cargo.toml");
    assert_eq!(manifest_pattern("a*b"), "a[*]b/**/Cargo.toml");
    assert_eq!(manifest_pattern("!{x}"), "!{x}/**/Cargo.toml");
}

#[test]
fn pattern_finds_manifests_at_every_depth() {
    let pattern = Pattern::new(&manifest_pattern("root")).unwrap();
    assert!(pattern.matches("root/Cargo.toml"));
    assert!(pattern.matches("root/member/Cargo.toml"));
    assert!(pattern.matches("root/a/b/c/Cargo.toml"));
}

#[test]
fn pattern_finds_nothing_but_manifests() {
    let pattern = Pattern::new(&manifest_pattern("root")).unwrap();
    assert!(!pattern.matches("root/Cargo.lock"));
    assert!(!pattern.matches("root/a/cargo.toml"));
    assert!(!pattern.matches("root/a/Cargo.toml.bak"));
    assert!(!pattern.matches("other/Cargo.toml"));
}

#[test]
fn root_is_taken_literally() {
    let pattern = Pattern::new(&manifest_pattern("r[1]")).unwrap();
    assert!(pattern.matches("r[1]/Cargo.toml"));
    assert!(pattern.matches("r[1]/a/b/Cargo.toml"));
    assert!(!pattern.matches("r1/Cargo.toml"));
    let pattern = Pattern::new(&manifest_pattern("a*")).unwrap();
    assert!(pattern.matches("a*/Cargo.toml"));
    assert!(!pattern.matches("abc/Cargo.toml"));
    let pattern = Pattern::new(&manifest_pattern("a?")).unwrap();
    assert!(pattern.matches("a?/x/Cargo.toml"));
    assert!(!pattern.matches("ab/x/Cargo.toml"));
}

#[test]
fn root_with_an_open_bracket_gives_a_valid_pattern() {
    assert!(Pattern::new(&manifest_pattern("odd[name")).is_ok());
    assert!(Pattern::new(&manifest_pattern("***")).is_ok());
    assert!(Pattern::new(&manifest_pattern("]")).is_ok());
    let pattern = Pattern::new(&manifest_pattern("odd[name")).unwrap();
    assert!(pattern.matches("odd[name/Cargo.toml"));
}

#[test]
fn outcomes_are_parted_in_order() {
    let outcomes: Vec<Result<(&str, bool), u32>> = vec![
        Ok(("a", true)),
        Err(1),
        Ok(("b", true)),
        Err(2),
        Err(3),
        Ok(("c", true)),
    ];
    let (paths, errors) = split_outcomes(outcomes);
    assert_eq!(paths, vec!["a", "b", "c"]);
    assert_eq!(errors, vec![1, 2, 3]);
}

#[test]
fn paths_that_are_no_regular_files_are_left_out() {
    let outcomes: Vec<Result<(&str, bool), u32>> = vec![
        Ok(("x/Cargo.toml", true)),
        Ok(("y/Cargo.toml", false)),
        Ok(("z/Cargo.toml", true)),
    ];
    let (paths, errors) = split_outcomes(outcomes);
    assert_eq!(paths, vec!["x/Cargo.toml", "z/Cargo.toml"]);
    assert!(errors.is_empty());
}

#[test]
fn no_outcome_gives_no_path_and_no_error() {
    let (paths, errors) = split_outcomes(Vec::<Result<(String, bool), String>>::new());
    assert!(paths.is_empty());
    assert!(errors.is_empty());
}

#[test]
fn an_error_does_not_end_the_search() {
    let outcomes: Vec<Result<(&str, bool), &str>> = vec![Err("denied"), Ok(("x/Cargo.toml", true))];
    let (paths, errors) = split_outcomes(outcomes);
    assert_eq!(paths, vec!["x/Cargo.toml"]);
    assert_eq!(errors, vec!["denied"]);
}
