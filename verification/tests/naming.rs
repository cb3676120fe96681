use choreful::error::Error;
use choreful::is_absolute;
use choreful::task::validate_task_name;

#[test]
fn plain_names_are_accepted() {
    assert!(validate_task_name("build").is_ok());
    assert!(validate_task_name("build.sh").is_ok());
    assert!(validate_task_name(".hidden").is_ok());
    assert!(validate_task_name("...").is_ok());
}

#[test]
fn directory_like_names_are_rejected() {
    let e = validate_task_name(".").unwrap_err();
    assert_eq!(e.message(), "'.' is invalid name for a task");
    assert_eq!(e.suggest(), "A task is like a file rather than a directory");
    assert!(validate_task_name("..").is_err());
    assert!(validate_task_name("dir/").is_err());
}

#[test]
fn names_with_separators_are_rejected() {
    let e = validate_task_name("a/b").unwrap_err();
    assert_eq!(e.message(), "'a/b' is invalid name for a task");
    assert_eq!(
        e.suggest(),
        "If you want to create a task in another directory, you should go there and try again. Or could you drop '/' in your task?",
    );
}

#[test]
fn error_values_carry_their_texts() {
    let e = Error::new("boom");
    assert_eq!(e.message(), "boom");
    assert_eq!(e.suggest(), "");
    let e2 = Error::with_suggest("m".to_string(), "s".to_string());
    assert_eq!(e2.message(), "m");
    assert_eq!(e2.suggest(), "s");
}

#[test]
fn absoluteness_is_a_leading_separator() {
    assert!(is_absolute("/"));
    assert!(is_absolute("/a/b"));
    assert!(!is_absolute("a/b"));
    assert!(!is_absolute(""));
}
