use choreful::path::{extract_extension, normalize};

#[test]
fn absolute_input_is_returned_unchanged() {
    assert_eq!(normalize("/home/u", "/a/b"), Some("/a/b".to_string()));
    assert_eq!(normalize("/x", "/"), Some("/".to_string()));
}

#[test]
fn relative_segments_are_appended() {
    assert_eq!(normalize("/a/b", "c"), Some("/a/b/c".to_string()));
    assert_eq!(normalize("/", "c"), Some("/c".to_string()));
    assert_eq!(normalize("/a", "b/c"), Some("/a/b/c".to_string()));
}

#[test]
fn current_and_empty_components_are_skipped() {
    assert_eq!(normalize("/a/b", "./c"), Some("/a/b/c".to_string()));
    assert_eq!(normalize("/a/b", "c//d"), Some("/a/b/c/d".to_string()));
    assert_eq!(normalize("/a/b", "."), Some("/a/b".to_string()));
    assert_eq!(normalize("/a/b", ""), Some("/a/b".to_string()));
}

#[test]
fn parent_components_pop() {
    assert_eq!(normalize("/a/b", ".."), Some("/a".to_string()));
    assert_eq!(normalize("/a/b", "../c"), Some("/a/c".to_string()));
    assert_eq!(normalize("/a/b", "../../c"), Some("/c".to_string()));
    assert_eq!(normalize("/a", ".."), Some("/".to_string()));
}

#[test]
fn popping_past_the_root_fails() {
    assert_eq!(normalize("/", ".."), None);
    assert_eq!(normalize("/a", "../../x"), None);
    assert_eq!(normalize("/a/b", "../../../x"), None);
}

#[test]
fn normalize_is_idempotent_on_its_results() {
    let q = normalize("/a/b", "../c/./d").unwrap();
    assert_eq!(q, "/a/c/d");
    assert_eq!(normalize("/a/b", q.as_str()), Some(q.clone()));
    assert_eq!(normalize("/somewhere/else", q.as_str()), Some(q));
}

#[test]
fn extension_follows_the_last_dot() {
    assert_eq!(extract_extension("foo.sh"), Some("sh".to_string()));
    assert_eq!(extract_extension("a.b.c"), Some("c".to_string()));
    assert_eq!(extract_extension("foo."), Some("".to_string()));
}

#[test]
fn names_without_a_real_extension_have_none() {
    assert_eq!(extract_extension("foo"), None);
    assert_eq!(extract_extension(".bashrc"), None);
    assert_eq!(extract_extension(".."), None);
    assert_eq!(extract_extension(""), None);
}

#[test]
fn extension_looks_only_at_the_final_component() {
    assert_eq!(extract_extension("/a.d/foo.sh"), Some("sh".to_string()));
    assert_eq!(extract_extension("/a.d/foo"), None);
}
