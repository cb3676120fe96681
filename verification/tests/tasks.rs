use choreful::store::Kv;
use choreful::task::{Task, TaskError, TaskSystem};

fn empty_system() -> TaskSystem {
    TaskSystem::new(Kv::new())
}

fn make_task(dir: &str, name: &str, inherit: bool, content: &[u8]) -> Task {
    let mut t = Task::current(dir, name);
    t.set_inherit(inherit);
    t.set_content(content.to_vec());
    t
}

#[test]
fn a_fresh_task_has_defaults() {
    let t = Task::current("/a/b", "build");
    assert_eq!(t.name(), "build");
    assert_eq!(t.path(), "/a/b/build");
    assert!(!t.inherit());
    assert_eq!(t.extension(), "");
    assert!(t.content().is_empty());
}

#[test]
fn setters_update_their_fields() {
    let mut t = Task::current("/", "x");
    t.set_inherit(true);
    assert!(t.inherit());
    t.set_extension("sh");
    assert_eq!(t.extension(), "sh");
    t.set_content(vec![1, 2, 3]);
    assert_eq!(t.content(), &vec![1, 2, 3]);
    assert_eq!(t.take(), vec![1, 2, 3]);
}

#[test]
fn copy_from_takes_fields_but_not_identity() {
    let mut src = Task::current("/a", "one");
    src.set_inherit(true);
    src.set_extension("py");
    src.set_content(vec![5]);
    let mut dst = Task::current("/b", "two");
    dst.copy_from(&src);
    assert_eq!(dst.name(), "two");
    assert_eq!(dst.path(), "/b/two");
    assert!(dst.inherit());
    assert_eq!(dst.extension(), "py");
    assert_eq!(dst.content(), &vec![5]);
}

#[test]
fn save_then_open_returns_equal_fields() {
    let mut ts = empty_system();
    let mut t = make_task("/a/b", "build", true, b"echo hi");
    t.set_extension("sh");
    ts.save(&t).unwrap();
    let got = ts.open("/a/b", "build").unwrap();
    assert_eq!(got.name(), "build");
    assert_eq!(got.path(), "/a/b/build");
    assert!(got.inherit());
    assert_eq!(got.extension(), "sh");
    assert_eq!(got.content(), &b"echo hi".to_vec());
}

#[test]
fn open_reports_absence_as_not_found() {
    let ts = empty_system();
    match ts.open("/a", "missing") {
        Err(TaskError::NotFound(n)) => assert_eq!(n, "missing"),
        _ => panic!("expected NotFound"),
    }
}

#[test]
fn open_rejects_an_unresolvable_path() {
    let ts = empty_system();
    assert!(matches!(ts.open("/", "../x"), Err(TaskError::InvalidPath)));
}

#[test]
fn remove_makes_a_task_absent() {
    let mut ts = empty_system();
    let t = make_task("/a", "x", false, b"1");
    ts.save(&t).unwrap();
    assert_eq!(ts.exists_task("/a", "x").unwrap(), true);
    ts.remove("/a", "x").unwrap();
    assert_eq!(ts.exists_task("/a", "x").unwrap(), false);
    assert!(matches!(ts.open("/a", "x"), Err(TaskError::NotFound(_))));
}

#[test]
fn a_present_value_that_does_not_decode_is_broken_data() {
    let mut kv = Kv::new();
    kv.put("task./a/bad".to_string(), vec![42u8]);
    let ts = TaskSystem::new(kv);
    assert!(matches!(ts.open("/a", "bad"), Err(TaskError::BrokenData)));
    assert!(matches!(ts.exists_task("/a", "bad"), Err(TaskError::BrokenData)));
}

#[test]
fn resolution_skips_an_ancestor_without_inherit() {
    let mut ts = empty_system();
    let t = make_task("/a/b", "build", false, b"near");
    ts.save(&t).unwrap();
    match ts.resolve("/a/b/c", "build") {
        Err(TaskError::NotFound(n)) => assert_eq!(n, "build"),
        _ => panic!("expected NotFound"),
    }
}

#[test]
fn resolution_reaches_an_ancestor_with_inherit() {
    let mut ts = empty_system();
    let t = make_task("/a/b", "build", true, b"near");
    ts.save(&t).unwrap();
    let got = ts.resolve("/a/b/c", "build").unwrap();
    assert_eq!(got.path(), "/a/b/build");
    assert_eq!(got.content(), &b"near".to_vec());
}

#[test]
fn the_starting_directory_needs_no_inherit() {
    let mut ts = empty_system();
    let t = make_task("/a/b", "build", false, b"own");
    ts.save(&t).unwrap();
    let got = ts.resolve("/a/b", "build").unwrap();
    assert_eq!(got.path(), "/a/b/build");
}

#[test]
fn the_nearest_directory_wins() {
    let mut ts = empty_system();
    ts.save(&make_task("/a", "build", true, b"far")).unwrap();
    ts.save(&make_task("/a/b", "build", true, b"near")).unwrap();
    let got = ts.resolve("/a/b", "build").unwrap();
    assert_eq!(got.path(), "/a/b/build");
    assert_eq!(got.content(), &b"near".to_vec());
}

#[test]
fn a_broken_entry_aborts_resolution() {
    let mut kv = Kv::new();
    kv.put("task./a/b/build".to_string(), vec![42u8]);
    let ts = TaskSystem::new(kv);
    assert!(matches!(ts.resolve("/a/b", "build"), Err(TaskError::BrokenData)));
}

#[test]
fn scan_with_current_only_sees_direct_children_alone() {
    let mut ts = empty_system();
    ts.save(&make_task("/a", "x", false, b"1")).unwrap();
    ts.save(&make_task("/a", "y", false, b"2")).unwrap();
    ts.save(&make_task("/a/sub", "z", false, b"3")).unwrap();
    ts.save(&make_task("/other", "w", false, b"4")).unwrap();
    let hits = ts.scan("/", "/a", true).unwrap();
    let paths: Vec<&str> = hits.iter().map(|t| t.path()).collect();
    assert_eq!(paths, vec!["/a/x", "/a/y"]);
}

#[test]
fn scan_without_current_only_sees_all_descendants() {
    let mut ts = empty_system();
    ts.save(&make_task("/a", "x", false, b"1")).unwrap();
    ts.save(&make_task("/a/sub", "z", false, b"3")).unwrap();
    ts.save(&make_task("/ab", "w", false, b"4")).unwrap();
    let hits = ts.scan("/", "/a", false).unwrap();
    let paths: Vec<&str> = hits.iter().map(|t| t.path()).collect();
    assert_eq!(paths, vec!["/a/sub/z", "/a/x"]);
}

#[test]
fn scan_from_the_root_sees_every_task() {
    let mut ts = empty_system();
    ts.save(&make_task("/", "top", false, b"0")).unwrap();
    ts.save(&make_task("/a", "x", false, b"1")).unwrap();
    ts.save(&make_task("/a/sub", "z", false, b"3")).unwrap();
    let hits = ts.scan("/", "/", false).unwrap();
    let paths: Vec<&str> = hits.iter().map(|t| t.path()).collect();
    assert_eq!(paths, vec!["/a/sub/z", "/a/x", "/top"]);
}

#[test]
fn scan_skips_a_corrupt_entry_without_failing() {
    let mut kv = Kv::new();
    kv.put("task./a/bad".to_string(), vec![42u8]);
    let mut ts = TaskSystem::new(kv);
    ts.save(&make_task("/a", "good", false, b"ok")).unwrap();
    let hits = ts.scan("/", "/a", true).unwrap();
    let paths: Vec<&str> = hits.iter().map(|t| t.path()).collect();
    assert_eq!(paths, vec!["/a/good"]);
}

#[test]
fn rename_moves_the_record_atomically() {
    let mut ts = empty_system();
    let mut t = make_task("/a", "old", true, b"body");
    t.set_extension("sh");
    ts.save(&t).unwrap();
    ts.rename("/a", "old", "new").unwrap();
    assert_eq!(ts.exists_task("/a", "old").unwrap(), false);
    let got = ts.open("/a", "new").unwrap();
    assert_eq!(got.name(), "new");
    assert!(got.inherit());
    assert_eq!(got.extension(), "sh");
    assert_eq!(got.content(), &b"body".to_vec());
}

#[test]
fn an_uncommitted_batch_changes_nothing() {
    let mut ts = empty_system();
    ts.save(&make_task("/a", "old", false, b"body")).unwrap();
    {
        let mut batch = ts.batch();
        let copy = ts.open("/a", "old").unwrap();
        let mut renamed = Task::current("/a", "new");
        renamed.copy_from(&copy);
        batch.save(&renamed).unwrap();
        batch.remove_task(copy).unwrap();
        // the batch goes out of scope without a commit
    }
    assert_eq!(ts.exists_task("/a", "old").unwrap(), true);
    assert_eq!(ts.exists_task("/a", "new").unwrap(), false);
}

#[test]
fn a_committed_batch_shows_all_its_writes() {
    let mut ts = empty_system();
    ts.save(&make_task("/a", "old", false, b"body")).unwrap();
    let copy = ts.open("/a", "old").unwrap();
    let mut renamed = Task::current("/a", "new");
    renamed.copy_from(&copy);
    let mut batch = ts.batch();
    batch.save(&renamed).unwrap();
    batch.remove_task(copy).unwrap();
    batch.commit(&mut ts).unwrap();
    assert_eq!(ts.exists_task("/a", "old").unwrap(), false);
    assert_eq!(ts.exists_task("/a", "new").unwrap(), true);
}

#[test]
fn visible_tasks_shadow_by_name_nearest_first() {
    let mut ts = empty_system();
    ts.save(&make_task("/a", "build", true, b"far")).unwrap();
    ts.save(&make_task("/a", "deploy", true, b"only-far")).unwrap();
    ts.save(&make_task("/a", "hidden", false, b"no-inherit")).unwrap();
    ts.save(&make_task("/a/b", "build", false, b"near")).unwrap();
    let vis = ts.visible_tasks("/a/b");
    let mut names: Vec<&str> = vis.iter().map(|t| t.name()).collect();
    let paths: Vec<&str> = vis.iter().map(|t| t.path()).collect();
    assert_eq!(names.remove(0), "build");
    assert_eq!(paths[0], "/a/b/build");
    assert_eq!(names, vec!["deploy"]);
    assert_eq!(paths[1], "/a/deploy");
}
