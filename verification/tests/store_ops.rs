use choreful::store::{BatchOp, Kv};

#[test]
fn get_returns_what_put_stored() {
    let mut kv = Kv::new();
    kv.put("b".to_string(), vec![2u8]);
    kv.put("a".to_string(), vec![1u8]);
    assert_eq!(kv.get("a"), Some(&vec![1u8]));
    assert_eq!(kv.get("b"), Some(&vec![2u8]));
    assert_eq!(kv.get("c"), None);
}

#[test]
fn put_replaces_an_existing_value() {
    let mut kv = Kv::new();
    kv.put("a".to_string(), vec![1u8]);
    kv.put("a".to_string(), vec![9u8]);
    assert_eq!(kv.get("a"), Some(&vec![9u8]));
}

#[test]
fn del_removes_only_its_key() {
    let mut kv = Kv::new();
    kv.put("a".to_string(), vec![1u8]);
    kv.put("b".to_string(), vec![2u8]);
    kv.del("a");
    assert_eq!(kv.get("a"), None);
    assert_eq!(kv.get("b"), Some(&vec![2u8]));
    kv.del("never-there");
    assert_eq!(kv.get("b"), Some(&vec![2u8]));
}

#[test]
fn prefix_listing_is_exact_and_ordered() {
    let mut kv = Kv::new();
    kv.put("task./a/x".to_string(), vec![1u8]);
    kv.put("task./a/sub/z".to_string(), vec![3u8]);
    kv.put("task./ab".to_string(), vec![4u8]);
    kv.put("task./a/y".to_string(), vec![2u8]);
    let hits = kv.entries_with_prefix("task./a/");
    let keys: Vec<&str> = hits.iter().map(|e| e.0.as_str()).collect();
    assert_eq!(keys, vec!["task./a/sub/z", "task./a/x", "task./a/y"]);
}

#[test]
fn a_batch_applies_all_its_operations_in_order() {
    let mut kv = Kv::new();
    kv.put("keep".to_string(), vec![0u8]);
    kv.put("gone".to_string(), vec![0u8]);
    let ops = vec![
        BatchOp::Put("new".to_string(), vec![7u8]),
        BatchOp::Del("gone".to_string()),
        BatchOp::Put("new".to_string(), vec![8u8]),
    ];
    kv.apply_batch(&ops);
    assert_eq!(kv.get("keep"), Some(&vec![0u8]));
    assert_eq!(kv.get("gone"), None);
    assert_eq!(kv.get("new"), Some(&vec![8u8]));
}
