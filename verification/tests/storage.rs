use cyfs_gateway::process_chain::block::storage::{
    new_memory_host_storage, HostStorage, MemoryHostStorage,
};

fn sorted(s: &str) -> Vec<String> {
    let mut v: Vec<String> = s.split(',').map(|x| x.to_string()).collect();
    v.sort();
    v
}

#[test]
fn add_host_replaces_labels() {
    let mut s = MemoryHostStorage::new();
    assert!(!s.has_host("a.com"));
    assert_eq!(s.get_labels("a.com"), None);
    s.add_host("a.com", vec!["x".to_string(), "y".to_string(), "x".to_string()]);
    assert!(s.has_host("a.com"));
    assert_eq!(sorted(&s.get_labels("a.com").unwrap()), vec!["x", "y"]);
    s.add_host("a.com", vec!["z".to_string()]);
    assert_eq!(s.get_labels("a.com"), Some("z".to_string()));
    s.add_host("b.com", vec![]);
    assert_eq!(s.get_labels("b.com"), Some(String::new()));
}

#[test]
fn set_label_keeps_labels() {
    let mut s = MemoryHostStorage::new();
    s.set_label("h", "one");
    assert!(s.has_host("h"));
    assert_eq!(s.get_labels("h"), Some("one".to_string()));
    s.set_label("h", "two");
    s.set_label("h", "one");
    assert_eq!(sorted(&s.get_labels("h").unwrap()), vec!["one", "two"]);
    assert!(!s.has_host("other"));
}

#[test]
fn shared_store_starts_empty() {
    let s = new_memory_host_storage();
    assert!(!s.has_host("a"));
    assert_eq!(s.get_labels("a"), None);
}
