use tailchart::registry::WatchRegistry;

#[test]
fn two_subscribers_share_one_registration() {
    let mut reg = WatchRegistry::new();
    let path = "/tmp/data.csv".to_string();
    assert!(reg.needs_registration(&path));
    let a = reg.subscribe(&path);
    assert!(!reg.needs_registration(&path));
    let b = reg.subscribe(&path);
    assert_ne!(a.id, b.id);
    assert_eq!(reg.entries.len(), 1);
    assert_eq!(reg.subscribers(&path), vec![a.id, b.id]);
    let b_id = b.id;
    assert!(!reg.release(a));
    assert_eq!(reg.subscribers(&path), vec![b_id]);
    assert!(!reg.needs_registration(&path));
    assert!(reg.release(b));
    assert!(reg.needs_registration(&path));
    assert!(reg.subscribers(&path).is_empty());
}

#[test]
fn paths_are_independent() {
    let mut reg = WatchRegistry::new();
    let p = "p".to_string();
    let q = "q".to_string();
    let a = reg.subscribe(&p);
    let b = reg.subscribe(&q);
    assert_eq!(reg.entries.len(), 2);
    assert!(reg.release(a));
    assert_eq!(reg.subscribers(&q), vec![b.id]);
}

#[test]
fn foreign_token_changes_nothing() {
    let mut reg = WatchRegistry::new();
    let p = "p".to_string();
    let a = reg.subscribe(&p);
    let mut other = WatchRegistry::new();
    other.next_id = 50;
    let stranger = other.subscribe(&p);
    assert!(!reg.release(stranger));
    assert_eq!(reg.subscribers(&p), vec![a.id]);
}
