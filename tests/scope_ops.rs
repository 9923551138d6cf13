use kvdb::scope::transaction;

fn key(s: &str) -> String {
    s.to_string()
}

#[test]
fn new_scope_is_empty() {
    let t = transaction::new();
    assert_eq!(t.get(key("a")), None);
    assert_eq!(t.num_equal_to(0), 0);
    assert_eq!(t.len(), 0);
}

#[test]
fn set_then_get() {
    let mut t = transaction::new();
    t.set(key("a"), 10);
    assert_eq!(t.get(key("a")), Some(10));
    assert_eq!(t.get(key("b")), None);
    assert_eq!(t.num_equal_to(10), 1);
    assert_eq!(t.len(), 1);
}

#[test]
fn two_keys_same_value_are_counted() {
    let mut t = transaction::new();
    t.set(key("a"), 10);
    t.set(key("b"), 10);
    assert_eq!(t.num_equal_to(10), 2);
    assert_eq!(t.len(), 2);
}

#[test]
fn overwrite_moves_the_count() {
    let mut t = transaction::new();
    t.set(key("a"), 10);
    t.set(key("a"), 20);
    assert_eq!(t.get(key("a")), Some(20));
    assert_eq!(t.num_equal_to(10), 0);
    assert_eq!(t.num_equal_to(20), 1);
    assert_eq!(t.len(), 1);
}

#[test]
fn overwrite_with_same_value_keeps_count() {
    let mut t = transaction::new();
    t.set(key("a"), 7);
    t.set(key("a"), 7);
    assert_eq!(t.num_equal_to(7), 1);
}

#[test]
fn negative_and_extreme_values() {
    let mut t = transaction::new();
    t.set(key("lo"), i32::MIN);
    t.set(key("hi"), i32::MAX);
    t.set(key("neg"), -1);
    assert_eq!(t.get(key("lo")), Some(i32::MIN));
    assert_eq!(t.get(key("hi")), Some(i32::MAX));
    assert_eq!(t.num_equal_to(-1), 1);
    assert_eq!(t.num_equal_to(i32::MIN), 1);
}

#[test]
fn unset_present_key() {
    let mut t = transaction::new();
    t.set(key("a"), 10);
    t.set(key("b"), 10);
    t.unset(key("a"));
    assert_eq!(t.get(key("a")), None);
    assert_eq!(t.get(key("b")), Some(10));
    assert_eq!(t.num_equal_to(10), 1);
    assert_eq!(t.len(), 1);
}

#[test]
fn unset_absent_key_changes_nothing() {
    let mut t = transaction::new();
    t.set(key("a"), 10);
    t.unset(key("missing"));
    assert_eq!(t.get(key("a")), Some(10));
    assert_eq!(t.num_equal_to(10), 1);
    assert_eq!(t.len(), 1);
}

#[test]
fn zero_count_entry_stays() {
    let mut t = transaction::new();
    t.set(key("a"), 5);
    t.unset(key("a"));
    assert_eq!(t.num_equal_to(5), 0);
    t.set(key("b"), 5);
    assert_eq!(t.num_equal_to(5), 1);
}

#[test]
fn keys_removed_from_the_middle() {
    let mut t = transaction::new();
    t.set(key("a"), 1);
    t.set(key("b"), 2);
    t.set(key("c"), 3);
    t.unset(key("b"));
    assert_eq!(t.get(key("a")), Some(1));
    assert_eq!(t.get(key("b")), None);
    assert_eq!(t.get(key("c")), Some(3));
    t.set(key("b"), 4);
    assert_eq!(t.get(key("b")), Some(4));
    assert_eq!(t.len(), 3);
}

#[test]
fn snapshot_is_independent() {
    let mut t = transaction::new();
    t.set(key("a"), 10);
    let snap = t.snapshot();
    t.set(key("a"), 20);
    t.set(key("b"), 30);
    assert_eq!(snap.get(key("a")), Some(10));
    assert_eq!(snap.get(key("b")), None);
    assert_eq!(snap.num_equal_to(10), 1);
    assert_eq!(snap.num_equal_to(20), 0);
    assert_eq!(t.get(key("a")), Some(20));
}
