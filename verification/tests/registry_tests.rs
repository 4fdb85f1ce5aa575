use ssh_liaison::registry::Registry;

#[test]
fn keys_track_connects_and_disconnects() {
    let mut reg: Registry<u32> = Registry::new();
    assert!(!reg.contains("a"));
    reg.insert(String::from("a"), 1);
    reg.insert(String::from("b"), 2);
    assert!(reg.contains("a"));
    assert!(reg.contains("b"));
    let removed = reg.remove("a");
    assert_eq!(removed, Some(1));
    assert!(!reg.contains("a"));
    let names = reg.list();
    assert_eq!(names.len(), 1);
    assert_eq!(names[0], "b");
}

#[test]
fn removing_an_unknown_alias_is_a_no_op() {
    let mut reg: Registry<u32> = Registry::new();
    reg.insert(String::from("a"), 1);
    assert_eq!(reg.remove("ghost"), None);
    assert!(reg.contains("a"));
}

#[test]
fn insert_replaces_an_existing_session() {
    let mut reg: Registry<u32> = Registry::new();
    reg.insert(String::from("a"), 1);
    reg.insert(String::from("a"), 7);
    assert_eq!(reg.list().len(), 1);
    assert_eq!(reg.remove("a"), Some(7));
}

#[test]
fn at_most_one_checkout_per_alias() {
    let mut reg: Registry<u32> = Registry::new();
    reg.insert(String::from("a"), 5);
    let first = reg.checkout("a");
    assert_eq!(first, Some(5));
    // the entry stays listed but is busy
    assert!(reg.contains("a"));
    assert_eq!(reg.checkout("a"), None);
    assert!(reg.checkin("a", 5));
    assert_eq!(reg.checkout("a"), Some(5));
}

#[test]
fn checkout_of_unknown_alias_yields_nothing() {
    let mut reg: Registry<u32> = Registry::new();
    assert_eq!(reg.checkout("ghost"), None);
    assert!(!reg.checkin("ghost", 1));
}
