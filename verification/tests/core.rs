use pm::Entry;
use pm::EntryStore;

fn s(t: &str) -> String {
    String::from(t)
}

fn entry(prefix: &str) -> Entry {
    Entry {
        name: s(prefix),
        username: format!("{} username", prefix),
        password: format!("{} password", prefix),
        notes: format!("{} notes", prefix),
    }
}

#[test]
fn get_and_contains() {
    let store = EntryStore::new().update(s("a"), entry("a"));
    assert_eq!(store.get("a"), Some(&entry("a")));
    assert_eq!(store.get("b"), None);
    assert!(store.contains_key("a"));
    assert!(!store.contains_key("b"));
    assert_eq!(store.len(), 1);
}

#[test]
fn keys_ascend_lexicographically() {
    let store = EntryStore::new()
        .update(s("beta"), entry("beta"))
        .update(s("Alpha"), entry("Alpha"))
        .update(s("2nd"), entry("2nd"))
        .update(s("alpha"), entry("alpha"));
    assert_eq!(store.keys(), vec![s("2nd"), s("Alpha"), s("alpha"), s("beta")]);
}

#[test]
fn update_with_the_same_entry_is_idempotent() {
    let base = EntryStore::new().update(s("x"), entry("x"));
    let once = base.update(s("k"), entry("k"));
    let twice = once.update(s("k"), entry("k"));
    assert_eq!(twice, once);
}

#[test]
fn update_overwrites_the_entry() {
    let e1 = entry("one");
    let e2 = entry("two");
    let store = EntryStore::new().update(s("k"), e1).update(s("k"), e2);
    assert_eq!(store.len(), 1);
    assert_eq!(store.get("k"), Some(&entry("two")));
}

#[test]
fn removal_undoes_an_insert_of_an_absent_key() {
    let base = EntryStore::new().update(s("other"), entry("other"));
    assert!(!base.contains_key("k"));
    let grown = base.update(s("k"), entry("k"));
    assert_eq!(grown.without("k"), base);
    assert!(!grown.without("k").contains_key("k"));
    // Removing an absent key is a plain copy.
    assert_eq!(base.without("nothing here"), base);
}

#[test]
fn a_prior_store_value_never_changes() {
    let before = EntryStore::new().update(s("a"), entry("a"));
    let got_before = before.get("a").cloned();
    let after = before.update(s("b"), entry("b"));
    let changed = before.update(s("a"), entry("changed"));
    assert_eq!(before.get("a").cloned(), got_before);
    assert_eq!(before.len(), 1);
    assert!(!before.contains_key("b"));
    assert!(after.contains_key("b"));
    assert_eq!(changed.get("a"), Some(&entry("changed")));
    assert_eq!(before.get("a"), Some(&entry("a")));
}
