use quad_storage::store::LocalStorage;
use quad_storage::store::get_local_file_path;

#[test]
fn empty_store_has_no_entries() {
    let storage = LocalStorage::new();
    assert_eq!(storage.len(), 0);
    assert_eq!(storage.get("anything"), None);
    assert_eq!(storage.key(0), None);
}

#[test]
fn default_store_is_empty() {
    let storage = LocalStorage::default();
    assert_eq!(storage.len(), 0);
}

#[test]
fn distinct_sets_are_all_retrievable() {
    let mut storage = LocalStorage::new();
    storage.set("one", "1");
    storage.set("two", "2");
    storage.set("three", "3");
    assert_eq!(storage.len(), 3);
    assert_eq!(storage.get("one"), Some(String::from("1")));
    assert_eq!(storage.get("two"), Some(String::from("2")));
    assert_eq!(storage.get("three"), Some(String::from("3")));
}

#[test]
fn overwriting_keeps_length_and_takes_last_value() {
    let mut storage = LocalStorage::new();
    storage.set("key", "first");
    storage.set("key", "second");
    assert_eq!(storage.len(), 1);
    assert_eq!(storage.get("key"), Some(String::from("second")));
}

#[test]
fn overwriting_keeps_enumeration_position() {
    let mut storage = LocalStorage::new();
    storage.set("a", "1");
    storage.set("b", "2");
    storage.set("a", "3");
    assert_eq!(storage.key(0), Some(String::from("a")));
    assert_eq!(storage.key(1), Some(String::from("b")));
    assert_eq!(storage.get("a"), Some(String::from("3")));
}

#[test]
fn removing_an_absent_key_is_a_no_op() {
    let mut storage = LocalStorage::new();
    storage.set("present", "yes");
    storage.remove("absent");
    assert_eq!(storage.len(), 1);
    assert_eq!(storage.get("present"), Some(String::from("yes")));
}

#[test]
fn removing_a_present_key_deletes_only_it() {
    let mut storage = LocalStorage::new();
    storage.set("a", "1");
    storage.set("b", "2");
    storage.set("c", "3");
    storage.remove("b");
    assert_eq!(storage.len(), 2);
    assert_eq!(storage.get("b"), None);
    assert_eq!(storage.key(0), Some(String::from("a")));
    assert_eq!(storage.key(1), Some(String::from("c")));
}

#[test]
fn clearing_forgets_every_entry() {
    let mut storage = LocalStorage::new();
    storage.set("a", "1");
    storage.set("b", "2");
    storage.clear();
    assert_eq!(storage.len(), 0);
    assert_eq!(storage.get("a"), None);
    assert_eq!(storage.get("b"), None);
}

#[test]
fn set_set_remove_clear_scenario() {
    let mut storage = LocalStorage::new();
    storage.set("a", "1");
    storage.set("b", "2");
    storage.remove("a");
    storage.clear();
    assert_eq!(storage.len(), 0);
    assert_eq!(storage.get("a"), None);
    assert_eq!(storage.get("b"), None);
}

#[test]
fn enumeration_covers_every_key_exactly_once() {
    let mut storage = LocalStorage::new();
    storage.set("x", "1");
    storage.set("y", "2");
    storage.set("z", "3");
    storage.set("y", "override");
    let n = storage.len();
    let mut seen: Vec<String> = Vec::new();
    for i in 0..n {
        let k = storage.key(i).expect("position within length must hold a key");
        assert!(!seen.contains(&k), "enumeration repeated a key");
        assert!(storage.get(&k).is_some(), "an enumerated key must be retrievable");
        seen.push(k);
    }
    assert_eq!(seen.len(), n);
    assert_eq!(storage.key(n), None);
}

#[test]
fn missing_text_builds_an_empty_store() {
    let storage = LocalStorage::from_persisted_text(None).expect("missing text is tolerated");
    assert_eq!(storage.len(), 0);
}

#[test]
fn empty_text_builds_an_empty_store() {
    let storage = LocalStorage::from_persisted_text(Some("")).expect("empty text is tolerated");
    assert_eq!(storage.len(), 0);
}

#[test]
fn persistence_file_name_is_fixed() {
    assert_eq!(get_local_file_path(), "local.data");
}
