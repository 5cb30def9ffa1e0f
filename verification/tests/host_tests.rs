use quad_storage::host;
use quad_storage::host::HostStore;
use quad_storage::host::JsObject;
use quad_storage::host::js_to_option_string;

#[test]
fn present_objects_convert_when_the_flag_says_so() {
    let object = JsObject::string("payload");
    assert_eq!(js_to_option_string(object, 1), Some(String::from("payload")));
}

#[test]
fn objects_are_never_converted_against_the_flag() {
    let object = JsObject::string("payload");
    assert_eq!(js_to_option_string(object, 0), None);
}

#[test]
fn bridge_set_and_get_round_trip_through_the_host() {
    let mut store = HostStore::new();
    host::set(&mut store, "test", "value");
    assert_eq!(host::get(&store, "test"), Some(String::from("value")));
    assert_eq!(host::get(&store, "other"), None);
    assert_eq!(host::len(&store), 1);
}

#[test]
fn bridge_overwrite_keeps_one_entry() {
    let mut store = HostStore::new();
    host::set(&mut store, "k", "v1");
    host::set(&mut store, "k", "v2");
    assert_eq!(host::len(&store), 1);
    assert_eq!(host::get(&store, "k"), Some(String::from("v2")));
}

#[test]
fn bridge_remove_is_a_no_op_on_absent_keys() {
    let mut store = HostStore::new();
    host::set(&mut store, "kept", "1");
    host::remove(&mut store, "missing");
    assert_eq!(host::len(&store), 1);
    host::remove(&mut store, "kept");
    assert_eq!(host::len(&store), 0);
}

#[test]
fn bridge_scenario_ends_empty() {
    let mut store = HostStore::new();
    host::set(&mut store, "a", "1");
    host::set(&mut store, "b", "2");
    host::remove(&mut store, "a");
    host::clear(&mut store);
    assert_eq!(host::len(&store), 0);
    assert_eq!(host::get(&store, "a"), None);
    assert_eq!(host::get(&store, "b"), None);
}

#[test]
fn bridge_enumeration_is_complete_and_duplicate_free() {
    let mut store = HostStore::new();
    host::set(&mut store, "x", "1");
    host::set(&mut store, "y", "2");
    host::set(&mut store, "z", "3");
    let n = host::len(&store);
    let mut seen: Vec<String> = Vec::new();
    for i in 0..n {
        let k = host::key(&store, i).expect("position within length must hold a key");
        assert!(!seen.contains(&k));
        assert!(host::get(&store, &k).is_some());
        seen.push(k);
    }
    assert_eq!(seen.len(), n);
    assert_eq!(host::key(&store, n), None);
}
