use std::collections::HashMap;

use nanoserde::DeJson;
use nanoserde::SerJson;

use quad_storage::store::LocalStorage;

fn reload(text: &str) -> Option<LocalStorage> {
    LocalStorage::from_persisted_text(Some(text))
}

#[test]
fn empty_store_serializes_to_empty_document() {
    let storage = LocalStorage::new();
    assert_eq!(storage.to_persisted_text(), "{\"local\":{}}");
}

#[test]
fn two_entries_serialize_in_enumeration_order() {
    let mut storage = LocalStorage::new();
    storage.set("a", "1");
    storage.set("b", "2");
    assert_eq!(storage.to_persisted_text(), "{\"local\":{\"a\":\"1\",\"b\":\"2\"}}");
}

#[test]
fn quotes_backslashes_and_controls_are_escaped() {
    let mut storage = LocalStorage::new();
    storage.set("say \"hi\"", "line\nbreak\tand \\ slash\r");
    assert_eq!(
        storage.to_persisted_text(),
        "{\"local\":{\"say \\\"hi\\\"\":\"line\\nbreak\\tand \\\\ slash\\r\"}}",
    );
}

#[test]
fn round_trip_restores_every_pair() {
    let mut storage = LocalStorage::new();
    storage.set("plain", "value");
    storage.set("quote\"key", "back\\slash");
    storage.set("tabs\tand\nnewlines", "\r\t\"\\");
    storage.set("empty", "");
    storage.set("", "empty key");
    let text = storage.to_persisted_text();
    let reloaded = reload(&text).expect("a written document must parse");
    assert_eq!(reloaded.len(), storage.len());
    for i in 0..storage.len() {
        let k = storage.key(i).unwrap();
        assert_eq!(reloaded.key(i), Some(k.clone()));
        assert_eq!(reloaded.get(&k), storage.get(&k));
    }
}

#[test]
fn round_trip_of_a_mutated_store_survives_reload() {
    let mut storage = LocalStorage::new();
    storage.set("a", "1");
    storage.set("b", "2");
    storage.remove("a");
    storage.set("c", "3");
    storage.set("b", "rewritten");
    let reloaded = reload(&storage.to_persisted_text()).expect("a written document must parse");
    assert_eq!(reloaded.len(), 2);
    assert_eq!(reloaded.get("a"), None);
    assert_eq!(reloaded.get("b"), Some(String::from("rewritten")));
    assert_eq!(reloaded.get("c"), Some(String::from("3")));
}

#[test]
fn empty_document_parses_to_an_empty_store() {
    let storage = reload("{\"local\":{}}").expect("the empty document is well-formed");
    assert_eq!(storage.len(), 0);
}

#[test]
fn duplicate_keys_in_a_document_collapse_to_the_last_value() {
    let storage = reload("{\"local\":{\"k\":\"old\",\"k\":\"new\"}}")
        .expect("duplicate keys are tolerated");
    assert_eq!(storage.len(), 1);
    assert_eq!(storage.get("k"), Some(String::from("new")));
}

#[test]
fn corrupt_documents_are_rejected() {
    assert!(reload("garbage").is_none());
    assert!(reload("{").is_none());
    assert!(reload("{\"local\":").is_none());
    assert!(reload("{\"local\":{").is_none());
    assert!(reload("{\"local\":{}").is_none());
    assert!(reload("{\"local\":{\"a\":\"1\"}").is_none());
    assert!(reload("{\"local\":{\"a\":1}}").is_none());
    assert!(reload("{\"local\":{\"a\"}}").is_none());
    assert!(reload("{\"local\":{\"a\":\"\\x\"}}").is_none());
    assert!(reload("{\"local\":{}}trailing").is_none());
    assert!(reload("{ \"local\":{}}").is_none());
    assert!(reload("[\"local\"]").is_none());
}

#[test]
fn unicode_text_is_written_raw_and_round_trips() {
    let mut storage = LocalStorage::new();
    storage.set("clé", "värde → 値");
    assert_eq!(storage.to_persisted_text(), "{\"local\":{\"clé\":\"värde → 値\"}}");
    let reloaded = reload(&storage.to_persisted_text()).expect("a written document must parse");
    assert_eq!(reloaded.get("clé"), Some(String::from("värde → 値")));
}

#[test]
fn written_documents_parse_with_an_independent_json_reader() {
    let mut storage = LocalStorage::new();
    storage.set("alpha", "one");
    storage.set("beta", "two \"quoted\"\n");
    let text = storage.to_persisted_text();
    let inner = &text["{\"local\":".len()..text.len() - 1];
    let map = HashMap::<String, String>::deserialize_json(inner)
        .expect("the inner object must be plain JSON");
    assert_eq!(map.len(), 2);
    assert_eq!(map.get("alpha"), Some(&String::from("one")));
    assert_eq!(map.get("beta"), Some(&String::from("two \"quoted\"\n")));
}

#[test]
fn documents_written_by_an_independent_json_writer_parse() {
    let mut map: HashMap<String, String> = HashMap::new();
    map.insert(String::from("key one"), String::from("value\twith\ttabs"));
    map.insert(String::from("key\\two"), String::from("a \"second\" value"));
    let text = format!("{{\"local\":{}}}", map.serialize_json());
    let storage = reload(&text).expect("an independently written document must parse");
    assert_eq!(storage.len(), 2);
    assert_eq!(storage.get("key one"), Some(String::from("value\twith\ttabs")));
    assert_eq!(storage.get("key\\two"), Some(String::from("a \"second\" value")));
}
