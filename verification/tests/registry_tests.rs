use kvstore::codec::CodecKind;
use kvstore::kvmap::ValueMap;
use kvstore::registry::Registry;
use kvstore::value::{value_eq, Value};

#[test]
fn lazy_first_touch_creates_an_empty_store() {
    let mut reg = Registry::new(Vec::new());
    assert!(!reg.has_store("a.json"));
    assert!(reg.get("a.json", "k").is_none());
    assert!(reg.has_store("a.json"));
    assert_eq!(reg.length("a.json"), 0);
}

#[test]
fn registry_set_get_delete_roundtrip() {
    let mut reg = Registry::new(Vec::new());
    let ev = reg.set("a.json", "k".to_string(), Value::Int(3));
    assert_eq!(ev.path, "a.json");
    assert_eq!(ev.key, "k");
    assert!(reg.has("a.json", "k"));
    assert!(value_eq(&reg.get("a.json", "k").unwrap(), &Value::Int(3)));
    // a different path is a different store
    assert!(!reg.has("b.json", "k"));
    let (was_present, ev) = reg.delete("a.json", "k");
    assert!(was_present);
    assert!(value_eq(&ev.unwrap().value, &Value::Null));
    assert!(reg.get("a.json", "k").is_none());
}

#[test]
fn registry_clear_and_snapshots() {
    let mut reg = Registry::new(Vec::new());
    let _ = reg.set("p", "a".to_string(), Value::Int(1));
    let _ = reg.set("p", "b".to_string(), Value::Int(2));
    let mut keys = reg.keys("p");
    keys.sort();
    assert_eq!(keys, vec!["a".to_string(), "b".to_string()]);
    assert_eq!(reg.values("p").len(), 2);
    assert_eq!(reg.entries("p").len(), 2);
    let evs = reg.clear("p");
    assert_eq!(evs.len(), 2);
    assert_eq!(reg.length("p"), 0);
}

#[test]
fn configured_store_answers_before_any_load() {
    let mut defaults = ValueMap::new();
    defaults.insert("theme".to_string(), Value::Str("dark".to_string()));
    let mut reg = Registry::new(vec![("settings.json".to_string(), defaults)]);

    let got = reg.get("settings.json", "theme").expect("default visible");
    assert!(value_eq(&got, &Value::Str("dark".to_string())));

    let _ = reg.set("settings.json", "theme".to_string(), Value::Str("light".to_string()));
    let evs = reg.reset("settings.json");
    let got = reg.get("settings.json", "theme").expect("default restored");
    assert!(value_eq(&got, &Value::Str("dark".to_string())));

    assert_eq!(evs.len(), 1);
    assert_eq!(evs[0].path, "settings.json");
    assert_eq!(evs[0].key, "theme");
    assert!(value_eq(&evs[0].value, &Value::Str("dark".to_string())));
}

#[test]
fn registry_load_swallows_nothing_but_merges() {
    let mut reg = Registry::new(Vec::new());
    let _ = reg.set("p", "mem".to_string(), Value::Int(1));
    let mut donor = Registry::new(Vec::new());
    let _ = donor.set("p", "disk".to_string(), Value::Int(2));
    let bytes = donor.save("p").expect("encodes");

    reg.load("p", &bytes).expect("merges");
    assert!(value_eq(&reg.get("p", "mem").unwrap(), &Value::Int(1)));
    assert!(value_eq(&reg.get("p", "disk").unwrap(), &Value::Int(2)));

    let err = reg.load("p", &b"garbage".to_vec()).expect_err("rejects");
    assert_eq!(err, kvstore::Error::Deserialize);
    assert_eq!(reg.length("p"), 2);
}

#[test]
fn save_all_covers_every_store() {
    let mut reg = Registry::new(Vec::new());
    let _ = reg.set("one", "k".to_string(), Value::Int(1));
    let _ = reg.set("two", "k".to_string(), Value::Int(2));
    let all = reg.save_all();
    assert_eq!(all.len(), 2);
    let mut paths: Vec<String> = all.iter().map(|p| p.0.clone()).collect();
    paths.sort();
    assert_eq!(paths, vec!["one".to_string(), "two".to_string()]);
    for (path, bytes) in all {
        let decoded = ValueMap::decode(CodecKind::Text, &bytes).expect("decodes");
        assert_eq!(decoded.len(), 1);
        let expect = if path == "one" { 1 } else { 2 };
        assert!(value_eq(decoded.get("k").unwrap(), &Value::Int(expect)));
    }
}
