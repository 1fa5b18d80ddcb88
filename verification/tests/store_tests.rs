use kvstore::codec::CodecKind;
use kvstore::kvmap::ValueMap;
use kvstore::store::{Store, StoreBuilder};
use kvstore::value::{value_eq, Value};
use kvstore::Error;

#[test]
fn set_then_get_and_has() {
    let mut st = Store::new("settings.json".to_string());
    let ev = st.insert("theme".to_string(), Value::Str("dark".to_string()));
    assert_eq!(ev.path, "settings.json");
    assert_eq!(ev.key, "theme");
    assert!(value_eq(&ev.value, &Value::Str("dark".to_string())));
    assert!(st.has("theme"));
    let got = st.get("theme").expect("present");
    assert!(value_eq(&got, &Value::Str("dark".to_string())));
}

#[test]
fn set_always_reports_even_when_unchanged() {
    let mut st = Store::new("s".to_string());
    let _ = st.insert("k".to_string(), Value::Int(1));
    let ev = st.insert("k".to_string(), Value::Int(1));
    assert_eq!(ev.key, "k");
    assert!(value_eq(&ev.value, &Value::Int(1)));
    assert_eq!(st.len(), 1);
}

#[test]
fn unset_key_reads_empty_and_delete_reports_nothing() {
    let mut st = Store::new("s".to_string());
    assert!(st.get("missing").is_none());
    assert!(!st.has("missing"));
    let (was_present, ev) = st.delete("missing");
    assert!(!was_present);
    assert!(ev.is_none());
}

#[test]
fn delete_after_set_reports_null_once() {
    let mut st = Store::new("s".to_string());
    let _ = st.insert("k".to_string(), Value::Int(7));
    let (was_present, ev) = st.delete("k");
    assert!(was_present);
    let ev = ev.expect("one event");
    assert_eq!(ev.key, "k");
    assert!(value_eq(&ev.value, &Value::Null));
    assert!(st.get("k").is_none());
}

#[test]
fn clear_reports_every_key_once_with_null() {
    let mut st = Store::new("s".to_string());
    let _ = st.insert("a".to_string(), Value::Int(1));
    let _ = st.insert("b".to_string(), Value::Int(2));
    let _ = st.insert("c".to_string(), Value::Int(3));
    let evs = st.clear();
    assert_eq!(evs.len(), 3);
    let mut keys: Vec<String> = evs.iter().map(|e| e.key.clone()).collect();
    keys.sort();
    assert_eq!(keys, vec!["a".to_string(), "b".to_string(), "c".to_string()]);
    for e in &evs {
        assert!(value_eq(&e.value, &Value::Null));
        assert_eq!(e.path, "s");
    }
    assert_eq!(st.len(), 0);
    assert!(st.is_empty());
}

#[test]
fn snapshots_cover_the_cache() {
    let mut st = Store::new("s".to_string());
    let _ = st.insert("a".to_string(), Value::Int(1));
    let _ = st.insert("b".to_string(), Value::Int(2));
    let mut keys = st.keys();
    keys.sort();
    assert_eq!(keys, vec!["a".to_string(), "b".to_string()]);
    assert_eq!(st.values().len(), 2);
    let mut entries = st.entries();
    entries.sort_by(|x, y| x.0.cmp(&y.0));
    assert_eq!(entries.len(), 2);
    assert_eq!(entries[0].0, "a");
    assert!(value_eq(&entries[0].1, &Value::Int(1)));
}

#[test]
fn save_then_load_into_fresh_store_reproduces_cache() {
    let mut st = Store::new("s".to_string());
    let _ = st.insert("a".to_string(), Value::Str("x".to_string()));
    let _ = st.insert("b".to_string(), Value::Arr(vec![Value::Int(1), Value::Null]));
    let bytes = st.save().expect("saves");

    let mut fresh = Store::new("s".to_string());
    fresh.load(&bytes).expect("loads");
    assert_eq!(fresh.len(), 2);
    assert!(value_eq(&fresh.get("a").unwrap(), &Value::Str("x".to_string())));
    assert!(value_eq(
        &fresh.get("b").unwrap(),
        &Value::Arr(vec![Value::Int(1), Value::Null]),
    ));
}

#[test]
fn load_merges_and_decoded_keys_win() {
    let mut donor = Store::new("s".to_string());
    let _ = donor.insert("shared".to_string(), Value::Int(2));
    let _ = donor.insert("fromdisk".to_string(), Value::Int(3));
    let bytes = donor.save().expect("saves");

    let mut st = Store::new("s".to_string());
    let _ = st.insert("shared".to_string(), Value::Int(1));
    let _ = st.insert("inmemory".to_string(), Value::Int(9));
    st.load(&bytes).expect("loads");
    assert_eq!(st.len(), 3);
    assert!(value_eq(&st.get("shared").unwrap(), &Value::Int(2)));
    assert!(value_eq(&st.get("inmemory").unwrap(), &Value::Int(9)));
    assert!(value_eq(&st.get("fromdisk").unwrap(), &Value::Int(3)));
}

#[test]
fn load_of_malformed_bytes_fails_and_keeps_cache() {
    let mut st = Store::new("s".to_string());
    let _ = st.insert("k".to_string(), Value::Int(5));
    let err = st.load(&b"not an encoding".to_vec()).expect_err("rejects");
    assert_eq!(err, Error::Deserialize);
    assert_eq!(st.len(), 1);
    assert!(value_eq(&st.get("k").unwrap(), &Value::Int(5)));
}

#[test]
fn reset_restores_defaults_and_reports_changed_keys() {
    let mut defaults = ValueMap::new();
    defaults.insert("theme".to_string(), Value::Str("dark".to_string()));
    defaults.insert("size".to_string(), Value::Int(12));
    let mut st = Store::with_defaults("s".to_string(), defaults);

    // arbitrary mutations: overwrite one default, delete one, add a stranger
    let _ = st.insert("theme".to_string(), Value::Str("light".to_string()));
    let _ = st.delete("size");
    let _ = st.insert("extra".to_string(), Value::Bool(true));

    let evs = st.reset();
    assert!(value_eq(&st.get("theme").unwrap(), &Value::Str("dark".to_string())));
    assert!(value_eq(&st.get("size").unwrap(), &Value::Int(12)));
    assert!(st.get("extra").is_none());
    assert_eq!(st.len(), 2);

    let mut reported: Vec<(String, Value)> = evs.into_iter().map(|e| (e.key, e.value)).collect();
    reported.sort_by(|x, y| x.0.cmp(&y.0));
    assert_eq!(reported.len(), 3);
    assert_eq!(reported[0].0, "extra");
    assert!(value_eq(&reported[0].1, &Value::Null));
    assert_eq!(reported[1].0, "size");
    assert!(value_eq(&reported[1].1, &Value::Int(12)));
    assert_eq!(reported[2].0, "theme");
    assert!(value_eq(&reported[2].1, &Value::Str("dark".to_string())));
}

#[test]
fn reset_reports_nothing_when_nothing_differs() {
    let mut defaults = ValueMap::new();
    defaults.insert("theme".to_string(), Value::Str("dark".to_string()));
    let mut st = Store::with_defaults("s".to_string(), defaults);
    let evs = st.reset();
    assert!(evs.is_empty());
    assert_eq!(st.len(), 1);
}

#[test]
fn reset_without_defaults_behaves_like_clear() {
    let mut a = Store::new("s".to_string());
    let mut b = Store::new("s".to_string());
    for st in [&mut a, &mut b] {
        let _ = st.insert("x".to_string(), Value::Int(1));
        let _ = st.insert("y".to_string(), Value::Int(2));
    }
    let mut from_reset: Vec<String> = a.reset().into_iter().map(|e| e.key).collect();
    let mut from_clear: Vec<String> = b.clear().into_iter().map(|e| e.key).collect();
    from_reset.sort();
    from_clear.sort();
    assert_eq!(from_reset, from_clear);
    assert_eq!(a.len(), 0);
    assert_eq!(b.len(), 0);
}

#[test]
fn builder_collects_defaults_and_codecs() {
    let st = StoreBuilder::new("prefs.bin")
        .default("volume".to_string(), Value::Int(5))
        .default("muted".to_string(), Value::Bool(false))
        .serialize(CodecKind::Framed)
        .deserialize(CodecKind::Framed)
        .build();
    let mut st = st;
    assert_eq!(st.len(), 2);
    assert!(value_eq(&st.get("volume").unwrap(), &Value::Int(5)));

    let bytes = st.save().expect("saves");
    let mut fresh = StoreBuilder::new("prefs.bin")
        .serialize(CodecKind::Framed)
        .deserialize(CodecKind::Framed)
        .build();
    fresh.load(&bytes).expect("loads framed bytes");
    assert_eq!(fresh.len(), 2);

    let _ = st.insert("volume".to_string(), Value::Int(11));
    let evs = st.reset();
    assert_eq!(evs.len(), 1);
    assert!(value_eq(&st.get("volume").unwrap(), &Value::Int(5)));
}

#[test]
fn builder_defaults_replaces_whole_mapping() {
    let mut d = ValueMap::new();
    d.insert("k".to_string(), Value::Int(1));
    let st = StoreBuilder::new("s").defaults(d).build();
    let mut st = st;
    assert_eq!(st.len(), 1);
    let _ = st.delete("k");
    let _ = st.reset();
    assert!(value_eq(&st.get("k").unwrap(), &Value::Int(1)));
}

#[test]
fn events_carry_the_built_path() {
    let mut st = StoreBuilder::new("nested/prefs.bin").build();
    let ev = st.insert("k".to_string(), Value::Null);
    assert_eq!(ev.path, "nested/prefs.bin");
}

#[test]
fn error_messages_name_the_failure() {
    assert_eq!(
        Error::Deserialize.message(),
        "the backing file is not a valid encoding"
    );
    assert_eq!(Error::Serialize.message(), "failed to encode the store");
    assert_eq!(Error::Io("disk on fire".to_string()).message(), "disk on fire");
}
