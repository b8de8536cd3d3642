use redis_starter_rust::storage::{
    glob_matches, needle_in_haystack, InMemoryStorage, RdbConfig, RdbStorage, Storage, Value,
};

const NOW: u64 = 1_700_000_000_000;

#[test]
fn should_match_asterisk() {
    let needle = b"*";
    let haystack = vec![b"foo".to_vec(), b"bar".to_vec()];

    let actual = needle_in_haystack(needle, &haystack);
    assert_eq!(actual, haystack);
}

#[test]
fn should_match_partial_asterisk() {
    let needle = b"f*";
    let haystack = vec![b"foo".to_vec(), b"bar".to_vec()];

    let actual = needle_in_haystack(needle, &haystack);
    assert_eq!(actual, vec![b"foo".to_vec()]);
}

#[test]
fn glob_wildcard_positions() {
    assert!(glob_matches(b"a*c", b"abc"));
    assert!(glob_matches(b"a*c", b"ac"));
    assert!(glob_matches(b"a*c", b"abbbc"));
    assert!(!glob_matches(b"a*c", b"ab"));
    assert!(glob_matches(b"*", b""));
    assert!(glob_matches(b"**", b"anything"));
    assert!(!glob_matches(b"", b"x"));
}

#[test]
fn glob_treats_other_bytes_literally() {
    // A dot is an ordinary byte, not "any character".
    assert!(!glob_matches(b"a.c", b"abc"));
    assert!(glob_matches(b"a.c", b"a.c"));
    assert!(!glob_matches(b"f(o", b"foo"));
}

#[test]
fn get_of_unset_key_is_absent() {
    let storage = InMemoryStorage::new();
    assert!(storage.get(b"missing", NOW).is_none());
}

#[test]
fn set_then_get_returns_value() {
    let mut storage = InMemoryStorage::new();
    storage.set(b"k".to_vec(), Value { value: b"v".to_vec(), expiry: None });
    let got = storage.get(b"k", NOW).unwrap();
    assert_eq!(got.value, b"v".to_vec());
    assert_eq!(got.expiry, None);
}

#[test]
fn set_overwrites_previous_value() {
    let mut storage = InMemoryStorage::new();
    storage.set(b"k".to_vec(), Value { value: b"one".to_vec(), expiry: None });
    storage.set(b"k".to_vec(), Value { value: b"two".to_vec(), expiry: None });
    assert_eq!(storage.get(b"k", NOW).unwrap().value, b"two".to_vec());
}

#[test]
fn already_expired_value_reads_as_absent() {
    let mut storage = InMemoryStorage::new();
    storage.set(
        b"k".to_vec(),
        Value { value: b"v".to_vec(), expiry: Some(NOW - 1) },
    );
    assert!(storage.get(b"k", NOW).is_none());
}

#[test]
fn not_yet_expired_value_reads_as_present() {
    let mut storage = InMemoryStorage::new();
    storage.set(
        b"k".to_vec(),
        Value { value: b"v".to_vec(), expiry: Some(NOW + 10_000) },
    );
    assert_eq!(storage.get(b"k", NOW).unwrap().value, b"v".to_vec());
}

#[test]
fn value_live_exactly_at_deadline() {
    let mut storage = InMemoryStorage::new();
    storage.set(b"k".to_vec(), Value { value: b"v".to_vec(), expiry: Some(NOW) });
    assert!(storage.get(b"k", NOW).is_some());
    assert!(storage.get(b"k", NOW + 1).is_none());
}

#[test]
fn keys_star_lists_all_keys() {
    let mut storage = InMemoryStorage::new();
    storage.set(b"foo".to_vec(), Value { value: b"1".to_vec(), expiry: None });
    storage.set(b"bar".to_vec(), Value { value: b"2".to_vec(), expiry: None });
    storage.set(b"baz".to_vec(), Value { value: b"3".to_vec(), expiry: None });
    let mut ks = storage.keys(b"*").unwrap();
    ks.sort();
    assert_eq!(ks, vec![b"bar".to_vec(), b"baz".to_vec(), b"foo".to_vec()]);
}

#[test]
fn keys_literal_pattern_is_exact() {
    let mut storage = InMemoryStorage::new();
    storage.set(b"abc".to_vec(), Value { value: b"1".to_vec(), expiry: None });
    storage.set(b"abcd".to_vec(), Value { value: b"2".to_vec(), expiry: None });
    assert_eq!(storage.keys(b"abc").unwrap(), vec![b"abc".to_vec()]);
    assert_eq!(storage.keys(b"nope").unwrap(), Vec::<Vec<u8>>::new());
}

#[test]
fn config_file_joins_dir_and_name() {
    let config = RdbConfig { dir: b"/tmp".to_vec(), path: b"dump.rdb".to_vec() };
    assert_eq!(config.config_file(), b"/tmp/dump.rdb".to_vec());
}

#[test]
fn volatile_save_yields_nothing() {
    let storage = InMemoryStorage::new();
    assert_eq!(storage.save().unwrap(), None);
}

#[test]
fn durable_save_then_load_restores_key_space() {
    let mut storage = RdbStorage::new(b"/tmp".to_vec(), b"dump.rdb".to_vec());
    storage.set(b"foo".to_vec(), Value { value: b"bar".to_vec(), expiry: None });
    storage.set(
        b"tmp".to_vec(),
        Value { value: b"x".to_vec(), expiry: Some(123) },
    );
    let bytes = storage.save().unwrap().unwrap();

    let mut restored = RdbStorage::new(b"/tmp".to_vec(), b"dump.rdb".to_vec());
    restored.load(&bytes).unwrap();
    assert_eq!(restored.get(b"foo", NOW).unwrap().value, b"bar".to_vec());
    // The deadline in the past is preserved as expired, not dropped.
    assert!(restored.get(b"tmp", NOW).is_none());
    let mut ks = restored.keys(b"*").unwrap();
    ks.sort();
    assert_eq!(ks, vec![b"foo".to_vec(), b"tmp".to_vec()]);
}

#[test]
fn durable_save_rejects_oversized_key() {
    let mut storage = RdbStorage::new(b"/tmp".to_vec(), b"dump.rdb".to_vec());
    storage.set(vec![b'k'; 256], Value { value: b"v".to_vec(), expiry: None });
    assert!(storage.save().is_err());
}

#[test]
fn volatile_load_is_a_no_op() {
    let mut storage = InMemoryStorage::new();
    storage.set(b"k".to_vec(), Value { value: b"v".to_vec(), expiry: None });
    storage.load(b"whatever").unwrap();
    assert_eq!(storage.get(b"k", NOW).unwrap().value, b"v".to_vec());
}

#[test]
fn volatile_config_is_empty() {
    let storage = InMemoryStorage::new();
    let config = storage.config();
    assert!(config.dir.is_empty());
    assert!(config.path.is_empty());
}
