use mini_kv::command::Command;
use mini_kv::store::{Outcome, Store};

#[test]
fn a_new_store_holds_nothing() {
    let store = Store::new();
    assert_eq!(store.get("foo"), None);
    assert_eq!(store.get(""), None);
}

#[test]
fn get_returns_what_set_stored() {
    let mut store = Store::new();
    store.set("foo".to_string(), b"bar".to_vec());
    assert_eq!(store.get("foo"), Some(b"bar".to_vec()));
}

#[test]
fn set_replaces_the_value() {
    let mut store = Store::new();
    store.set("foo".to_string(), b"one".to_vec());
    store.set("foo".to_string(), b"two".to_vec());
    assert_eq!(store.get("foo"), Some(b"two".to_vec()));
}

#[test]
fn set_leaves_other_keys_alone() {
    let mut store = Store::new();
    store.set("a".to_string(), b"1".to_vec());
    store.set("b".to_string(), b"2".to_vec());
    assert_eq!(store.get("a"), Some(b"1".to_vec()));
    assert_eq!(store.get("b"), Some(b"2".to_vec()));
    assert_eq!(store.get("c"), None);
    assert_eq!(store.get("A"), None);
}

#[test]
fn a_value_may_be_empty_or_binary() {
    let mut store = Store::new();
    store.set("empty".to_string(), Vec::new());
    store.set("".to_string(), vec![0, 255, 13, 10]);
    assert_eq!(store.get("empty"), Some(Vec::new()));
    assert_eq!(store.get(""), Some(vec![0, 255, 13, 10]));
}

#[test]
fn apply_runs_each_command() {
    let mut store = Store::new();
    let get = Command::Get { key: "foo".to_string() };
    let put = Command::Put { key: "foo".to_string(), value: b"bar".to_vec() };
    assert_eq!(store.apply(get.clone()), Outcome::Missing);
    assert_eq!(store.apply(put), Outcome::Stored);
    assert_eq!(store.apply(get), Outcome::Found(b"bar".to_vec()));
    assert_eq!(store.get("foo"), Some(b"bar".to_vec()));
}

#[test]
fn the_last_write_under_a_key_is_the_one_that_stays() {
    let mut store = Store::new();
    let writes: Vec<(&str, &[u8])> =
        vec![("a", b"1"), ("b", b"2"), ("a", b"3"), ("c", b"4"), ("b", b"5"), ("a", b"6")];
    for (key, value) in writes {
        let put = Command::Put { key: key.to_string(), value: value.to_vec() };
        assert_eq!(store.apply(put), Outcome::Stored);
        let get = Command::Get { key: "zzz".to_string() };
        assert_eq!(store.apply(get), Outcome::Missing);
    }
    assert_eq!(store.get("a"), Some(b"6".to_vec()));
    assert_eq!(store.get("b"), Some(b"5".to_vec()));
    assert_eq!(store.get("c"), Some(b"4".to_vec()));
}

#[test]
fn clone_copies_an_outcome() {
    let found = Outcome::Found(b"v".to_vec());
    assert_eq!(found.clone(), found);
    assert_eq!(Outcome::Missing.clone(), Outcome::Missing);
    assert_eq!(Outcome::Stored.clone(), Outcome::Stored);
}
