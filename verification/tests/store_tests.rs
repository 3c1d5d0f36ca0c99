use kvs::engine::KvsEngine;
use kvs::error::KvsError;
use kvs::kv::{GenFile, KvStore, COMPACTION_THRESHOLD};

fn fresh_store() -> KvStore {
    KvStore::open(Vec::new()).expect("an empty directory opens")
}

fn reopen(store: &KvStore) -> KvStore {
    KvStore::open(store.export_files()).expect("exported files reopen")
}

#[test]
fn set_then_get_round_trip() {
    let mut store = fresh_store();
    store.set("key".to_owned(), "value".to_owned()).unwrap();
    assert_eq!(store.get("key".to_owned()).unwrap(), Some("value".to_owned()));
}

#[test]
fn get_missing_key_is_none() {
    let mut store = fresh_store();
    assert_eq!(store.get("missing".to_owned()).unwrap(), None);
}

#[test]
fn overwrite_keeps_last_value() {
    let mut store = fresh_store();
    store.set("k".to_owned(), "v1".to_owned()).unwrap();
    store.set("k".to_owned(), "v2".to_owned()).unwrap();
    assert_eq!(store.get("k".to_owned()).unwrap(), Some("v2".to_owned()));
    assert_eq!(store.index.len(), 1);
}

#[test]
fn remove_then_get_is_none() {
    let mut store = fresh_store();
    store.set("k".to_owned(), "v".to_owned()).unwrap();
    store.remove("k".to_owned()).unwrap();
    assert_eq!(store.get("k".to_owned()).unwrap(), None);
}

#[test]
fn remove_never_set_key_fails() {
    let mut store = fresh_store();
    match store.remove("ghost".to_owned()) {
        Err(KvsError::KeyNotFound(k)) => assert_eq!(k, "ghost"),
        other => panic!("expected KeyNotFound, got {:?}", other),
    }
}

#[test]
fn keys_with_spaces_newlines_and_backslashes() {
    let mut store = fresh_store();
    let key = "a key with spaces".to_owned();
    let val = "line one\nline two \\ end".to_owned();
    store.set(key.clone(), val.clone()).unwrap();
    assert_eq!(store.get(key.clone()).unwrap(), Some(val.clone()));
    let mut again = reopen(&store);
    assert_eq!(again.get(key).unwrap(), Some(val));
}

#[test]
fn empty_key_and_value() {
    let mut store = fresh_store();
    store.set(String::new(), String::new()).unwrap();
    assert_eq!(store.get(String::new()).unwrap(), Some(String::new()));
    let mut again = reopen(&store);
    assert_eq!(again.get(String::new()).unwrap(), Some(String::new()));
}

#[test]
fn reopen_reproduces_contents() {
    let mut store = fresh_store();
    store.set("a".to_owned(), "1".to_owned()).unwrap();
    store.set("b".to_owned(), "2".to_owned()).unwrap();
    store.set("a".to_owned(), "3".to_owned()).unwrap();
    store.remove("b".to_owned()).unwrap();
    store.set("c".to_owned(), "4".to_owned()).unwrap();

    let mut again = reopen(&store);
    assert_eq!(again.get("a".to_owned()).unwrap(), Some("3".to_owned()));
    assert_eq!(again.get("b".to_owned()).unwrap(), None);
    assert_eq!(again.get("c".to_owned()).unwrap(), Some("4".to_owned()));
    assert_eq!(again.uncompacted, store.uncompacted);
}

#[test]
fn reopen_twice_is_stable() {
    let mut store = fresh_store();
    store.set("x".to_owned(), "y".to_owned()).unwrap();
    let once = reopen(&store);
    let mut twice = reopen(&once);
    assert_eq!(twice.get("x".to_owned()).unwrap(), Some("y".to_owned()));
}

#[test]
fn corrupt_log_is_refused() {
    let text: Vec<char> = "S k v\ngarbage without newline".chars().collect();
    let files = vec![GenFile { gen: 0, text }];
    match KvStore::open(files) {
        Err(KvsError::Malformed(gen, pos)) => {
            assert_eq!(gen, 0);
            assert_eq!(pos, 6);
        },
        other => panic!("expected Malformed, got {:?}", other),
    }
}

#[test]
fn open_replays_handwritten_log() {
    let text: Vec<char> = "S a 1\nS b 2\nR a\n".chars().collect();
    let files = vec![GenFile { gen: 7, text }];
    let mut store = KvStore::open(files).unwrap();
    assert_eq!(store.current_gen, 8);
    assert_eq!(store.get("a".to_owned()).unwrap(), None);
    assert_eq!(store.get("b".to_owned()).unwrap(), Some("2".to_owned()));
}

#[test]
fn compaction_triggers_and_preserves_contents() {
    let mut store = fresh_store();
    let big = "v".repeat(1000);
    store.set("stable".to_owned(), "kept".to_owned()).unwrap();
    let rounds = 3000u32;
    let mut written: u64 = 0;
    for i in 0..rounds {
        let val = format!("{}{}", big, i);
        written += (val.len() + 10) as u64;
        store.set("churn".to_owned(), val).unwrap();
    }
    assert!(written > COMPACTION_THRESHOLD);
    // compaction ran: the write generation moved past the first one
    assert!(store.current_gen > 1);
    // and the counter never ends a set above the threshold
    assert!(store.uncompacted <= COMPACTION_THRESHOLD);
    // lookups are unchanged
    assert_eq!(store.get("stable".to_owned()).unwrap(), Some("kept".to_owned()));
    let last = format!("{}{}", big, rounds - 1);
    assert_eq!(store.get("churn".to_owned()).unwrap(), Some(last.clone()));
    // and the on-disk size shrank well below what was appended
    let on_disk: usize = store.export_files().iter().map(|f| f.text.len()).sum();
    assert!((on_disk as u64) < written / 2);
    // reopening the compacted store still reproduces the contents
    let mut again = reopen(&store);
    assert_eq!(again.get("stable".to_owned()).unwrap(), Some("kept".to_owned()));
    assert_eq!(again.get("churn".to_owned()).unwrap(), Some(last));
}

#[test]
fn explicit_compaction_preserves_semantics() {
    let mut store = fresh_store();
    store.set("a".to_owned(), "1".to_owned()).unwrap();
    store.set("a".to_owned(), "2".to_owned()).unwrap();
    store.set("b".to_owned(), "3".to_owned()).unwrap();
    let before = store.uncompacted;
    assert!(before > 0);
    let gen_before = store.current_gen;
    store.compact().unwrap();
    assert_eq!(store.uncompacted, 0);
    assert_eq!(store.current_gen, gen_before + 2);
    // two fresh generations remain: the rewrite target and the active
    // one, and every index entry points into the target
    assert_eq!(store.logs.len(), 2);
    assert_eq!(store.logs[0].gen, gen_before + 1);
    assert_eq!(store.logs[1].gen, gen_before + 2);
    assert!(store.logs[1].records.is_empty());
    for e in &store.index {
        assert_eq!(e.pos.gen, gen_before + 1);
    }
    assert_eq!(store.get("a".to_owned()).unwrap(), Some("2".to_owned()));
    assert_eq!(store.get("b".to_owned()).unwrap(), Some("3".to_owned()));
    let mut again = reopen(&store);
    assert_eq!(again.get("a".to_owned()).unwrap(), Some("2".to_owned()));
    assert_eq!(again.get("b".to_owned()).unwrap(), Some("3".to_owned()));
}

#[test]
fn disjoint_keys_stay_independent() {
    let mut store = fresh_store();
    // two interleaved writers on disjoint key sets observe only their own writes
    for i in 0..50u32 {
        store.set(format!("left-{}", i), format!("L{}", i)).unwrap();
        store.set(format!("right-{}", i), format!("R{}", i)).unwrap();
    }
    for i in (0..50u32).step_by(2) {
        store.remove(format!("left-{}", i)).unwrap();
    }
    for i in 0..50u32 {
        let left = store.get(format!("left-{}", i)).unwrap();
        if i % 2 == 0 {
            assert_eq!(left, None);
        } else {
            assert_eq!(left, Some(format!("L{}", i)));
        }
        assert_eq!(store.get(format!("right-{}", i)).unwrap(), Some(format!("R{}", i)));
    }
}

#[test]
fn engine_trait_set_get_remove() {
    let mut store = fresh_store();
    KvsEngine::set(&mut store, "k".to_owned(), "v".to_owned()).unwrap();
    assert_eq!(KvsEngine::get(&mut store, "k".to_owned()).unwrap(), Some("v".to_owned()));
    KvsEngine::remove(&mut store, "k".to_owned()).unwrap();
    assert_eq!(KvsEngine::get(&mut store, "k".to_owned()).unwrap(), None);
}

#[test]
fn sorted_gen_list_orders_discovered_files() {
    let files = vec![
        GenFile { gen: 9, text: "S c 3\n".chars().collect() },
        GenFile { gen: 2, text: "S a 1\n".chars().collect() },
        GenFile { gen: 5, text: "S a 2\n".chars().collect() },
    ];
    let sorted = kvs::kv::sorted_gen_list(files);
    let gens: Vec<u64> = sorted.iter().map(|f| f.gen).collect();
    assert_eq!(gens, vec![2, 5, 9]);
    // replay then sees the highest generation last
    let mut store = KvStore::open(sorted).unwrap();
    assert_eq!(store.get("a".to_owned()).unwrap(), Some("2".to_owned()));
    assert_eq!(store.get("c".to_owned()).unwrap(), Some("3".to_owned()));
    assert_eq!(store.current_gen, 10);
}
