use kvs::codec::{decode_at, encode};
use kvs::engine::{check_engine, current_engine};
use kvs::{DirState, EngineKind, KVError, KVPair, KVStore, LogRecord, LogSync};

fn s(x: &str) -> String {
    x.to_string()
}

fn no_files() -> DirState {
    DirState { has_kvs_log: false, has_sled_db: false }
}

#[test]
fn set_then_get_returns_value() {
    let mut store = KVStore::new();
    store.set(s("key1"), s("value1")).unwrap();
    assert_eq!(store.get(s("key1")).unwrap(), Some(s("value1")));
}

#[test]
fn get_of_absent_key_is_none() {
    let store = KVStore::new();
    assert_eq!(store.get(s("nothing")).unwrap(), None);
}

#[test]
fn remove_then_get_is_none_and_second_remove_fails() {
    let mut store = KVStore::new();
    store.set(s("k"), s("v")).unwrap();
    store.remove(s("k")).unwrap();
    assert_eq!(store.get(s("k")).unwrap(), None);
    assert!(matches!(store.remove(s("k")), Err(KVError::KeyNotFound)));
}

#[test]
fn overwrite_keeps_latest_value() {
    let mut store = KVStore::new();
    store.set(s("k"), s("v1")).unwrap();
    store.set(s("k"), s("v2")).unwrap();
    assert_eq!(store.get(s("k")).unwrap(), Some(s("v2")));
}

#[test]
fn remove_missing_on_empty_store_fails() {
    let mut store = KVStore::new();
    assert!(matches!(store.remove(s("missing")), Err(KVError::KeyNotFound)));
    assert!(store.log_bytes().is_empty());
}

#[test]
fn value_rm_is_an_ordinary_value() {
    let mut store = KVStore::new();
    store.set(s("k"), s("rm")).unwrap();
    let reopened = KVStore::recover(store.log_bytes().clone());
    assert_eq!(reopened.get(s("k")).unwrap(), Some(s("rm")));
}

#[test]
fn compaction_twice_gives_same_contents() {
    let mut store = KVStore::new();
    store.set(s("a"), s("1")).unwrap();
    store.set(s("b"), s("2")).unwrap();
    store.set(s("a"), s("3")).unwrap();
    store.remove(s("b")).unwrap();
    store.compaction();
    let once = store.log_bytes().clone();
    store.compaction();
    assert_eq!(store.log_bytes(), &once);
    assert_eq!(store.get(s("a")).unwrap(), Some(s("3")));
    assert_eq!(store.get(s("b")).unwrap(), None);
}

#[test]
fn compaction_of_empty_store_is_no_op() {
    let mut store = KVStore::new();
    store.compaction();
    assert!(store.log_bytes().is_empty());
    assert_eq!(store.pending_sync(), LogSync::Rewritten);
}

#[test]
fn compaction_keeps_one_record_per_live_key() {
    let mut store = KVStore::new();
    store.set(s("a"), s("1")).unwrap();
    store.set(s("a"), s("2")).unwrap();
    store.set(s("b"), s("x")).unwrap();
    store.remove(s("b")).unwrap();
    store.compaction();
    let expected = encode(&LogRecord::Put(KVPair::new(s("a"), s("2"))));
    assert_eq!(store.log_bytes(), &expected);
}

#[test]
fn recovery_round_trip() {
    let mut store = KVStore::new();
    for i in 0..20 {
        store.set(format!("key{}", i), format!("value{}", i)).unwrap();
    }
    for i in 0..20 {
        if i % 3 == 0 {
            store.remove(format!("key{}", i)).unwrap();
        }
    }
    store.set(s("key4"), s("changed")).unwrap();
    let reopened = KVStore::recover(store.log_bytes().clone());
    for i in 0..20 {
        let got = reopened.get(format!("key{}", i)).unwrap();
        if i == 4 {
            assert_eq!(got, Some(s("changed")));
        } else if i % 3 == 0 {
            assert_eq!(got, None);
        } else {
            assert_eq!(got, Some(format!("value{}", i)));
        }
    }
}

#[test]
fn recovery_stops_at_torn_record() {
    let mut store = KVStore::new();
    store.set(s("a"), s("1")).unwrap();
    let whole = store.log_bytes().clone();
    let mut bytes = whole.clone();
    let next = encode(&LogRecord::Put(KVPair::new(s("b"), s("2"))));
    bytes.extend_from_slice(&next[..next.len() - 1]);
    let reopened = KVStore::recover(bytes);
    assert_eq!(reopened.get(s("a")).unwrap(), Some(s("1")));
    assert_eq!(reopened.get(s("b")).unwrap(), None);
    assert_eq!(reopened.log_bytes(), &whole);
    assert_eq!(reopened.pending_sync(), LogSync::Rewritten);
}

#[test]
fn recovery_of_whole_log_is_in_sync() {
    let mut store = KVStore::new();
    store.set(s("a"), s("1")).unwrap();
    let reopened = KVStore::recover(store.log_bytes().clone());
    assert_eq!(reopened.pending_sync(), LogSync::InSync);
}

#[test]
fn scenario_remove_compact_reopen() {
    let mut store = KVStore::new();
    store.set(s("a"), s("1")).unwrap();
    store.set(s("b"), s("2")).unwrap();
    store.remove(s("a")).unwrap();
    store.compaction();
    let reopened = KVStore::open(no_files(), store.log_bytes().clone()).unwrap();
    assert_eq!(reopened.get(s("a")).unwrap(), None);
    assert_eq!(reopened.get(s("b")).unwrap(), Some(s("2")));
}

#[test]
fn writes_report_appended_bytes() {
    let mut store = KVStore::new();
    store.set(s("a"), s("1")).unwrap();
    assert_eq!(store.pending_sync(), LogSync::Appended { from: 0 });
    store.mark_synced();
    let len = store.log_bytes().len();
    store.set(s("b"), s("2")).unwrap();
    store.remove(s("a")).unwrap();
    assert_eq!(store.pending_sync(), LogSync::Appended { from: len });
    store.mark_synced();
    assert_eq!(store.pending_sync(), LogSync::InSync);
}

#[test]
fn stale_bytes_trigger_compaction() {
    let mut store = KVStore::new();
    for i in 0..200 {
        store.set(s("k"), format!("{}", i)).unwrap();
    }
    assert!(store.log_bytes().len() < 1200);
    assert_eq!(store.get(s("k")).unwrap(), Some(s("199")));
    assert_eq!(store.pending_sync(), LogSync::Rewritten);
}

#[test]
fn encode_value_record_bytes() {
    let bytes = encode(&LogRecord::Put(KVPair::new(s("a"), s("xy"))));
    assert_eq!(
        bytes,
        vec![0, 1, 0, 0, 0, 0, 0, 0, 0, b'a', 2, 0, 0, 0, 0, 0, 0, 0, b'x', b'y']
    );
}

#[test]
fn encode_tombstone_bytes() {
    let bytes = encode(&LogRecord::Remove(s("ab")));
    assert_eq!(bytes, vec![1, 2, 0, 0, 0, 0, 0, 0, 0, b'a', b'b']);
}

#[test]
fn decode_reads_back_records() {
    let mut log = encode(&LogRecord::Put(KVPair::new(s("ké"), s("v"))));
    let first = log.len();
    log.extend(encode(&LogRecord::Remove(s("ké"))));
    match decode_at(&log, 0) {
        Some((LogRecord::Put(p), n)) => {
            assert_eq!(p.key, s("ké"));
            assert_eq!(p.val, s("v"));
            assert_eq!(n, first);
        }
        other => panic!("unexpected {:?}", other),
    }
    match decode_at(&log, first) {
        Some((LogRecord::Remove(k), n)) => {
            assert_eq!(k, s("ké"));
            assert_eq!(n, log.len() - first);
        }
        other => panic!("unexpected {:?}", other),
    }
    assert!(decode_at(&log, log.len()).is_none());
}

#[test]
fn decode_refuses_bad_utf8_and_bad_tag() {
    let bad_utf8 = vec![1, 1, 0, 0, 0, 0, 0, 0, 0, 0xff];
    assert!(decode_at(&bad_utf8, 0).is_none());
    let bad_tag = vec![7, 1, 0, 0, 0, 0, 0, 0, 0, b'a'];
    assert!(decode_at(&bad_tag, 0).is_none());
    let short = vec![1, 5, 0, 0, 0, 0, 0, 0, 0, b'a'];
    assert!(decode_at(&short, 0).is_none());
}

#[test]
fn open_refuses_sled_directory() {
    let dir = DirState { has_kvs_log: false, has_sled_db: true };
    assert!(matches!(KVStore::open(dir, vec![]), Err(KVError::WrongEngine)));
}

#[test]
fn engine_exclusivity_both_ways() {
    let kvs_dir = DirState { has_kvs_log: true, has_sled_db: false };
    let sled_dir = DirState { has_kvs_log: false, has_sled_db: true };
    assert!(matches!(check_engine(EngineKind::Sled, kvs_dir), Err(KVError::WrongEngine)));
    assert!(matches!(check_engine(EngineKind::Kvs, sled_dir), Err(KVError::WrongEngine)));
    assert!(check_engine(EngineKind::Kvs, kvs_dir).is_ok());
    assert!(check_engine(EngineKind::Sled, sled_dir).is_ok());
}

#[test]
fn engine_names() {
    assert_eq!(current_engine("kvs").unwrap(), EngineKind::Kvs);
    assert_eq!(current_engine("sled").unwrap(), EngineKind::Sled);
    match current_engine("other") {
        Err(KVError::EngineNotFound(n)) => assert_eq!(n, s("other")),
        _ => panic!("expected EngineNotFound"),
    }
}

#[test]
fn set_appends_exactly_one_record() {
    let mut store = KVStore::new();
    store.set(s("a"), s("1")).unwrap();
    let before = store.log_bytes().clone();
    store.set(s("a"), s("2")).unwrap();
    let mut expected = before.clone();
    expected.extend(encode(&LogRecord::Put(KVPair::new(s("a"), s("2")))));
    assert_eq!(store.log_bytes(), &expected);
    store.remove(s("a")).unwrap();
    expected.extend(encode(&LogRecord::Remove(s("a"))));
    assert_eq!(store.log_bytes(), &expected);
}

#[test]
fn discard_pending_drops_unsynced_writes() {
    let mut store = KVStore::new();
    store.set(s("a"), s("1")).unwrap();
    store.mark_synced();
    let synced = store.log_bytes().clone();
    store.set(s("b"), s("2")).unwrap();
    store.set(s("a"), s("3")).unwrap();
    let store = store.discard_pending();
    assert_eq!(store.get(s("a")).unwrap(), Some(s("1")));
    assert_eq!(store.get(s("b")).unwrap(), None);
    assert_eq!(store.log_bytes(), &synced);
    assert_eq!(store.pending_sync(), LogSync::InSync);
}

#[test]
fn discard_pending_keeps_synced_store() {
    let mut store = KVStore::new();
    store.set(s("a"), s("1")).unwrap();
    store.mark_synced();
    let store = store.discard_pending();
    assert_eq!(store.get(s("a")).unwrap(), Some(s("1")));
}

#[test]
fn small_overwrites_do_not_compact() {
    let mut store = KVStore::new();
    store.set(s("k"), s("a")).unwrap();
    store.remove(s("k")).unwrap();
    store.set(s("k"), s("b")).unwrap();
    let mut expected = encode(&LogRecord::Put(KVPair::new(s("k"), s("a"))));
    expected.extend(encode(&LogRecord::Remove(s("k"))));
    expected.extend(encode(&LogRecord::Put(KVPair::new(s("k"), s("b")))));
    assert_eq!(store.log_bytes(), &expected);
    assert_eq!(store.pending_sync(), LogSync::Appended { from: 0 });
}
