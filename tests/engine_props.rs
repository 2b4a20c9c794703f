use kvs::engines::{check_length, REDUNDANCE_THRESHOLD};
use kvs::persist::{recovery, Recovery, SyncAction};
use kvs::{KvStore, KvsError};

fn s(x: &str) -> String {
    x.to_owned()
}

#[test]
fn scenario_two_keys() {
    let mut store = KvStore::new();
    store.set(s("k1"), s("v1")).unwrap();
    store.set(s("k2"), s("v2")).unwrap();
    assert_eq!(store.get(s("k1")).unwrap(), Some(s("v1")));
    assert_eq!(store.get(s("k2")).unwrap(), Some(s("v2")));
    assert_eq!(store.get(s("k3")).unwrap(), None);
}

#[test]
fn scenario_overwrite_then_scan() {
    let mut store = KvStore::new();
    store.set(s("k1"), s("v1")).unwrap();
    store.set(s("k1"), s("v2")).unwrap();
    assert_eq!(store.get(s("k1")).unwrap(), Some(s("v2")));
    assert_eq!(store.scan(), vec![s("k1")]);
}

#[test]
fn scenario_remove_then_remove_again() {
    let mut store = KvStore::new();
    store.set(s("k1"), s("v1")).unwrap();
    store.remove(s("k1")).unwrap();
    assert_eq!(store.get(s("k1")).unwrap(), None);
    assert!(matches!(store.remove(s("k1")), Err(KvsError::KeyNotFound)));
}

#[test]
fn remove_absent_key_fails() {
    let mut store = KvStore::new();
    assert!(matches!(store.remove(s("nothing")), Err(KvsError::KeyNotFound)));
    assert!(store.log_bytes().is_empty());
}

#[test]
fn value_survives_operations_on_other_keys() {
    let mut store = KvStore::new();
    store.set(s("k"), s("v")).unwrap();
    store.set(s("a"), s("1")).unwrap();
    store.set(s("b"), s("2")).unwrap();
    store.remove(s("a")).unwrap();
    store.set(s("b"), s("3")).unwrap();
    assert_eq!(store.get(s("k")).unwrap(), Some(s("v")));
    store.set(s("k"), s("w")).unwrap();
    assert_eq!(store.get(s("k")).unwrap(), Some(s("w")));
}

#[test]
fn key_size_limits() {
    let mut store = KvStore::new();
    let key_256 = "k".repeat(256);
    let key_257 = "k".repeat(257);
    let value_4096 = "v".repeat(4096);
    let value_4097 = "v".repeat(4097);
    assert!(store.set(key_256.clone(), s("v")).is_ok());
    assert!(matches!(store.set(key_257.clone(), s("v")), Err(KvsError::InvalidKeySize)));
    assert!(store.set(s("k"), value_4096).is_ok());
    assert!(matches!(store.set(s("k2"), value_4097.clone()), Err(KvsError::InvalidValueSize)));
    // the key is checked first
    assert!(matches!(store.set(key_257, value_4097), Err(KvsError::InvalidKeySize)));
    assert_eq!(store.get(s("k2")).unwrap(), None);
}

#[test]
fn key_size_counts_bytes() {
    // 128 two-byte characters are 256 bytes; one more is too many
    let ok_key = "é".repeat(128);
    let long_key = "é".repeat(129);
    assert!(check_length(&ok_key, "key", 256).is_ok());
    assert!(matches!(check_length(&long_key, "key", 256), Err(KvsError::InvalidKeySize)));
    assert!(matches!(check_length(&long_key, "value", 256), Err(KvsError::InvalidValueSize)));
}

#[test]
fn ten_thousand_keys_log_bound() {
    let mut store = KvStore::new();
    let mut live = 0usize;
    for i in 0..10000 {
        let key = format!("key{}", i);
        live += format!("{{\"Set\":{{\"key\":\"{}\",\"value\":\"value\"}}}}", key).len();
        store.set(key, s("value")).unwrap();
    }
    assert!(store.log_bytes().len() < 3 * live);
}

#[test]
fn ten_thousand_keys_reopen() {
    let mut store = KvStore::new();
    for i in 0..10000 {
        store.set(format!("key{}", i), s("value")).unwrap();
    }
    let bytes = store.log_bytes().clone();
    drop(store);
    let reopened = KvStore::open(&bytes);
    for i in 0..10000 {
        assert_eq!(reopened.get(format!("key{}", i)).unwrap(), Some(s("value")));
    }
    assert_eq!(reopened.log_bytes(), &bytes);
}

#[test]
fn reopen_matches_live_state() {
    let mut store = KvStore::new();
    store.set(s("a"), s("1")).unwrap();
    store.set(s("b"), s("2")).unwrap();
    store.set(s("a"), s("3")).unwrap();
    store.remove(s("b")).unwrap();
    store.set(s("c"), s("quote \" and backslash \\")).unwrap();
    let reopened = KvStore::open(store.log_bytes());
    for k in ["a", "b", "c", "d"] {
        assert_eq!(reopened.get(s(k)).unwrap(), store.get(s(k)).unwrap());
    }
    assert_eq!(reopened.redundance_bytes(), 0);
}

#[test]
fn reopen_stops_at_garbage() {
    let mut store = KvStore::new();
    store.set(s("a"), s("1")).unwrap();
    let mut bytes = store.log_bytes().clone();
    let good_len = bytes.len();
    bytes.extend_from_slice(b"{\"Set\":{\"key\":\"b\"");
    let reopened = KvStore::open(&bytes);
    assert_eq!(reopened.get(s("a")).unwrap(), Some(s("1")));
    assert_eq!(reopened.get(s("b")).unwrap(), None);
    assert_eq!(reopened.log_bytes().len(), good_len);
}

#[test]
fn compaction_runs_and_reclaims_space() {
    let mut store = KvStore::new();
    let big = "x".repeat(4096);
    for _ in 0..400 {
        store.set(s("k"), big.clone()).unwrap();
    }
    assert!(store.compactions() >= 1);
    assert!(store.redundance_bytes() < REDUNDANCE_THRESHOLD);
    assert!(store.log_bytes().len() < (REDUNDANCE_THRESHOLD as usize) + 2 * 4200);
    assert_eq!(store.get(s("k")).unwrap(), Some(big));
}

#[test]
fn compaction_twice_is_identical() {
    let mut store = KvStore::new();
    for i in 0..20 {
        store.set(format!("k{}", i % 7), format!("v{}", i)).unwrap();
    }
    store.remove(s("k3")).unwrap();
    store.log_compact();
    let log1 = store.log_bytes().clone();
    let index1 = store.index_snapshot();
    store.log_compact();
    let log2 = store.log_bytes().clone();
    let index2 = store.index_snapshot();
    assert_eq!(log1, log2);
    assert_eq!(index1.len(), index2.len());
    for (a, b) in index1.iter().zip(index2.iter()) {
        assert_eq!(a.0, b.0);
        assert_eq!(a.1.pos, b.1.pos);
        assert_eq!(a.1.len, b.1.len);
    }
    assert_eq!(store.get(s("k3")).unwrap(), None);
    assert_eq!(store.get(s("k5")).unwrap(), Some(s("v19")));
}

#[test]
fn compacted_log_is_sum_of_live_records() {
    let mut store = KvStore::new();
    store.set(s("a"), s("1")).unwrap();
    store.set(s("a"), s("2")).unwrap();
    store.set(s("b"), s("3")).unwrap();
    store.remove(s("b")).unwrap();
    store.log_compact();
    let live: usize = store.index_snapshot().iter().map(|e| e.1.len).sum();
    assert!(store.log_bytes().len() <= live);
    assert_eq!(store.log_bytes().as_slice(), b"{\"Set\":{\"key\":\"a\",\"value\":\"2\"}}");
    assert_eq!(store.redundance_bytes(), 0);
}

#[test]
fn redundancy_counts_superseded_bytes() {
    let mut store = KvStore::new();
    store.set(s("a"), s("1")).unwrap();
    let first = store.log_bytes().len() as u64;
    store.set(s("a"), s("2")).unwrap();
    assert_eq!(store.redundance_bytes(), first);
    let before = store.log_bytes().len() as u64;
    store.remove(s("a")).unwrap();
    let tomb = store.log_bytes().len() as u64 - before;
    assert_eq!(store.redundance_bytes(), first + first + tomb);
}

#[test]
fn non_ascii_round_trip() {
    let mut store = KvStore::new();
    store.set(s("clé"), s("valeur ✓")).unwrap();
    let reopened = KvStore::open(store.log_bytes());
    assert_eq!(reopened.get(s("clé")).unwrap(), Some(s("valeur ✓")));
}

#[test]
fn recovery_steps() {
    assert_eq!(recovery(true, false), Recovery::Nothing);
    assert_eq!(recovery(false, false), Recovery::Nothing);
    assert_eq!(recovery(true, true), Recovery::DiscardRebuild);
    assert_eq!(recovery(false, true), Recovery::FinishRename);
}

#[test]
fn sync_actions_follow_the_log() {
    let mut store = KvStore::new();
    assert_eq!(store.sync_action(0, 0), SyncAction::UpToDate);
    store.set(s("a"), s("1")).unwrap();
    assert_eq!(store.sync_action(0, 0), SyncAction::Append { from: 0 });
    let len = store.log_bytes().len();
    assert_eq!(store.sync_action(len, 0), SyncAction::UpToDate);
    store.log_compact();
    assert_eq!(store.compactions(), 1);
    assert_eq!(store.sync_action(len, 0), SyncAction::Rewrite);
    assert_eq!(store.sync_action(len + 5, 1), SyncAction::Rewrite);
}

#[test]
fn compaction_through_removals() {
    let mut store = KvStore::new();
    let big = "y".repeat(4000);
    let mut round = 0;
    while store.compactions() == 0 {
        store.set(s("k"), big.clone()).unwrap();
        store.remove(s("k")).unwrap();
        round += 1;
        assert!(round < 1000);
    }
    assert_eq!(store.redundance_bytes(), 0);
    assert!(store.log_bytes().is_empty());
    assert!(store.scan().is_empty());
}

#[test]
fn set_appends_exactly_one_record() {
    let mut store = KvStore::new();
    store.set(s("a"), s("1")).unwrap();
    let before = store.log_bytes().clone();
    store.set(s("a"), s("2")).unwrap();
    let mut expected = before.clone();
    expected.extend_from_slice(b"{\"Set\":{\"key\":\"a\",\"value\":\"2\"}}");
    assert_eq!(store.log_bytes(), &expected);
    let index = store.index_snapshot();
    assert_eq!(index.len(), 1);
    assert_eq!(index[0].1.pos, before.len());
    assert_eq!(index[0].1.len, expected.len() - before.len());
    assert_eq!(store.redundance_bytes(), before.len() as u64);
    let before_rm = store.log_bytes().clone();
    store.remove(s("a")).unwrap();
    let mut expected_rm = before_rm.clone();
    expected_rm.extend_from_slice(b"{\"Rm\":{\"key\":\"a\"}}");
    assert_eq!(store.log_bytes(), &expected_rm);
    assert!(store.index_snapshot().is_empty());
}

#[test]
fn reopen_stops_at_oversized_record() {
    let mut store = KvStore::new();
    store.set(s("a"), s("1")).unwrap();
    let good = store.log_bytes().clone();
    let mut bytes = good.clone();
    let big_key = "k".repeat(300);
    bytes.extend_from_slice(format!("{{\"Set\":{{\"key\":\"{}\",\"value\":\"v\"}}}}", big_key).as_bytes());
    bytes.extend_from_slice(b"{\"Set\":{\"key\":\"b\",\"value\":\"2\"}}");
    let reopened = KvStore::open(&bytes);
    assert_eq!(reopened.get(s("a")).unwrap(), Some(s("1")));
    assert_eq!(reopened.get(big_key).unwrap(), None);
    assert_eq!(reopened.get(s("b")).unwrap(), None);
    assert_eq!(reopened.log_bytes(), &good);
}
