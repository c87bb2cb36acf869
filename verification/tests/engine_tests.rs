//! Scenario tests for the log-structured engine: open, set, get, remove,
//! persistence across reopen, and compaction.

use std::path::Path;

use kvs::KvError;
use kvs::KvStore;

fn fresh_store() -> KvStore {
    KvStore::open(Vec::new()).expect("an empty log replays cleanly")
}

#[test]
fn pathj() {
    let p = Path::new("/etc");
    let p2 = p.join("data");
    println!("{:?}, {:?}", p, p2);
}

#[test]
fn lifecycle() {}

#[test]
fn open_empty_get_none() {
    let st = fresh_store();
    assert_eq!(st.get("a".to_string()).unwrap(), None);
}

#[test]
fn set_then_get() {
    let mut st = fresh_store();
    st.set("a".to_string(), "1".to_string()).unwrap();
    assert_eq!(st.get("a".to_string()).unwrap(), Some("1".to_string()));
}

#[test]
fn overwrite_takes_last_value() {
    let mut st = fresh_store();
    st.set("a".to_string(), "1".to_string()).unwrap();
    st.set("a".to_string(), "2".to_string()).unwrap();
    assert_eq!(st.get("a".to_string()).unwrap(), Some("2".to_string()));
}

#[test]
fn remove_missing_reports_key_not_found() {
    let mut st = fresh_store();
    assert_eq!(st.remove("a".to_string()), Err(KvError::KeyNotFound));
}

#[test]
fn remove_live_key_then_get_none() {
    let mut st = fresh_store();
    st.set("a".to_string(), "1".to_string()).unwrap();
    assert_eq!(st.remove("a".to_string()), Ok(()));
    assert_eq!(st.get("a".to_string()).unwrap(), None);
}

#[test]
fn writes_to_other_keys_leave_binding_alone() {
    let mut st = fresh_store();
    st.set("a".to_string(), "1".to_string()).unwrap();
    st.set("b".to_string(), "2".to_string()).unwrap();
    st.set("c".to_string(), "3".to_string()).unwrap();
    st.remove("b".to_string()).unwrap();
    assert_eq!(st.get("a".to_string()).unwrap(), Some("1".to_string()));
    assert_eq!(st.get("b".to_string()).unwrap(), None);
    assert_eq!(st.get("c".to_string()).unwrap(), Some("3".to_string()));
}

#[test]
fn persistence_across_reopen() {
    let mut st = fresh_store();
    st.set("k".to_string(), "v".to_string()).unwrap();
    let log = st.log_chars();
    drop(st);
    let st2 = KvStore::open(log).unwrap();
    assert_eq!(st2.get("k".to_string()).unwrap(), Some("v".to_string()));
}

#[test]
fn persistence_of_overwrites_and_removes() {
    let mut st = fresh_store();
    st.set("a".to_string(), "1".to_string()).unwrap();
    st.set("b".to_string(), "2".to_string()).unwrap();
    st.set("a".to_string(), "3".to_string()).unwrap();
    st.remove("b".to_string()).unwrap();
    let st2 = KvStore::open(st.log_chars()).unwrap();
    assert_eq!(st2.get("a".to_string()).unwrap(), Some("3".to_string()));
    assert_eq!(st2.get("b".to_string()).unwrap(), None);
}

#[test]
fn log_grows_by_one_frame_per_set() {
    let mut st = fresh_store();
    let before = st.log_len();
    st.set("a".to_string(), "1".to_string()).unwrap();
    let frame: String = st.log_suffix(before).into_iter().collect();
    assert_eq!(frame, "{\"Set\":[\"a\",\"1\"]}#");
}

#[test]
fn compaction_after_churn_keeps_contents_and_shrinks_log() {
    let mut st = fresh_store();
    st.set("other".to_string(), "kept".to_string()).unwrap();
    for i in 0..1200 {
        st.set("k".to_string(), format!("v{}", i)).unwrap();
    }
    let before = st.log_len();
    let did = st.compact_if_needed();
    assert!(did);
    let after = st.log_len();
    assert!(after < before / 10);
    assert_eq!(st.get("k".to_string()).unwrap(), Some("v1199".to_string()));
    assert_eq!(st.get("other".to_string()).unwrap(), Some("kept".to_string()));
    assert_eq!(st.live_keys(), 2);
}

#[test]
fn compaction_is_idempotent() {
    let mut st = fresh_store();
    for i in 0..1100 {
        st.set("k".to_string(), format!("v{}", i)).unwrap();
    }
    assert!(st.compact_if_needed());
    let log_once = st.log_chars();
    assert!(!st.compact_if_needed());
    let log_twice = st.log_chars();
    assert_eq!(log_once, log_twice);
}

#[test]
fn compaction_below_thresholds_is_a_no_op() {
    let mut st = fresh_store();
    for i in 0..500 {
        st.set("k".to_string(), format!("v{}", i)).unwrap();
    }
    let before = st.log_chars();
    assert!(!st.compact_if_needed());
    assert_eq!(st.log_chars(), before);
}

#[test]
fn churned_single_key_log_stays_small() {
    let mut st = fresh_store();
    for i in 0..1500 {
        let value = if i == 1499 { "final".to_string() } else { format!("v{}", i) };
        st.set("k".to_string(), value).unwrap();
        st.compact_if_needed();
    }
    assert_eq!(st.get("k".to_string()).unwrap(), Some("final".to_string()));
    // One compaction fired at the thousandth record, so at most ~500 frames
    // remain, far below the ~1500 a never-compacted log would hold.
    let single_frame = "{\"Set\":[\"k\",\"v1000\"]}#".len();
    assert!(st.log_len() <= 502 * single_frame);
    assert!(st.log_len() < 1500 * 18);
}

#[test]
fn reopen_after_compaction_sees_same_contents() {
    let mut st = fresh_store();
    st.set("stay".to_string(), "here".to_string()).unwrap();
    for i in 0..1100 {
        st.set("k".to_string(), format!("v{}", i)).unwrap();
    }
    assert!(st.compact_if_needed());
    let st2 = KvStore::open(st.log_chars()).unwrap();
    assert_eq!(st2.get("k".to_string()).unwrap(), Some("v1099".to_string()));
    assert_eq!(st2.get("stay".to_string()).unwrap(), Some("here".to_string()));
}
