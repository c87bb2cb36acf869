//! Recovery tests: opening handcrafted logs, including damaged ones.

use kvs::KvError;
use kvs::KvStore;

fn log_of(s: &str) -> Vec<char> {
    s.chars().collect()
}

fn open_err(s: &str) -> KvError {
    match KvStore::open(log_of(s)) {
        Ok(_) => panic!("expected opening to fail"),
        Err(e) => e,
    }
}

#[test]
fn replay_of_set_records() {
    let st = KvStore::open(log_of("{\"Set\":[\"a\",\"1\"]}#{\"Set\":[\"b\",\"2\"]}#")).unwrap();
    assert_eq!(st.get("a".to_string()).unwrap(), Some("1".to_string()));
    assert_eq!(st.get("b".to_string()).unwrap(), Some("2".to_string()));
    assert_eq!(st.live_keys(), 2);
}

#[test]
fn replay_reduces_overwrites_and_tombstones() {
    let log = "{\"Set\":[\"a\",\"1\"]}#{\"Set\":[\"a\",\"2\"]}#{\"Set\":[\"b\",\"9\"]}#{\"Rm\":\"b\"}#";
    let st = KvStore::open(log_of(log)).unwrap();
    assert_eq!(st.get("a".to_string()).unwrap(), Some("2".to_string()));
    assert_eq!(st.get("b".to_string()).unwrap(), None);
    assert_eq!(st.live_keys(), 1);
}

#[test]
fn replay_tolerates_get_records() {
    let st = KvStore::open(log_of("{\"Get\":\"a\"}#")).unwrap();
    assert_eq!(st.get("a".to_string()).unwrap(), None);
}

#[test]
fn replay_of_tombstone_for_absent_key() {
    let st = KvStore::open(log_of("{\"Rm\":\"ghost\"}#")).unwrap();
    assert_eq!(st.get("ghost".to_string()).unwrap(), None);
    assert_eq!(st.live_keys(), 0);
}

#[test]
fn truncated_log_is_fatal() {
    assert_eq!(open_err("{\"Set\":[\"a\",\"1\"]}"), KvError::Truncated);
    assert_eq!(open_err("{\"Set\":[\"a\",\"1\"]}#{\"Rm\":"), KvError::Truncated);
}

#[test]
fn corrupt_record_is_fatal() {
    assert_eq!(open_err("not json#"), KvError::Corrupt);
    assert_eq!(open_err("{\"Set\":[\"a\",\"1\"]}#{\"Set\":[\"b\"]}#"), KvError::Corrupt);
    assert_eq!(open_err("#"), KvError::Corrupt);
}

#[test]
fn error_messages_match_wire_literals() {
    assert_eq!(KvError::KeyNotFound.message(), "Key not found");
    assert_eq!(KvError::Io.message(), "io error");
    assert_eq!(KvError::Corrupt.message(), "log corrupt");
    assert_eq!(KvError::Truncated.message(), "log truncated");
}
