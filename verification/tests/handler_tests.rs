//! The request handler, driven against both engines' shared contract, and
//! the worker pool.

use kvs::engine::handle_command;
use kvs::Command;
use kvs::KvStore;
use kvs::NaiveThreadPool;

fn empty_store() -> KvStore {
    KvStore::open(Vec::new()).unwrap()
}

#[test]
fn handler_get_on_missing_key() {
    let mut st = empty_store();
    let reply = handle_command(&mut st, Command::Get("a".to_string()));
    assert_eq!(reply, "Key not found");
}

#[test]
fn handler_set_then_get() {
    let mut st = empty_store();
    let reply = handle_command(&mut st, Command::Put("a".to_string(), "1".to_string()));
    assert_eq!(reply, "Success");
    let reply2 = handle_command(&mut st, Command::Get("a".to_string()));
    assert_eq!(reply2, "1");
}

#[test]
fn handler_rm_live_and_missing() {
    let mut st = empty_store();
    handle_command(&mut st, Command::Put("a".to_string(), "1".to_string()));
    assert_eq!(handle_command(&mut st, Command::Rm("a".to_string())), "Success");
    assert_eq!(handle_command(&mut st, Command::Rm("a".to_string())), "Key not found");
    assert_eq!(handle_command(&mut st, Command::Get("a".to_string())), "Key not found");
}

#[test]
fn naive_pool_constructs() {
    assert!(NaiveThreadPool::new(10).is_ok());
    assert!(NaiveThreadPool::new(0).is_ok());
}
