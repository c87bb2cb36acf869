//! The alternate engine against a real embedded database in a temporary
//! directory.

use kvs::engine::handle_command;
use kvs::Command;
use kvs::KvError;
use kvs::KvsEngine;
use kvs::SledKvsEngine;

fn open_temp(dir: &tempfile::TempDir) -> SledKvsEngine {
    SledKvsEngine::open(dir.path().to_str().unwrap()).unwrap()
}

#[test]
fn sled_set_then_get() {
    let dir = tempfile::TempDir::new().unwrap();
    let mut eng = open_temp(&dir);
    assert_eq!(eng.get("a".to_string()).unwrap(), None);
    eng.set("a".to_string(), "1".to_string()).unwrap();
    assert_eq!(eng.get("a".to_string()).unwrap(), Some("1".to_string()));
    eng.set("a".to_string(), "2".to_string()).unwrap();
    assert_eq!(eng.get("a".to_string()).unwrap(), Some("2".to_string()));
}

#[test]
fn sled_remove_semantics() {
    let dir = tempfile::TempDir::new().unwrap();
    let mut eng = open_temp(&dir);
    assert_eq!(eng.remove("a".to_string()), Err(KvError::KeyNotFound));
    eng.set("a".to_string(), "1".to_string()).unwrap();
    assert_eq!(eng.remove("a".to_string()), Ok(()));
    assert_eq!(eng.get("a".to_string()).unwrap(), None);
}

#[test]
fn sled_persists_across_reopen() {
    let dir = tempfile::TempDir::new().unwrap();
    {
        let mut eng = open_temp(&dir);
        eng.set("k".to_string(), "v".to_string()).unwrap();
    }
    let eng2 = open_temp(&dir);
    assert_eq!(eng2.get("k".to_string()).unwrap(), Some("v".to_string()));
}

#[test]
fn sled_handles_unicode_values() {
    let dir = tempfile::TempDir::new().unwrap();
    let mut eng = open_temp(&dir);
    eng.set("cl\u{e9}".to_string(), "v\u{e9}rit\u{e9}".to_string()).unwrap();
    assert_eq!(
        eng.get("cl\u{e9}".to_string()).unwrap(),
        Some("v\u{e9}rit\u{e9}".to_string()),
    );
}

#[test]
fn sled_open_under_impossible_path_is_io_error() {
    match SledKvsEngine::open("/dev/null/nowhere") {
        Ok(_) => panic!("expected opening to fail"),
        Err(e) => assert_eq!(e, KvError::Io),
    }
}

#[test]
fn handler_works_against_sled_engine() {
    let dir = tempfile::TempDir::new().unwrap();
    let mut eng = open_temp(&dir);
    assert_eq!(
        handle_command(&mut eng, Command::Put("a".to_string(), "1".to_string())),
        "Success",
    );
    assert_eq!(handle_command(&mut eng, Command::Get("a".to_string())), "1");
    assert_eq!(handle_command(&mut eng, Command::Rm("a".to_string())), "Success");
    assert_eq!(handle_command(&mut eng, Command::Rm("a".to_string())), "Key not found");
}
