//! The alternate engine: a thin, verified shell around the embedded
//! ordered-key database `sled`, which provides its own persistence.
//!
//! The database itself is outside what can be proved here, so its handle is
//! declared opaque and its contents are named by [`db_view`], a map from key
//! bytes to value bytes.  Each database call sits in one trusted wrapper
//! whose contract states, over `db_view`, what the call's source shows;
//! everything around the calls -- the error mapping, the `KeyNotFound`
//! decision, the UTF-8 conversion -- is verified against those contracts.

use vstd::prelude::*;
use vstd::utf8::{decode_utf8, encode_utf8, valid_utf8};

use crate::engine::KvsEngine;
use crate::error::KvError;

verus! {

#[verifier::external_type_specification]
#[verifier::external_body]
pub struct ExDb(sled::Db);

/// What the database currently stores: its key bytes mapped to its value
/// bytes.
pub uninterp spec fn db_view(db: sled::Db) -> Map<Seq<u8>, Seq<u8>>;

/// Relies on `sled::open`: opens the database under the given directory,
/// creating it if absent.  What it then holds depends on the disk, so
/// nothing is promised of the contents.
#[verifier::external_body]
fn db_open(path: &str) -> (r: Result<sled::Db, KvError>)
    ensures
        r matches Err(e) ==> e == KvError::Io,
{
    match sled::open(path) {
        Ok(db) => Ok(db),
        Err(_) => Err(KvError::Io),
    }
}

/// Relies on `sled::Tree::insert` (through `Db`'s default tree): binds the
/// key's bytes to the value's bytes.
#[verifier::external_body]
fn db_insert(db: &mut sled::Db, key: &str, value: &str) -> (r: Result<(), KvError>)
    ensures
        r matches Ok(()) ==> db_view(*final(db)) == db_view(*old(db)).insert(
            encode_utf8(key@),
            encode_utf8(value@),
        ),
        r matches Err(e) ==> e == KvError::Io,
{
    match db.insert(key.as_bytes(), value.as_bytes()) {
        Ok(_) => Ok(()),
        Err(_) => Err(KvError::Io),
    }
}

/// Relies on `sled::Tree::get`: returns the bytes bound to the key, if any.
#[verifier::external_body]
fn db_get(db: &sled::Db, key: &str) -> (r: Result<Option<Vec<u8>>, KvError>)
    ensures
        r matches Ok(o) ==> match o {
            Some(v) => db_view(*db).contains_key(encode_utf8(key@)) && v@ == db_view(
                *db,
            )[encode_utf8(key@)],
            None => !db_view(*db).contains_key(encode_utf8(key@)),
        },
        r matches Err(e) ==> e == KvError::Io,
{
    match db.get(key.as_bytes()) {
        Ok(Some(iv)) => Ok(Some(iv.to_vec())),
        Ok(None) => Ok(None),
        Err(_) => Err(KvError::Io),
    }
}

/// Relies on `sled::Tree::remove`: unbinds the key, reporting whether it
/// was bound.
#[verifier::external_body]
fn db_remove(db: &mut sled::Db, key: &str) -> (r: Result<bool, KvError>)
    ensures
        r matches Ok(was) ==> was == db_view(*old(db)).contains_key(encode_utf8(key@))
            && db_view(*final(db)) == db_view(*old(db)).remove(encode_utf8(key@)),
        r matches Err(e) ==> e == KvError::Io,
{
    match db.remove(key.as_bytes()) {
        Ok(o) => Ok(o.is_some()),
        Err(_) => Err(KvError::Io),
    }
}

/// Relies on `sled::Tree::flush`: forces buffered writes down to disk; the
/// contents are untouched.
#[verifier::external_body]
fn db_flush(db: &sled::Db) -> (r: Result<(), KvError>)
    ensures
        r matches Err(e) ==> e == KvError::Io,
{
    match db.flush() {
        Ok(_) => Ok(()),
        Err(_) => Err(KvError::Io),
    }
}

/// Relies on `String::from_utf8`: succeeds exactly on valid UTF-8 and
/// returns the string those bytes encode.
#[verifier::external_body]
fn utf8_to_string(v: Vec<u8>) -> (r: Result<String, KvError>)
    ensures
        r matches Ok(s) ==> valid_utf8(v@) && s@ == decode_utf8(v@),
        r matches Err(e) ==> !valid_utf8(v@) && e == KvError::Corrupt,
{
    match String::from_utf8(v) {
        Ok(s) => Ok(s),
        Err(_) => Err(KvError::Corrupt),
    }
}

/// The engine backed by the embedded ordered-key database.
pub struct SledKvsEngine {
    db: sled::Db,
}

impl SledKvsEngine {
    /// Open (or create) the database under the directory `p`.  The contents
    /// are whatever the directory already persisted.
    pub fn open(p: &str) -> (r: Result<SledKvsEngine, KvError>)
        ensures
            r matches Err(e) ==> e == KvError::Io,
    {
        match db_open(p) {
            Ok(db) => Ok(SledKvsEngine { db }),
            Err(e) => Err(e),
        }
    }

    /// The stored contents read as character strings: a key is bound when
    /// its UTF-8 bytes are bound in the database.
    pub closed spec fn contents_map(self) -> Map<Seq<char>, Seq<char>> {
        Map::new(
            |k: Seq<char>| db_view(self.db).contains_key(encode_utf8(k)),
            |k: Seq<char>| decode_utf8(db_view(self.db)[encode_utf8(k)]),
        )
    }
}

impl KvsEngine for SledKvsEngine {
    open spec fn contents(&self) -> Map<Seq<char>, Seq<char>> {
        self.contents_map()
    }

    open spec fn inv(&self) -> bool {
        true
    }

    open spec fn infallible(&self) -> bool {
        false
    }

    fn set(&mut self, key: String, value: String) -> (r: Result<(), KvError>) {
        match db_insert(&mut self.db, key.as_str(), value.as_str()) {
            Ok(()) => {
                proof {
                    assert forall|k: Seq<char>| #[trigger] encode_utf8(k) == encode_utf8(key@)
                        implies k == key@ by {
                        vstd::utf8::encode_utf8_decode_utf8(k);
                        vstd::utf8::encode_utf8_decode_utf8(key@);
                    }
                    vstd::utf8::encode_utf8_decode_utf8(value@);
                    assert(self.contents_map() =~= old(self).contents_map().insert(
                        key@,
                        value@,
                    ));
                }
                match db_flush(&self.db) {
                    Ok(()) => Ok(()),
                    Err(e) => Err(e),
                }
            }
            Err(e) => Err(e),
        }
    }

    fn get(&self, key: String) -> (r: Result<Option<String>, KvError>) {
        match db_get(&self.db, key.as_str()) {
            Ok(Some(bytes)) => {
                let ghost b = bytes@;
                match utf8_to_string(bytes) {
                    Ok(s) => {
                        proof {
                            assert(self.contents_map().contains_key(key@));
                            assert(self.contents_map()[key@] == decode_utf8(b));
                        }
                        Ok(Some(s))
                    }
                    Err(e) => Err(e),
                }
            }
            Ok(None) => {
                proof {
                    assert(!self.contents_map().contains_key(key@));
                }
                Ok(None)
            }
            Err(e) => Err(e),
        }
    }

    fn remove(&mut self, key: String) -> (r: Result<(), KvError>) {
        let was = match db_remove(&mut self.db, key.as_str()) {
            Ok(b) => b,
            Err(e) => {
                return Err(e);
            }
        };
        proof {
            assert forall|k: Seq<char>| #[trigger] encode_utf8(k) == encode_utf8(key@)
                implies k == key@ by {
                vstd::utf8::encode_utf8_decode_utf8(k);
                vstd::utf8::encode_utf8_decode_utf8(key@);
            }
            assert(self.contents_map() =~= old(self).contents_map().remove(key@));
            if !was {
                assert(self.contents_map() =~= old(self).contents_map());
                assert(!old(self).contents_map().contains_key(key@));
            } else {
                assert(old(self).contents_map().contains_key(key@));
            }
        }
        match db_flush(&self.db) {
            Ok(()) => (),
            Err(e) => {
                return Err(e);
            }
        }
        if was {
            Ok(())
        } else {
            Err(KvError::KeyNotFound)
        }
    }
}

} // verus!
