//! The engine contract shared by the two storage engines, and the worker's
//! request handler written against that contract alone.

use vstd::prelude::*;
use vstd::string::StringExecFns;

use crate::codec::{cmd_hash_free, hash_free, Command, SpecCmd};
use crate::error::{spec_message, KvError};

verus! {

/// The literal reply for a successful mutation.
pub open spec fn success_reply() -> Seq<char> {
    "Success"@
}

/// The contract every storage engine meets.  `contents` is the map the
/// engine currently stores; `inv` is the engine's own well-formedness;
/// `infallible` says whether the engine can fail for reasons other than a
/// missing key (the in-memory log engine cannot, the embedded database
/// can).
pub trait KvsEngine: Sized {
    spec fn contents(&self) -> Map<Seq<char>, Seq<char>>;

    spec fn inv(&self) -> bool;

    spec fn infallible(&self) -> bool;

    /// Bind `key` to `value`.
    fn set(&mut self, key: String, value: String) -> (r: Result<(), KvError>)
        requires
            old(self).inv(),
            hash_free(key@),
            hash_free(value@),
        ensures
            final(self).inv(),
            final(self).infallible() == old(self).infallible(),
            r matches Ok(()) ==> final(self).contents() == old(self).contents().insert(key@, value@),
            old(self).infallible() ==> r matches Ok(()),
    ;

    /// Look `key` up.
    fn get(&self, key: String) -> (r: Result<Option<String>, KvError>)
        requires
            self.inv(),
        ensures
            r matches Ok(o) ==> match o {
                Some(v) => self.contents().contains_key(key@) && v@ == self.contents()[key@],
                None => !self.contents().contains_key(key@),
            },
            self.infallible() ==> !(r is Err),
    ;

    /// Unbind `key`; `KeyNotFound` exactly when it was not bound.
    fn remove(&mut self, key: String) -> (r: Result<(), KvError>)
        requires
            old(self).inv(),
            hash_free(key@),
        ensures
            final(self).inv(),
            final(self).infallible() == old(self).infallible(),
            r matches Ok(()) ==> old(self).contents().contains_key(key@)
                && final(self).contents() == old(self).contents().remove(key@),
            r == Err::<(), KvError>(KvError::KeyNotFound) ==> !old(self).contents().contains_key(
                key@,
            ) && final(self).contents() == old(self).contents(),
            old(self).infallible() ==> (r matches Ok(()) || r == Err::<(), KvError>(
                KvError::KeyNotFound,
            )),
    ;
}

/// Serve one decoded request against the engine and produce the reply line's
/// text: the value (or `Key not found`) for a `Get`, `Success` for a
/// mutation that succeeded, and the error's text otherwise.
pub fn handle_command<E: KvsEngine>(engine: &mut E, cmd: Command) -> (reply: String)
    requires
        old(engine).inv(),
        cmd_hash_free(cmd@),
    ensures
        final(engine).inv(),
        final(engine).infallible() == old(engine).infallible(),
        match cmd@ {
            SpecCmd::Get(k) => {
                &&& final(engine).contents() == old(engine).contents()
                &&& (old(engine).infallible() ==> reply@ == (
                    if old(engine).contents().contains_key(k) {
                        old(engine).contents()[k]
                    } else {
                        spec_message(KvError::KeyNotFound)
                    }
                ))
            },
            SpecCmd::Put(k, v) => {
                &&& (reply@ == success_reply() ==> final(engine).contents()
                    == old(engine).contents().insert(k, v))
                &&& (old(engine).infallible() ==> reply@ == success_reply())
            },
            SpecCmd::Rm(k) => {
                &&& (reply@ == success_reply() ==> old(engine).contents().contains_key(k)
                    && final(engine).contents() == old(engine).contents().remove(k))
                &&& (old(engine).infallible() ==> (
                    if old(engine).contents().contains_key(k) {
                        reply@ == success_reply() && final(engine).contents()
                            == old(engine).contents().remove(k)
                    } else {
                        reply@ == spec_message(KvError::KeyNotFound) && final(engine).contents()
                            == old(engine).contents()
                    }
                ))
            },
        },
{
    proof {
        reveal_strlit("Success");
        reveal_strlit("io error");
        reveal_strlit("log corrupt");
        reveal_strlit("log truncated");
        reveal_strlit("Key not found");
        reveal_strlit("protocol error");
        reveal_strlit("engine mismatch");
        assert forall|e: KvError| #[trigger] spec_message(e) != success_reply() by {
            assert(success_reply().len() == 7);
            match e {
                KvError::Io => assert(spec_message(e).len() == 8),
                KvError::Corrupt => assert(spec_message(e).len() == 11),
                KvError::Truncated => assert(spec_message(e).len() == 13),
                KvError::KeyNotFound => assert(spec_message(e).len() == 13),
                KvError::ProtocolError => assert(spec_message(e).len() == 14),
                KvError::EngineMismatch => assert(spec_message(e).len() == 15),
            }
        }
    }
    match cmd {
        Command::Get(k) => {
            match engine.get(k) {
                Ok(Some(v)) => v,
                Ok(None) => String::from_str(KvError::KeyNotFound.message()),
                Err(e) => String::from_str(e.message()),
            }
        }
        Command::Put(k, v) => {
            match engine.set(k, v) {
                Ok(()) => String::from_str("Success"),
                Err(e) => String::from_str(e.message()),
            }
        }
        Command::Rm(k) => {
            match engine.remove(k) {
                Ok(()) => String::from_str("Success"),
                Err(e) => String::from_str(e.message()),
            }
        }
    }
}

} // verus!
