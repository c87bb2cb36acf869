//! The log-structured storage engine.
//!
//! A [`KvStore`] holds the characters of its append-only log together with an
//! index mapping each live key to the position and length of that key's
//! latest `Set` record in the log.  The store's contents (its view, `self@`)
//! are the map from live keys to their values, and the central invariant
//! [`KvStore::wf`] ties the three together: replaying the log yields exactly
//! the contents and the record count, and every index entry points at a
//! well-formed framed record for its key.
//!
//! Callers that keep the log on disk mirror it byte-for-byte: they append
//! what `set` and `remove` append and rewrite the file when compaction
//! rewrites the log, so recovery from the file is recovery from this log.

use vstd::prelude::*;
use vstd::pervasive::VecAdditionalExecFns;

use crate::codec::{
    decode_command, encode_frame, hash_free, spec_encode, spec_frame, Command,
    SpecCmd,
};
use crate::codec;
use crate::error::KvError;
use crate::recovery::{apply_cmd, first_hash, recover, replay_onto, Recovery};
use crate::recovery;

verus! {

/// Compaction runs only when the records in the log outnumber the live keys
/// by this factor.
pub const COMPACTION_RATIO: usize = 3;

/// Compaction runs only once the log holds at least this many records.
pub const COMPACTION_KEYS: usize = 1000;

/// One live key: where its latest record sits in the log, and (as ghost
/// state) which value that record carries.
struct IndexEntry {
    key: String,
    off: usize,
    len: usize,
    val: Ghost<Seq<char>>,
}

/// The record an index entry claims to point at.
spec fn entry_cmd(e: IndexEntry) -> SpecCmd {
    SpecCmd::Put(e.key@, e.val@)
}

/// The entry points at a well-formed framed `Set` record for its key.
spec fn entry_ok(log: Seq<char>, e: IndexEntry) -> bool {
    &&& e.off + e.len <= log.len()
    &&& log.subrange(e.off as int, e.off + e.len) == spec_frame(entry_cmd(e))
    &&& hash_free(spec_encode(entry_cmd(e)))
}

/// The contents the index describes: each entry's key bound to its value.
spec fn index_map(es: Seq<IndexEntry>) -> Map<Seq<char>, Seq<char>>
    decreases es.len(),
{
    if es.len() == 0 {
        Map::empty()
    } else {
        index_map(es.drop_last()).insert(es.last().key@, es.last().val@)
    }
}

/// No two entries name the same key.
spec fn unique_keys(es: Seq<IndexEntry>) -> bool {
    forall|i: int, j: int| 0 <= i < j < es.len() ==> es[i].key@ != es[j].key@
}

/// The total framed size of the live records.
spec fn live_size(es: Seq<IndexEntry>) -> int
    decreases es.len(),
{
    if es.len() == 0 {
        0
    } else {
        live_size(es.drop_last()) + es.last().len
    }
}

/// A key missing from every entry is missing from the contents.
proof fn lemma_index_map_absent(es: Seq<IndexEntry>, k: Seq<char>)
    requires
        forall|i: int| 0 <= i < es.len() ==> es[i].key@ != k,
    ensures
        !index_map(es).contains_key(k),
    decreases es.len(),
{
    if es.len() > 0 {
        assert(es[es.len() - 1].key@ != k);
        assert(forall|i: int| 0 <= i < es.drop_last().len() ==> es.drop_last()[i] == es[i]);
        lemma_index_map_absent(es.drop_last(), k);
    }
}

/// Each entry's binding is in the contents, keys being unique.
proof fn lemma_index_map_present(es: Seq<IndexEntry>, i: int)
    requires
        unique_keys(es),
        0 <= i < es.len(),
    ensures
        index_map(es).contains_pair(es[i].key@, es[i].val@),
    decreases es.len(),
{
    if i < es.len() - 1 {
        assert(forall|j: int| 0 <= j < es.drop_last().len() ==> es.drop_last()[j] == es[j]);
        lemma_index_map_present(es.drop_last(), i);
        assert(es[i].key@ != es.last().key@);
    }
}

/// Overwriting entry `i` with a new entry for the same key updates exactly
/// that key's binding.
proof fn lemma_index_map_update(es: Seq<IndexEntry>, i: int, e: IndexEntry)
    requires
        unique_keys(es),
        0 <= i < es.len(),
        e.key@ == es[i].key@,
    ensures
        index_map(es.update(i, e)) == index_map(es).insert(e.key@, e.val@),
        unique_keys(es.update(i, e)),
    decreases es.len(),
{
    let up = es.update(i, e);
    if i == es.len() - 1 {
        assert(up.drop_last() =~= es.drop_last());
        assert(up.last() == e);
        assert(index_map(es.drop_last()).insert(e.key@, e.val@) =~= index_map(es.drop_last())
            .insert(es.last().key@, es.last().val@).insert(e.key@, e.val@));
    } else {
        assert(up.drop_last() =~= es.drop_last().update(i, e));
        assert(up.last() == es.last());
        assert(forall|j: int| 0 <= j < es.drop_last().len() ==> es.drop_last()[j] == es[j]);
        lemma_index_map_update(es.drop_last(), i, e);
        assert(es.last().key@ != e.key@);
        assert(index_map(es.drop_last()).insert(e.key@, e.val@).insert(
            es.last().key@,
            es.last().val@,
        ) =~= index_map(es.drop_last()).insert(es.last().key@, es.last().val@).insert(
            e.key@,
            e.val@,
        ));
    }
}

/// Appending an entry for a fresh key adds exactly that binding.
proof fn lemma_index_map_push(es: Seq<IndexEntry>, e: IndexEntry)
    requires
        forall|i: int| 0 <= i < es.len() ==> es[i].key@ != e.key@,
    ensures
        index_map(es.push(e)) == index_map(es).insert(e.key@, e.val@),
        unique_keys(es) ==> unique_keys(es.push(e)),
{
    assert(es.push(e).drop_last() =~= es);
    assert(es.push(e).last() == e);
    if unique_keys(es) {
        assert forall|i: int, j: int| 0 <= i < j < es.push(e).len() implies es.push(e)[i].key@
            != es.push(e)[j].key@ by {
            if j < es.len() {
                assert(es[i].key@ != es[j].key@);
            } else {
                assert(es[i].key@ != e.key@);
            }
        }
    }
}

/// Removing entry `i` removes exactly that key's binding.
proof fn lemma_index_map_remove(es: Seq<IndexEntry>, i: int)
    requires
        unique_keys(es),
        0 <= i < es.len(),
    ensures
        index_map(es.remove(i)) == index_map(es).remove(es[i].key@),
        unique_keys(es.remove(i)),
    decreases es.len(),
{
    let rm = es.remove(i);
    assert(forall|j: int| 0 <= j < es.drop_last().len() ==> es.drop_last()[j] == es[j]);
    if i == es.len() - 1 {
        assert(rm =~= es.drop_last());
        lemma_index_map_absent(es.drop_last(), es[i].key@);
        assert(index_map(es.drop_last()) =~= index_map(es.drop_last()).insert(
            es.last().key@,
            es.last().val@,
        ).remove(es[i].key@));
    } else {
        assert(rm.drop_last() =~= es.drop_last().remove(i));
        assert(rm.last() == es.last());
        lemma_index_map_remove(es.drop_last(), i);
        assert(es.last().key@ != es[i].key@);
        assert(index_map(es.drop_last()).remove(es[i].key@).insert(
            es.last().key@,
            es.last().val@,
        ) =~= index_map(es.drop_last()).insert(es.last().key@, es.last().val@).remove(
            es[i].key@,
        ));
    }
}

/// With unique keys, the contents hold exactly one binding per entry.
proof fn lemma_index_map_len(es: Seq<IndexEntry>)
    requires
        unique_keys(es),
    ensures
        index_map(es).dom().finite(),
        index_map(es).len() == es.len(),
    decreases es.len(),
{
    if es.len() > 0 {
        assert(forall|j: int| 0 <= j < es.drop_last().len() ==> es.drop_last()[j] == es[j]);
        lemma_index_map_len(es.drop_last());
        lemma_index_map_absent(es.drop_last(), es.last().key@);
        assert(index_map(es).dom() =~= index_map(es.drop_last()).dom().insert(es.last().key@));
    }
}

/// The contents depend only on the keys and values of the entries, never on
/// where the entries point.
proof fn lemma_index_map_same(a: Seq<IndexEntry>, b: Seq<IndexEntry>)
    requires
        a.len() == b.len(),
        forall|i: int| 0 <= i < a.len() ==> a[i].key@ == b[i].key@ && a[i].val@ == b[i].val@,
    ensures
        index_map(a) == index_map(b),
    decreases a.len(),
{
    if a.len() > 0 {
        assert(forall|j: int| 0 <= j < a.drop_last().len() ==> a.drop_last()[j] == a[j]
            && b.drop_last()[j] == b[j]);
        lemma_index_map_same(a.drop_last(), b.drop_last());
        assert(a.last().key@ == b.last().key@ && a.last().val@ == b.last().val@);
    }
}

/// Find the index entry for `key`, if any.
fn find_entry(index: &Vec<IndexEntry>, key: &String) -> (r: Option<usize>)
    ensures
        match r {
            Some(i) => i < index@.len() && index@[i as int].key@ == key@,
            None => forall|i: int| 0 <= i < index@.len() ==> index@[i].key@ != key@,
        },
{
    let mut j: usize = 0;
    while j < index.len()
        invariant
            j <= index@.len(),
            forall|i: int| 0 <= i < j ==> index@[i].key@ != key@,
        decreases index@.len() - j,
    {
        if index[j].key == *key {
            return Some(j);
        }
        j = j + 1;
    }
    None
}

/// The log-structured store: the log's characters, the live-key index, and
/// the count of records in the log.
pub struct KvStore {
    log: Vec<char>,
    index: Vec<IndexEntry>,
    log_keys: usize,
}

impl View for KvStore {
    type V = Map<Seq<char>, Seq<char>>;

    /// The store's contents: each live key bound to its current value.
    closed spec fn view(&self) -> Map<Seq<char>, Seq<char>> {
        index_map(self.index@)
    }
}

impl KvStore {
    /// The characters of the append-only log, exactly as persisted.
    pub closed spec fn log_view(self) -> Seq<char> {
        self.log@
    }

    /// How many records the log holds.
    pub closed spec fn record_count(self) -> nat {
        self.log_keys as nat
    }

    /// The total framed size of the live records.
    pub closed spec fn live_bytes(self) -> int {
        live_size(self.index@)
    }

    /// Well-formedness: the index describes exactly the result of replaying
    /// the log, and each entry points at its key's framed record.
    pub closed spec fn wf(self) -> bool {
        &&& forall|i: int|
            0 <= i < self.index@.len() ==> entry_ok(self.log@, #[trigger] self.index@[i])
        &&& unique_keys(self.index@)
        &&& recover(self.log@) == Recovery::Done(self@, self.record_count())
        &&& self.index@.len() <= self.log_keys
        &&& self.log_keys <= self.log@.len()
    }

    /// The compaction trigger: enough records, and enough of them dead.
    pub closed spec fn compaction_due(self) -> bool {
        &&& self.log_keys >= COMPACTION_KEYS
        &&& self.log_keys as int / (self.index@.len() as int + 1) >= COMPACTION_RATIO as int
    }

    /// Look a key up.  Reads the key's framed record back out of the log,
    /// decodes it, and checks the embedded key, exactly as the record was
    /// written; under `wf` this always succeeds and never errs.
    pub fn get(&self, key: String) -> (r: Result<Option<String>, KvError>)
        requires
            self.wf(),
        ensures
            ({
                if self@.contains_key(key@) {
                    r matches Ok(Some(v)) && v@ == self@[key@]
                } else {
                    r matches Ok(o) && o is None
                }
            }),
    {
        match find_entry(&self.index, &key) {
            None => {
                proof {
                    lemma_index_map_absent(self.index@, key@);
                }
                Ok(None)
            }
            Some(i) => {
                let e_off = self.index[i].off;
                let e_len = self.index[i].len;
                let ghost e = self.index@[i as int];
                proof {
                    lemma_index_map_present(self.index@, i as int);
                    assert(entry_ok(self.log@, e));
                    assert(spec_frame(entry_cmd(e)).len() == spec_encode(entry_cmd(e)).len() + 1);
                }
                let log_len = self.log.len();
                proof {
                    assert(self.log@.len() == log_len);
                }
                let mut buf: Vec<char> = Vec::new();
                let mut j: usize = 0;
                while j < e_len
                    invariant
                        j <= e_len,
                        e_off + e_len <= self.log@.len(),
                        self.log@.len() <= usize::MAX,
                        buf@ == self.log@.subrange(e_off as int, e_off as int + j),
                    decreases e_len - j,
                {
                    buf.push(self.log[e_off + j]);
                    proof {
                        assert(buf@ =~= self.log@.subrange(e_off as int, e_off as int + j + 1));
                    }
                    j = j + 1;
                }
                buf.pop();
                proof {
                    assert(buf@ =~= spec_encode(entry_cmd(e))) by {
                        assert(self.log@.subrange(e_off as int, e_off as int + e_len)
                            == spec_frame(entry_cmd(e)));
                        assert(spec_frame(entry_cmd(e)) =~= spec_encode(entry_cmd(e))
                            + seq!['#']);
                    }
                    codec::lemma_decode_encode(entry_cmd(e));
                }
                match decode_command(&buf) {
                    Some(Command::Put(k2, v2)) => {
                        if k2 == key {
                            Ok(Some(v2))
                        } else {
                            Err(KvError::Corrupt)
                        }
                    }
                    _ => Err(KvError::Corrupt),
                }
            }
        }
    }

    /// Bind `key` to `value`: append a `Set` record to the log and point the
    /// index at it.  Never fails; the record count grows by one and the log
    /// grows by exactly the new framed record.
    pub fn set(&mut self, key: String, value: String) -> (r: Result<(), KvError>)
        requires
            old(self).wf(),
            hash_free(key@),
            hash_free(value@),
        ensures
            final(self).wf(),
            r matches Ok(()),
            final(self)@ == old(self)@.insert(key@, value@),
            final(self).log_view() == old(self).log_view() + spec_frame(
                SpecCmd::Put(key@, value@),
            ),
            final(self).record_count() == old(self).record_count() + 1,
    {
        let ghost c = SpecCmd::Put(key@, value@);
        let cmd = Command::Put(key.clone(), value);
        proof {
            assert(cmd@ == c);
            codec::lemma_encode_hash_free(c);
        }
        let mut rec = encode_frame(&cmd);
        let ghost rec_view = rec@;
        let off = self.log.len();
        let flen = rec.len();
        self.log.append(&mut rec);
        proof {
            assert(self.log@ == old(self).log@ + rec_view);
            assert(flen >= 1);
            recovery::lemma_replay_append(
                Map::empty(),
                0,
                old(self).log@,
                c,
                old(self)@,
                old(self).record_count(),
            );
            assert forall|i: int| 0 <= i < self.index@.len() implies entry_ok(
                self.log@,
                #[trigger] self.index@[i],
            ) by {
                let e = self.index@[i];
                assert(entry_ok(old(self).log@, e));
                assert(self.log@.subrange(e.off as int, e.off + e.len) =~= old(
                    self,
                ).log@.subrange(e.off as int, e.off + e.len));
            }
        }
        let ghost gval = cmd@->Put_1;
        let e = IndexEntry { key, off, len: flen, val: Ghost(gval) };
        proof {
            assert(entry_ok(self.log@, e)) by {
                assert(self.log@.subrange(off as int, off + flen) =~= rec_view);
            }
        }
        let ghost old_index = self.index@;
        match find_entry(&self.index, &e.key) {
            Some(i) => {
                self.index.set(i, e);
                proof {
                    lemma_index_map_update(old_index, i as int, e);
                }
            }
            None => {
                self.index.push(e);
                proof {
                    lemma_index_map_push(old_index, e);
                }
            }
        }
        let new_len = self.log.len();
        proof {
            assert(self.log@.len() == new_len);
            assert(self.log_keys < usize::MAX);
        }
        self.log_keys = self.log_keys + 1;
        Ok(())
    }

    /// Remove `key`: if it is live, append an `Rm` tombstone and drop the
    /// index entry; otherwise report `KeyNotFound` and change nothing.
    pub fn remove(&mut self, key: String) -> (r: Result<(), KvError>)
        requires
            old(self).wf(),
            hash_free(key@),
        ensures
            final(self).wf(),
            ({
                if old(self)@.contains_key(key@) {
                    &&& r matches Ok(())
                    &&& final(self)@ == old(self)@.remove(key@)
                    &&& final(self).log_view() == old(self).log_view() + spec_frame(
                        SpecCmd::Rm(key@),
                    )
                    &&& final(self).record_count() == old(self).record_count() + 1
                } else {
                    &&& r == Err::<(), KvError>(KvError::KeyNotFound)
                    &&& *final(self) == *old(self)
                }
            }),
    {
        let ghost old_index = self.index@;
        match find_entry(&self.index, &key) {
            None => {
                proof {
                    lemma_index_map_absent(self.index@, key@);
                }
                Err(KvError::KeyNotFound)
            }
            Some(i) => {
                proof {
                    lemma_index_map_present(self.index@, i as int);
                }
                self.index.remove(i);
                proof {
                    lemma_index_map_remove(old_index, i as int);
                }
                let ghost c = SpecCmd::Rm(key@);
                let cmd = Command::Rm(key);
                proof {
                    assert(cmd@ == c);
                    codec::lemma_encode_hash_free(c);
                }
                let mut rec = encode_frame(&cmd);
                let ghost rec_view = rec@;
                let flen = rec.len();
                self.log.append(&mut rec);
                proof {
                    assert(self.log@ == old(self).log@ + rec_view);
                    assert(flen >= 1);
                    recovery::lemma_replay_append(
                        Map::empty(),
                        0,
                        old(self).log@,
                        c,
                        old(self)@,
                        old(self).record_count(),
                    );
                    assert forall|j: int| 0 <= j < self.index@.len() implies entry_ok(
                        self.log@,
                        #[trigger] self.index@[j],
                    ) by {
                        let e = self.index@[j];
                        assert(old_index.remove(i as int)[j] == e);
                        assert(entry_ok(old(self).log@, e));
                        assert(self.log@.subrange(e.off as int, e.off + e.len) =~= old(
                            self,
                        ).log@.subrange(e.off as int, e.off + e.len));
                    }
                }
                let new_len = self.log.len();
                proof {
                    assert(self.log@.len() == new_len);
                    assert(self.log_keys < usize::MAX);
                }
                self.log_keys = self.log_keys + 1;
                Ok(())
            }
        }
    }

    /// Open a store from the characters of an existing log (empty for a
    /// fresh store): replay every framed record, rebuilding the index.  The
    /// result is exactly what [`recover`] prescribes; a log that ends
    /// mid-record is `Truncated`, one with an undecodable record `Corrupt`.
    #[verifier::rlimit(90)]
    pub fn open(log: Vec<char>) -> (r: Result<KvStore, KvError>)
        ensures
            match recover(log@) {
                Recovery::Done(m, n) => r matches Ok(s) && s.wf() && s@ == m && s.record_count()
                    == n && s.log_view() == log@,
                Recovery::Corrupt => r == Err::<KvStore, KvError>(KvError::Corrupt),
                Recovery::Truncated => r == Err::<KvStore, KvError>(KvError::Truncated),
            },
    {
        let n = log.len();
        let mut index: Vec<IndexEntry> = Vec::new();
        let mut log_keys: usize = 0;
        let mut pos: usize = 0;
        proof {
            assert(log@.skip(0) =~= log@);
            assert(index_map(index@) =~= Map::<Seq<char>, Seq<char>>::empty());
        }
        while pos < n
            invariant
                n == log@.len(),
                pos <= n,
                log_keys <= pos,
                index@.len() <= log_keys,
                unique_keys(index@),
                forall|i: int| 0 <= i < index@.len() ==> entry_ok(log@, #[trigger] index@[i]),
                recover(log@) == replay_onto(
                    index_map(index@),
                    log_keys as nat,
                    log@.skip(pos as int),
                ),
            decreases n - pos,
        {
            let ghost suf = log@.skip(pos as int);
            let mut h: usize = pos;
            while h < n && log[h] != '#'
                invariant
                    n == log@.len(),
                    pos <= h <= n,
                    forall|i: int| pos <= i < h ==> log@[i] != '#',
                decreases n - h,
            {
                h = h + 1;
            }
            proof {
                recovery::lemma_first_hash(suf);
                assert(forall|i: int| 0 <= i < suf.len() ==> suf[i] == log@[pos + i]);
                if h < n {
                    assert(suf[h - pos] == '#');
                    if first_hash(suf) < h - pos {
                        assert(suf[first_hash(suf) as int] == '#');
                        assert(log@[pos + first_hash(suf)] != '#');
                        assert(false);
                    }
                    if first_hash(suf) > h - pos {
                        assert(suf[h - pos] != '#');
                        assert(false);
                    }
                    assert(first_hash(suf) == h - pos);
                } else {
                    if first_hash(suf) < suf.len() {
                        assert(suf[first_hash(suf) as int] == '#');
                        assert(log@[pos + first_hash(suf)] != '#');
                        assert(false);
                    }
                    assert(first_hash(suf) >= suf.len());
                }
            }
            if h >= n {
                proof {
                    assert(suf.len() > 0);
                    assert(replay_onto(index_map(index@), log_keys as nat, suf)
                        == Recovery::Truncated);
                }
                return Err(KvError::Truncated);
            }
            let mut buf: Vec<char> = Vec::new();
            let mut j: usize = pos;
            while j < h
                invariant
                    n == log@.len(),
                    pos <= j <= h <= n,
                    buf@ == log@.subrange(pos as int, j as int),
                decreases h - j,
            {
                buf.push(log[j]);
                proof {
                    assert(buf@ =~= log@.subrange(pos as int, j as int + 1));
                }
                j = j + 1;
            }
            proof {
                assert(buf@ =~= suf.take((h - pos) as int));
            }
            match decode_command(&buf) {
                None => {
                    proof {
                        assert(replay_onto(index_map(index@), log_keys as nat, suf)
                            == Recovery::Corrupt);
                    }
                    return Err(KvError::Corrupt);
                }
                Some(cmd) => {
                    let ghost c = cmd@;
                    let ghost old_index = index@;
                    proof {
                        codec::lemma_encode_decode(buf@, c);
                        assert(hash_free(buf@));
                        assert(suf.skip((h - pos) as int + 1) =~= log@.skip(h as int + 1));
                        assert(replay_onto(index_map(old_index), log_keys as nat, suf)
                            == replay_onto(
                            apply_cmd(index_map(old_index), c),
                            log_keys as nat + 1,
                            log@.skip(h as int + 1),
                        ));
                    }
                    match cmd {
                        Command::Put(k, v) => {
                            let ghost gv = v@;
                            let flen = h + 1 - pos;
                            let e = IndexEntry { key: k, off: pos, len: flen, val: Ghost(gv) };
                            proof {
                                assert(entry_ok(log@, e)) by {
                                    assert(log@.subrange(pos as int, pos + flen) =~= buf@
                                        + seq!['#']);
                                    assert(entry_cmd(e) == c);
                                }
                            }
                            match find_entry(&index, &e.key) {
                                Some(i) => {
                                    index.set(i, e);
                                    proof {
                                        lemma_index_map_update(old_index, i as int, e);
                                    }
                                }
                                None => {
                                    index.push(e);
                                    proof {
                                        lemma_index_map_push(old_index, e);
                                    }
                                }
                            }
                        }
                        Command::Rm(k) => {
                            match find_entry(&index, &k) {
                                Some(i) => {
                                    index.remove(i);
                                    proof {
                                        lemma_index_map_remove(old_index, i as int);
                                    }
                                }
                                None => {
                                    proof {
                                        lemma_index_map_absent(old_index, k@);
                                        assert(index_map(old_index).remove(k@) =~= index_map(
                                            old_index,
                                        ));
                                    }
                                }
                            }
                        }
                        Command::Get(_) => {}
                    }
                    log_keys = log_keys + 1;
                    pos = h + 1;
                }
            }
        }
        proof {
            assert(log@.skip(pos as int) =~= Seq::<char>::empty());
            assert(replay_onto(index_map(index@), log_keys as nat, log@.skip(pos as int))
                == Recovery::Done(index_map(index@), log_keys as nat));
        }
        let s = KvStore { log, index, log_keys };
        Ok(s)
    }

    /// Check the compaction trigger and, when it holds, rewrite the log to
    /// hold exactly one framed record per live key, in index order.  The
    /// contents never change; afterwards the record count equals the number
    /// of live keys, the log is exactly the live records, and the trigger is
    /// off again, so a second call is a no-op.
    pub fn compact_if_needed(&mut self) -> (did: bool)
        requires
            old(self).wf(),
        ensures
            final(self).wf(),
            final(self)@ == old(self)@,
            did == old(self).compaction_due(),
            did == (old(self).record_count() >= COMPACTION_KEYS && old(self).record_count() as int
                / (old(self)@.len() as int + 1) >= COMPACTION_RATIO as int),
            !did ==> *final(self) == *old(self),
            did ==> final(self).record_count() == final(self)@.len(),
            did ==> final(self).log_view().len() == old(self).live_bytes(),
            did ==> final(self).live_bytes() == old(self).live_bytes(),
            did ==> !final(self).compaction_due(),
    {
        proof {
            lemma_index_map_len(self.index@);
        }
        if self.log_keys < COMPACTION_KEYS {
            return false;
        }
        let denom = match self.index.len().checked_add(1) {
            Some(d) => d,
            None => {
                proof {
                    vstd::arithmetic::div_mod::lemma_basic_div(
                        self.log_keys as int,
                        self.index@.len() as int + 1,
                    );
                }
                return false;
            }
        };
        if self.log_keys / denom < COMPACTION_RATIO {
            return false;
        }
        let old_log_len = self.log.len();
        proof {
            assert(old_log_len == self.log@.len());
        }
        let ghost old_index = self.index@;
        let mut new_log: Vec<char> = Vec::new();
        let m = self.index.len();
        let mut i: usize = 0;
        proof {
            assert(self.index@.take(0) =~= Seq::<IndexEntry>::empty());
            assert(index_map(self.index@.take(0)) =~= Map::<Seq<char>, Seq<char>>::empty());
            assert(live_size(self.index@.take(0)) == 0);
            assert(replay_onto(Map::empty(), 0, new_log@) == Recovery::Done(
                index_map(self.index@.take(0)),
                0,
            ));
        }
        while i < m
            invariant
                m == self.index@.len(),
                m == old_index.len(),
                i <= m,
                self.log@ == old(self).log@,
                self.log@.len() == old_log_len,
                forall|t: int| i <= t < m ==> self.index@[t] == old_index[t],
                forall|t: int|
                    0 <= t < m ==> (#[trigger] self.index@[t]).key@ == old_index[t].key@
                        && self.index@[t].val@ == old_index[t].val@ && self.index@[t].len
                        == old_index[t].len,
                forall|t: int| 0 <= t < i ==> entry_ok(new_log@, #[trigger] self.index@[t]),
                forall|t: int| 0 <= t < m ==> entry_ok(self.log@, #[trigger] old_index[t]),
                replay_onto(Map::empty(), 0, new_log@) == Recovery::Done(
                    index_map(self.index@.take(i as int)),
                    i as nat,
                ),
                new_log@.len() == live_size(self.index@.take(i as int)),
                i <= new_log@.len(),
            decreases m - i,
        {
            let e_off = self.index[i].off;
            let e_len = self.index[i].len;
            let ghost olde = old_index[i as int];
            let ghost nl0 = new_log@;
            proof {
                assert(entry_ok(self.log@, olde));
                assert(spec_frame(entry_cmd(olde)).len() == spec_encode(entry_cmd(olde)).len()
                    + 1);
            }
            let new_off = new_log.len();
            let mut j: usize = 0;
            while j < e_len
                invariant
                    j <= e_len,
                    e_off + e_len <= self.log@.len(),
                    self.log@.len() <= usize::MAX,
                    new_log@ == nl0 + self.log@.subrange(e_off as int, e_off as int + j),
                decreases e_len - j,
            {
                new_log.push(self.log[e_off + j]);
                proof {
                    assert(new_log@ =~= nl0 + self.log@.subrange(
                        e_off as int,
                        e_off as int + j + 1,
                    ));
                }
                j = j + 1;
            }
            let k = self.index[i].key.clone();
            let e = IndexEntry { key: k, off: new_off, len: e_len, val: Ghost(olde.val@) };
            let ghost pre_index = self.index@;
            self.index.set(i, e);
            proof {
                assert(new_log@ == nl0 + spec_frame(entry_cmd(olde)));
                assert(entry_cmd(e) == entry_cmd(olde));
                recovery::lemma_replay_append(
                    Map::empty(),
                    0,
                    nl0,
                    entry_cmd(olde),
                    index_map(pre_index.take(i as int)),
                    i as nat,
                );
                assert(pre_index.take(i as int) =~= self.index@.take(i as int)) by {
                    assert(forall|t: int|
                        0 <= t < i ==> self.index@.take(i as int)[t] == self.index@[t]
                            && pre_index.take(i as int)[t] == pre_index[t]);
                }
                assert(self.index@.take(i as int + 1).drop_last() =~= self.index@.take(i as int));
                assert(self.index@.take(i as int + 1).last() == e);
                assert(index_map(self.index@.take(i as int + 1)) == index_map(
                    self.index@.take(i as int),
                ).insert(e.key@, e.val@));
                assert(apply_cmd(index_map(self.index@.take(i as int)), entry_cmd(olde))
                    == index_map(self.index@.take(i as int + 1)));
                assert(live_size(self.index@.take(i as int + 1)) == live_size(
                    self.index@.take(i as int),
                ) + e_len);
                assert(entry_ok(new_log@, e)) by {
                    assert(new_log@.subrange(new_off as int, new_off + e_len) =~= spec_frame(
                        entry_cmd(e),
                    ));
                }
                assert forall|t: int| 0 <= t < i + 1 implies entry_ok(
                    new_log@,
                    #[trigger] self.index@[t],
                ) by {
                    if t < i {
                        let pe = self.index@[t];
                        assert(entry_ok(nl0, pe));
                        assert(new_log@.subrange(pe.off as int, pe.off + pe.len) =~= nl0.subrange(
                            pe.off as int,
                            pe.off + pe.len,
                        ));
                    }
                }
            }
            i = i + 1;
        }
        proof {
            assert(self.index@.take(m as int) =~= self.index@);
            lemma_index_map_same(self.index@, old_index);
            assert forall|a: int, b: int| 0 <= a < b < m implies self.index@[a].key@
                != self.index@[b].key@ by {
                assert(old_index[a].key@ != old_index[b].key@);
            }
            lemma_index_map_len(self.index@);
        }
        self.log = new_log;
        self.log_keys = self.index.len();
        proof {
            vstd::arithmetic::div_mod::lemma_basic_div(m as int, m as int + 1);
            lemma_live_size_same(self.index@, old_index);
        }
        true
    }
}

impl KvStore {
    /// How many characters the log holds.
    pub fn log_len(&self) -> (n: usize)
        ensures
            n == self.log_view().len(),
    {
        self.log.len()
    }

    /// Copy the log's characters from position `from` on; callers that
    /// mirror the log to a file append exactly this after each mutation.
    pub fn log_suffix(&self, from: usize) -> (r: Vec<char>)
        requires
            from <= self.log_view().len(),
        ensures
            r@ == self.log_view().skip(from as int),
    {
        let n = self.log.len();
        let mut r: Vec<char> = Vec::new();
        let mut j = from;
        while j < n
            invariant
                from <= j <= n,
                n == self.log@.len(),
                r@ == self.log@.subrange(from as int, j as int),
            decreases n - j,
        {
            r.push(self.log[j]);
            proof {
                assert(r@ =~= self.log@.subrange(from as int, j as int + 1));
            }
            j = j + 1;
        }
        proof {
            assert(r@ =~= self.log@.skip(from as int));
        }
        r
    }

    /// Copy the whole log, exactly as it is to be persisted.
    pub fn log_chars(&self) -> (r: Vec<char>)
        ensures
            r@ == self.log_view(),
    {
        let r = self.log_suffix(0);
        proof {
            assert(self.log@.skip(0) =~= self.log@);
        }
        r
    }

    /// How many keys are live.
    pub fn live_keys(&self) -> (n: usize)
        requires
            self.wf(),
        ensures
            n == self@.len(),
    {
        proof {
            lemma_index_map_len(self.index@);
        }
        self.index.len()
    }
}

/// Persistence: the log of a well-formed store replays to exactly the
/// store's contents and record count, so a store reopened from a persisted
/// copy of that log (see [`KvStore::open`]) observes the same value for
/// every key.
pub proof fn lemma_persistence(s: KvStore)
    requires
        s.wf(),
    ensures
        recover(s.log_view()) == Recovery::Done(s@, s.record_count()),
{
}

/// Compaction is idempotent: once the record count equals the live-key
/// count, as it does right after a compaction, the trigger is off, so the
/// next compaction check changes nothing.
pub proof fn lemma_compaction_idempotent(s: KvStore)
    requires
        s.wf(),
        s.record_count() == s@.len(),
    ensures
        !s.compaction_due(),
{
    lemma_index_map_len(s.index@);
    vstd::arithmetic::div_mod::lemma_basic_div(
        s.index@.len() as int,
        s.index@.len() as int + 1,
    );
}

impl crate::engine::KvsEngine for KvStore {
    open spec fn contents(&self) -> Map<Seq<char>, Seq<char>> {
        self.view()
    }

    open spec fn inv(&self) -> bool {
        self.wf()
    }

    open spec fn infallible(&self) -> bool {
        true
    }

    fn set(&mut self, key: String, value: String) -> (r: Result<(), KvError>) {
        KvStore::set(self, key, value)
    }

    fn get(&self, key: String) -> (r: Result<Option<String>, KvError>) {
        KvStore::get(self, key)
    }

    fn remove(&mut self, key: String) -> (r: Result<(), KvError>) {
        KvStore::remove(self, key)
    }
}

/// The live byte total depends only on the entries' lengths.
proof fn lemma_live_size_same(a: Seq<IndexEntry>, b: Seq<IndexEntry>)
    requires
        a.len() == b.len(),
        forall|i: int| 0 <= i < a.len() ==> (#[trigger] a[i]).len == b[i].len,
    ensures
        live_size(a) == live_size(b),
    decreases a.len(),
{
    if a.len() > 0 {
        assert(forall|j: int| 0 <= j < a.drop_last().len() ==> a.drop_last()[j] == a[j]
            && b.drop_last()[j] == b[j]);
        lemma_live_size_same(a.drop_last(), b.drop_last());
        assert(a.last().len == b.last().len);
    }
}

} // verus!
