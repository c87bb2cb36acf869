//! The meaning of a log: replaying its framed records, front to back, yields
//! the store's contents.  [`recover`] is both what opening a log computes and
//! the invariant every engine state keeps towards its own log.

use vstd::prelude::*;

use crate::codec::{hash_free, spec_decode, spec_frame, SpecCmd};

verus! {

/// The outcome of replaying a log.
pub enum Recovery {
    /// The log parsed completely: its contents and the number of records.
    Done(Map<Seq<char>, Seq<char>>, nat),
    /// Some record's JSON text failed to decode.
    Corrupt,
    /// The log ended before the delimiter of its last record.
    Truncated,
}

/// The position of the first delimiter in `s`, or `s.len()` when there is
/// none.
pub open spec fn first_hash(s: Seq<char>) -> nat
    decreases s.len(),
{
    if s.len() == 0 {
        0
    } else if s[0] == '#' {
        0
    } else {
        1 + first_hash(s.drop_first())
    }
}

/// One record applied to the contents so far.
pub open spec fn apply_cmd(m: Map<Seq<char>, Seq<char>>, c: SpecCmd) -> Map<Seq<char>, Seq<char>> {
    match c {
        SpecCmd::Get(_) => m,
        SpecCmd::Rm(k) => m.remove(k),
        SpecCmd::Put(k, v) => m.insert(k, v),
    }
}

/// Replay `log` on top of contents `m`, `count` records already seen.
pub open spec fn replay_onto(m: Map<Seq<char>, Seq<char>>, count: nat, log: Seq<char>) -> Recovery
    decreases log.len(),
{
    if log.len() == 0 {
        Recovery::Done(m, count)
    } else {
        let h = first_hash(log);
        if h >= log.len() {
            Recovery::Truncated
        } else {
            match spec_decode(log.take(h as int)) {
                None => Recovery::Corrupt,
                Some(c) => replay_onto(apply_cmd(m, c), count + 1, log.skip(h as int + 1)),
            }
        }
    }
}

/// Replaying a whole log from nothing.
pub open spec fn recover(log: Seq<char>) -> Recovery {
    replay_onto(Map::empty(), 0, log)
}

/// Where the first delimiter sits: within bounds, a delimiter itself, and
/// nothing before it is one.
pub proof fn lemma_first_hash(s: Seq<char>)
    ensures
        first_hash(s) <= s.len(),
        first_hash(s) < s.len() ==> s[first_hash(s) as int] == '#',
        forall|i: int| 0 <= i < first_hash(s) ==> s[i] != '#',
    decreases s.len(),
{
    if s.len() > 0 && s[0] != '#' {
        lemma_first_hash(s.drop_first());
        assert(forall|i: int| 0 <= i < first_hash(s.drop_first()) ==> s.drop_first()[i] != '#');
        assert forall|i: int| 0 <= i < first_hash(s) implies s[i] != '#' by {
            if i > 0 {
                assert(s.drop_first()[i - 1] != '#');
            }
        }
    }
}

/// A delimiter-free prefix followed by a delimiter puts the first delimiter
/// exactly at the prefix's end, whatever follows.
proof fn lemma_first_hash_of(a: Seq<char>, b: Seq<char>)
    requires
        hash_free(a),
        b.len() >= 1,
        b[0] == '#',
    ensures
        first_hash(a + b) == a.len(),
    decreases a.len(),
{
    if a.len() == 0 {
        assert(a + b =~= b);
    } else {
        assert((a + b)[0] == a[0]);
        assert((a + b).drop_first() =~= a.drop_first() + b);
        assert(hash_free(a.drop_first())) by {
            assert(forall|i: int| 0 <= i < a.drop_first().len() ==> a.drop_first()[i] == a[i + 1]);
        }
        lemma_first_hash_of(a.drop_first(), b);
    }
}

/// A delimiter found inside the log stays the first one after the log grows.
proof fn lemma_first_hash_append(a: Seq<char>, b: Seq<char>)
    requires
        first_hash(a) < a.len(),
    ensures
        first_hash(a + b) == first_hash(a),
    decreases a.len(),
{
    if a[0] != '#' {
        assert((a + b)[0] == a[0]);
        assert((a + b).drop_first() =~= a.drop_first() + b);
        lemma_first_hash_append(a.drop_first(), b);
    } else {
        assert((a + b)[0] == '#');
    }
}

/// Replaying a log extended by one well-formed frame: the frame's command is
/// applied at the end, and the record count grows by one.
pub proof fn lemma_replay_append(
    m: Map<Seq<char>, Seq<char>>,
    count: nat,
    log: Seq<char>,
    c: SpecCmd,
    m1: Map<Seq<char>, Seq<char>>,
    n1: nat,
)
    requires
        replay_onto(m, count, log) == Recovery::Done(m1, n1),
        hash_free(crate::codec::spec_encode(c)),
    ensures
        replay_onto(m, count, log + spec_frame(c)) == Recovery::Done(apply_cmd(m1, c), n1 + 1),
    decreases log.len(),
{
    let enc = crate::codec::spec_encode(c);
    let frame = spec_frame(c);
    if log.len() == 0 {
        assert(log + frame =~= frame);
        assert(frame =~= enc + seq!['#']);
        lemma_first_hash_of(enc, seq!['#']);
        assert(first_hash(frame) == enc.len());
        assert(frame.take(enc.len() as int) =~= enc);
        crate::codec::lemma_decode_encode(c);
        assert(frame.skip(enc.len() as int + 1) =~= Seq::<char>::empty());
        assert(m1 == m && n1 == count);
        assert(replay_onto(apply_cmd(m, c), count + 1, Seq::<char>::empty()) == Recovery::Done(
            apply_cmd(m, c),
            count + 1,
        ));
        assert(replay_onto(m, count, frame) == Recovery::Done(apply_cmd(m, c), count + 1));
    } else {
        lemma_first_hash(log);
        let h = first_hash(log);
        assert(h < log.len());
        lemma_first_hash_append(log, frame);
        assert(first_hash(log + frame) == h);
        assert((log + frame).take(h as int) =~= log.take(h as int));
        assert((log + frame).skip(h as int + 1) =~= log.skip(h as int + 1) + frame);
        let c0 = spec_decode(log.take(h as int)).unwrap();
        lemma_replay_append(apply_cmd(m, c0), count + 1, log.skip(h as int + 1), c, m1, n1);
    }
}

} // verus!
