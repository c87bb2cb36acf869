//! Laws of the engine contract, stated over the contents map that every
//! engine's `set`, `get` and `remove` contracts speak of.  Together with
//! those contracts they pin down the observable behaviour of any sequence of
//! operations.

use vstd::prelude::*;

verus! {

/// Read-your-writes: after `set(k, v)` the contents bind `k` to `v`, and a
/// later `set` of any other key leaves that binding intact, so `get(k)`
/// returns `Some(v)` across any interleaving with other keys.
pub proof fn lemma_read_your_writes(
    m: Map<Seq<char>, Seq<char>>,
    k: Seq<char>,
    v: Seq<char>,
    k2: Seq<char>,
    v2: Seq<char>,
)
    requires
        k2 != k,
    ensures
        m.insert(k, v).contains_key(k),
        m.insert(k, v)[k] == v,
        m.insert(k, v).insert(k2, v2).contains_key(k),
        m.insert(k, v).insert(k2, v2)[k] == v,
        m.insert(k, v).remove(k2).contains_key(k),
        m.insert(k, v).remove(k2)[k] == v,
{
}

/// Last-writer-wins per key: two `set`s of the same key leave the second
/// value, and a `set` followed by a `remove` leaves the key absent, so
/// `get(k)` returns `Some(v2)` respectively `None`.
pub proof fn lemma_last_writer_wins(
    m: Map<Seq<char>, Seq<char>>,
    k: Seq<char>,
    v1: Seq<char>,
    v2: Seq<char>,
)
    ensures
        m.insert(k, v1).insert(k, v2).contains_key(k),
        m.insert(k, v1).insert(k, v2)[k] == v2,
        !m.insert(k, v1).remove(k).contains_key(k),
{
}

/// Remove semantics, the contents side: after a `remove` the key is absent,
/// and removing leaves every other key's binding alone.  The error side --
/// `KeyNotFound` exactly on absent keys, `Ok` exactly on live ones -- is the
/// `ensures` of `KvStore::remove` itself.
pub proof fn lemma_remove_semantics(
    m: Map<Seq<char>, Seq<char>>,
    k: Seq<char>,
    k2: Seq<char>,
)
    requires
        k2 != k,
        m.contains_key(k2),
    ensures
        !m.remove(k).contains_key(k),
        m.remove(k).contains_key(k2),
        m.remove(k)[k2] == m[k2],
{
}

/// Mutations of distinct keys, serialized in either order, leave the same
/// contents, and both writes persist; with overlapping keys, whichever
/// write serializes last is the one observed (see
/// [`lemma_last_writer_wins`]).
pub proof fn lemma_distinct_writes_commute(
    m: Map<Seq<char>, Seq<char>>,
    k1: Seq<char>,
    v1: Seq<char>,
    k2: Seq<char>,
    v2: Seq<char>,
)
    requires
        k1 != k2,
    ensures
        m.insert(k1, v1).insert(k2, v2) == m.insert(k2, v2).insert(k1, v1),
        m.insert(k1, v1).insert(k2, v2)[k1] == v1,
        m.insert(k1, v1).insert(k2, v2)[k2] == v2,
{
    assert(m.insert(k1, v1).insert(k2, v2) =~= m.insert(k2, v2).insert(k1, v1));
}

} // verus!
