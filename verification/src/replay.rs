//! Replay: rebuilding the index from the bytes of a log.
//!
//! The log is read from left to right, record by record. A record with a
//! value sets its key, a record with an empty value takes its key out. The
//! first place where no whole record is left ends the replay: what remains
//! there is an unfinished write and is ignored.

use vstd::prelude::*;
use crate::codec::{decode, decode_spec, encode_spec, lemma_decode_encode};
use crate::index::{
    as_map, bounded, lemma_upsert, lemma_without, unique_keys, upsert, without, Index, Pairs,
};

verus! {

/// What one record does to a mapping.
pub open spec fn apply_map(m: Map<Seq<u8>, Seq<u8>>, k: Seq<u8>, v: Seq<u8>) -> Map<
    Seq<u8>,
    Seq<u8>,
> {
    if v.len() == 0 {
        m.remove(k)
    } else {
        m.insert(k, v)
    }
}

/// What one record does to the entries of an index.
pub open spec fn apply_pairs(es: Pairs, k: Seq<u8>, v: Seq<u8>) -> Pairs {
    if v.len() == 0 {
        without(es, k)
    } else {
        upsert(es, k, v)
    }
}

/// The mapping after the records of `log` were applied to `m`.
pub open spec fn replay_map(log: Seq<u8>, m: Map<Seq<u8>, Seq<u8>>) -> Map<Seq<u8>, Seq<u8>>
    decreases log.len(),
{
    match decode_spec(log) {
        None => m,
        Some((k, v, n)) => replay_map(log.skip(n), apply_map(m, k, v)),
    }
}

/// The entries after the records of `log` were applied to `es`.
pub open spec fn replay_pairs(log: Seq<u8>, es: Pairs) -> Pairs
    decreases log.len(),
{
    match decode_spec(log) {
        None => es,
        Some((k, v, n)) => replay_pairs(log.skip(n), apply_pairs(es, k, v)),
    }
}

/// `log` is made of whole records and nothing else.
pub open spec fn is_whole(log: Seq<u8>) -> bool
    decreases log.len(),
{
    log.len() == 0 || match decode_spec(log) {
        None => false,
        Some((k, v, n)) => is_whole(log.skip(n)),
    }
}

/// The records `rs` one after another, as the bytes of a log.
pub open spec fn encode_all(rs: Pairs) -> Seq<u8>
    decreases rs.len(),
{
    if rs.len() == 0 {
        Seq::empty()
    } else {
        encode_all(rs.drop_last()) + encode_spec(rs.last().0, rs.last().1)
    }
}

/// The mapping after the records `rs` were applied to `m`, first to last.
pub open spec fn apply_all(m: Map<Seq<u8>, Seq<u8>>, rs: Pairs) -> Map<Seq<u8>, Seq<u8>>
    decreases rs.len(),
{
    if rs.len() == 0 {
        m
    } else {
        apply_map(apply_all(m, rs.drop_last()), rs.last().0, rs.last().1)
    }
}

/// How many of the records `rs` lie wholly within the first `n` bytes of
/// their log.
pub open spec fn whole_count(rs: Pairs, n: int) -> int
    decreases rs.len(),
{
    if rs.len() == 0 {
        0
    } else if encode_all(rs).len() <= n {
        rs.len() as int
    } else {
        whole_count(rs.drop_last(), n)
    }
}

/// Rebuilds the index from the bytes of a log. Never fails: bytes at the end
/// that make no whole record are left out.
pub fn replay(buffer: &[u8]) -> (idx: Index)
    ensures
        idx.wf(),
        idx@ == replay_pairs(buffer@, Seq::empty()),
        idx.as_map() == replay_map(buffer@, Map::empty()),
{
    let mut idx = Index::new();
    let len: usize = buffer.len();
    let mut pos: usize = 0;
    let mut more: bool = true;
    proof {
        assert(buffer@.skip(0) =~= buffer@);
    }
    while more
        invariant
            len == buffer@.len(),
            pos <= len,
            idx.wf(),
            replay_pairs(buffer@.skip(pos as int), idx@) == replay_pairs(buffer@, Seq::empty()),
            !more ==> decode_spec(buffer@.skip(pos as int)) is None,
        decreases buffer@.len() - pos + (if more { 1int } else { 0int }),
    {
        match decode(buffer, pos) {
            None => {
                more = false;
            },
            Some((rec, n)) => {
                proof {
                    assert(buffer@.skip(pos as int).skip(n as int) =~= buffer@.skip(pos + n));
                }
                if rec.is_tombstone() {
                    idx.remove(rec.key.as_slice());
                } else {
                    idx.insert(rec.key, rec.value);
                }
                pos = pos + n;
            },
        }
    }
    proof {
        let none = Seq::<(Seq<u8>, Seq<u8>)>::empty();
        assert(as_map(none) =~= Map::<Seq<u8>, Seq<u8>>::empty());
        lemma_replay_pairs_map(buffer@, none);
    }
    idx
}

/// The two replays agree: the entries that a replay leaves stand for the
/// mapping that the replay of the same log leaves, and their keys stay
/// unique.
pub proof fn lemma_replay_pairs_map(log: Seq<u8>, es: Pairs)
    requires
        unique_keys(es),
    ensures
        unique_keys(replay_pairs(log, es)),
        as_map(replay_pairs(log, es)) == replay_map(log, as_map(es)),
    decreases log.len(),
{
    match decode_spec(log) {
        None => {},
        Some((k, v, n)) => {
            lemma_upsert(es, k, v);
            lemma_without(es, k);
            lemma_replay_pairs_map(log.skip(n), apply_pairs(es, k, v));
        },
    }
}

/// A record that decodes at the start of a log decodes there whatever is
/// appended to the log.
pub proof fn lemma_decode_prefix(log: Seq<u8>, tail: Seq<u8>)
    requires
        decode_spec(log) is Some,
    ensures
        decode_spec(log + tail) == decode_spec(log),
        (log + tail).skip(decode_spec(log).unwrap().2) == log.skip(decode_spec(log).unwrap().2)
            + tail,
{
    let full = log + tail;
    let (k, v, n) = decode_spec(log).unwrap();
    assert(full.subrange(0, 8) =~= log.subrange(0, 8));
    assert(full.subrange(8, 16) =~= log.subrange(8, 16));
    let kl = k.len() as int;
    assert(full.subrange(16, 16 + kl) =~= log.subrange(16, 16 + kl));
    assert(full.subrange(16 + kl, n) =~= log.subrange(16 + kl, n));
    assert(full.skip(n) =~= log.skip(n) + tail);
}

/// A record cut short does not decode.
pub proof fn lemma_cut_record(k: Seq<u8>, v: Seq<u8>, c: int)
    requires
        k.len() <= u64::MAX,
        v.len() <= u64::MAX,
        0 <= c < 16 + k.len() + v.len(),
    ensures
        decode_spec(encode_spec(k, v).take(c)) is None,
{
    lemma_decode_encode(k, v, Seq::empty());
    let e = encode_spec(k, v);
    assert(e + Seq::<u8>::empty() =~= e);
    if c >= 16 {
        assert(e.take(c).subrange(0, 8) =~= e.subrange(0, 8));
        assert(e.take(c).subrange(8, 16) =~= e.subrange(8, 16));
    }
}

/// Appending a record to a log of whole records: the log stays one of whole
/// records, and its replay is the old replay with the record applied.
pub proof fn lemma_replay_append(log: Seq<u8>, k: Seq<u8>, v: Seq<u8>, m: Map<Seq<u8>, Seq<u8>>)
    requires
        is_whole(log),
        k.len() <= u64::MAX,
        v.len() <= u64::MAX,
    ensures
        is_whole(log + encode_spec(k, v)),
        replay_map(log + encode_spec(k, v), m) == apply_map(replay_map(log, m), k, v),
    decreases log.len(),
{
    let e = encode_spec(k, v);
    if log.len() == 0 {
        lemma_decode_encode(k, v, Seq::empty());
        let none = Seq::<u8>::empty();
        assert(log =~= none);
        assert(log + e =~= e + none);
        assert((log + e).skip(e.len() as int) =~= none);
        assert(decode_spec(none) is None);
        assert(is_whole(none));
        assert(replay_map(none, apply_map(m, k, v)) == apply_map(m, k, v));
        assert(replay_map(none, m) == m);
    } else {
        let (k0, v0, n0) = decode_spec(log).unwrap();
        lemma_decode_prefix(log, e);
        lemma_replay_append(log.skip(n0), k, v, apply_map(m, k0, v0));
    }
}

/// A log of whole records followed by the start of one more record replays
/// as the whole records alone.
pub proof fn lemma_replay_cut_tail(
    log: Seq<u8>,
    k: Seq<u8>,
    v: Seq<u8>,
    c: int,
    m: Map<Seq<u8>, Seq<u8>>,
)
    requires
        is_whole(log),
        k.len() <= u64::MAX,
        v.len() <= u64::MAX,
        0 <= c < 16 + k.len() + v.len(),
    ensures
        replay_map(log + encode_spec(k, v).take(c), m) == replay_map(log, m),
    decreases log.len(),
{
    let t = encode_spec(k, v).take(c);
    if log.len() == 0 {
        lemma_cut_record(k, v, c);
        assert(log + t =~= t);
    } else {
        let (k0, v0, n0) = decode_spec(log).unwrap();
        lemma_decode_prefix(log, t);
        lemma_replay_cut_tail(log.skip(n0), k, v, c, apply_map(m, k0, v0));
    }
}

/// The log of the records `rs` is one of whole records, and its replay
/// applies them in order.
pub proof fn lemma_replay_encode_all(rs: Pairs, m: Map<Seq<u8>, Seq<u8>>)
    requires
        bounded(rs),
    ensures
        is_whole(encode_all(rs)),
        replay_map(encode_all(rs), m) == apply_all(m, rs),
    decreases rs.len(),
{
    if rs.len() > 0 {
        let init = rs.drop_last();
        assert(bounded(init)) by {
            assert forall|i: int| 0 <= i < init.len() implies (#[trigger] init[i]).0.len()
                <= u64::MAX && init[i].1.len() <= u64::MAX by {
                assert(init[i] == rs[i]);
            }
        }
        lemma_replay_encode_all(init, m);
        assert(rs.last() == rs[rs.len() - 1]);
        lemma_replay_append(encode_all(init), rs.last().0, rs.last().1, m);
    }
}

/// Replaying a log that was cut at any byte never fails, and gives what the
/// records that lie wholly before the cut give: for the log of the records
/// `rs`, cut after `n` bytes, the replay applies the first
/// `whole_count(rs, n)` records and nothing else.
pub proof fn lemma_replay_truncated(rs: Pairs, n: int, m: Map<Seq<u8>, Seq<u8>>)
    requires
        bounded(rs),
        0 <= n <= encode_all(rs).len(),
    ensures
        0 <= whole_count(rs, n) <= rs.len(),
        encode_all(rs.take(whole_count(rs, n))).len() <= n,
        replay_map(encode_all(rs).take(n), m) == apply_all(m, rs.take(whole_count(rs, n))),
    decreases rs.len(),
{
    let log = encode_all(rs);
    if rs.len() == 0 {
        assert(rs.take(0) =~= rs);
        assert(log.take(n) =~= log);
    } else if log.len() <= n {
        assert(log.take(n) =~= log);
        assert(rs.take(rs.len() as int) =~= rs);
        lemma_replay_encode_all(rs, m);
    } else {
        let init = rs.drop_last();
        let last = rs.last();
        assert(last == rs[rs.len() - 1]);
        assert(bounded(init)) by {
            assert forall|i: int| 0 <= i < init.len() implies (#[trigger] init[i]).0.len()
                <= u64::MAX && init[i].1.len() <= u64::MAX by {
                assert(init[i] == rs[i]);
            }
        }
        let head = encode_all(init);
        let e = encode_spec(last.0, last.1);
        lemma_decode_encode(last.0, last.1, Seq::empty());
        if n <= head.len() {
            assert(log.take(n) =~= head.take(n));
            lemma_replay_truncated(init, n, m);
            assert(rs.take(whole_count(init, n)) =~= init.take(whole_count(init, n)));
        } else {
            let c = n - head.len();
            assert(log.take(n) =~= head + e.take(c));
            lemma_replay_encode_all(init, m);
            lemma_replay_cut_tail(head, last.0, last.1, c, m);
            assert(whole_count(init, n) == init.len());
            assert(rs.take(init.len() as int) =~= init);
            assert(init.take(init.len() as int) =~= init);
        }
    }
}

} // verus!
