//! The store: the index and the log behind one owner.
//!
//! The store does no I/O. `KvStore::new` takes the bytes of the log as they
//! were read; every mutation returns the bytes that have to be written, and
//! the store tracks, as ghost state, what the log holds once they are.
//!
//! `set` appends one record. `delete` removes the key and, where the key was
//! there, rewrites the whole log from the index: the log never grows by
//! tombstones, at the price of a delete that takes time in the number of
//! keys. `compact` rewrites the log in the same way.

use vstd::prelude::*;
use regex::Regex;
use crate::codec::{
    copy_bytes, decode_spec, encode, encode_spec, extend_bytes, lemma_decode_encode,
};
use crate::index::{
    as_map, bounded, has_key, keys_of, lemma_slot, lemma_upsert, lemma_without, selected, slot,
    unique_keys, upsert, views, without, Index, Pairs,
};
use crate::pattern::{
    error_text, key_matches, lossy_text, pattern_compiles, pattern_matches, regex_accepts,
    PatternError,
};
use crate::replay::{
    apply_all, apply_map, encode_all, is_whole, lemma_replay_append, lemma_replay_encode_all,
    replay, replay_map, replay_pairs,
};

verus! {

/// A store as the contracts see it: the entries of the index, in order, and
/// the bytes of the log.
pub struct StoreView {
    pub entries: Pairs,
    pub log: Seq<u8>,
}

/// One mutation of a store: a `set` of a key to a value, or a `delete` of a
/// key.
pub enum Op {
    Write(Seq<u8>, Seq<u8>),
    Erase(Seq<u8>),
}

/// The part of a mapping that a log can hold: the keys with a value that is
/// not empty. A record with an empty value is a tombstone, so a key that was
/// set to the empty value is gone after a replay.
pub open spec fn live(m: Map<Seq<u8>, Seq<u8>>) -> Map<Seq<u8>, Seq<u8>> {
    Map::new(|k: Seq<u8>| m.contains_key(k) && m[k].len() > 0, |k: Seq<u8>| m[k])
}

/// The store without keys and with an empty log.
pub open spec fn empty_store() -> StoreView {
    StoreView { entries: Seq::empty(), log: Seq::empty() }
}

/// The store after `set`: the key has the value, and the log has one more
/// record.
pub open spec fn set_spec(s: StoreView, k: Seq<u8>, v: Seq<u8>) -> StoreView {
    StoreView { entries: upsert(s.entries, k, v), log: s.log + encode_spec(k, v) }
}

/// The store after `compact`: the same entries, and a log of one record for
/// each of them, in their order.
pub open spec fn compact_spec(s: StoreView) -> StoreView {
    StoreView { entries: s.entries, log: encode_all(s.entries) }
}

/// The store after `delete`: where the key was there, it is gone and the log
/// is rewritten from what is left; else nothing changes.
pub open spec fn delete_spec(s: StoreView, k: Seq<u8>) -> StoreView {
    if has_key(s.entries, k) {
        compact_spec(StoreView { entries: without(s.entries, k), log: s.log })
    } else {
        s
    }
}

/// The store after one mutation.
pub open spec fn step(s: StoreView, op: Op) -> StoreView {
    match op {
        Op::Write(k, v) => set_spec(s, k, v),
        Op::Erase(k) => delete_spec(s, k),
    }
}

/// The store after the mutations `ops`, first to last, on an empty store.
pub open spec fn run(ops: Seq<Op>) -> StoreView
    decreases ops.len(),
{
    if ops.len() == 0 {
        empty_store()
    } else {
        step(run(ops.drop_last()), ops.last())
    }
}

/// The mapping after the mutations `ops` on an ideal map: the last write
/// wins, and a delete removes.
pub open spec fn model(ops: Seq<Op>) -> Map<Seq<u8>, Seq<u8>>
    decreases ops.len(),
{
    if ops.len() == 0 {
        Map::empty()
    } else {
        match ops.last() {
            Op::Write(k, v) => model(ops.drop_last()).insert(k, v),
            Op::Erase(k) => model(ops.drop_last()).remove(k),
        }
    }
}

/// Every key and value in `ops` has a length that a `u64` holds.
pub open spec fn ops_bounded(ops: Seq<Op>) -> bool {
    forall|i: int|
        0 <= i < ops.len() ==> match #[trigger] ops[i] {
            Op::Write(k, v) => k.len() <= u64::MAX && v.len() <= u64::MAX,
            Op::Erase(k) => k.len() <= u64::MAX,
        }
}

/// No `set` in `ops` writes an empty value.
pub open spec fn no_empty_values(ops: Seq<Op>) -> bool {
    forall|i: int|
        0 <= i < ops.len() ==> match #[trigger] ops[i] {
            Op::Write(k, v) => v.len() > 0,
            Op::Erase(k) => true,
        }
}

/// The log is made of whole records, and a replay of it gives the live part
/// of the index.
pub open spec fn consistent(s: StoreView) -> bool {
    is_whole(s.log) && replay_map(s.log, Map::empty()) == live(as_map(s.entries))
}

/// The values of the entries of `es` whose key, read as text, `pattern`
/// matches; in the order of the entries.
pub open spec fn matching_values(es: Pairs, pattern: Seq<char>) -> Seq<Seq<u8>> {
    selected(es, Seq::new(es.len(), |i: int| pattern_matches(pattern, lossy_text(es[i].0))))
}

/// The values of the entries of `es` whose key, read as text, the compiled
/// expression `re` matches; in the order of the entries.
pub open spec fn accepted_values(es: Pairs, re: Regex) -> Seq<Seq<u8>> {
    selected(es, Seq::new(es.len(), |i: int| regex_accepts(re, lossy_text(es[i].0))))
}

/// The log that holds one record for each entry of the index, in order.
pub fn encode_entries(index: &Index) -> (out: Vec<u8>)
    ensures
        out@ == encode_all(index@),
{
    let n: usize = index.len();
    let mut out: Vec<u8> = Vec::new();
    let mut i: usize = 0;
    assert(index@.take(0) =~= Seq::<(Seq<u8>, Seq<u8>)>::empty());
    while i < n
        invariant
            n == index@.len(),
            i <= n,
            out@ == encode_all(index@.take(i as int)),
        decreases n - i,
    {
        let rec = index.entry(i);
        let bytes: Vec<u8> = encode(rec.key.as_slice(), rec.value.as_slice());
        proof {
            assert(index@.take(i + 1).drop_last() =~= index@.take(i as int));
            assert(index@.take(i + 1).last() == index@[i as int]);
        }
        extend_bytes(&mut out, bytes.as_slice());
        i += 1;
    }
    assert(index@.take(n as int) =~= index@);
    out
}

/// The store.
pub struct KvStore {
    index: Index,
    log: Ghost<Seq<u8>>,
}

impl KvStore {
    /// The entries of the index and the bytes of the log.
    pub closed spec fn view(&self) -> StoreView {
        StoreView { entries: self.index@, log: self.log@ }
    }

    /// The invariant of the store: that of its index.
    pub closed spec fn wf(&self) -> bool {
        self.index.wf()
    }

    /// The mapping from key to value that the store answers from.
    pub open spec fn as_map(&self) -> Map<Seq<u8>, Seq<u8>> {
        as_map(self@.entries)
    }

    /// What `wf` says of the view.
    pub proof fn lemma_wf(&self)
        requires
            self.wf(),
        ensures
            unique_keys(self@.entries),
            bounded(self@.entries),
    {
    }

    /// Starts a store on the bytes of its log: the index is the replay of
    /// the log. Bytes at the end of the log that make no whole record are
    /// ignored by the replay and stay in the log.
    pub fn new(log: &[u8]) -> (s: KvStore)
        ensures
            s.wf(),
            s@.log == log@,
            s@.entries == replay_pairs(log@, Seq::empty()),
            s.as_map() == replay_map(log@, Map::empty()),
            is_whole(log@) ==> consistent(s@),
    {
        let index = replay(log);
        proof {
            assert(live(Map::<Seq<u8>, Seq<u8>>::empty()) =~= Map::<Seq<u8>, Seq<u8>>::empty());
            lemma_replay_live(log@, Map::empty());
        }
        KvStore { index, log: Ghost(log@) }
    }

    /// The number of keys.
    pub fn len(&self) -> (n: usize)
        ensures
            n == self@.entries.len(),
    {
        self.index.len()
    }

    /// The value of `key`, from the index alone.
    pub fn get(&self, key: &[u8]) -> (r: Option<Vec<u8>>)
        requires
            self.wf(),
        ensures
            r is Some <==> self.as_map().contains_key(key@),
            r matches Some(v) ==> v@ == self.as_map()[key@],
    {
        match self.index.get(key) {
            Some(v) => Some(copy_bytes(v.as_slice())),
            None => None,
        }
    }

    /// Sets `key` to `value`, whether or not the key is there. Returns the
    /// record that has to be appended to the log.
    pub fn set(&mut self, key: Vec<u8>, value: Vec<u8>) -> (record: Vec<u8>)
        requires
            old(self).wf(),
        ensures
            final(self).wf(),
            final(self)@ == set_spec(old(self)@, key@, value@),
            final(self).as_map() == old(self).as_map().insert(key@, value@),
            record@ == encode_spec(key@, value@),
            consistent(old(self)@) ==> consistent(final(self)@),
    {
        let record: Vec<u8> = encode(key.as_slice(), value.as_slice());
        proof {
            assert(key@.len() == key.len() && value@.len() == value.len());
            assert(usize::MAX <= u64::MAX);
            lemma_set_consistent(self@, key@, value@);
        }
        self.index.insert(key, value);
        self.log = Ghost(self.log@ + record@);
        record
    }

    /// The contents that the log has after a compaction: one record for each
    /// key, in the order of the index, no tombstone and no older value. The
    /// caller replaces the log by them. The index does not change.
    pub fn compact(&mut self) -> (contents: Vec<u8>)
        requires
            old(self).wf(),
        ensures
            final(self).wf(),
            final(self)@ == compact_spec(old(self)@),
            contents@ == final(self)@.log,
            consistent(final(self)@),
    {
        let contents: Vec<u8> = encode_entries(&self.index);
        proof {
            lemma_compact_consistent(self@);
        }
        self.log = Ghost(contents@);
        contents
    }

    /// Takes `key` out. Where the store held the key, returns the contents
    /// that the log has after the compaction that follows; the caller
    /// replaces the log by them. Where it did not, returns `None`, and
    /// nothing changes.
    pub fn delete(&mut self, key: &[u8]) -> (r: Option<Vec<u8>>)
        requires
            old(self).wf(),
        ensures
            final(self).wf(),
            r is Some <==> old(self).as_map().contains_key(key@),
            final(self)@ == delete_spec(old(self)@, key@),
            final(self).as_map() == old(self).as_map().remove(key@),
            r matches Some(contents) ==> contents@ == final(self)@.log && consistent(
                final(self)@,
            ),
    {
        if self.index.remove(key) {
            let contents: Vec<u8> = self.compact();
            Some(contents)
        } else {
            proof {
                lemma_without(self@.entries, key@);
            }
            None
        }
    }

    /// The keys, in the order of the index.
    pub fn list_keys(&self) -> (ks: Vec<Vec<u8>>)
        ensures
            views(ks@) == keys_of(self@.entries),
    {
        self.index.keys()
    }

    /// For each entry of the index, whether `re` matches its key.
    pub fn key_flags(&self, re: &Regex) -> (flags: Vec<bool>)
        ensures
            flags@ == Seq::new(
                self@.entries.len(),
                |i: int| regex_accepts(*re, lossy_text(self@.entries[i].0)),
            ),
    {
        let n: usize = self.index.len();
        let mut flags: Vec<bool> = Vec::new();
        let mut i: usize = 0;
        while i < n
            invariant
                n == self.index@.len(),
                i <= n,
                flags@.len() == i,
                forall|j: int|
                    0 <= j < i ==> flags@[j] == regex_accepts(*re, lossy_text(self.index@[j].0)),
            decreases n - i,
        {
            let hit: bool = key_matches(re, self.index.entry(i).key.as_slice());
            flags.push(hit);
            i += 1;
        }
        assert(flags@ =~= Seq::new(
            self@.entries.len(),
            |i: int| regex_accepts(*re, lossy_text(self@.entries[i].0)),
        ));
        flags
    }

    /// The lookup by pattern, given what compiling the pattern gave: the
    /// error where it failed, else the values of the keys that the
    /// expression matches.
    pub fn values_for(&self, compiled: Result<Regex, regex::Error>) -> (r: Result<
        Vec<Vec<u8>>,
        PatternError,
    >)
        ensures
            r is Ok <==> compiled is Ok,
            r matches Ok(vs) ==> views(vs@) == accepted_values(
                self@.entries,
                compiled->Ok_0,
            ),
    {
        match compiled {
            Ok(re) => {
                let flags: Vec<bool> = self.key_flags(&re);
                Ok(self.index.select_values(flags.as_slice()))
            },
            Err(e) => Err(PatternError { message: error_text(&e) }),
        }
    }

    /// The values of all keys that `pattern` matches, in the order of the
    /// index. The lookup fails exactly where `pattern` does not compile; a
    /// pattern that compiles and matches no key gives no values, not an
    /// error. Every key is tried; the store does not change.
    pub fn find_values_by_regex(&self, pattern: &str) -> (r: Result<Vec<Vec<u8>>, PatternError>)
        ensures
            r is Ok <==> pattern_compiles(pattern@),
            r matches Ok(vs) ==> views(vs@) == matching_values(self@.entries, pattern@),
    {
        let compiled = Regex::new(pattern);
        proof {
            if compiled is Ok {
                let re = compiled->Ok_0;
                let es = self@.entries;
                assert(Seq::new(es.len(), |i: int| regex_accepts(re, lossy_text(es[i].0)))
                    =~= Seq::new(
                    es.len(),
                    |i: int| pattern_matches(pattern@, lossy_text(es[i].0)),
                ));
            }
        }
        self.values_for(compiled)
    }

    /// Sets a key that is not there yet. Returns the record to append, or
    /// `None`, with nothing changed, where the key is there.
    pub fn put_key(&mut self, key: Vec<u8>, value: Vec<u8>) -> (r: Option<Vec<u8>>)
        requires
            old(self).wf(),
        ensures
            final(self).wf(),
            r is Some <==> !old(self).as_map().contains_key(key@),
            r is None ==> final(self)@ == old(self)@,
            r matches Some(record) ==> record@ == encode_spec(key@, value@) && final(self)@
                == set_spec(old(self)@, key@, value@),
            consistent(old(self)@) ==> consistent(final(self)@),
    {
        if self.index.get(key.as_slice()).is_some() {
            None
        } else {
            Some(self.set(key, value))
        }
    }

    /// Sets a key that is there. Returns the record to append, or `None`,
    /// with nothing changed, where the key is not there.
    pub fn update_key(&mut self, key: Vec<u8>, value: Vec<u8>) -> (r: Option<Vec<u8>>)
        requires
            old(self).wf(),
        ensures
            final(self).wf(),
            r is Some <==> old(self).as_map().contains_key(key@),
            r is None ==> final(self)@ == old(self)@,
            r matches Some(record) ==> record@ == encode_spec(key@, value@) && final(self)@
                == set_spec(old(self)@, key@, value@),
            consistent(old(self)@) ==> consistent(final(self)@),
    {
        if self.index.get(key.as_slice()).is_some() {
            Some(self.set(key, value))
        } else {
            None
        }
    }
}

/// A record applied to the live part of a mapping gives the live part of
/// the mapping with the key set.
pub proof fn lemma_live_apply(m: Map<Seq<u8>, Seq<u8>>, k: Seq<u8>, v: Seq<u8>)
    ensures
        apply_map(live(m), k, v) == live(m.insert(k, v)),
        live(live(m)) == live(m),
        live(m.remove(k)) == live(m).remove(k),
{
    assert(apply_map(live(m), k, v) =~= live(m.insert(k, v)));
    assert(live(live(m)) =~= live(m));
    assert(live(m.remove(k)) =~= live(m).remove(k));
}

/// A replay never leaves an empty value in the mapping.
pub proof fn lemma_replay_live(log: Seq<u8>, m: Map<Seq<u8>, Seq<u8>>)
    requires
        live(m) == m,
    ensures
        live(replay_map(log, m)) == replay_map(log, m),
    decreases log.len(),
{
    match decode_spec(log) {
        None => {},
        Some((k, v, n)) => {
            lemma_live_apply(m, k, v);
            lemma_live_apply(m.insert(k, v), k, v);
            assert(live(apply_map(m, k, v)) =~= apply_map(m, k, v));
            lemma_replay_live(log.skip(n), apply_map(m, k, v));
        },
    }
}

/// Applying the entries of an index, as records, to the empty mapping gives
/// the live part of the index.
pub proof fn lemma_apply_entries(es: Pairs)
    requires
        unique_keys(es),
    ensures
        apply_all(Map::empty(), es) == live(as_map(es)),
    decreases es.len(),
{
    if es.len() == 0 {
        assert(live(as_map(es)) =~= Map::<Seq<u8>, Seq<u8>>::empty());
    } else {
        let init = es.drop_last();
        let last = es.last();
        assert(last == es[es.len() - 1]);
        assert(unique_keys(init)) by {
            assert forall|i: int, j: int| 0 <= i < j < init.len() implies (#[trigger] init[i]).0
                != (#[trigger] init[j]).0 by {
                assert(init[i] == es[i] && init[j] == es[j]);
            }
        }
        assert(!has_key(init, last.0)) by {
            if has_key(init, last.0) {
                let i = slot(init, last.0);
                assert(init[i] == es[i]);
                assert(es[i].0 != es[es.len() - 1].0);
            }
        }
        assert(upsert(init, last.0, last.1) =~= es);
        lemma_upsert(init, last.0, last.1);
        lemma_apply_entries(init);
        lemma_live_apply(as_map(init), last.0, last.1);
    }
}

/// After a compaction the log is made of whole records and replays to the
/// live part of the index.
pub proof fn lemma_compact_consistent(s: StoreView)
    requires
        unique_keys(s.entries),
        bounded(s.entries),
    ensures
        consistent(compact_spec(s)),
{
    lemma_replay_encode_all(s.entries, Map::empty());
    lemma_apply_entries(s.entries);
}

/// A `set` keeps a store consistent: the record that it appends replays to
/// what it did to the index.
pub proof fn lemma_set_consistent(s: StoreView, k: Seq<u8>, v: Seq<u8>)
    requires
        unique_keys(s.entries),
        k.len() <= u64::MAX,
        v.len() <= u64::MAX,
    ensures
        unique_keys(set_spec(s, k, v).entries),
        bounded(s.entries) ==> bounded(set_spec(s, k, v).entries),
        as_map(set_spec(s, k, v).entries) == as_map(s.entries).insert(k, v),
        consistent(s) ==> consistent(set_spec(s, k, v)),
{
    lemma_upsert(s.entries, k, v);
    if consistent(s) {
        lemma_replay_append(s.log, k, v, Map::empty());
        lemma_live_apply(as_map(s.entries), k, v);
    }
}

/// A `delete` leaves a store consistent.
pub proof fn lemma_delete_consistent(s: StoreView, k: Seq<u8>)
    requires
        unique_keys(s.entries),
        bounded(s.entries),
    ensures
        unique_keys(delete_spec(s, k).entries),
        bounded(delete_spec(s, k).entries),
        as_map(delete_spec(s, k).entries) == as_map(s.entries).remove(k),
        consistent(s) || has_key(s.entries, k) ==> consistent(delete_spec(s, k)),
{
    lemma_without(s.entries, k);
    if has_key(s.entries, k) {
        lemma_compact_consistent(StoreView { entries: without(s.entries, k), log: s.log });
    }
}

/// Restart after any mutations: for every sequence of `set` and `delete` on
/// an empty store, the index is the ideal map of those mutations, and the
/// replay of the log gives the live part of that map. Where no `set` wrote
/// an empty value, the replay gives the ideal map itself.
pub proof fn lemma_restart_matches_model(ops: Seq<Op>)
    requires
        ops_bounded(ops),
    ensures
        unique_keys(run(ops).entries),
        bounded(run(ops).entries),
        as_map(run(ops).entries) == model(ops),
        consistent(run(ops)),
        replay_map(run(ops).log, Map::empty()) == live(model(ops)),
        no_empty_values(ops) ==> replay_map(run(ops).log, Map::empty()) == model(ops),
    decreases ops.len(),
{
    let none = Seq::<u8>::empty();
    if ops.len() == 0 {
        assert(as_map(run(ops).entries) =~= Map::<Seq<u8>, Seq<u8>>::empty());
        assert(live(model(ops)) =~= Map::<Seq<u8>, Seq<u8>>::empty());
        assert(decode_spec(none) is None);
        assert(replay_map(none, Map::empty()) == Map::<Seq<u8>, Seq<u8>>::empty());
    } else {
        let init = ops.drop_last();
        let s = run(init);
        assert(ops.last() == ops[ops.len() - 1]);
        assert(ops_bounded(init)) by {
            assert forall|i: int| 0 <= i < init.len() implies match #[trigger] init[i] {
                Op::Write(k, v) => k.len() <= u64::MAX && v.len() <= u64::MAX,
                Op::Erase(k) => k.len() <= u64::MAX,
            } by {
                assert(init[i] == ops[i]);
            }
        }
        lemma_restart_matches_model(init);
        match ops.last() {
            Op::Write(k, v) => {
                lemma_set_consistent(s, k, v);
            },
            Op::Erase(k) => {
                lemma_delete_consistent(s, k);
            },
        }
        if no_empty_values(ops) {
            assert(no_empty_values(init)) by {
                assert forall|i: int| 0 <= i < init.len() implies match #[trigger] init[i] {
                    Op::Write(k, v) => v.len() > 0,
                    Op::Erase(k) => true,
                } by {
                    assert(init[i] == ops[i]);
                }
            }
            lemma_model_live(ops);
        }
    }
}

/// Where no `set` wrote an empty value, the ideal map holds no empty value.
pub proof fn lemma_model_live(ops: Seq<Op>)
    requires
        no_empty_values(ops),
    ensures
        live(model(ops)) == model(ops),
    decreases ops.len(),
{
    if ops.len() == 0 {
        assert(live(model(ops)) =~= model(ops));
    } else {
        let init = ops.drop_last();
        assert(ops.last() == ops[ops.len() - 1]);
        assert(no_empty_values(init)) by {
            assert forall|i: int| 0 <= i < init.len() implies match #[trigger] init[i] {
                Op::Write(k, v) => v.len() > 0,
                Op::Erase(k) => true,
            } by {
                assert(init[i] == ops[i]);
            }
        }
        lemma_model_live(init);
        assert(live(model(ops)) =~= model(ops));
    }
}

/// Writing the same key and value twice: the second write leaves the index
/// as the first left it, with one entry for the key that holds the value,
/// and the log grows by one record for each write.
pub proof fn lemma_set_twice(s: StoreView, k: Seq<u8>, v: Seq<u8>)
    requires
        unique_keys(s.entries),
        k.len() <= u64::MAX,
        v.len() <= u64::MAX,
    ensures
        set_spec(set_spec(s, k, v), k, v).entries == set_spec(s, k, v).entries,
        unique_keys(set_spec(s, k, v).entries),
        as_map(set_spec(s, k, v).entries).contains_key(k),
        as_map(set_spec(s, k, v).entries)[k] == v,
        set_spec(set_spec(s, k, v), k, v).log == s.log + encode_spec(k, v) + encode_spec(k, v),
        set_spec(set_spec(s, k, v), k, v).log.len() == s.log.len() + 2 * (16 + k.len()
            + v.len()),
{
    let s1 = set_spec(s, k, v);
    lemma_upsert(s.entries, k, v);
    lemma_decode_encode(k, v, Seq::empty());
    assert(as_map(s.entries).insert(k, v).contains_key(k));
    assert(as_map(s1.entries).contains_key(k));
    assert(has_key(s1.entries, k));
    let i = slot(s1.entries, k);
    lemma_slot(s1.entries, k, i);
    assert(s1.entries[i].1 == v);
    assert(s1.entries[i] == (k, v));
    assert(upsert(s1.entries, k, v) =~= s1.entries);
}

/// Compacting twice gives the bytes that compacting once gives, and the
/// same index.
pub proof fn lemma_compact_twice(s: StoreView)
    ensures
        compact_spec(compact_spec(s)) == compact_spec(s),
{
}

} // verus!
