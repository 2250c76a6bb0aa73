//! The in-memory index: the current value of every live key.
//!
//! The index keeps its entries in the order in which their keys first came,
//! so that walking it twice gives the same order. No key occurs twice.

use vstd::prelude::*;
use crate::codec::{bytes_eq, copy_bytes, Record};

verus! {

/// Keys with their values, as plain byte sequences.
pub type Pairs = Seq<(Seq<u8>, Seq<u8>)>;

/// Whether some entry of `es` has the key `k`.
pub open spec fn has_key(es: Pairs, k: Seq<u8>) -> bool {
    exists|i: int| 0 <= i < es.len() && (#[trigger] es[i]).0 == k
}

/// The place of an entry of `es` with the key `k`.
pub open spec fn slot(es: Pairs, k: Seq<u8>) -> int {
    choose|i: int| 0 <= i < es.len() && (#[trigger] es[i]).0 == k
}

/// No key occurs twice in `es`.
pub open spec fn unique_keys(es: Pairs) -> bool {
    forall|i: int, j: int|
        0 <= i < j < es.len() ==> (#[trigger] es[i]).0 != (#[trigger] es[j]).0
}

/// Every key and value of `es` has a length that a `u64` holds.
pub open spec fn bounded(es: Pairs) -> bool {
    forall|i: int|
        0 <= i < es.len() ==> (#[trigger] es[i]).0.len() <= u64::MAX && es[i].1.len() <= u64::MAX
}

/// `es` with `k` set to `v`: in place where `k` is there, at the end where
/// it is not.
pub open spec fn upsert(es: Pairs, k: Seq<u8>, v: Seq<u8>) -> Pairs {
    if has_key(es, k) {
        es.update(slot(es, k), (k, v))
    } else {
        es.push((k, v))
    }
}

/// `es` without the entry for `k`; the others keep their order.
pub open spec fn without(es: Pairs, k: Seq<u8>) -> Pairs {
    if has_key(es, k) {
        es.remove(slot(es, k))
    } else {
        es
    }
}

/// The mapping from key to value that `es` stands for.
pub open spec fn as_map(es: Pairs) -> Map<Seq<u8>, Seq<u8>> {
    Map::new(|k: Seq<u8>| has_key(es, k), |k: Seq<u8>| es[slot(es, k)].1)
}

/// The keys of `es`, in order.
pub open spec fn keys_of(es: Pairs) -> Seq<Seq<u8>> {
    Seq::new(es.len(), |i: int| es[i].0)
}

/// The byte sequences that the vectors of `vs` hold.
pub open spec fn views(vs: Seq<Vec<u8>>) -> Seq<Seq<u8>> {
    Seq::new(vs.len(), |i: int| vs[i]@)
}

/// Where keys are unique, the entry that holds `k` is the only one.
pub proof fn lemma_slot(es: Pairs, k: Seq<u8>, i: int)
    requires
        unique_keys(es),
        0 <= i < es.len(),
        es[i].0 == k,
    ensures
        has_key(es, k),
        slot(es, k) == i,
        as_map(es).contains_key(k),
        as_map(es)[k] == es[i].1,
{
    let j = slot(es, k);
    assert(es[j].0 == k);
    if j < i {
        assert(es[j].0 != es[i].0);
    } else if i < j {
        assert(es[i].0 != es[j].0);
    }
}

/// Setting a key keeps the keys unique and is an insertion into the mapping.
pub proof fn lemma_upsert(es: Pairs, k: Seq<u8>, v: Seq<u8>)
    requires
        unique_keys(es),
    ensures
        unique_keys(upsert(es, k, v)),
        as_map(upsert(es, k, v)) == as_map(es).insert(k, v),
        bounded(es) && k.len() <= u64::MAX && v.len() <= u64::MAX ==> bounded(upsert(es, k, v)),
{
    let es2 = upsert(es, k, v);
    let at: int = if has_key(es, k) { slot(es, k) } else { es.len() as int };
    assert(es2.len() > at && es2[at] == (k, v));
    assert forall|i: int| 0 <= i < es2.len() && i != at implies es2[i] == es[i] && es[i].0 != k by {
        if has_key(es, k) {
            if i < at {
                assert(es[i].0 != es[at].0);
            } else {
                assert(es[at].0 != es[i].0);
            }
        }
    }
    assert forall|i: int, j: int| 0 <= i < j < es2.len() implies (#[trigger] es2[i]).0 != (
    #[trigger] es2[j]).0 by {
        if i != at && j != at {
            assert(es[i].0 != es[j].0);
        }
    }
    lemma_slot(es2, k, at);
    assert forall|q: Seq<u8>| as_map(es2).contains_key(q) <==> as_map(es).insert(
        k,
        v,
    ).contains_key(q) by {
        if has_key(es2, q) && q != k {
            let i = slot(es2, q);
            assert(es[i].0 == q);
        }
        if has_key(es, q) && q != k {
            let i = slot(es, q);
            assert(es2[i].0 == q);
        }
    }
    assert forall|q: Seq<u8>| as_map(es2).contains_key(q) implies as_map(es2)[q] == as_map(
        es,
    ).insert(k, v)[q] by {
        if q != k {
            let i = slot(es2, q);
            assert(es[i].0 == q);
            lemma_slot(es, q, i);
        }
    }
    assert(as_map(es2) =~= as_map(es).insert(k, v));
}

/// Taking a key out keeps the keys unique and is a removal from the mapping.
pub proof fn lemma_without(es: Pairs, k: Seq<u8>)
    requires
        unique_keys(es),
    ensures
        unique_keys(without(es, k)),
        as_map(without(es, k)) == as_map(es).remove(k),
        bounded(es) ==> bounded(without(es, k)),
{
    let es2 = without(es, k);
    if has_key(es, k) {
        let at = slot(es, k);
        assert forall|i: int| 0 <= i < es2.len() implies (#[trigger] es2[i]) == es[if i < at {
            i
        } else {
            i + 1
        }] && es2[i].0 != k by {
            if i < at {
                assert(es[i].0 != es[at].0);
            } else {
                assert(es[at].0 != es[i + 1].0);
            }
        }
        assert forall|i: int, j: int| 0 <= i < j < es2.len() implies (#[trigger] es2[i]).0 != (
        #[trigger] es2[j]).0 by {
            let a = if i < at { i } else { i + 1 };
            let b = if j < at { j } else { j + 1 };
            assert(es[a].0 != es[b].0);
        }
        assert forall|q: Seq<u8>| as_map(es2).contains_key(q) <==> as_map(es).remove(
            k,
        ).contains_key(q) by {
            if has_key(es2, q) {
                let i = slot(es2, q);
                let a = if i < at { i } else { i + 1 };
                assert(es[a].0 == q);
            }
            if has_key(es, q) && q != k {
                let a = slot(es, q);
                let i = if a < at { a } else { a - 1 };
                assert(es2[i].0 == q);
            }
        }
        assert forall|q: Seq<u8>| as_map(es2).contains_key(q) implies as_map(es2)[q] == as_map(
            es,
        ).remove(k)[q] by {
            let i = slot(es2, q);
            let a = if i < at { i } else { i + 1 };
            assert(es[a].0 == q);
            lemma_slot(es, q, a);
        }
        assert(as_map(es2) =~= as_map(es).remove(k));
    } else {
        assert(as_map(es2) =~= as_map(es).remove(k));
    }
}

/// The index of a store.
pub struct Index {
    entries: Vec<Record>,
}

impl Index {
    /// The entries, in order, as pairs of byte sequences.
    pub closed spec fn view(&self) -> Pairs {
        Seq::new(self.entries@.len(), |i: int| self.entries@[i]@)
    }

    /// The invariant of the index: no key occurs twice, and every length
    /// fits the record format.
    pub open spec fn wf(&self) -> bool {
        unique_keys(self@) && bounded(self@)
    }

    /// The mapping that the index stands for.
    pub open spec fn as_map(&self) -> Map<Seq<u8>, Seq<u8>> {
        as_map(self@)
    }

    /// An index without entries.
    pub fn new() -> (idx: Index)
        ensures
            idx.wf(),
            idx@ == Seq::<(Seq<u8>, Seq<u8>)>::empty(),
    {
        let idx = Index { entries: Vec::new() };
        assert(idx@ =~= Seq::<(Seq<u8>, Seq<u8>)>::empty());
        idx
    }

    /// The number of keys.
    pub fn len(&self) -> (n: usize)
        ensures
            n == self@.len(),
    {
        self.entries.len()
    }

    /// The entry at place `i`.
    pub fn entry(&self, i: usize) -> (rec: &Record)
        requires
            i < self@.len(),
        ensures
            rec@ == self@[i as int],
    {
        &self.entries[i]
    }

    /// The place of `key`, if the index holds it.
    pub fn find(&self, key: &[u8]) -> (r: Option<usize>)
        requires
            self.wf(),
        ensures
            r is Some <==> has_key(self@, key@),
            r matches Some(i) ==> i < self@.len() && i == slot(self@, key@) && self@[i as int].0
                == key@,
    {
        let n: usize = self.entries.len();
        let mut i: usize = 0;
        while i < n
            invariant
                n == self@.len(),
                n == self.entries@.len(),
                i <= n,
                self.wf(),
                forall|j: int| 0 <= j < i ==> (#[trigger] self@[j]).0 != key@,
            decreases n - i,
        {
            if bytes_eq(self.entries[i].key.as_slice(), key) {
                proof {
                    assert(self@[i as int].0 == key@);
                    lemma_slot(self@, key@, i as int);
                }
                return Some(i);
            }
            i += 1;
        }
        None
    }

    /// The value of `key`, or `None` where the index does not hold the key.
    pub fn get(&self, key: &[u8]) -> (r: Option<&Vec<u8>>)
        requires
            self.wf(),
        ensures
            r is Some <==> self.as_map().contains_key(key@),
            r matches Some(v) ==> v@ == self.as_map()[key@],
    {
        match self.find(key) {
            Some(i) => {
                proof {
                    lemma_slot(self@, key@, i as int);
                }
                Some(&self.entries[i].value)
            },
            None => None,
        }
    }

    /// Sets `key` to `value`: an entry with that key gets the value and
    /// keeps its place, a new key goes to the end.
    pub fn insert(&mut self, key: Vec<u8>, value: Vec<u8>)
        requires
            old(self).wf(),
        ensures
            final(self).wf(),
            final(self)@ == upsert(old(self)@, key@, value@),
            final(self).as_map() == old(self).as_map().insert(key@, value@),
    {
        proof {
            lemma_upsert(self@, key@, value@);
            assert(key@.len() == key.len() && value@.len() == value.len());
            assert(usize::MAX <= u64::MAX);
        }
        match self.find(key.as_slice()) {
            Some(i) => {
                self.entries.set(i, Record { key, value });
                assert(self@ =~= upsert(old(self)@, key@, value@));
            },
            None => {
                self.entries.push(Record { key, value });
                assert(self@ =~= upsert(old(self)@, key@, value@));
            },
        }
    }

    /// Takes `key` out. Returns whether the index held it.
    pub fn remove(&mut self, key: &[u8]) -> (existed: bool)
        requires
            old(self).wf(),
        ensures
            final(self).wf(),
            existed == old(self).as_map().contains_key(key@),
            final(self)@ == without(old(self)@, key@),
            final(self).as_map() == old(self).as_map().remove(key@),
    {
        proof {
            lemma_without(self@, key@);
        }
        match self.find(key) {
            Some(i) => {
                let _ = self.entries.remove(i);
                assert(self@ =~= without(old(self)@, key@));
                true
            },
            None => false,
        }
    }

    /// The keys, in the order of the entries.
    pub fn keys(&self) -> (ks: Vec<Vec<u8>>)
        ensures
            views(ks@) == keys_of(self@),
    {
        let n: usize = self.entries.len();
        let mut ks: Vec<Vec<u8>> = Vec::new();
        let mut i: usize = 0;
        while i < n
            invariant
                n == self.entries@.len(),
                i <= n,
                ks@.len() == i,
                forall|j: int| 0 <= j < i ==> (#[trigger] ks@[j])@ == self.entries@[j].key@,
            decreases n - i,
        {
            ks.push(copy_bytes(self.entries[i].key.as_slice()));
            i += 1;
        }
        assert(views(ks@) =~= keys_of(self@));
        ks
    }

    /// The values at the places that `flags` marks, in the order of the
    /// entries. A place beyond the end of `flags` is not marked.
    pub fn select_values(&self, flags: &[bool]) -> (vs: Vec<Vec<u8>>)
        ensures
            views(vs@) == selected(self@, flags@),
    {
        let n: usize = self.entries.len();
        let mut vs: Vec<Vec<u8>> = Vec::new();
        let mut i: usize = 0;
        assert(self@.take(0) =~= Seq::<(Seq<u8>, Seq<u8>)>::empty());
        assert(views(vs@) =~= selected(self@.take(0), flags@));
        while i < n
            invariant
                n == self.entries@.len(),
                n == self@.len(),
                i <= n,
                views(vs@) == selected(self@.take(i as int), flags@),
            decreases n - i,
        {
            let ghost before = views(vs@);
            proof {
                assert(self@.take(i + 1).drop_last() =~= self@.take(i as int));
                assert(self@.take(i + 1).last() == self@[i as int]);
            }
            if i < flags.len() && flags[i] {
                vs.push(copy_bytes(self.entries[i].value.as_slice()));
                assert(views(vs@) =~= before.push(self@[i as int].1));
            }
            i += 1;
        }
        assert(self@.take(n as int) =~= self@);
        vs
    }
}

/// The values of the entries of `es` whose place `flags` marks, in order.
pub open spec fn selected(es: Pairs, flags: Seq<bool>) -> Seq<Seq<u8>>
    decreases es.len(),
{
    if es.len() == 0 {
        Seq::empty()
    } else {
        let rest = selected(es.drop_last(), flags);
        if es.len() <= flags.len() && flags[es.len() - 1] {
            rest.push(es.last().1)
        } else {
            rest
        }
    }
}

} // verus!
