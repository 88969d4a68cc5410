//! The container: a flat, growable table of single-occupancy slots whose
//! placement is decided by a caller-supplied index function.

use vstd::prelude::*;
use crate::laws::law_insert_effects;
use crate::layout::{
    Entry, clashes, entries, entry_of, inserted, lemma_clash_slot, lemma_reduce_multiple,
    lemma_spread_keeps, lemma_spread_same, lemma_spread_source, lemma_spread_twice, lookup, placed,
    reduced, settled_len, spread,
};
use crate::iter::{IntoIter, Iter};

verus! {

/// The number of slots a table made by [`FnMap::new`] may grow to.
pub const DEFAULT_MAX_SLOTS: usize = 1_048_576;

/// Why an insertion was refused.
#[derive(Debug, Clone, Copy, PartialEq, Eq, Structural)]
pub enum InsertError {
    /// Doubling the table up to its permitted size never separates the new
    /// index from a stored one.
    ResizeLimitExceeded,
}

/// The index function may be called on every key and yields one result per key.
pub open spec fn deterministic<K, F: Fn(&K) -> usize>(f: F) -> bool {
    &&& forall|k: K| #[trigger] f.requires((&k,))
    &&& forall|k: K, r1: usize, r2: usize|
        #[trigger] f.ensures((&k,), r1) && #[trigger] f.ensures((&k,), r2) ==> r1 == r2
}

/// The index that `f` computes for `key`.
pub open spec fn computed<K, F: Fn(&K) -> usize>(f: F, key: K) -> usize {
    choose|r: usize| f.ensures((&key,), r)
}

/// Every stored entry carries the index that `f` computes for its key.
pub open spec fn keyed<K, V, F: Fn(&K) -> usize>(slots: Seq<Option<Entry<K, V>>>, f: F) -> bool {
    forall|p: int|
        0 <= p < slots.len() && (#[trigger] slots[p]) is Some ==> slots[p].unwrap().index
            == computed(f, slots[p].unwrap().key)
}

/// An associative container that finds a key's slot through a caller-supplied
/// index function instead of a built-in hash.
///
/// The index function must be pure: it may be called on every key and
/// always yields the same index for the same key. Two keys with the same
/// computed index are one logical entry. A lookup goes to the slot that the
/// key's index reduces to and returns what it finds there, so a key that was
/// never inserted can find the value of a stored key that shares its slot.
/// Iteration follows slot order, which is not insertion order and changes
/// when the table grows. Nothing is ever removed, and the table never
/// shrinks.
pub struct FnMap<K, V, F: Fn(&K) -> usize> {
    index_fn: F,
    buckets: Vec<Option<Entry<K, V>>>,
    max_slots: usize,
}

impl<K, V, F: Fn(&K) -> usize> View for FnMap<K, V, F> {
    type V = Map<usize, Entry<K, V>>;

    /// The container as a map from each stored computed index to its entry.
    open spec fn view(&self) -> Map<usize, Entry<K, V>> {
        entries(self.slots())
    }
}

impl<K, V, F: Fn(&K) -> usize> FnMap<K, V, F> {
    /// The index function, fixed at construction.
    pub closed spec fn indexer(&self) -> F {
        self.index_fn
    }

    /// The slot table.
    pub closed spec fn slots(&self) -> Seq<Option<Entry<K, V>>> {
        self.buckets@
    }

    /// The largest number of slots the table may have.
    pub closed spec fn limit(&self) -> nat {
        self.max_slots as nat
    }

    /// The computed index of `key`.
    pub open spec fn index_of(&self, key: K) -> usize {
        computed(self.indexer(), key)
    }

    /// The index function, run on `key`, can return what `index_of` names:
    /// a caller learns `index_of(key)` from what the index function promises.
    pub open spec fn index_known(&self, key: K) -> bool {
        self.indexer().ensures((&key,), self.index_of(key))
    }

    /// An entry is stored under the computed index of `key`.
    pub open spec fn holds(&self, key: K) -> bool {
        entry_of(self.slots(), self.index_of(key)) is Some
    }

    /// What [`FnMap::get`] finds for `key`.
    pub open spec fn get_spec(&self, key: K) -> Option<V> {
        lookup(self.slots(), self.index_of(key))
    }

    /// The container's invariant: a deterministic index function, every entry
    /// at the position its index reduces to and stored under its key's index,
    /// and a table within its permitted size.
    pub open spec fn wf(&self) -> bool {
        &&& deterministic(self.indexer())
        &&& placed(self.slots())
        &&& keyed(self.slots(), self.indexer())
        &&& self.slots().len() <= self.limit()
    }

    /// An empty container that may grow to [`DEFAULT_MAX_SLOTS`] slots.
    pub fn new(index_fn: F) -> (m: Self)
        requires
            deterministic(index_fn),
        ensures
            m.wf(),
            m.indexer() == index_fn,
            m.slots() == Seq::<Option<Entry<K, V>>>::empty(),
            m@ == Map::<usize, Entry<K, V>>::empty(),
            m.limit() == DEFAULT_MAX_SLOTS,
            forall|key: K| m.get_spec(key) is None,
    {
        FnMap { index_fn, buckets: Vec::new(), max_slots: DEFAULT_MAX_SLOTS }
    }

    /// An empty container that may grow to `max_slots` slots.
    pub fn with_max_slots(index_fn: F, max_slots: usize) -> (m: Self)
        requires
            deterministic(index_fn),
        ensures
            m.wf(),
            m.indexer() == index_fn,
            m.slots() == Seq::<Option<Entry<K, V>>>::empty(),
            m@ == Map::<usize, Entry<K, V>>::empty(),
            m.limit() == max_slots,
            forall|key: K| m.get_spec(key) is None,
    {
        FnMap { index_fn, buckets: Vec::new(), max_slots }
    }

    /// Runs the index function on `key`.
    pub fn key_index(&self, key: &K) -> (idx: usize)
        requires
            self.wf(),
        ensures
            idx == self.index_of(*key),
            self.index_known(*key),
    {
        (self.index_fn)(key)
    }

    /// The value in the slot that `key` reduces to, or `None` where the table
    /// is empty or that slot is.
    pub fn get(&self, key: &K) -> (r: Option<&V>)
        requires
            self.wf(),
        ensures
            match r {
                Some(v) => self.get_spec(*key) == Some(*v),
                None => self.get_spec(*key) is None,
            },
            self.slots().len() > 0 ==> self.index_known(*key),
    {
        let len: usize = self.buckets.len();
        if len == 0 {
            return None;
        }
        let pos: usize = self.key_index(key) % len;
        match &self.buckets[pos] {
            Some(e) => Some(&e.value),
            None => None,
        }
    }

    /// Doubles the table and moves every entry to its new reduced position.
    fn resize(&mut self)
        requires
            old(self).wf(),
            0 < old(self).slots().len(),
            2 * old(self).slots().len() <= old(self).limit(),
        ensures
            final(self).wf(),
            final(self).indexer() == old(self).indexer(),
            final(self).limit() == old(self).limit(),
            final(self).slots() == spread(old(self).slots(), 2 * old(self).slots().len()),
    {
        let len: usize = self.buckets.len();
        let new_len: usize = len * 2;
        let mut moved: Vec<Option<Entry<K, V>>> = Vec::with_capacity(new_len);
        for i in 0..new_len
            invariant
                moved@.len() == i,
                forall|j: int| 0 <= j < i ==> moved@[j] is None,
        {
            moved.push(None);
        }
        let ghost prev = self.buckets@;
        core::mem::swap(&mut self.buckets, &mut moved);
        for element in it: moved
            invariant
                placed(prev),
                prev.len() == len,
                0 < len,
                new_len == 2 * len,
                it.seq() == prev,
                self.buckets@.len() == new_len,
                self.index_fn == old(self).index_fn,
                self.max_slots == old(self).max_slots,
                forall|p: int|
                    0 <= p < new_len ==> #[trigger] self.buckets@[p] == (if p % (len as int)
                        < it.index() {
                        spread(prev, new_len as nat)[p]
                    } else {
                        None
                    }),
        {
            let ghost q = it.index() as int;
            if let Some(e) = element {
                let pos: usize = e.index % new_len;
                proof {
                    lemma_reduce_multiple(e.index as int, len as int, 2);
                    assert(reduced(e.index, len as nat) == q);
                    assert(pos as int % (len as int) == q);
                }
                self.buckets[pos] = Some(e);
            }
            assert forall|p: int| 0 <= p < new_len implies #[trigger] self.buckets@[p] == (if p % (
            len as int) < q + 1 {
                spread(prev, new_len as nat)[p]
            } else {
                None
            }) by {
                lemma_spread_source(prev, new_len as nat, p);
            }
        }
        proof {
            assert(self.buckets@ =~= spread(prev, new_len as nat));
            lemma_spread_keeps(prev, new_len as nat, 2);
            assert forall|p: int| 0 <= p < new_len && (#[trigger] self.buckets@[p]) is Some implies
                self.buckets@[p].unwrap().index == computed(
                self.index_fn,
                self.buckets@[p].unwrap().key,
            ) by {
                lemma_spread_source(prev, new_len as nat, p);
                assert(prev[p % (len as int)] is Some);
            }
        }
    }

    /// Whether doubling within the permitted size separates `idx` from every
    /// stored index.
    fn settles(&self, idx: usize) -> (ok: bool)
        requires
            self.wf(),
            0 < self.slots().len(),
        ensures
            ok == settled_len(self.slots(), idx, self.slots().len(), self.limit()) is Some,
    {
        let len: usize = self.buckets.len();
        let home: usize = idx % len;
        match &self.buckets[home] {
            None => {
                proof {
                    lemma_clash_slot(self.slots(), idx, len as nat, 1);
                }
                true
            },
            Some(e) => {
                let other: usize = e.index;
                if other == idx {
                    proof {
                        lemma_clash_slot(self.slots(), idx, len as nat, 1);
                    }
                    return true;
                }
                let mut n: usize = len;
                let ghost mut k: nat = 1;
                while other % n == idx % n
                    invariant
                        self.wf(),
                        len == self.slots().len(),
                        0 < len <= n <= self.max_slots,
                        k >= 1,
                        n == len * k,
                        home == reduced(idx, len as nat),
                        self.slots()[home as int] is Some,
                        self.slots()[home as int].unwrap().index == other,
                        other != idx,
                        settled_len(self.slots(), idx, n as nat, self.limit()) == settled_len(
                            self.slots(),
                            idx,
                            len as nat,
                            self.limit(),
                        ),
                    decreases self.max_slots - n,
                {
                    proof {
                        lemma_clash_slot(self.slots(), idx, n as nat, k);
                        assert(clashes(self.slots(), idx, n as nat));
                    }
                    if n > self.max_slots / 2 {
                        assert(settled_len(self.slots(), idx, (2 * n) as nat, self.limit()) is None);
                        return false;
                    }
                    proof {
                        assert(2 * n == len * (2 * k)) by (nonlinear_arith)
                            requires
                                n == len * k,
                        ;
                        k = 2 * k;
                    }
                    n = n * 2;
                }
                proof {
                    lemma_clash_slot(self.slots(), idx, n as nat, k);
                }
                true
            },
        }
    }

    /// Stores `value` under `key`.
    ///
    /// An entry with the same computed index is replaced, key and value, in
    /// place. Where the slot is taken by another index the table doubles
    /// until the two part. If no permitted size parts them the insertion is
    /// refused and the container is left as it was.
    pub fn insert(&mut self, key: K, value: V) -> (r: Result<(), InsertError>)
        requires
            old(self).wf(),
        ensures
            final(self).wf(),
            final(self).indexer() == old(self).indexer(),
            final(self).limit() == old(self).limit(),
            old(self).index_known(key),
            match inserted(
                old(self).slots(),
                (Entry { index: old(self).index_of(key), key, value }),
                old(self).limit(),
            ) {
                Some(t) => r is Ok && final(self).slots() == t,
                None => r == Err::<(), InsertError>(InsertError::ResizeLimitExceeded)
                    && final(self).slots() == old(self).slots(),
            },
            match r {
                Ok(_) => final(self)@ == old(self)@.insert(
                    old(self).index_of(key),
                    (Entry { index: old(self).index_of(key), key, value }),
                ),
                Err(_) => final(self)@ == old(self)@,
            },
            old(self).holds(key) ==> r is Ok && final(self).slots().len() == old(self).slots().len(),
            r is Ok ==> final(self).holds(key) && final(self).get_spec(key) == Some(value),
            r is Ok ==> forall|k: K|
                old(self).index_of(k) != old(self).index_of(key) ==> #[trigger] final(self).holds(k)
                    == old(self).holds(k),
            r is Ok ==> forall|k: K|
                old(self).index_of(k) != old(self).index_of(key) && old(self).holds(k)
                    ==> #[trigger] final(self).get_spec(k) == old(self).get_spec(k),
    {
        let idx: usize = self.key_index(&key);
        if self.buckets.len() == 0 {
            if self.max_slots == 0 {
                return Err(InsertError::ResizeLimitExceeded);
            }
            self.buckets.push(Some(Entry { index: idx, key, value }));
            proof {
                assert(self.buckets@ =~= seq![Some(Entry { index: idx, key, value })]);
                assert(reduced(idx, 1) == 0);
                law_insert_effects(*old(self), *self, key, value);
            }
            return Ok(());
        }
        if !self.settles(idx) {
            proof {
                lemma_clash_slot(self.slots(), idx, self.slots().len(), 1);
            }
            return Err(InsertError::ResizeLimitExceeded);
        }
        let ghost prev = self.buckets@;
        let ghost mut k: nat = 1;
        proof {
            lemma_spread_same(prev);
        }
        loop
            invariant
                self.wf(),
                old(self).wf(),
                prev == old(self).slots(),
                self.index_fn == old(self).index_fn,
                self.max_slots == old(self).max_slots,
                idx == old(self).index_of(key),
                old(self).index_known(key),
                0 < prev.len(),
                k >= 1,
                self.buckets@.len() == prev.len() * k,
                self.buckets@ == spread(prev, self.buckets@.len()),
                settled_len(prev, idx, self.buckets@.len(), self.limit()) == settled_len(
                    prev,
                    idx,
                    prev.len(),
                    self.limit(),
                ),
                settled_len(prev, idx, prev.len(), self.limit()) is Some,
            decreases self.max_slots - self.buckets.len(),
        {
            let len: usize = self.buckets.len();
            let pos: usize = idx % len;
            let taken: bool = match &self.buckets[pos] {
                Some(e) => e.index != idx,
                None => false,
            };
            proof {
                lemma_clash_slot(prev, idx, len as nat, k);
                lemma_reduce_multiple(idx as int, prev.len() as int, k as int);
                lemma_spread_source(prev, len as nat, pos as int);
                assert(taken == clashes(prev, idx, len as nat));
            }
            if !taken {
                self.buckets[pos] = Some(Entry { index: idx, key, value });
                proof {
                    lemma_spread_keeps(prev, len as nat, k);
                    law_insert_effects(*old(self), *self, key, value);
                }
                return Ok(());
            }
            proof {
                assert(settled_len(prev, idx, (2 * len) as nat, self.limit()) is Some);
                assert(2 * len == prev.len() * (2 * k)) by (nonlinear_arith)
                    requires
                        len == prev.len() * k,
                ;
                lemma_spread_twice(prev, len as nat, k, (2 * len) as nat, 2);
            }
            self.resize();
            proof {
                k = 2 * k;
            }
        }
    }

    /// Exclusive access to the value in the slot that `key` reduces to, or
    /// `None` where the table is empty or that slot is. What the caller
    /// writes through the reference becomes the slot's value.
    pub fn get_mut(&mut self, key: &K) -> (r: Option<&mut V>)
        requires
            old(self).wf(),
        ensures
            final(self).wf(),
            final(self).indexer() == old(self).indexer(),
            final(self).limit() == old(self).limit(),
            match r {
                Some(v) => {
                    let pos = reduced(old(self).index_of(*key), old(self).slots().len());
                    &&& old(self).get_spec(*key) == Some(*v)
                    &&& final(self).slots() == old(self).slots().update(
                        pos,
                        Some(
                            Entry {
                                index: old(self).slots()[pos].unwrap().index,
                                key: old(self).slots()[pos].unwrap().key,
                                value: *final(v),
                            },
                        ),
                    )
                },
                None => old(self).get_spec(*key) is None && final(self).slots() == old(
                    self).slots(),
            },
            old(self).slots().len() > 0 ==> old(self).index_known(*key),
    {
        let len: usize = self.buckets.len();
        if len == 0 {
            return None;
        }
        let pos: usize = self.key_index(key) % len;
        match &mut self.buckets[pos] {
            Some(e) => Some(&mut e.value),
            None => None,
        }
    }

    /// The value stored for a key that is known to be present.
    pub fn index(&self, key: K) -> (v: &V)
        requires
            self.wf(),
            self.get_spec(key) is Some,
        ensures
            self.get_spec(key) == Some(*v),
            self.index_known(key),
    {
        self.get(&key).unwrap()
    }

    /// Exclusive access to the value stored for a key that is known to be
    /// present.
    pub fn index_mut(&mut self, key: K) -> (v: &mut V)
        requires
            old(self).wf(),
            old(self).get_spec(key) is Some,
        ensures
            final(self).wf(),
            final(self).indexer() == old(self).indexer(),
            final(self).limit() == old(self).limit(),
            old(self).get_spec(key) == Some(*v),
            old(self).index_known(key),
            ({
                let pos = reduced(old(self).index_of(key), old(self).slots().len());
                final(self).slots() == old(self).slots().update(
                    pos,
                    Some(
                        Entry {
                            index: old(self).slots()[pos].unwrap().index,
                            key: old(self).slots()[pos].unwrap().key,
                            value: *final(v),
                        },
                    ),
                )
            }),
    {
        self.get_mut(&key).unwrap()
    }

    /// A walk over the keys and values in slot order.
    pub fn iter(&self) -> (it: Iter<'_, K, V>)
        ensures
            it.wf(),
            it.slots() == self.slots(),
            it.pos() == 0,
    {
        Iter::over(self.buckets.as_slice())
    }

    /// Gives the table up to a walk that hands out the keys and values
    /// themselves, in slot order.
    pub fn into_iter(self) -> (it: IntoIter<K, V>)
        ensures
            it.wf(),
            it.slots() == self.slots(),
            it.pos() == 0,
    {
        IntoIter::over(self.buckets)
    }
}

} // verus!
