//! Walking the table in slot order.
//!
//! Both walks visit the slots from the first to the last and hand out what
//! the occupied ones hold. The order is the order of the slots: it is not the
//! order of insertion, and it changes whenever the table grows.

use vstd::prelude::*;
use crate::layout::{Entry, occupied, placed};

verus! {

/// A borrowing walk over the occupied slots, in slot order.
pub struct Iter<'a, K, V> {
    buckets: &'a [Option<Entry<K, V>>],
    pos: usize,
}

impl<'a, K, V> Iter<'a, K, V> {
    /// The slots walked over.
    pub closed spec fn slots(&self) -> Seq<Option<Entry<K, V>>> {
        self.buckets@
    }

    /// The position of the next slot to look at.
    pub closed spec fn pos(&self) -> nat {
        self.pos as nat
    }

    /// The walk has not run past the end of the table.
    pub open spec fn wf(&self) -> bool {
        self.pos() <= self.slots().len()
    }

    /// The entries still to be handed out, in order.
    pub open spec fn remaining(&self) -> Seq<Entry<K, V>> {
        occupied(self.slots(), self.pos())
    }

    pub(crate) fn over(buckets: &'a [Option<Entry<K, V>>]) -> (it: Self)
        ensures
            it.wf(),
            it.slots() == buckets@,
            it.pos() == 0,
    {
        Iter { buckets, pos: 0 }
    }

    /// Hands out the key and value of the next occupied slot, skipping the
    /// empty slots before it; `None` once no occupied slot is left.
    pub fn next(&mut self) -> (r: Option<(&'a K, &'a V)>)
        requires
            old(self).wf(),
        ensures
            final(self).wf(),
            final(self).slots() == old(self).slots(),
            match r {
                Some((k, v)) => {
                    let q = final(self).pos() - 1;
                    &&& old(self).pos() <= q < old(self).slots().len()
                    &&& forall|j: int| old(self).pos() <= j < q ==> old(self).slots()[j] is None
                    &&& old(self).slots()[q] is Some
                    &&& old(self).slots()[q].unwrap().key == *k
                    &&& old(self).slots()[q].unwrap().value == *v
                    &&& old(self).remaining().len() > 0
                    &&& old(self).remaining()[0] == old(self).slots()[q].unwrap()
                    &&& final(self).remaining() == old(self).remaining().drop_first()
                },
                None => {
                    &&& final(self).pos() == old(self).slots().len()
                    &&& forall|j: int|
                        old(self).pos() <= j < old(self).slots().len() ==> old(self).slots()[j] is None
                    &&& old(self).remaining().len() == 0
                },
            },
    {
        let buckets: &'a [Option<Entry<K, V>>] = self.buckets;
        while self.pos < buckets.len()
            invariant
                buckets@ == old(self).slots(),
                self.slots() == old(self).slots(),
                old(self).pos() <= self.pos() <= buckets@.len(),
                forall|j: int| old(self).pos() <= j < self.pos() ==> buckets@[j] is None,
                occupied(buckets@, self.pos()) == occupied(buckets@, old(self).pos()),
            decreases buckets@.len() - self.pos(),
        {
            match &buckets[self.pos] {
                Some(e) => {
                    self.pos += 1;
                    proof {
                        assert(old(self).remaining().drop_first() =~= self.remaining());
                    }
                    return Some((&e.key, &e.value));
                },
                None => {
                    self.pos += 1;
                },
            }
        }
        None
    }

    /// Bounds on how many entries are still to come: none for certain, and
    /// at most one per slot not yet looked at.
    pub fn size_hint(&self) -> (r: (usize, Option<usize>))
        requires
            self.wf(),
        ensures
            r == (0usize, Some((self.slots().len() - self.pos()) as usize)),
            self.remaining().len() <= self.slots().len() - self.pos(),
    {
        proof {
            lemma_occupied_len(self.slots(), self.pos());
        }
        let remaining: usize = self.buckets.len() - self.pos;
        (0, Some(remaining))
    }
}

/// A consuming walk over the occupied slots, in slot order.
pub struct IntoIter<K, V> {
    buckets: Vec<Option<Entry<K, V>>>,
    pos: usize,
}

impl<K, V> IntoIter<K, V> {
    /// The slots walked over; a slot is emptied when its entry is handed out.
    pub closed spec fn slots(&self) -> Seq<Option<Entry<K, V>>> {
        self.buckets@
    }

    /// The position of the next slot to look at.
    pub closed spec fn pos(&self) -> nat {
        self.pos as nat
    }

    /// The walk has not run past the end of the table.
    pub open spec fn wf(&self) -> bool {
        self.pos() <= self.slots().len()
    }

    /// The entries still to be handed out, in order.
    pub open spec fn remaining(&self) -> Seq<Entry<K, V>> {
        occupied(self.slots(), self.pos())
    }

    pub(crate) fn over(buckets: Vec<Option<Entry<K, V>>>) -> (it: Self)
        ensures
            it.wf(),
            it.slots() == buckets@,
            it.pos() == 0,
    {
        IntoIter { buckets, pos: 0 }
    }

    /// Takes the key and value out of the next occupied slot, skipping the
    /// empty slots before it; `None` once no occupied slot is left.
    pub fn next(&mut self) -> (r: Option<(K, V)>)
        requires
            old(self).wf(),
        ensures
            final(self).wf(),
            placed(old(self).slots()) ==> placed(final(self).slots()),
            match r {
                Some((k, v)) => {
                    let q = final(self).pos() - 1;
                    &&& old(self).pos() <= q < old(self).slots().len()
                    &&& forall|j: int| old(self).pos() <= j < q ==> old(self).slots()[j] is None
                    &&& old(self).slots()[q] is Some
                    &&& old(self).slots()[q].unwrap().key == k
                    &&& old(self).slots()[q].unwrap().value == v
                    &&& final(self).slots() == old(self).slots().update(q, None)
                    &&& old(self).remaining().len() > 0
                    &&& old(self).remaining()[0] == old(self).slots()[q].unwrap()
                    &&& final(self).remaining() == old(self).remaining().drop_first()
                },
                None => {
                    &&& final(self).pos() == old(self).slots().len()
                    &&& final(self).slots() == old(self).slots()
                    &&& forall|j: int|
                        old(self).pos() <= j < old(self).slots().len() ==> old(self).slots()[j] is None
                    &&& old(self).remaining().len() == 0
                },
            },
    {
        while self.pos < self.buckets.len()
            invariant
                self.slots() == old(self).slots(),
                old(self).pos() <= self.pos() <= self.slots().len(),
                forall|j: int| old(self).pos() <= j < self.pos() ==> self.slots()[j] is None,
                occupied(self.slots(), self.pos()) == occupied(self.slots(), old(self).pos()),
            decreases self.slots().len() - self.pos(),
        {
            let ghost q = self.pos as int;
            let taken = self.buckets[self.pos].take();
            self.pos += 1;
            if let Some(e) = taken {
                proof {
                    lemma_occupied_after(old(self).slots(), self.slots(), self.pos());
                    assert(old(self).remaining().drop_first() =~= self.remaining());
                }
                return Some((e.key, e.value));
            }
            assert(self.slots() =~= old(self).slots());
        }
        None
    }

    /// Bounds on how many entries are still to come: none for certain, and
    /// at most one per slot not yet looked at.
    pub fn size_hint(&self) -> (r: (usize, Option<usize>))
        requires
            self.wf(),
        ensures
            r == (0usize, Some((self.slots().len() - self.pos()) as usize)),
            self.remaining().len() <= self.slots().len() - self.pos(),
    {
        proof {
            lemma_occupied_len(self.slots(), self.pos());
        }
        let remaining: usize = self.buckets.len() - self.pos;
        (0, Some(remaining))
    }
}

/// From `from` on there are no more entries than slots.
pub proof fn lemma_occupied_len<K, V>(slots: Seq<Option<Entry<K, V>>>, from: nat)
    requires
        from <= slots.len(),
    ensures
        occupied(slots, from).len() <= slots.len() - from,
    decreases slots.len() - from,
{
    if from < slots.len() {
        lemma_occupied_len(slots, from + 1);
    }
}

/// What is occupied from `from` on depends on the slots from `from` on alone.
pub proof fn lemma_occupied_after<K, V>(
    a: Seq<Option<Entry<K, V>>>,
    b: Seq<Option<Entry<K, V>>>,
    from: nat,
)
    requires
        a.len() == b.len(),
        forall|j: int| from <= j < a.len() ==> a[j] == b[j],
    ensures
        occupied(a, from) == occupied(b, from),
    decreases a.len() - from,
{
    if from < a.len() {
        lemma_occupied_after(a, b, from + 1);
    }
}

} // verus!
