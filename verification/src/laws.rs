//! What holds of the table across insertions, lookups and walks.
//!
//! Each law is stated over the functions in which the container's own
//! contracts speak: an insertion turns a table `s` into
//! `inserted(s, e, max)`, a lookup of an index finds `lookup(s, idx)`, and a
//! walk hands out `occupied(s, 0)`.

use vstd::prelude::*;
use vstd::arithmetic::power2::pow2;
use crate::table::FnMap;
use crate::layout::{
    Entry, clashes, entries, entry_of, inserted, lemma_clash_slot, lemma_reduce_multiple,
    lemma_spread_keeps, lemma_spread_same, lemma_spread_source, lookup, occupied, placed,
    reduced, settled_len, spread,
};

verus! {

/// The table after inserting the entries of `es` one after the other, or
/// `None` where one of the insertions is refused.
pub open spec fn inserted_all<K, V>(
    slots: Seq<Option<Entry<K, V>>>,
    es: Seq<Entry<K, V>>,
    max: nat,
) -> Option<Seq<Option<Entry<K, V>>>>
    decreases es.len(),
{
    if es.len() == 0 {
        Some(slots)
    } else {
        match inserted_all(slots, es.drop_last(), max) {
            Some(t) => inserted(t, es.last(), max),
            None => None,
        }
    }
}

/// No entry after the `j`-th of `es` has the index of the `j`-th.
pub open spec fn latest<K, V>(es: Seq<Entry<K, V>>, j: int) -> bool {
    &&& 0 <= j < es.len()
    &&& forall|j2: int| j < j2 < es.len() ==> (#[trigger] es[j2]).index != es[j].index
}

/// The number of occupied slots.
pub open spec fn occupancy<K, V>(slots: Seq<Option<Entry<K, V>>>) -> nat {
    occupied(slots, 0).len()
}

/// The settled length is the starting length doubled some number of times:
/// it is within the limit, nothing clashes at it, and something clashes at
/// every shorter length of the chain.
pub proof fn lemma_settled<K, V>(slots: Seq<Option<Entry<K, V>>>, idx: usize, n: nat, max: nat) -> (j:
    nat)
    requires
        settled_len(slots, idx, n, max) is Some,
    ensures
        settled_len(slots, idx, n, max).unwrap() == n * pow2(j),
        pow2(j) >= 1,
        0 < n <= settled_len(slots, idx, n, max).unwrap() <= max,
        !clashes(slots, idx, settled_len(slots, idx, n, max).unwrap()),
        forall|i: nat| i < j ==> clashes(slots, idx, n * #[trigger] pow2(i)),
    decreases
        (if n <= max {
            max + 1 - n
        } else {
            0
        }),
{
    vstd::arithmetic::power2::lemma2_to64();
    if !clashes(slots, idx, n) {
        0
    } else {
        let j1 = lemma_settled(slots, idx, 2 * n, max);
        let j = j1 + 1;
        vstd::arithmetic::power2::lemma_pow2_unfold(j);
        assert((2 * n) * pow2(j1) == n * pow2(j)) by (nonlinear_arith)
            requires
                pow2(j) == 2 * pow2(j1),
        ;
        assert forall|i: nat| i < j implies clashes(slots, idx, n * #[trigger] pow2(i)) by {
            if i == 0 {
                assert(n * pow2(0) == n);
            } else {
                let i1 = (i - 1) as nat;
                vstd::arithmetic::power2::lemma_pow2_unfold(i);
                assert((2 * n) * pow2(i1) == n * pow2(i)) by (nonlinear_arith)
                    requires
                        pow2(i) == 2 * pow2(i1),
                ;
                assert(clashes(slots, idx, (2 * n) * pow2(i1)));
            }
        }
        j
    }
}

/// The table only ever grows, and only by doubling: after an insertion its
/// length is 1 where it was empty, and else the previous length times a
/// power of two, within the permitted size.
pub proof fn law_growth<K, V>(slots: Seq<Option<Entry<K, V>>>, e: Entry<K, V>, max: nat) -> (j: nat)
    requires
        inserted(slots, e, max) is Some,
    ensures
        inserted(slots, e, max).unwrap().len() <= max,
        slots.len() == 0 ==> inserted(slots, e, max).unwrap().len() == 1,
        slots.len() > 0 ==> inserted(slots, e, max).unwrap().len() == slots.len() * pow2(j),
        inserted(slots, e, max).unwrap().len() >= slots.len(),
{
    if slots.len() == 0 {
        0
    } else {
        lemma_settled(slots, e.index, slots.len(), max)
    }
}

/// Invariant of placement: an insertion into a table whose entries all sit
/// at their reduced positions yields such a table again.
pub proof fn law_placement_kept<K, V>(slots: Seq<Option<Entry<K, V>>>, e: Entry<K, V>, max: nat)
    requires
        placed(slots),
        inserted(slots, e, max) is Some,
    ensures
        placed(inserted(slots, e, max).unwrap()),
{
    let t = inserted(slots, e, max).unwrap();
    if slots.len() == 0 {
        assert(reduced(e.index, 1) == 0);
    } else {
        let j = lemma_settled(slots, e.index, slots.len(), max);
        let n = settled_len(slots, e.index, slots.len(), max).unwrap();
        lemma_spread_keeps(slots, n, pow2(j));
    }
}

/// Round trip, one step: right after an insertion the inserted index finds
/// the inserted entry, and a lookup returns the inserted value.
pub proof fn law_insert_then_get<K, V>(slots: Seq<Option<Entry<K, V>>>, e: Entry<K, V>, max: nat)
    requires
        inserted(slots, e, max) is Some,
    ensures
        entry_of(inserted(slots, e, max).unwrap(), e.index) == Some(e),
        lookup(inserted(slots, e, max).unwrap(), e.index) == Some(e.value),
{
    if slots.len() == 0 {
        assert(reduced(e.index, 1) == 0);
    } else {
        let j = lemma_settled(slots, e.index, slots.len(), max);
    }
}

/// An insertion leaves every other index as it was: what was stored under
/// an index other than the inserted one is still stored under it, and what
/// was absent is still absent.
pub proof fn law_insert_keeps_others<K, V>(
    slots: Seq<Option<Entry<K, V>>>,
    e: Entry<K, V>,
    max: nat,
    idx: usize,
)
    requires
        placed(slots),
        inserted(slots, e, max) is Some,
        idx != e.index,
    ensures
        entry_of(inserted(slots, e, max).unwrap(), idx) == entry_of(slots, idx),
        entry_of(slots, idx) is Some ==> lookup(inserted(slots, e, max).unwrap(), idx) == lookup(
            slots,
            idx,
        ),
{
    if slots.len() == 0 {
        assert(reduced(e.index, 1) == 0);
        assert(reduced(idx, 1) == 0);
    } else {
        let j = lemma_settled(slots, e.index, slots.len(), max);
        let n = settled_len(slots, e.index, slots.len(), max).unwrap();
        let k = pow2(j);
        let grown = spread(slots, n);
        lemma_spread_keeps(slots, n, k);
        assert(entry_of(grown, idx) == entry_of(slots, idx));
        if reduced(idx, n) == reduced(e.index, n) {
            lemma_clash_slot(slots, e.index, n, k);
            lemma_reduce_multiple(idx as int, slots.len() as int, k as int);
            lemma_reduce_multiple(e.index as int, slots.len() as int, k as int);
            lemma_spread_source(slots, n, reduced(idx, n));
            assert(entry_of(grown, idx) is None);
        }
    }
}

/// An insertion, seen as a map from stored index to entry, is the map's own
/// insertion: the inserted index now maps to the inserted entry and nothing
/// else has changed.
pub proof fn law_insert_as_map<K, V>(slots: Seq<Option<Entry<K, V>>>, e: Entry<K, V>, max: nat)
    requires
        placed(slots),
        inserted(slots, e, max) is Some,
    ensures
        entries(inserted(slots, e, max).unwrap()) == entries(slots).insert(e.index, e),
{
    let t = inserted(slots, e, max).unwrap();
    law_insert_then_get(slots, e, max);
    assert forall|idx: usize| idx != e.index implies entry_of(t, idx) == entry_of(slots, idx) by {
        law_insert_keeps_others(slots, e, max, idx);
    }
    assert(entries(t) =~= entries(slots).insert(e.index, e));
}

/// The indices of `es` are pairwise distinct.
pub open spec fn distinct_indices<K, V>(es: Seq<Entry<K, V>>) -> bool {
    forall|i: int, j: int|
        0 <= i < j < es.len() ==> (#[trigger] es[i]).index != (#[trigger] es[j]).index
}

/// A run of insertions that succeeds has succeeded at every step.
pub proof fn lemma_inserted_prefix<K, V>(
    slots: Seq<Option<Entry<K, V>>>,
    es: Seq<Entry<K, V>>,
    max: nat,
    n: int,
)
    requires
        inserted_all(slots, es, max) is Some,
        0 <= n <= es.len(),
    ensures
        inserted_all(slots, es.take(n), max) is Some,
    decreases es.len(),
{
    if n == es.len() {
        assert(es.take(n) =~= es);
    } else {
        lemma_inserted_prefix(slots, es.drop_last(), max, n);
        assert(es.drop_last().take(n) =~= es.take(n));
    }
}

/// Round trip: after a run of insertions, each entry that no later entry of
/// the run has replaced is found under its index, and a lookup of that index
/// returns its value. Where the indices of the run are pairwise distinct
/// this holds of every entry of the run.
pub proof fn law_round_trip<K, V>(
    slots: Seq<Option<Entry<K, V>>>,
    es: Seq<Entry<K, V>>,
    max: nat,
)
    requires
        placed(slots),
        inserted_all(slots, es, max) is Some,
    ensures
        placed(inserted_all(slots, es, max).unwrap()),
        forall|j: int| #[trigger]
            latest(es, j) ==> entry_of(inserted_all(slots, es, max).unwrap(), es[j].index) == Some(
                es[j],
            ) && lookup(inserted_all(slots, es, max).unwrap(), es[j].index) == Some(es[j].value),
    decreases es.len(),
{
    if es.len() > 0 {
        let init = es.drop_last();
        let last = es.last();
        let before = inserted_all(slots, init, max).unwrap();
        let after = inserted_all(slots, es, max).unwrap();
        law_round_trip(slots, init, max);
        law_placement_kept(before, last, max);
        law_insert_then_get(before, last, max);
        assert forall|j: int| #[trigger] latest(es, j) implies entry_of(after, es[j].index) == Some(
            es[j],
        ) && lookup(after, es[j].index) == Some(es[j].value) by {
            if j < es.len() - 1 {
                assert(es[es.len() - 1].index != es[j].index);
                assert(latest(init, j)) by {
                    assert forall|j2: int| j < j2 < init.len() implies (#[trigger] init[j2]).index
                        != init[j].index by {
                        assert(es[j2].index != es[j].index);
                    }
                }
                law_insert_keeps_others(before, last, max, es[j].index);
            }
        }
    }
}

/// Round trip for distinct indices: in a run of insertions with pairwise
/// distinct indices, after each insertion a lookup of every index inserted
/// so far returns the value inserted with it.
pub proof fn law_round_trip_distinct<K, V>(
    slots: Seq<Option<Entry<K, V>>>,
    es: Seq<Entry<K, V>>,
    max: nat,
)
    requires
        placed(slots),
        distinct_indices(es),
        inserted_all(slots, es, max) is Some,
    ensures
        forall|n: int, j: int|
            0 <= j < n <= es.len() ==> (#[trigger] inserted_all(slots, es.take(n), max)) is Some
                && lookup(inserted_all(slots, es.take(n), max).unwrap(), (#[trigger] es[j]).index)
                == Some(es[j].value),
{
    assert forall|n: int, j: int| 0 <= j < n <= es.len() implies (#[trigger] inserted_all(
        slots,
        es.take(n),
        max,
    )) is Some && lookup(inserted_all(slots, es.take(n), max).unwrap(), (#[trigger] es[j]).index)
        == Some(es[j].value) by {
        let run = es.take(n);
        lemma_inserted_prefix(slots, es, max, n);
        law_round_trip(slots, run, max);
        assert(run[j] == es[j]);
        assert(latest(run, j)) by {
            assert forall|j2: int| j < j2 < run.len() implies (#[trigger] run[j2]).index
                != run[j].index by {
                assert(run[j2] == es[j2]);
            }
        }
    }
}

/// Replacing the entry of an occupied slot leaves the number of entries from
/// any position on unchanged.
pub proof fn lemma_occupied_replace<K, V>(
    slots: Seq<Option<Entry<K, V>>>,
    p: int,
    e: Entry<K, V>,
    from: nat,
)
    requires
        0 <= p < slots.len(),
        slots[p] is Some,
    ensures
        occupied(slots.update(p, Some(e)), from).len() == occupied(slots, from).len(),
    decreases slots.len() - from,
{
    if from < slots.len() {
        lemma_occupied_replace(slots, p, e, (from + 1) as nat);
    }
}

/// Update in place: inserting under an index that is already stored
/// succeeds without growing the table, replaces that one slot's entry by
/// the new one, and leaves the number of entries unchanged.
pub proof fn law_update_in_place<K, V>(slots: Seq<Option<Entry<K, V>>>, e: Entry<K, V>, max: nat)
    requires
        placed(slots),
        slots.len() <= max,
        entry_of(slots, e.index) is Some,
    ensures
        inserted(slots, e, max) == Some(
            slots.update(reduced(e.index, slots.len()), Some(e)),
        ),
        lookup(inserted(slots, e, max).unwrap(), e.index) == Some(e.value),
        occupancy(inserted(slots, e, max).unwrap()) == occupancy(slots),
{
    lemma_clash_slot(slots, e.index, slots.len(), 1);
    lemma_spread_same(slots);
    lemma_occupied_replace(slots, reduced(e.index, slots.len()), e, 0);
}

/// Update in place, as two insertions: inserting a second entry under the
/// index of the first leaves exactly one entry under that index, holding the
/// second value, in a table of the same length with the same number of
/// entries.
pub proof fn law_insert_twice<K, V>(
    slots: Seq<Option<Entry<K, V>>>,
    first: Entry<K, V>,
    second: Entry<K, V>,
    max: nat,
)
    requires
        placed(slots),
        inserted(slots, first, max) is Some,
        second.index == first.index,
    ensures
        inserted(inserted(slots, first, max).unwrap(), second, max) is Some,
        ({
            let once = inserted(slots, first, max).unwrap();
            let twice = inserted(once, second, max).unwrap();
            &&& twice == once.update(reduced(first.index, once.len()), Some(second))
            &&& twice.len() == once.len()
            &&& entry_of(twice, first.index) == Some(second)
            &&& lookup(twice, first.index) == Some(second.value)
            &&& occupancy(twice) == occupancy(once)
        }),
{
    let once = inserted(slots, first, max).unwrap();
    let j = law_growth(slots, first, max);
    law_placement_kept(slots, first, max);
    law_insert_then_get(slots, first, max);
    law_update_in_place(once, second, max);
}

/// Collision safety: after two entries with different indices have both
/// been inserted, each index finds its own entry and value, never the
/// other's, and the two sit in different slots. This holds whether or not
/// the two indices reduced to one position before the table grew.
pub proof fn law_collision_safety<K, V>(
    slots: Seq<Option<Entry<K, V>>>,
    first: Entry<K, V>,
    second: Entry<K, V>,
    max: nat,
)
    requires
        placed(slots),
        inserted(slots, first, max) is Some,
        inserted(inserted(slots, first, max).unwrap(), second, max) is Some,
        first.index != second.index,
    ensures
        ({
            let both = inserted(inserted(slots, first, max).unwrap(), second, max).unwrap();
            &&& entry_of(both, first.index) == Some(first)
            &&& entry_of(both, second.index) == Some(second)
            &&& lookup(both, first.index) == Some(first.value)
            &&& lookup(both, second.index) == Some(second.value)
            &&& reduced(first.index, both.len()) != reduced(second.index, both.len())
        }),
{
    let once = inserted(slots, first, max).unwrap();
    law_placement_kept(slots, first, max);
    law_insert_then_get(slots, first, max);
    law_insert_then_get(once, second, max);
    law_insert_keeps_others(once, second, max, first.index);
}

/// In a placed table the entries from `from` on come out in the order of
/// their reduced positions, each from the slot it reduces to, and every
/// occupied slot from `from` on contributes one.
pub proof fn lemma_occupied_positions<K, V>(slots: Seq<Option<Entry<K, V>>>, from: nat)
    requires
        placed(slots),
    ensures
        forall|j: int|
            0 <= j < occupied(slots, from).len() ==> {
                let p = reduced((#[trigger] occupied(slots, from)[j]).index, slots.len());
                from <= p < slots.len() && slots[p] == Some(occupied(slots, from)[j])
            },
        forall|i: int, j: int|
            0 <= i < j < occupied(slots, from).len() ==> reduced(
                (#[trigger] occupied(slots, from)[i]).index,
                slots.len(),
            ) < reduced((#[trigger] occupied(slots, from)[j]).index, slots.len()),
        forall|p: int|
            from <= p < slots.len() && (#[trigger] slots[p]) is Some ==> occupied(
                slots,
                from,
            ).contains(slots[p].unwrap()),
    decreases slots.len() - from,
{
    let items = occupied(slots, from);
    if from < slots.len() {
        let rest = occupied(slots, from + 1);
        lemma_occupied_positions(slots, from + 1);
        match slots[from as int] {
            Some(e) => {
                assert(items == seq![e] + rest);
                assert(items[0] == e);
                assert forall|j: int| 1 <= j < items.len() implies #[trigger] items[j] == rest[j
                    - 1] by {}
                assert forall|j: int| 0 <= j < items.len() implies ({
                    let p = reduced((#[trigger] items[j]).index, slots.len());
                    from <= p < slots.len() && slots[p] == Some(items[j])
                }) by {
                    if j > 0 {
                        assert(items[j] == rest[j - 1]);
                    }
                }
                assert forall|i: int, j: int| 0 <= i < j < items.len() implies reduced(
                    (#[trigger] items[i]).index,
                    slots.len(),
                ) < reduced((#[trigger] items[j]).index, slots.len()) by {
                    assert(items[j] == rest[j - 1]);
                    if i > 0 {
                        assert(items[i] == rest[i - 1]);
                    }
                }
                assert forall|p: int|
                    from <= p < slots.len() && (#[trigger] slots[p]) is Some implies items.contains(
                    slots[p].unwrap(),
                ) by {
                    if p == from {
                        assert(items[0] == slots[p].unwrap());
                    } else {
                        let j = choose|j: int| 0 <= j < rest.len() && rest[j] == slots[p].unwrap();
                        assert(items[j + 1] == slots[p].unwrap());
                    }
                }
            },
            None => {
                assert(items == rest);
            },
        }
    }
}

/// Iteration is complete: a walk over a placed table hands out exactly the
/// entries that lookups retrieve. Every entry handed out is found under its
/// own index; every entry found under some index is handed out; whatever a
/// lookup of any index returns is the value of an entry handed out from the
/// slot that index reduces to; and no two entries handed out share an index.
pub proof fn law_iteration_complete<K, V>(slots: Seq<Option<Entry<K, V>>>)
    requires
        placed(slots),
    ensures
        forall|j: int|
            0 <= j < occupied(slots, 0).len() ==> entry_of(
                slots,
                (#[trigger] occupied(slots, 0)[j]).index,
            ) == Some(occupied(slots, 0)[j]) && lookup(slots, occupied(slots, 0)[j].index) == Some(
                occupied(slots, 0)[j].value,
            ),
        forall|idx: usize| #[trigger]
            entry_of(slots, idx) is Some ==> occupied(slots, 0).contains(
                entry_of(slots, idx).unwrap(),
            ),
        forall|idx: usize| #[trigger]
            lookup(slots, idx) is Some ==> exists|j: int|
                0 <= j < occupied(slots, 0).len() && (#[trigger] occupied(slots, 0)[j]).value
                    == lookup(slots, idx).unwrap() && reduced(occupied(slots, 0)[j].index, slots.len())
                    == reduced(idx, slots.len()),
        forall|i: int, j: int|
            0 <= i < j < occupied(slots, 0).len() ==> (#[trigger] occupied(slots, 0)[i]).index != (
            #[trigger] occupied(slots, 0)[j]).index,
        occupied(slots, 0).len() <= slots.len(),
{
    let items = occupied(slots, 0);
    lemma_occupied_positions(slots, 0);
    crate::iter::lemma_occupied_len(slots, 0);
    assert forall|idx: usize| #[trigger] lookup(slots, idx) is Some implies exists|j: int|
        0 <= j < items.len() && (#[trigger] items[j]).value == lookup(slots, idx).unwrap()
            && reduced(items[j].index, slots.len()) == reduced(idx, slots.len()) by {
        let p = reduced(idx, slots.len());
        assert(slots[p] is Some);
        let j = choose|j: int| 0 <= j < items.len() && items[j] == slots[p].unwrap();
        assert(items[j].value == lookup(slots, idx).unwrap());
    }
    assert forall|idx: usize| #[trigger] entry_of(slots, idx) is Some implies items.contains(
        entry_of(slots, idx).unwrap(),
    ) by {
        let p = reduced(idx, slots.len());
        assert(slots[p] is Some);
    }
}

/// Round trip at the container: once an insertion of `key` and `value` has
/// turned `before` into `after`, a lookup of `key` returns `value`; every key
/// with another computed index is stored or absent as it was and, where
/// stored, keeps its value; and where the index of `key` was already stored,
/// the table has neither grown nor gained an entry.
pub proof fn law_insert_effects<K, V, F: Fn(&K) -> usize>(
    before: FnMap<K, V, F>,
    after: FnMap<K, V, F>,
    key: K,
    value: V,
)
    requires
        before.wf(),
        after.indexer() == before.indexer(),
        inserted(
            before.slots(),
            (Entry { index: before.index_of(key), key, value }),
            before.limit(),
        ) == Some(after.slots()),
    ensures
        after.holds(key),
        after.get_spec(key) == Some(value),
        forall|k: K|
            before.index_of(k) != before.index_of(key) ==> #[trigger] after.holds(k)
                == before.holds(k),
        forall|k: K|
            before.index_of(k) != before.index_of(key) && before.holds(k)
                ==> #[trigger] after.get_spec(k) == before.get_spec(k),
        before.holds(key) ==> after.slots().len() == before.slots().len() && occupancy(
            after.slots(),
        ) == occupancy(before.slots()),
        after@ == before@.insert(
            before.index_of(key),
            (Entry { index: before.index_of(key), key, value }),
        ),
{
    let e = Entry { index: before.index_of(key), key, value };
    let max = before.limit();
    law_insert_then_get(before.slots(), e, max);
    law_insert_as_map(before.slots(), e, max);
    assert forall|k: K| before.index_of(k) != before.index_of(key) implies #[trigger] after.holds(
        k,
    ) == before.holds(k) by {
        law_insert_keeps_others(before.slots(), e, max, before.index_of(k));
    }
    assert forall|k: K|
        before.index_of(k) != before.index_of(key) && before.holds(k) implies #[trigger] after.get_spec(
        k,
    ) == before.get_spec(k) by {
        law_insert_keeps_others(before.slots(), e, max, before.index_of(k));
    }
    if before.holds(key) {
        law_update_in_place(before.slots(), e, max);
    }
}

/// Iteration is complete, at the container: a walk hands out each stored
/// key once, with the value that a lookup of that key returns; and whatever
/// a lookup of any key returns is the value of an entry handed out, the one
/// in the slot that the key reduces to.
pub proof fn law_walk_matches_get<K, V, F: Fn(&K) -> usize>(m: FnMap<K, V, F>)
    requires
        m.wf(),
    ensures
        forall|j: int|
            0 <= j < occupied(m.slots(), 0).len() ==> m.get_spec(
                (#[trigger] occupied(m.slots(), 0)[j]).key,
            ) == Some(occupied(m.slots(), 0)[j].value),
        forall|i: int, j: int|
            0 <= i < j < occupied(m.slots(), 0).len() ==> (#[trigger] occupied(m.slots(), 0)[i]).key
                != (#[trigger] occupied(m.slots(), 0)[j]).key,
        forall|key: K| #[trigger]
            m.get_spec(key) is Some ==> exists|j: int|
                0 <= j < occupied(m.slots(), 0).len() && (#[trigger] occupied(
                    m.slots(),
                    0,
                )[j]).value == m.get_spec(key).unwrap() && reduced(
                    m.index_of(occupied(m.slots(), 0)[j].key),
                    m.slots().len(),
                ) == reduced(m.index_of(key), m.slots().len()),
{
    let slots = m.slots();
    let items = occupied(slots, 0);
    law_iteration_complete(slots);
    lemma_occupied_positions(slots, 0);
    assert forall|j: int| 0 <= j < items.len() implies m.index_of((#[trigger] items[j]).key)
        == items[j].index by {
        let p = reduced(items[j].index, slots.len());
        assert(slots[p] is Some);
    }
    assert forall|key: K| #[trigger] m.get_spec(key) is Some implies exists|j: int|
        0 <= j < items.len() && (#[trigger] items[j]).value == m.get_spec(key).unwrap() && reduced(
            m.index_of(items[j].key),
            slots.len(),
        ) == reduced(m.index_of(key), slots.len()) by {
        let idx = m.index_of(key);
        assert(lookup(slots, idx) is Some);
        let j = choose|j: int|
            0 <= j < items.len() && (#[trigger] items[j]).value == lookup(slots, idx).unwrap()
                && reduced(items[j].index, slots.len()) == reduced(idx, slots.len());
        assert(m.index_of(items[j].key) == items[j].index);
    }
}

} // verus!
