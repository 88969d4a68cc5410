//! The mathematical model of the slot table.
//!
//! A table is a sequence of slots, each empty or holding one [`Entry`]. An
//! entry remembers the index that the index function computed for its key;
//! the entry lives at that index reduced modulo the table's length. Everything
//! the container promises is stated over the functions of this module.

use vstd::prelude::*;

verus! {

/// What an occupied slot holds: the computed index of the key, the key and
/// the value.
pub struct Entry<K, V> {
    pub index: usize,
    pub key: K,
    pub value: V,
}

/// The reduced position of a computed index in a table of `n` slots.
pub open spec fn reduced(idx: usize, n: nat) -> int {
    (idx as int) % (n as int)
}

/// Every occupied slot sits at the position its stored index reduces to.
pub open spec fn placed<K, V>(slots: Seq<Option<Entry<K, V>>>) -> bool {
    forall|p: int|
        0 <= p < slots.len() && (#[trigger] slots[p]) is Some ==> reduced(
            slots[p].unwrap().index,
            slots.len(),
        ) == p
}

/// The entry stored under exactly the computed index `idx`, if there is one.
pub open spec fn entry_of<K, V>(slots: Seq<Option<Entry<K, V>>>, idx: usize) -> Option<
    Entry<K, V>,
> {
    if slots.len() == 0 {
        None
    } else {
        match slots[reduced(idx, slots.len())] {
            Some(e) => if e.index == idx {
                Some(e)
            } else {
                None
            },
            None => None,
        }
    }
}

/// The table as a map from each stored computed index to its entry.
pub open spec fn entries<K, V>(slots: Seq<Option<Entry<K, V>>>) -> Map<usize, Entry<K, V>> {
    Map::new(|idx: usize| entry_of(slots, idx) is Some, |idx: usize| entry_of(slots, idx).unwrap())
}

/// What a lookup of the computed index `idx` finds: the value in the slot that
/// `idx` reduces to, whichever index that slot's entry was stored under.
pub open spec fn lookup<K, V>(slots: Seq<Option<Entry<K, V>>>, idx: usize) -> Option<V> {
    if slots.len() == 0 {
        None
    } else {
        match slots[reduced(idx, slots.len())] {
            Some(e) => Some(e.value),
            None => None,
        }
    }
}

/// In a table of length `n`, some stored index other than `idx` would reduce
/// to the same position as `idx`.
pub open spec fn clashes<K, V>(slots: Seq<Option<Entry<K, V>>>, idx: usize, n: nat) -> bool {
    exists|q: int|
        0 <= q < slots.len() && (#[trigger] slots[q]) is Some && slots[q].unwrap().index != idx
            && reduced(slots[q].unwrap().index, n) == reduced(idx, n)
}

/// The first length among `n`, `2n`, `4n`, ... at which nothing stored
/// clashes with `idx`, as long as that length does not exceed `max`.
pub open spec fn settled_len<K, V>(
    slots: Seq<Option<Entry<K, V>>>,
    idx: usize,
    n: nat,
    max: nat,
) -> Option<nat>
    decreases
        (if n <= max {
            max + 1 - n
        } else {
            0
        }),
{
    if n == 0 || n > max {
        None
    } else if !clashes(slots, idx, n) {
        Some(n)
    } else {
        settled_len(slots, idx, 2 * n, max)
    }
}

/// The table laid out anew over `n` slots, `n` a multiple of the current
/// length: every entry moves to its index reduced modulo `n`.
pub open spec fn spread<K, V>(slots: Seq<Option<Entry<K, V>>>, n: nat) -> Seq<
    Option<Entry<K, V>>,
> {
    Seq::new(
        n,
        |p: int|
            match slots[p % (slots.len() as int)] {
                Some(e) => if reduced(e.index, n) == p {
                    Some(e)
                } else {
                    None
                },
                None => None,
            },
    )
}

/// The table after inserting `e` with at most `max` slots allowed, or `None`
/// where no permitted length separates `e` from what is stored.
///
/// An empty table gets its single first slot. Otherwise the table grows by
/// doubling to the first length without a clash, and `e` takes the slot its
/// index reduces to, replacing an entry of the same index.
pub open spec fn inserted<K, V>(slots: Seq<Option<Entry<K, V>>>, e: Entry<K, V>, max: nat) -> Option<
    Seq<Option<Entry<K, V>>>,
> {
    if slots.len() == 0 {
        if max >= 1 {
            Some(seq![Some(e)])
        } else {
            None
        }
    } else {
        match settled_len(slots, e.index, slots.len(), max) {
            Some(n) => Some(spread(slots, n).update(reduced(e.index, n), Some(e))),
            None => None,
        }
    }
}

/// The entries of the occupied slots from position `from` on, in slot order.
pub open spec fn occupied<K, V>(slots: Seq<Option<Entry<K, V>>>, from: nat) -> Seq<Entry<K, V>>
    decreases slots.len() - from,
{
    if from >= slots.len() {
        Seq::empty()
    } else {
        match slots[from as int] {
            Some(e) => seq![e] + occupied(slots, from + 1),
            None => occupied(slots, from + 1),
        }
    }
}

/// Reducing modulo a multiple of `d` and then modulo `d` is reducing modulo `d`.
pub proof fn lemma_reduce_multiple(x: int, d: int, k: int)
    requires
        0 < d,
        0 < k,
    ensures
        0 < d * k,
        (x % (d * k)) % d == x % d,
{
    vstd::arithmetic::div_mod::lemma_mod_mod(x, d, k);
}

/// In a placed table only the slot that `idx` reduces to can hold a clashing
/// entry, at any length that is a multiple of the table's.
pub proof fn lemma_clash_slot<K, V>(slots: Seq<Option<Entry<K, V>>>, idx: usize, n: nat, k: nat)
    requires
        placed(slots),
        slots.len() > 0,
        k >= 1,
        n == slots.len() * k,
    ensures
        clashes(slots, idx, n) <==> ({
            let s = slots[reduced(idx, slots.len())];
            s is Some && s.unwrap().index != idx && reduced(s.unwrap().index, n) == reduced(idx, n)
        }),
{
    let len = slots.len() as int;
    let home = reduced(idx, slots.len());
    if clashes(slots, idx, n) {
        let q = choose|q: int|
            0 <= q < slots.len() && (#[trigger] slots[q]) is Some && slots[q].unwrap().index
                != idx && reduced(slots[q].unwrap().index, n) == reduced(idx, n);
        let other = slots[q].unwrap().index;
        lemma_reduce_multiple(other as int, len, k as int);
        lemma_reduce_multiple(idx as int, len, k as int);
        assert(q == home);
    }
    if slots[home] is Some && slots[home].unwrap().index != idx && reduced(
        slots[home].unwrap().index,
        n,
    ) == reduced(idx, n) {
        assert(0 <= home < slots.len());
    }
}

/// A slot of the spread table holds what the slot it came from held.
pub proof fn lemma_spread_source<K, V>(slots: Seq<Option<Entry<K, V>>>, n: nat, p: int)
    requires
        slots.len() > 0,
        0 <= p < n,
    ensures
        0 <= p % (slots.len() as int) < slots.len(),
        spread(slots, n)[p] is Some ==> spread(slots, n)[p] == slots[p % (slots.len() as int)]
            && reduced(spread(slots, n)[p].unwrap().index, n) == p,
{
}

/// Spreading keeps the table placed and keeps every entry findable under its
/// own index.
pub proof fn lemma_spread_keeps<K, V>(slots: Seq<Option<Entry<K, V>>>, n: nat, k: nat)
    requires
        slots.len() > 0,
        k >= 1,
        n == slots.len() * k,
    ensures
        spread(slots, n).len() == n,
        n >= slots.len(),
        placed(spread(slots, n)),
        forall|idx: usize| #[trigger] entry_of(spread(slots, n), idx) == entry_of(slots, idx),
{
    let len = slots.len() as int;
    assert(n >= slots.len()) by (nonlinear_arith)
        requires
            n == slots.len() * k,
            k >= 1,
    ;
    assert forall|idx: usize| #[trigger] entry_of(spread(slots, n), idx) == entry_of(
        slots,
        idx,
    ) by {
        lemma_reduce_multiple(idx as int, len, k as int);
        let p = reduced(idx, n);
        assert(0 <= p < n);
        assert(p % len == reduced(idx, slots.len()));
    }
}

/// Spreading a placed table over its own length changes nothing.
pub proof fn lemma_spread_same<K, V>(slots: Seq<Option<Entry<K, V>>>)
    requires
        placed(slots),
        slots.len() > 0,
    ensures
        spread(slots, slots.len()) == slots,
{
    let len = slots.len();
    assert forall|p: int| 0 <= p < len implies spread(slots, len)[p] == slots[p] by {
        vstd::arithmetic::div_mod::lemma_small_mod(p as nat, len);
    }
    assert(spread(slots, len) =~= slots);
}

/// Spreading in two steps is spreading in one.
pub proof fn lemma_spread_twice<K, V>(
    slots: Seq<Option<Entry<K, V>>>,
    n1: nat,
    k1: nat,
    n2: nat,
    k2: nat,
)
    requires
        slots.len() > 0,
        k1 >= 1,
        k2 >= 1,
        n1 == slots.len() * k1,
        n2 == n1 * k2,
    ensures
        spread(spread(slots, n1), n2) == spread(slots, n2),
{
    let len = slots.len() as int;
    assert(n1 > 0) by (nonlinear_arith)
        requires
            n1 == slots.len() * k1,
            slots.len() > 0,
            k1 >= 1,
    ;
    assert forall|p: int| 0 <= p < n2 implies spread(spread(slots, n1), n2)[p] == spread(
        slots,
        n2,
    )[p] by {
        let inner = p % (n1 as int);
        assert(0 <= inner < n1);
        lemma_reduce_multiple(p, len, k1 as int);
        assert(inner % len == p % len);
        match slots[p % len] {
            Some(e) => {
                lemma_reduce_multiple(e.index as int, n1 as int, k2 as int);
            },
            None => {},
        }
    }
    assert(spread(spread(slots, n1), n2) =~= spread(slots, n2));
}

} // verus!
