//! The mathematical model shared by every table variant: a slot array is a
//! sequence of optional key/value pairs, and a table is read as the finite map
//! from the keys of the occupied slots to their values.
//!
//! The lemmas here describe how that map changes under the four primitive slot
//! mutations every variant is built from: overwriting a live slot's value,
//! filling an open slot with a fresh key, clearing a live slot, and moving an
//! entry from one slot to an open one (a cuckoo displacement step).

use vstd::prelude::*;

verus! {

/// The key held by slot `i`, when it is occupied.
pub open spec fn slot_key<V>(slots: Seq<Option<(u64, V)>>, i: int) -> u64 {
    (slots[i]->0).0
}

/// The value held by slot `i`, when it is occupied.
pub open spec fn slot_val<V>(slots: Seq<Option<(u64, V)>>, i: int) -> V {
    (slots[i]->0).1
}

/// No two occupied slots hold the same key.
pub open spec fn slots_distinct<V>(slots: Seq<Option<(u64, V)>>) -> bool {
    forall|i: int, j: int|
        0 <= i < slots.len() && 0 <= j < slots.len() && i != j && slots[i] is Some
            && slots[j] is Some ==> slot_key(slots, i) != slot_key(slots, j)
}

/// Slot `i` is occupied and holds key `k`.
pub open spec fn live_at<V>(slots: Seq<Option<(u64, V)>>, i: int, k: u64) -> bool {
    0 <= i < slots.len() && slots[i] is Some && slot_key(slots, i) == k
}

/// Some slot holds key `k`.
pub open spec fn table_contains<V>(slots: Seq<Option<(u64, V)>>, k: u64) -> bool {
    exists|i: int| live_at(slots, i, k)
}

/// The value bound to key `k` (meaningful when some slot holds `k`).
pub open spec fn table_at<V>(slots: Seq<Option<(u64, V)>>, k: u64) -> V {
    slot_val(slots, choose|i: int| live_at(slots, i, k))
}

/// The map a slot array denotes.
pub open spec fn table_map<V>(slots: Seq<Option<(u64, V)>>) -> Map<u64, V> {
    Map::new(|k: u64| table_contains(slots, k), |k: u64| table_at(slots, k))
}

/// Number of occupied slots.
pub open spec fn count_live<V>(slots: Seq<Option<(u64, V)>>) -> nat
    decreases slots.len(),
{
    if slots.len() == 0 {
        0
    } else {
        count_live(slots.drop_last()) + (if slots.last() is Some {
            1nat
        } else {
            0nat
        })
    }
}

/// Writes one element of a vector in place.
pub fn vec_set<T>(v: &mut Vec<T>, i: usize, x: T)
    requires
        i < old(v).len(),
    ensures
        final(v)@ == old(v)@.update(i as int, x),
{
    let r = &mut v[i];
    *r = x;
}

/// The occupied-slot count never exceeds the slot count.
pub proof fn lemma_count_le_len<V>(slots: Seq<Option<(u64, V)>>)
    ensures
        count_live(slots) <= slots.len(),
    decreases slots.len(),
{
    if slots.len() > 0 {
        lemma_count_le_len(slots.drop_last());
    }
}

/// With distinct keys, the slot holding a key is unique.
pub proof fn lemma_live_unique<V>(slots: Seq<Option<(u64, V)>>, i: int, j: int, k: u64)
    requires
        slots_distinct(slots),
        live_at(slots, i, k),
        live_at(slots, j, k),
    ensures
        i == j,
{
}

/// An occupied slot pins down membership and the bound value.
pub proof fn lemma_contains_at<V>(slots: Seq<Option<(u64, V)>>, i: int, k: u64)
    requires
        slots_distinct(slots),
        live_at(slots, i, k),
    ensures
        table_contains(slots, k),
        table_at(slots, k) == slot_val(slots, i),
{
    let w = choose|j: int| live_at(slots, j, k);
    lemma_live_unique(slots, w, i, k);
}

/// Overwriting the value of the slot holding `k` updates the map at `k`.
pub proof fn lemma_map_update_value<V>(slots: Seq<Option<(u64, V)>>, i: int, k: u64, v: V)
    requires
        slots_distinct(slots),
        live_at(slots, i, k),
    ensures
        slots_distinct(slots.update(i, Some((k, v)))),
        table_map(slots.update(i, Some((k, v)))) == table_map(slots).insert(k, v),
        count_live(slots.update(i, Some((k, v)))) == count_live(slots),
{
    let slots2 = slots.update(i, Some((k, v)));
    lemma_count_update(slots, i, Some((k, v)));
    assert(forall|j: int|
        0 <= j < slots2.len() ==> (slots2[j] is Some <==> slots[j] is Some));
    assert(forall|j: int|
        0 <= j < slots2.len() && slots2[j] is Some ==> slot_key(slots2, j) == slot_key(slots, j));
    assert(slots_distinct(slots2));
    assert forall|k2: u64| #[trigger]
        table_contains(slots2, k2) implies table_map(slots).insert(k, v).dom().contains(k2) by {
        let i2 = choose|j: int| live_at(slots2, j, k2);
        if i2 != i {
            assert(live_at(slots, i2, k2));
        }
    }
    assert forall|k2: u64|
        table_map(slots).insert(k, v).dom().contains(k2) implies #[trigger] table_contains(
        slots2,
        k2,
    ) by {
        if k2 == k {
            assert(live_at(slots2, i, k2));
        } else {
            let i2 = choose|j: int| live_at(slots, j, k2);
            assert(live_at(slots, i2, k2));
            assert(live_at(slots2, i2, k2));
        }
    }
    assert forall|k2: u64| table_contains(slots2, k2) implies table_at(slots2, k2) == table_map(
        slots,
    ).insert(k, v)[k2] by {
        let i2 = choose|j: int| live_at(slots2, j, k2);
        if k2 == k {
            lemma_live_unique(slots2, i2, i, k);
            lemma_contains_at(slots2, i, k);
        } else {
            assert(live_at(slots, i2, k2));
            lemma_contains_at(slots2, i2, k2);
            lemma_contains_at(slots, i2, k2);
        }
    }
    assert(table_map(slots2) =~= table_map(slots).insert(k, v));
}

/// Filling an open slot with a key no slot holds inserts it into the map.
pub proof fn lemma_map_fill<V>(slots: Seq<Option<(u64, V)>>, i: int, k: u64, v: V)
    requires
        slots_distinct(slots),
        0 <= i < slots.len(),
        slots[i] is None,
        !table_contains(slots, k),
    ensures
        slots_distinct(slots.update(i, Some((k, v)))),
        table_map(slots.update(i, Some((k, v)))) == table_map(slots).insert(k, v),
        count_live(slots.update(i, Some((k, v)))) == count_live(slots) + 1,
        live_at(slots.update(i, Some((k, v))), i, k),
{
    let slots2 = slots.update(i, Some((k, v)));
    lemma_count_update(slots, i, Some((k, v)));
    assert forall|i2: int, j2: int|
        0 <= i2 < slots2.len() && 0 <= j2 < slots2.len() && i2 != j2 && slots2[i2] is Some
            && slots2[j2] is Some implies slot_key(slots2, i2) != slot_key(slots2, j2) by {
        if i2 == i {
            assert(slots2[j2] == slots[j2]);
            assert(slot_key(slots2, i2) == k);
            if slot_key(slots2, j2) == k {
                assert(live_at(slots, j2, k));
                assert(table_contains(slots, k));
            }
        } else if j2 == i {
            assert(slots2[i2] == slots[i2]);
            assert(slot_key(slots2, j2) == k);
            if slot_key(slots2, i2) == k {
                assert(live_at(slots, i2, k));
                assert(table_contains(slots, k));
            }
        } else {
            assert(slots2[i2] == slots[i2]);
            assert(slots2[j2] == slots[j2]);
            assert(slot_key(slots, i2) != slot_key(slots, j2));
        }
    }
    assert forall|k2: u64| #[trigger]
        table_contains(slots2, k2) implies table_map(slots).insert(k, v).dom().contains(k2) by {
        let i2 = choose|j: int| live_at(slots2, j, k2);
        if i2 != i {
            assert(live_at(slots, i2, k2));
        }
    }
    assert forall|k2: u64|
        table_map(slots).insert(k, v).dom().contains(k2) implies #[trigger] table_contains(
        slots2,
        k2,
    ) by {
        if k2 == k {
            assert(live_at(slots2, i, k2));
        } else {
            let i2 = choose|j: int| live_at(slots, j, k2);
            assert(live_at(slots, i2, k2));
            assert(live_at(slots2, i2, k2));
        }
    }
    assert forall|k2: u64| table_contains(slots2, k2) implies table_at(slots2, k2) == table_map(
        slots,
    ).insert(k, v)[k2] by {
        let i2 = choose|j: int| live_at(slots2, j, k2);
        if k2 == k {
            lemma_live_unique(slots2, i2, i, k);
            lemma_contains_at(slots2, i, k);
        } else {
            assert(live_at(slots, i2, k2));
            lemma_contains_at(slots2, i2, k2);
            lemma_contains_at(slots, i2, k2);
        }
    }
    assert(table_map(slots2) =~= table_map(slots).insert(k, v));
}

/// Clearing the slot holding `k` removes it from the map.
pub proof fn lemma_map_clear<V>(slots: Seq<Option<(u64, V)>>, i: int, k: u64)
    requires
        slots_distinct(slots),
        live_at(slots, i, k),
    ensures
        slots_distinct(slots.update(i, None)),
        table_map(slots.update(i, None)) == table_map(slots).remove(k),
        count_live(slots.update(i, None)) + 1 == count_live(slots),
        !table_contains(slots.update(i, None), k),
{
    let slots2 = slots.update(i, None::<(u64, V)>);
    lemma_count_update(slots, i, None::<(u64, V)>);
    assert(forall|j: int|
        0 <= j < slots2.len() && slots2[j] is Some ==> slots[j] is Some && slot_key(slots2, j)
            == slot_key(slots, j));
    assert(slots_distinct(slots2));
    assert forall|j: int| !live_at(slots2, j, k) by {
        if live_at(slots2, j, k) {
            assert(live_at(slots, j, k));
            lemma_live_unique(slots, j, i, k);
        }
    }
    assert forall|k2: u64| #[trigger]
        table_contains(slots2, k2) implies table_map(slots).remove(k).dom().contains(k2) by {
        let i2 = choose|j: int| live_at(slots2, j, k2);
        assert(live_at(slots, i2, k2));
        if k2 == k {
            lemma_live_unique(slots, i2, i, k);
        }
    }
    assert forall|k2: u64|
        table_map(slots).remove(k).dom().contains(k2) implies #[trigger] table_contains(
        slots2,
        k2,
    ) by {
        let i2 = choose|j: int| live_at(slots, j, k2);
        assert(live_at(slots, i2, k2));
        if i2 == i {
            assert(k2 == k);
        } else {
            assert(live_at(slots2, i2, k2));
        }
    }
    assert forall|k2: u64| table_contains(slots2, k2) implies table_at(slots2, k2) == table_map(
        slots,
    ).remove(k)[k2] by {
        let i2 = choose|j: int| live_at(slots2, j, k2);
        assert(live_at(slots, i2, k2));
        lemma_contains_at(slots2, i2, k2);
        lemma_contains_at(slots, i2, k2);
        if k2 == k {
            lemma_live_unique(slots, i2, i, k);
        }
    }
    assert(table_map(slots2) =~= table_map(slots).remove(k));
}

/// Moving an entry from one slot to an open slot leaves the map unchanged.
pub proof fn lemma_map_move<V>(slots: Seq<Option<(u64, V)>>, from: int, to: int)
    requires
        slots_distinct(slots),
        0 <= from < slots.len(),
        0 <= to < slots.len(),
        from != to,
        slots[from] is Some,
        slots[to] is None,
    ensures
        slots_distinct(slots.update(from, None).update(to, slots[from])),
        table_map(slots.update(from, None).update(to, slots[from])) == table_map(slots),
        count_live(slots.update(from, None).update(to, slots[from])) == count_live(slots),
        live_at(slots.update(from, None).update(to, slots[from]), to, slot_key(slots, from)),
{
    let k = slot_key(slots, from);
    let v = slot_val(slots, from);
    let mid = slots.update(from, None::<(u64, V)>);
    let slots2 = mid.update(to, slots[from]);
    lemma_map_clear(slots, from, k);
    assert(slots[from] == Some((k, v)));
    lemma_map_fill(mid, to, k, v);
    assert(table_map(slots2) == table_map(slots).remove(k).insert(k, v));
    assert(table_map(slots).contains_key(k) && table_map(slots)[k] == v) by {
        lemma_contains_at(slots, from, k);
    }
    assert(table_map(slots).remove(k).insert(k, v) =~= table_map(slots));
}

/// How the occupied-slot count changes under a single-slot update.
pub proof fn lemma_count_update<V>(slots: Seq<Option<(u64, V)>>, i: int, x: Option<(u64, V)>)
    requires
        0 <= i < slots.len(),
    ensures
        count_live(slots.update(i, x)) + (if slots[i] is Some {
            1nat
        } else {
            0nat
        }) == count_live(slots) + (if x is Some {
            1nat
        } else {
            0nat
        }),
    decreases slots.len(),
{
    let slots2 = slots.update(i, x);
    if i == slots.len() - 1 {
        assert(slots2.drop_last() =~= slots.drop_last());
    } else {
        assert(slots2.drop_last() =~= slots.drop_last().update(i, x));
        lemma_count_update(slots.drop_last(), i, x);
    }
}

/// The keys of the occupied slots, in slot order.
pub open spec fn live_keys<V>(slots: Seq<Option<(u64, V)>>) -> Seq<u64>
    decreases slots.len(),
{
    if slots.len() == 0 {
        Seq::empty()
    } else if slots.last() is Some {
        live_keys(slots.drop_last()).push(slot_key(slots, slots.len() - 1))
    } else {
        live_keys(slots.drop_last())
    }
}

/// A key appears among the live keys exactly when some slot holds it.
pub proof fn lemma_live_keys_contains<V>(slots: Seq<Option<(u64, V)>>, k: u64)
    ensures
        live_keys(slots).contains(k) <==> table_contains(slots, k),
    decreases slots.len(),
{
    if slots.len() > 0 {
        let rest = slots.drop_last();
        let last = slots.len() - 1;
        lemma_live_keys_contains(rest, k);
        assert(forall|i: int| 0 <= i < rest.len() ==> rest[i] == #[trigger] slots[i]);
        assert(table_contains(rest, k) ==> table_contains(slots, k)) by {
            if table_contains(rest, k) {
                let i = choose|i: int| live_at(rest, i, k);
                assert(live_at(slots, i, k));
            }
        }
        if slots.last() is Some && slot_key(slots, last) == k {
            assert(live_at(slots, last, k));
            assert(live_keys(slots) == live_keys(rest).push(k));
            assert(live_keys(slots)[live_keys(slots).len() - 1] == k);
            assert(live_keys(slots).contains(k));
        } else {
            assert(table_contains(slots, k) ==> table_contains(rest, k)) by {
                if table_contains(slots, k) {
                    let i = choose|i: int| live_at(slots, i, k);
                    assert(i < last);
                    assert(live_at(rest, i, k));
                }
            }
            if slots.last() is Some {
                assert(live_keys(rest).contains(k) ==> live_keys(slots).contains(k)) by {
                    if live_keys(rest).contains(k) {
                        let i = choose|i: int|
                            0 <= i < live_keys(rest).len() && live_keys(rest)[i] == k;
                        assert(live_keys(slots) == live_keys(rest).push(
                            slot_key(slots, last),
                        ));
                        assert(live_keys(slots)[i] == k);
                        assert(live_keys(slots).contains(k));
                    }
                }
                assert(live_keys(slots).contains(k) ==> table_contains(slots, k)) by {
                    if live_keys(slots).contains(k) {
                        let i = choose|i: int|
                            0 <= i < live_keys(slots).len() && live_keys(slots)[i] == k;
                        assert(live_keys(slots) == live_keys(rest).push(
                            slot_key(slots, last),
                        ));
                        assert(i < live_keys(rest).len());
                        assert(live_keys(rest)[i] == k);
                        assert(live_keys(rest).contains(k));
                    }
                }
            }
        }
    }
}

/// There are as many live keys as occupied slots.
pub proof fn lemma_live_keys_len<V>(slots: Seq<Option<(u64, V)>>)
    ensures
        live_keys(slots).len() == count_live(slots),
    decreases slots.len(),
{
    if slots.len() > 0 {
        lemma_live_keys_len(slots.drop_last());
    }
}

/// With distinct keys in the slots, the live keys have no duplicates.
pub proof fn lemma_live_keys_distinct<V>(slots: Seq<Option<(u64, V)>>)
    requires
        slots_distinct(slots),
    ensures
        live_keys(slots).no_duplicates(),
    decreases slots.len(),
{
    if slots.len() > 0 {
        let rest = slots.drop_last();
        let last = slots.len() - 1;
        assert(forall|i: int| 0 <= i < rest.len() ==> rest[i] == #[trigger] slots[i]);
        assert forall|i: int, j: int|
            0 <= i < rest.len() && 0 <= j < rest.len() && i != j && rest[i] is Some
                && rest[j] is Some implies slot_key(rest, i) != slot_key(rest, j) by {
            assert(rest[i] == slots[i]);
            assert(rest[j] == slots[j]);
            assert(slot_key(slots, i) != slot_key(slots, j));
        }
        lemma_live_keys_distinct(rest);
        if slots.last() is Some {
            let k = slot_key(slots, last);
            assert(!live_keys(rest).contains(k)) by {
                lemma_live_keys_contains(rest, k);
                if table_contains(rest, k) {
                    let i = choose|i: int| live_at(rest, i, k);
                    assert(live_at(slots, i, k));
                    assert(slot_key(slots, i) == slot_key(slots, last));
                }
            }
        }
    }
}

/// The number of distinct live keys — the cardinality of the map a table
/// denotes — equals the occupied-slot count.
pub proof fn lemma_count_is_dom_len<V>(slots: Seq<Option<(u64, V)>>)
    requires
        slots_distinct(slots),
    ensures
        table_map(slots).dom().finite(),
        table_map(slots).dom().len() == count_live(slots),
{
    broadcast use vstd::seq_lib::seq_to_set_is_finite;

    let keys = live_keys(slots);
    lemma_live_keys_len(slots);
    lemma_live_keys_distinct(slots);
    keys.unique_seq_to_set();
    assert forall|k: u64| #[trigger]
        table_map(slots).dom().contains(k) implies keys.to_set().contains(k) by {
        lemma_live_keys_contains(slots, k);
    }
    assert forall|k: u64| #[trigger]
        keys.to_set().contains(k) implies table_map(slots).dom().contains(k) by {
        lemma_live_keys_contains(slots, k);
    }
    assert(table_map(slots).dom() =~= keys.to_set());
}

/// Number of FULL tags among the first `n`.
pub open spec fn count_full_tags(tags: Seq<u8>, n: int) -> nat
    decreases n,
{
    if n <= 0 {
        0
    } else {
        count_full_tags(tags, n - 1) + (if crate::control::tag_is_full(tags[n - 1]) {
            1nat
        } else {
            0nat
        })
    }
}

/// When tags and slots agree — a tag is FULL exactly when its slot is
/// occupied — the FULL tags are as many as the occupied slots.
pub proof fn lemma_full_tags_count<V>(tags: Seq<u8>, slots: Seq<Option<(u64, V)>>)
    requires
        slots.len() <= tags.len(),
        forall|i: int|
            0 <= i < slots.len() ==> (crate::control::tag_is_full(#[trigger] tags[i])
                <==> slots[i] is Some),
    ensures
        count_full_tags(tags, slots.len() as int) == count_live(slots),
    decreases slots.len(),
{
    if slots.len() > 0 {
        let rest = slots.drop_last();
        assert(forall|i: int| 0 <= i < rest.len() ==> rest[i] == #[trigger] slots[i]);
        lemma_full_tags_count(tags, rest);
    }
}

/// A slot array with every slot open denotes the empty map.
pub proof fn lemma_map_all_open<V>(slots: Seq<Option<(u64, V)>>)
    requires
        forall|i: int| 0 <= i < slots.len() ==> slots[i] is None,
    ensures
        slots_distinct(slots),
        table_map(slots) == Map::<u64, V>::empty(),
        count_live(slots) == 0,
    decreases slots.len(),
{
    if slots.len() > 0 {
        lemma_map_all_open(slots.drop_last());
    }
    assert forall|k2: u64| !(#[trigger] table_contains(slots, k2)) by {
        if table_contains(slots, k2) {
            let i = choose|j: int| live_at(slots, j, k2);
            assert(slots[i] is None);
        }
    }
    assert(table_map(slots) =~= Map::<u64, V>::empty());
}

} // verus!
