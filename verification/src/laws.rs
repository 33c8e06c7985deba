//! The laws every table variant obeys, stated once over the shared model.
//!
//! Each operation's own contract describes one step against the map view; the
//! lemmas here state what sequences of steps guarantee, and tie the reported
//! length to the distinct live keys and to the FULL tags.

use vstd::prelude::*;

use crate::model::{
    slots_distinct, table_map, count_live, count_full_tags, lemma_count_is_dom_len,
    lemma_full_tags_count,
};

verus! {

/// For every sequence of inserts and erases, the entry count a table reports
/// equals the number of distinct live keys: `len` returns the occupied-slot
/// count, which is the cardinality of the map view's domain.
pub proof fn lemma_len_is_distinct_live_keys<V>(slots: Seq<Option<(u64, V)>>)
    requires
        slots_distinct(slots),
    ensures
        table_map(slots).dom().finite(),
        table_map(slots).dom().len() == count_live(slots),
{
    lemma_count_is_dom_len(slots);
}

/// After any operation sequence on a tag-based variant, the number of FULL
/// tags equals the entry count: tags and slots agree slot by slot, and `len`
/// returns the occupied-slot count.
pub proof fn lemma_items_counts_full_tags<V>(tags: Seq<u8>, slots: Seq<Option<(u64, V)>>)
    requires
        slots.len() <= tags.len(),
        forall|i: int|
            0 <= i < slots.len() ==> (crate::control::tag_is_full(#[trigger] tags[i])
                <==> slots[i] is Some),
    ensures
        count_full_tags(tags, slots.len() as int) == count_live(slots),
{
    lemma_full_tags_count(tags, slots);
}

/// Inserting a binding and reading the key back yields that binding; a key
/// inserted and not erased since is bound to the value last inserted for it.
pub proof fn lemma_insert_then_get<V>(m: Map<u64, V>, k: u64, v: V)
    ensures
        m.insert(k, v).contains_key(k),
        m.insert(k, v)[k] == v,
{
}

/// A second insert of the same key overwrites the first binding: reading the
/// key afterwards yields the second value, and other keys are untouched.
pub proof fn lemma_insert_twice<V>(m: Map<u64, V>, k: u64, v1: V, v2: V)
    ensures
        m.insert(k, v1).insert(k, v2) == m.insert(k, v2),
{
    assert(m.insert(k, v1).insert(k, v2) =~= m.insert(k, v2));
}

/// Erasing a freshly inserted key restores the map, and a lookup of the key
/// afterwards finds nothing; a key never inserted, or erased since its last
/// insert, is absent.
pub proof fn lemma_insert_then_erase<V>(m: Map<u64, V>, k: u64, v: V)
    requires
        !m.contains_key(k),
    ensures
        m.insert(k, v).remove(k) == m,
        !m.insert(k, v).remove(k).contains_key(k),
{
    assert(m.insert(k, v).remove(k) =~= m);
}

} // verus!
