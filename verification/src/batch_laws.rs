//! The ids of an open batch, entry by entry.
use vstd::prelude::*;

use crate::batch::{last_ids, lemma_count_of_gap, numbered};
use crate::id::EntryId;
use crate::logstore::{count_region, lemma_count_monotone, lemma_count_positive, Entry};

verus! {

/// The entry at place `i` is the first of its region.
pub open spec fn is_first(entries: Seq<Entry>, i: int) -> bool {
    &&& 0 <= i < entries.len()
    &&& forall|k: int| 0 <= k < i ==> (#[trigger] entries[k]).region_id != entries[i].region_id
}

/// The entry at place `i` is the last of its region.
pub open spec fn is_last(entries: Seq<Entry>, i: int) -> bool {
    &&& 0 <= i < entries.len()
    &&& forall|k: int|
        i < k < entries.len() ==> (#[trigger] entries[k]).region_id != entries[i].region_id
}

/// The ids that are left of a region suffice for its entries.
pub open spec fn ids_suffice(accepted: Map<u64, EntryId>, entries: Seq<Entry>) -> bool {
    forall|region: u64| #[trigger]
        count_region(entries, region) + (if accepted.contains_key(region) {
            accepted[region] as int
        } else {
            0
        }) <= u64::MAX
}

/// Admission changes nothing but ids, and keeps the order.
pub proof fn lemma_admission_keeps_entries(
    accepted: Map<u64, EntryId>,
    entries: Seq<Entry>,
    i: int,
)
    requires
        0 <= i < entries.len(),
    ensures
        numbered(accepted, entries).len() == entries.len(),
        numbered(accepted, entries)[i].provider == entries[i].provider,
        numbered(accepted, entries)[i].region_id == entries[i].region_id,
        numbered(accepted, entries)[i].data == entries[i].data,
        numbered(accepted, entries)[i].complete == entries[i].complete,
        numbered(accepted, entries)[i].estimated_size == entries[i].estimated_size,
{
}

/// The first entry of a region gets the id after the largest accepted one, and one if there is
/// none.
pub proof fn lemma_first_id(accepted: Map<u64, EntryId>, entries: Seq<Entry>, i: int)
    requires
        is_first(entries, i),
        ids_suffice(accepted, entries),
    ensures
        ({
            let region = entries[i].region_id.0;
            let id = numbered(accepted, entries)[i].entry_id;
            &&& accepted.contains_key(region) ==> id == accepted[region] + 1
            &&& !accepted.contains_key(region) ==> id == 1
        }),
{
    let region = entries[i].region_id.0;
    lemma_count_of_gap(entries, region, 0, i);
    assert(entries.take(0) =~= Seq::empty());
    assert(entries.take(i + 1).drop_last() =~= entries.take(i));
    lemma_count_monotone(entries, region, i + 1, entries.len() as int);
    assert(entries.take(entries.len() as int) =~= entries);
    assert(count_region(entries, region) + (if accepted.contains_key(region) {
        accepted[region] as int
    } else {
        0
    }) <= u64::MAX);
}

/// The id that is returned for a region is that of its last entry, and there is one exactly for
/// the regions of the entries.
pub proof fn lemma_last_id(accepted: Map<u64, EntryId>, entries: Seq<Entry>)
    ensures
        forall|i: int|
            0 <= i < entries.len() ==> last_ids(accepted, entries).contains_key(
                (#[trigger] entries[i]).region_id.0,
            ),
        forall|region: u64| #[trigger]
            last_ids(accepted, entries).contains_key(region) ==> exists|i: int|
                0 <= i < entries.len() && (#[trigger] entries[i]).region_id.0 == region,
        forall|i: int| #[trigger]
            is_last(entries, i) ==> last_ids(accepted, entries)[entries[i].region_id.0]
                == numbered(accepted, entries)[i].entry_id,
{
    assert forall|i: int| 0 <= i < entries.len() implies last_ids(accepted, entries).contains_key(
        (#[trigger] entries[i]).region_id.0,
    ) by {
        lemma_count_positive(entries, entries[i].region_id.0);
    }
    assert forall|region: u64| #[trigger]
        last_ids(accepted, entries).contains_key(region) implies exists|i: int|
        0 <= i < entries.len() && (#[trigger] entries[i]).region_id.0 == region by {
        lemma_count_positive(entries, region);
    }
    assert forall|i: int| #[trigger] is_last(entries, i) implies last_ids(
        accepted,
        entries,
    )[entries[i].region_id.0] == numbered(accepted, entries)[i].entry_id by {
        let region = entries[i].region_id.0;
        lemma_count_of_gap(entries, region, i + 1, entries.len() as int);
        assert(entries.take(entries.len() as int) =~= entries);
        lemma_count_positive(entries, region);
        assert(entries[i].region_id.0 == region);
    }
}

} // verus!
