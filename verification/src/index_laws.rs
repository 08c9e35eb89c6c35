//! Which objects the catalog takes, and what it knows of them afterwards.
use vstd::prelude::*;

use crate::catalog::{
    by_region, conflict_from, conflict_of, duplicate_from, floor_of_ids, has_region,
    increasing_by_region, insert_by_region, invalid_range_from, lemma_by_region, lemma_entry_of,
    lemma_floor_of_ids, lemma_insert_keeps_valid, lemma_next_seq_is_fresh,
    lemma_no_duplicate_in_increasing, lemma_no_invalid_range, region_objects, CatalogModel,
};
use crate::error::Corruption;
use crate::format::FooterEntry;
use crate::id::{floor_of, EntryId, RegionId};
use crate::ordmap::{
    is_largest_below, is_smallest_above, largest_below, lemma_lists_keys, ordered_keys,
    smallest_above,
};

verus! {

/// No region has two segments.
pub open spec fn lists_regions_once(footer: Seq<FooterEntry>) -> bool {
    forall|i: int, j: int|
        0 <= i < j < footer.len() ==> (#[trigger] footer[i]).region_id != (
        #[trigger] footer[j]).region_id
}

/// The segment follows every segment of its region in a lower object and precedes every one in a
/// higher object.
pub open spec fn is_in_order(
    objects: Map<u64, Seq<FooterEntry>>,
    object_seq: u64,
    entry: FooterEntry,
) -> bool {
    forall|other: u64, k: int|
        objects.contains_key(other) && 0 <= k < objects[other].len() && (
        #[trigger] objects[other][k]).region_id == entry.region_id ==> {
            &&& other < object_seq ==> objects[other][k].max_entry_id < entry.min_entry_id
            &&& other > object_seq ==> entry.max_entry_id < objects[other][k].min_entry_id
        }
}

/// The footer can be indexed: it has segments, one per region at most, each with entries and a
/// range that does not run backwards; the sequence is new; and the segments are in order with
/// those of every indexed object.
pub open spec fn can_be_indexed(
    catalog: CatalogModel,
    object_seq: u64,
    footer: Seq<FooterEntry>,
) -> bool {
    &&& footer.len() > 0
    &&& lists_regions_once(footer)
    &&& forall|i: int|
        0 <= i < footer.len() ==> (#[trigger] footer[i]).entry_count > 0 && footer[i].min_entry_id
            <= footer[i].max_entry_id
    &&& !catalog.objects.contains_key(object_seq)
    &&& forall|i: int|
        0 <= i < footer.len() ==> is_in_order(catalog.objects, object_seq, #[trigger] footer[i])
}

proof fn lemma_insert_place(sorted: Seq<FooterEntry>, entry: FooterEntry) -> (p: int)
    ensures
        0 <= p <= sorted.len(),
        insert_by_region(sorted, entry) == sorted.insert(p, entry),
    decreases sorted.len(),
{
    if sorted.len() == 0 || sorted.last().region_id.0 <= entry.region_id.0 {
        assert(sorted.push(entry) =~= sorted.insert(sorted.len() as int, entry));
        sorted.len() as int
    } else {
        let rest = sorted.drop_last();
        let p = lemma_insert_place(rest, entry);
        assert(rest.insert(p, entry).push(sorted.last()) =~= sorted.insert(p, entry));
        p
    }
}

/// Ordering a footer keeps its segments.
pub(crate) proof fn lemma_same_segments(footer: Seq<FooterEntry>)
    ensures
        forall|x: FooterEntry| #[trigger] by_region(footer).contains(x) <==> footer.contains(x),
{
    lemma_by_region(footer);
    footer.to_multiset_ensures();
    by_region(footer).to_multiset_ensures();
    assert forall|x: FooterEntry| #[trigger] by_region(footer).contains(x) <==> footer.contains(
        x,
    ) by {
        assert(footer.contains(x) <==> footer.to_multiset().count(x) > 0);
        assert(by_region(footer).contains(x) <==> by_region(footer).to_multiset().count(x) > 0);
    }
}

pub(crate) proof fn lemma_increasing_iff_once(footer: Seq<FooterEntry>)
    ensures
        increasing_by_region(by_region(footer)) <==> lists_regions_once(footer),
    decreases footer.len(),
{
    if footer.len() > 0 {
        let rest = footer.drop_last();
        let last = footer.last();
        let sorted = by_region(rest);
        let all = by_region(footer);
        let p = lemma_insert_place(sorted, last);
        lemma_increasing_iff_once(rest);
        lemma_same_segments(rest);
        lemma_by_region(footer);
        lemma_by_region(rest);
        assert(all == sorted.insert(p, last));
        assert(all[p] == last);
        assert forall|i: int| 0 <= i < sorted.len() implies #[trigger] sorted[i] == all[if i < p {
            i
        } else {
            i + 1
        }] by {}
        if increasing_by_region(all) {
            assert forall|i: int, j: int| 0 <= i < j < sorted.len() implies sorted[i].region_id.0
                < sorted[j].region_id.0 by {
                let a = if i < p {
                    i
                } else {
                    i + 1
                };
                let b = if j < p {
                    j
                } else {
                    j + 1
                };
                assert(all[a].region_id.0 < all[b].region_id.0);
            }
            assert(lists_regions_once(rest));
            assert forall|i: int, j: int| 0 <= i < j < footer.len() implies (
            #[trigger] footer[i]).region_id != (#[trigger] footer[j]).region_id by {
                if j < rest.len() {
                    assert(rest[i].region_id != rest[j].region_id);
                } else {
                    assert(rest.contains(rest[i]));
                    assert(by_region(rest).contains(rest[i]));
                    let k = sorted.index_of(rest[i]);
                    assert(sorted[k] == rest[i]);
                    let a = if k < p {
                        k
                    } else {
                        k + 1
                    };
                    assert(all[a] == footer[i]);
                    if a < p {
                        assert(all[a].region_id.0 < all[p].region_id.0);
                    } else {
                        assert(all[p].region_id.0 < all[a].region_id.0);
                    }
                }
            }
        }
        if lists_regions_once(footer) {
            assert(lists_regions_once(rest)) by {
                assert forall|i: int, j: int| 0 <= i < j < rest.len() implies (
                #[trigger] rest[i]).region_id != (#[trigger] rest[j]).region_id by {
                    assert(footer[i].region_id != footer[j].region_id);
                }
            }
            assert forall|k: int| 0 <= k < sorted.len() implies (
            #[trigger] sorted[k]).region_id != last.region_id by {
                assert(sorted.contains(sorted[k]));
                let i = rest.index_of(sorted[k]);
                assert(rest[i] == footer[i]);
                assert(footer[i].region_id != footer[footer.len() - 1].region_id);
            }
            assert forall|i: int, j: int| 0 <= i < j < all.len() implies all[i].region_id.0
                < all[j].region_id.0 by {
                assert(all[i].region_id.0 <= all[j].region_id.0);
                if i == p {
                    assert(all[j] == sorted[j - 1]);
                } else if j == p {
                    assert(all[i] == sorted[i]);
                } else {
                    let a = if i < p {
                        i
                    } else {
                        i - 1
                    };
                    let b = if j < p {
                        j
                    } else {
                        j - 1
                    };
                    assert(all[i] == sorted[a] && all[j] == sorted[b]);
                    assert(sorted[a].region_id.0 < sorted[b].region_id.0);
                }
            }
        }
    }
}

proof fn lemma_in_order_has_no_conflict(
    objects: Map<u64, Seq<FooterEntry>>,
    object_seq: u64,
    footer: Seq<FooterEntry>,
    from: int,
)
    requires
        0 <= from,
        !objects.contains_key(object_seq),
        forall|i: int|
            0 <= i < footer.len() ==> is_in_order(objects, object_seq, #[trigger] footer[i]),
    ensures
        conflict_from(objects, object_seq, footer, from) is None,
    decreases footer.len() - from,
{
    if from < footer.len() {
        let entry = footer[from];
        let region = entry.region_id.0;
        let model = region_objects(objects, region);
        assert(is_in_order(objects, object_seq, footer[from]));
        assert(conflict_of(objects, object_seq, entry) is None) by {
            if let Some(below) = largest_below(model, object_seq) {
                let chosen = choose|b: u64| is_largest_below(model, object_seq, b);
                assert(is_largest_below(model, object_seq, chosen));
                lemma_segment_of(objects, region, below);
            }
            if let Some(above) = smallest_above(model, object_seq) {
                let chosen = choose|b: u64| is_smallest_above(model, object_seq, b);
                assert(is_smallest_above(model, object_seq, chosen));
                lemma_segment_of(objects, region, above);
            }
        }
        lemma_in_order_has_no_conflict(objects, object_seq, footer, from + 1);
    }
}

/// The segment of a region in an object is one of the segments of the object.
proof fn lemma_segment_of(objects: Map<u64, Seq<FooterEntry>>, region: u64, seq: u64) -> (k: int)
    requires
        region_objects(objects, region).contains_key(seq),
    ensures
        objects.contains_key(seq),
        0 <= k < objects[seq].len(),
        objects[seq][k].region_id.0 == region,
        region_objects(objects, region)[seq] == objects[seq][k],
{
    let footer = objects[seq];
    let k = choose|i: int| 0 <= i < footer.len() && (#[trigger] footer[i]).region_id.0 == region;
    assert(has_region(footer, region));
    k
}

/// The catalog takes exactly the footers that can be indexed.
pub proof fn lemma_accepted_iff(
    catalog: CatalogModel,
    object_seq: u64,
    footer: Seq<FooterEntry>,
)
    requires
        catalog.valid(),
    ensures
        catalog.rejection(object_seq, footer) is None <==> can_be_indexed(
            catalog,
            object_seq,
            footer,
        ),
{
    let sorted = by_region(footer);
    lemma_by_region(footer);
    lemma_same_segments(footer);
    lemma_increasing_iff_once(footer);
    if can_be_indexed(catalog, object_seq, footer) {
        lemma_no_duplicate_in_increasing(object_seq, sorted, 0);
        assert forall|k: int| 0 <= k < sorted.len() implies crate::catalog::valid_range(
            #[trigger] sorted[k],
        ) && is_in_order(catalog.objects, object_seq, sorted[k]) by {
            assert(sorted.contains(sorted[k]));
            let i = footer.index_of(sorted[k]);
            assert(footer[i] == sorted[k]);
        }
        lemma_no_invalid_range(object_seq, sorted, 0);
        lemma_in_order_has_no_conflict(catalog.objects, object_seq, sorted, 0);
    }
    if catalog.rejection(object_seq, footer) is None {
        let after = catalog.inserted(object_seq, footer);
        lemma_insert_keeps_valid(catalog, object_seq, footer);
        assert(after.objects.contains_key(object_seq));
        assert(after.objects[object_seq] == sorted);
        assert forall|i: int| 0 <= i < footer.len() implies (
        #[trigger] footer[i]).entry_count > 0 && footer[i].min_entry_id <= footer[i].max_entry_id
            && is_in_order(catalog.objects, object_seq, footer[i]) by {
            let entry = footer[i];
            assert(footer.contains(entry));
            assert(by_region(footer).contains(entry));
            let at = sorted.index_of(entry);
            assert(crate::catalog::valid_range(after.objects[object_seq][at]));
            lemma_entry_of(sorted, at);
            let region = entry.region_id.0;
            assert(after.region(region).contains_key(object_seq));
            assert forall|other: u64, k: int|
                catalog.objects.contains_key(other) && 0 <= k < catalog.objects[other].len() && (
                #[trigger] catalog.objects[other][k]).region_id == entry.region_id implies {
                &&& other < object_seq ==> catalog.objects[other][k].max_entry_id
                    < entry.min_entry_id
                &&& other > object_seq ==> entry.max_entry_id
                    < catalog.objects[other][k].min_entry_id
            } by {
                lemma_entry_of(catalog.objects[other], k);
                assert(after.objects.contains_key(other) && after.objects[other]
                    == catalog.objects[other]);
                assert(after.region(region).contains_key(other));
                assert(after.region(region)[other] == catalog.objects[other][k]);
                assert(after.region(region)[object_seq] == entry);
            }
        }
    }
}

/// What the catalog knows after it took a footer: the object with the same segments, by region,
/// every other object as before, and for each region the largest id that it had or that the
/// footer brings.
pub proof fn lemma_indexed_footer(
    catalog: CatalogModel,
    object_seq: u64,
    footer: Seq<FooterEntry>,
)
    requires
        catalog.valid(),
        can_be_indexed(catalog, object_seq, footer),
    ensures
        ({
            let after = catalog.inserted(object_seq, footer);
            &&& after.valid()
            &&& after.objects.contains_key(object_seq)
            &&& after.objects[object_seq].to_multiset() == footer.to_multiset()
            &&& increasing_by_region(after.objects[object_seq])
            &&& forall|seq: u64|
                seq != object_seq ==> (#[trigger] after.objects.contains_key(seq)
                    <==> catalog.objects.contains_key(seq))
            &&& forall|seq: u64| #[trigger]
                catalog.objects.contains_key(seq) ==> after.objects[seq] == catalog.objects[seq]
            &&& forall|i: int|
                0 <= i < footer.len() ==> is_max_of(
                    catalog.max_ids,
                    after.max_ids,
                    #[trigger] footer[i],
                )
            &&& forall|region: u64|
                (forall|i: int|
                    0 <= i < footer.len() ==> (#[trigger] footer[i]).region_id.0 != region)
                    ==> (#[trigger] after.max_ids.contains_key(region)
                    <==> catalog.max_ids.contains_key(region)) && (
                catalog.max_ids.contains_key(region) ==> after.max_ids[region]
                    == catalog.max_ids[region])
        }),
{
    let after = catalog.inserted(object_seq, footer);
    let sorted = by_region(footer);
    lemma_accepted_iff(catalog, object_seq, footer);
    lemma_insert_keeps_valid(catalog, object_seq, footer);
    lemma_by_region(footer);
    lemma_same_segments(footer);
    lemma_increasing_iff_once(footer);
    assert forall|i: int| 0 <= i < footer.len() implies is_max_of(
        catalog.max_ids,
        after.max_ids,
        #[trigger] footer[i],
    ) by {
        assert(footer.contains(footer[i]));
        assert(by_region(footer).contains(footer[i]));
        let at = sorted.index_of(footer[i]);
        assert(sorted[at] == footer[i]);
        lemma_entry_of(sorted, at);
    }
    assert forall|region: u64|
        (forall|i: int|
            0 <= i < footer.len() ==> (#[trigger] footer[i]).region_id.0 != region) implies (
    #[trigger] after.max_ids.contains_key(region) <==> catalog.max_ids.contains_key(region)) && (
    catalog.max_ids.contains_key(region) ==> after.max_ids[region]
        == catalog.max_ids[region]) by {
        if has_region(sorted, region) {
            let k = choose|k: int|
                0 <= k < sorted.len() && (#[trigger] sorted[k]).region_id.0 == region;
            assert(sorted.contains(sorted[k]));
            let i = footer.index_of(sorted[k]);
            assert(footer[i].region_id.0 != region);
        }
    }
}

/// The largest id of the region of the segment is the larger of what it was and what the segment
/// brings.
pub open spec fn is_max_of(
    before: Map<u64, EntryId>,
    after: Map<u64, EntryId>,
    entry: FooterEntry,
) -> bool {
    let region = entry.region_id.0;
    &&& after.contains_key(region)
    &&& after[region] >= entry.max_entry_id
    &&& before.contains_key(region) ==> after[region] >= before[region]
    &&& after[region] == entry.max_entry_id || before.contains_key(region) && after[region]
        == before[region]
}

/// A sequence above every indexed object, all of whose ids are above every id that was ever
/// indexed.
pub open spec fn is_unused(catalog: CatalogModel, object_seq: int) -> bool {
    &&& 0 <= object_seq
    &&& forall|seq: u64| #[trigger] catalog.objects.contains_key(seq) ==> seq < object_seq
    &&& forall|region: u64| #[trigger]
        catalog.max_ids.contains_key(region) ==> catalog.max_ids[region] <= object_seq * 1_048_576
}

/// The next sequence is the least one that is unused.
pub proof fn lemma_next_seq_is_the_least_unused(catalog: CatalogModel)
    requires
        catalog.valid(),
    ensures
        is_unused(catalog, catalog.next_seq()),
        forall|n: int| #[trigger] is_unused(catalog, n) ==> catalog.next_seq() <= n,
{
    lemma_next_seq_is_fresh(catalog);
    lemma_floor_of_ids(catalog.max_ids);
    lemma_lists_keys(catalog.objects);
    assert forall|region: u64| #[trigger]
        catalog.max_ids.contains_key(region) implies catalog.max_ids[region] <= catalog.next_seq()
        * 1_048_576 by {
        assert(floor_of(catalog.max_ids[region] as int) <= catalog.next_seq());
    }
    assert forall|n: int| #[trigger] is_unused(catalog, n) implies catalog.next_seq() <= n by {
        if catalog.objects.dom().len() > 0 {
            let keys = ordered_keys(catalog.objects);
            assert(keys.contains(keys.last()));
            assert(catalog.objects.contains_key(catalog.last_seq()));
        }
        if floor_of_ids(catalog.max_ids) > 0 {
            let region = choose|region: u64| #[trigger]
                catalog.max_ids.contains_key(region) && floor_of(catalog.max_ids[region] as int)
                    == floor_of_ids(catalog.max_ids);
            assert(catalog.max_ids[region] <= n * 1_048_576);
        }
    }
}

/// The reason tells of the segment at place `i`, whose range is no range.
pub open spec fn is_bad_range(
    object_seq: u64,
    footer: Seq<FooterEntry>,
    i: int,
    reason: Corruption,
) -> bool {
    &&& 0 <= i < footer.len()
    &&& footer[i].entry_count == 0 || footer[i].min_entry_id > footer[i].max_entry_id
    &&& reason == (Corruption::InvalidEntryRange {
        object_seq,
        region_id: footer[i].region_id,
        min_entry_id: footer[i].min_entry_id,
        max_entry_id: footer[i].max_entry_id,
        entry_count: footer[i].entry_count,
    })
}

/// The object holds a segment of the region that ends or starts with the id.
pub open spec fn holds_id(
    objects: Map<u64, Seq<FooterEntry>>,
    object_seq: u64,
    region_id: RegionId,
    id: EntryId,
    ends: bool,
) -> bool {
    objects.contains_key(object_seq) && exists|k: int|
        0 <= k < objects[object_seq].len() && (#[trigger] objects[object_seq][k]).region_id
            == region_id && id == (if ends {
            objects[object_seq][k].max_entry_id
        } else {
            objects[object_seq][k].min_entry_id
        })
}

proof fn lemma_duplicate_is_there(object_seq: u64, footer: Seq<FooterEntry>, from: int)
    requires
        0 <= from,
        duplicate_from(object_seq, footer, from) is Some,
    ensures
        duplicate_from(object_seq, footer, from) matches Some(Corruption::DuplicateRegion {
            object_seq: seq,
            region_id,
        }) && seq == object_seq && exists|i: int|
            0 <= i < footer.len() && (#[trigger] footer[i]).region_id == region_id,
    decreases footer.len() - from,
{
    if from + 1 < footer.len() && footer[from].region_id != footer[from + 1].region_id {
        lemma_duplicate_is_there(object_seq, footer, from + 1);
    }
}

proof fn lemma_bad_range_is_there(object_seq: u64, footer: Seq<FooterEntry>, from: int) -> (at: int)
    requires
        0 <= from,
        invalid_range_from(object_seq, footer, from) is Some,
    ensures
        from <= at < footer.len(),
        footer[at].entry_count == 0 || footer[at].min_entry_id > footer[at].max_entry_id,
        invalid_range_from(object_seq, footer, from) == Some(
            Corruption::InvalidEntryRange {
                object_seq,
                region_id: footer[at].region_id,
                min_entry_id: footer[at].min_entry_id,
                max_entry_id: footer[at].max_entry_id,
                entry_count: footer[at].entry_count,
            },
        ),
    decreases footer.len() - from,
{
    if crate::catalog::valid_range(footer[from]) {
        lemma_bad_range_is_there(object_seq, footer, from + 1)
    } else {
        from
    }
}

proof fn lemma_conflict_is_there(
    objects: Map<u64, Seq<FooterEntry>>,
    object_seq: u64,
    footer: Seq<FooterEntry>,
    from: int,
)
    requires
        0 <= from,
        conflict_from(objects, object_seq, footer, from) is Some,
    ensures
        conflict_from(objects, object_seq, footer, from) matches Some(reason)
            && is_true_conflict(objects, object_seq, reason),
    decreases footer.len() - from,
{
    if from < footer.len() {
        let entry = footer[from];
        let region = entry.region_id.0;
        let model = region_objects(objects, region);
        if conflict_of(objects, object_seq, entry) is Some {
            if let Some(below) = largest_below(model, object_seq) {
                let chosen = choose|b: u64| is_largest_below(model, object_seq, b);
                assert(is_largest_below(model, object_seq, chosen));
                let k = lemma_segment_of(objects, region, below);
                assert(objects[below][k].region_id == entry.region_id);
            }
            if let Some(above) = smallest_above(model, object_seq) {
                let chosen = choose|b: u64| is_smallest_above(model, object_seq, b);
                assert(is_smallest_above(model, object_seq, chosen));
                let k = lemma_segment_of(objects, region, above);
                assert(objects[above][k].region_id == entry.region_id);
            }
        } else {
            lemma_conflict_is_there(objects, object_seq, footer, from + 1);
        }
    }
}

/// The reason tells of two objects of which the lower does not end before the upper starts: one is
/// the object in question, and the other is indexed and holds the id that is told of.
pub open spec fn is_true_conflict(
    objects: Map<u64, Seq<FooterEntry>>,
    object_seq: u64,
    reason: Corruption,
) -> bool {
    reason matches Corruption::OutOfOrder {
        region_id,
        lower_object_seq,
        lower_max_entry_id,
        upper_object_seq,
        upper_min_entry_id,
    } && {
        &&& lower_object_seq < upper_object_seq
        &&& lower_max_entry_id >= upper_min_entry_id
        &&& (upper_object_seq == object_seq && holds_id(
            objects,
            lower_object_seq,
            region_id,
            lower_max_entry_id,
            true,
        )) || (lower_object_seq == object_seq && holds_id(
            objects,
            upper_object_seq,
            region_id,
            upper_min_entry_id,
            false,
        ))
    }
}

/// The reason that a footer is not taken for is true: there is no segment; two segments are of the
/// region that is told of; the segment that is told of has no range; the sequence is indexed; or
/// the two objects that are told of overlap.
pub proof fn lemma_rejection_is_true(
    catalog: CatalogModel,
    object_seq: u64,
    footer: Seq<FooterEntry>,
)
    ensures
        catalog.rejection(object_seq, footer) == Some(Corruption::EmptyFooter { object_seq })
            <==> footer.len() == 0,
        catalog.rejection(object_seq, footer) matches Some(Corruption::DuplicateRegion {
            object_seq: seq,
            region_id,
        }) ==> seq == object_seq && !lists_regions_once(footer) && exists|i: int|
            0 <= i < footer.len() && (#[trigger] footer[i]).region_id == region_id,
        catalog.rejection(object_seq, footer) matches Some(reason) && reason is InvalidEntryRange
            ==> exists|i: int| #[trigger]
            is_bad_range(object_seq, footer, i, catalog.rejection(object_seq, footer)->0),
        catalog.rejection(object_seq, footer) matches Some(Corruption::AlreadyIndexed {
            object_seq: seq,
        }) ==> seq == object_seq && catalog.objects.contains_key(object_seq),
        catalog.rejection(object_seq, footer) matches Some(reason) && reason is OutOfOrder
            ==> is_true_conflict(
            catalog.objects,
            object_seq,
            catalog.rejection(object_seq, footer)->0,
        ),
{
    let sorted = by_region(footer);
    lemma_same_segments(footer);
    lemma_increasing_iff_once(footer);
    if footer.len() > 0 {
        if duplicate_from(object_seq, sorted, 0) is Some {
            lemma_duplicate_is_there(object_seq, sorted, 0);
            if increasing_by_region(sorted) {
                lemma_no_duplicate_in_increasing(object_seq, sorted, 0);
            }
            if let Some(Corruption::DuplicateRegion { region_id, .. }) = duplicate_from(
                object_seq,
                sorted,
                0,
            ) {
                let k = choose|k: int|
                    0 <= k < sorted.len() && (#[trigger] sorted[k]).region_id == region_id;
                assert(by_region(footer).contains(sorted[k]));
                let i = footer.index_of(sorted[k]);
                assert(footer[i].region_id == region_id);
            }
        } else if invalid_range_from(object_seq, sorted, 0) is Some {
            let k = lemma_bad_range_is_there(object_seq, sorted, 0);
            let entry = sorted[k];
            assert(by_region(footer).contains(entry));
            let i = footer.index_of(entry);
            assert(footer[i] == entry);
            assert(is_bad_range(
                object_seq,
                footer,
                i,
                catalog.rejection(object_seq, footer)->0,
            ));
        } else if !catalog.objects.contains_key(object_seq) && conflict_from(
            catalog.objects,
            object_seq,
            sorted,
            0,
        ) is Some {
            lemma_conflict_is_there(catalog.objects, object_seq, sorted, 0);
        }
    }
}

} // verus!
