//! In-memory index over the footers of the objects of one log prefix.
use std::collections::HashMap;

use vstd::prelude::*;
use vstd::std_specs::hash::*;

use crate::error::{Corruption, Error};
use crate::format::FooterEntry;
use crate::id::{
    floor_of, id_at, lemma_floor_is_least, lemma_floor_is_monotone, sequence_floor, EntryId,
    RegionId, OBJECT_SEQ_LIMIT,
};
use crate::ordmap::{
    largest_below, lemma_largest_below_exists, lemma_lists_keys, lemma_ordered_keys,
    lemma_ordered_keys_of_domain, lemma_smallest_above_exists, lists_keys, ordered_keys,
    smallest_above, strictly_increasing, OrdMap,
};

verus! {

broadcast use group_hash_axioms;

/// Indexes objects by sequence and, per region, the objects that hold entries of that region.
#[derive(Debug)]
pub struct ObjectCatalog {
    objects: OrdMap<Vec<FooterEntry>>,
    regions: OrdMap<RegionObjects>,
}

/// The objects that hold entries of one region, by sequence, and the largest entry id the region
/// ever had indexed. The id outlives the removal of the object that held it, so that a durability
/// wait or an obsolete watermark keeps its reference point after the object was collected.
#[derive(Debug)]
struct RegionObjects {
    objects: OrdMap<FooterEntry>,
    max_entry_id: EntryId,
}

/// One pass of [`ObjectCatalog::deletable_objects`].
#[derive(Debug, PartialEq, Eq)]
pub struct DeletableObjects {
    /// The objects the pass accepted, in sequence order.
    pub objects: Vec<u64>,
    /// The sequence the next pass starts at, zero once a pass reached the end of the catalog, so
    /// that a sweep wraps and objects a pass left behind are seen again.
    pub resume_from: u64,
}

/// What a catalog holds: the footers by object sequence, and per region the largest entry id that
/// was ever indexed.
pub struct CatalogModel {
    pub objects: Map<u64, Seq<FooterEntry>>,
    pub max_ids: Map<u64, EntryId>,
}

/// Whether `footer` has a segment of the region.
pub open spec fn has_region(footer: Seq<FooterEntry>, region: u64) -> bool {
    exists|i: int| 0 <= i < footer.len() && (#[trigger] footer[i]).region_id.0 == region
}

/// The segment of the region in `footer`.
pub open spec fn entry_of(footer: Seq<FooterEntry>, region: u64) -> FooterEntry {
    footer[choose|i: int| 0 <= i < footer.len() && (#[trigger] footer[i]).region_id.0 == region]
}

/// The objects that hold a segment of the region, with that segment.
pub open spec fn region_objects(
    objects: Map<u64, Seq<FooterEntry>>,
    region: u64,
) -> Map<u64, FooterEntry> {
    Map::new(
        |seq: u64| objects.contains_key(seq) && has_region(objects[seq], region),
        |seq: u64| entry_of(objects[seq], region),
    )
}

/// `sorted` with `entry` behind the last entry whose region is not larger.
pub open spec fn insert_by_region(sorted: Seq<FooterEntry>, entry: FooterEntry) -> Seq<FooterEntry>
    decreases sorted.len(),
{
    if sorted.len() == 0 || sorted.last().region_id.0 <= entry.region_id.0 {
        sorted.push(entry)
    } else {
        insert_by_region(sorted.drop_last(), entry).push(sorted.last())
    }
}

/// The entries of a footer ordered by region.
pub open spec fn by_region(footer: Seq<FooterEntry>) -> Seq<FooterEntry>
    decreases footer.len(),
{
    if footer.len() == 0 {
        footer
    } else {
        insert_by_region(by_region(footer.drop_last()), footer.last())
    }
}

/// Regions never decrease along the footer.
pub open spec fn ordered_by_region(footer: Seq<FooterEntry>) -> bool {
    forall|i: int, j: int|
        0 <= i <= j < footer.len() ==> footer[i].region_id.0 <= footer[j].region_id.0
}

/// Regions strictly increase along the footer.
pub open spec fn increasing_by_region(footer: Seq<FooterEntry>) -> bool {
    forall|i: int, j: int|
        0 <= i < j < footer.len() ==> footer[i].region_id.0 < footer[j].region_id.0
}

/// The first region that two neighbours from place `i` on share.
pub open spec fn duplicate_from(object_seq: u64, footer: Seq<FooterEntry>, i: int) -> Option<
    Corruption,
>
    decreases footer.len() - i,
{
    if i + 1 >= footer.len() {
        None
    } else if footer[i].region_id == footer[i + 1].region_id {
        Some(Corruption::DuplicateRegion { object_seq, region_id: footer[i].region_id })
    } else {
        duplicate_from(object_seq, footer, i + 1)
    }
}

/// A segment holds entries and its range does not run backwards.
pub open spec fn valid_range(entry: FooterEntry) -> bool {
    entry.entry_count > 0 && entry.min_entry_id <= entry.max_entry_id
}

/// The first segment from place `i` on whose entry range is invalid.
pub open spec fn invalid_range_from(object_seq: u64, footer: Seq<FooterEntry>, i: int) -> Option<
    Corruption,
>
    decreases footer.len() - i,
{
    if i >= footer.len() {
        None
    } else if !valid_range(footer[i]) {
        Some(
            Corruption::InvalidEntryRange {
                object_seq,
                region_id: footer[i].region_id,
                min_entry_id: footer[i].min_entry_id,
                max_entry_id: footer[i].max_entry_id,
                entry_count: footer[i].entry_count,
            },
        )
    } else {
        invalid_range_from(object_seq, footer, i + 1)
    }
}

/// Where `entry`, in the object `object_seq`, is not strictly between the entries that the
/// neighbouring objects of its region hold.
pub open spec fn conflict_of(
    objects: Map<u64, Seq<FooterEntry>>,
    object_seq: u64,
    entry: FooterEntry,
) -> Option<Corruption> {
    let region = region_objects(objects, entry.region_id.0);
    let below = largest_below(region, object_seq);
    let above = smallest_above(region, object_seq);
    if below matches Some(seq) && region[seq].max_entry_id >= entry.min_entry_id {
        Some(
            Corruption::OutOfOrder {
                region_id: entry.region_id,
                lower_object_seq: below->0,
                lower_max_entry_id: region[below->0].max_entry_id,
                upper_object_seq: object_seq,
                upper_min_entry_id: entry.min_entry_id,
            },
        )
    } else if above matches Some(seq) && entry.max_entry_id >= region[seq].min_entry_id {
        Some(
            Corruption::OutOfOrder {
                region_id: entry.region_id,
                lower_object_seq: object_seq,
                lower_max_entry_id: entry.max_entry_id,
                upper_object_seq: above->0,
                upper_min_entry_id: region[above->0].min_entry_id,
            },
        )
    } else {
        None
    }
}

/// The first conflict of the segments from place `i` on with the indexed ones.
pub open spec fn conflict_from(
    objects: Map<u64, Seq<FooterEntry>>,
    object_seq: u64,
    footer: Seq<FooterEntry>,
    i: int,
) -> Option<Corruption>
    decreases footer.len() - i,
{
    if i >= footer.len() {
        None
    } else if conflict_of(objects, object_seq, footer[i]) is Some {
        conflict_of(objects, object_seq, footer[i])
    } else {
        conflict_from(objects, object_seq, footer, i + 1)
    }
}

/// The largest entry ids once the segments of `footer` are indexed.
pub open spec fn raised_ids(max_ids: Map<u64, EntryId>, footer: Seq<FooterEntry>) -> Map<
    u64,
    EntryId,
> {
    Map::new(
        |region: u64| max_ids.contains_key(region) || has_region(footer, region),
        |region: u64|
            if !has_region(footer, region) {
                max_ids[region]
            } else if max_ids.contains_key(region) && max_ids[region] >= entry_of(
                footer,
                region,
            ).max_entry_id {
                max_ids[region]
            } else {
                entry_of(footer, region).max_entry_id
            },
    )
}

/// The largest floor of the first `n` regions.
pub open spec fn floor_upto(max_ids: Map<u64, EntryId>, n: int) -> int
    decreases n,
{
    if n <= 0 {
        0
    } else {
        let rest = floor_upto(max_ids, n - 1);
        let floor = floor_of(max_ids[ordered_keys(max_ids)[n - 1]] as int);
        if rest < floor {
            floor
        } else {
            rest
        }
    }
}

/// The smallest sequence whose ids are greater than the largest entry id of every region.
pub open spec fn floor_of_ids(max_ids: Map<u64, EntryId>) -> int {
    floor_upto(max_ids, ordered_keys(max_ids).len() as int)
}

/// Every segment is at or below the watermark of its region.
pub open spec fn is_obsolete(footer: Seq<FooterEntry>, obsolete: Map<u64, EntryId>) -> bool {
    forall|i: int|
        0 <= i < footer.len() ==> obsolete.contains_key((#[trigger] footer[i]).region_id.0)
            && footer[i].max_entry_id <= obsolete[footer[i].region_id.0]
}

/// The segments of the first `n` objects of `keys` that overlap `start..=end`.
pub open spec fn overlapping(
    region: Map<u64, FooterEntry>,
    keys: Seq<u64>,
    start: EntryId,
    end: EntryId,
    n: int,
) -> Seq<(u64, FooterEntry)>
    decreases n,
{
    if n <= 0 {
        Seq::empty()
    } else {
        let rest = overlapping(region, keys, start, end, n - 1);
        let entry = region[keys[n - 1]];
        if entry.max_entry_id >= start && entry.min_entry_id <= end {
            rest.push((keys[n - 1], entry))
        } else {
            rest
        }
    }
}

impl CatalogModel {
    /// A catalog without objects.
    pub open spec fn empty() -> CatalogModel {
        CatalogModel { objects: Map::empty(), max_ids: Map::empty() }
    }

    /// The objects that hold a segment of the region.
    pub open spec fn region(self, region: u64) -> Map<u64, FooterEntry> {
        region_objects(self.objects, region)
    }

    /// Why the footer cannot be indexed under the sequence, if it cannot.
    pub open spec fn rejection(self, object_seq: u64, footer: Seq<FooterEntry>) -> Option<
        Corruption,
    > {
        let sorted = by_region(footer);
        if footer.len() == 0 {
            Some(Corruption::EmptyFooter { object_seq })
        } else if duplicate_from(object_seq, sorted, 0) is Some {
            duplicate_from(object_seq, sorted, 0)
        } else if invalid_range_from(object_seq, sorted, 0) is Some {
            invalid_range_from(object_seq, sorted, 0)
        } else if self.objects.contains_key(object_seq) {
            Some(Corruption::AlreadyIndexed { object_seq })
        } else {
            conflict_from(self.objects, object_seq, sorted, 0)
        }
    }

    /// The catalog with the footer indexed under the sequence.
    pub open spec fn inserted(self, object_seq: u64, footer: Seq<FooterEntry>) -> CatalogModel {
        CatalogModel {
            objects: self.objects.insert(object_seq, by_region(footer)),
            max_ids: raised_ids(self.max_ids, by_region(footer)),
        }
    }

    /// The catalog without the object. The largest entry ids are kept.
    pub open spec fn removed(self, object_seq: u64) -> CatalogModel {
        CatalogModel { objects: self.objects.remove(object_seq), max_ids: self.max_ids }
    }

    /// The highest indexed sequence.
    pub open spec fn last_seq(self) -> u64 {
        ordered_keys(self.objects).last()
    }

    /// Whether an entry id names an object beyond the one after the highest indexed one.
    pub open spec fn ids_name_later_object(self) -> bool {
        floor_of_ids(self.max_ids) > (if self.last_seq() == u64::MAX {
            u64::MAX as int
        } else {
            self.last_seq() + 1
        })
    }

    /// The pass of a collection from place `i` of the object order on, after `found` was accepted
    /// of the objects from place `start` on.
    pub open spec fn scan_from(
        self,
        obsolete: Map<u64, EntryId>,
        limit: int,
        scan_limit: int,
        start: int,
        i: int,
        found: Seq<u64>,
    ) -> (Seq<u64>, u64)
        decreases ordered_keys(self.objects).len() - i,
    {
        let keys = ordered_keys(self.objects);
        if i >= keys.len() - 1 {
            (found, 0)
        } else if i - start == scan_limit || found.len() == limit {
            (found, keys[i])
        } else if is_obsolete(self.objects[keys[i]], obsolete) {
            self.scan_from(obsolete, limit, scan_limit, start, i + 1, found.push(keys[i]))
        } else {
            self.scan_from(obsolete, limit, scan_limit, start, i + 1, found)
        }
    }

    /// The number of objects below `seq`.
    pub open spec fn rank(self, seq: u64) -> int {
        count_below(ordered_keys(self.objects), seq)
    }

    /// The objects one pass of a collection accepts, and where the next pass starts.
    pub open spec fn deletable(
        self,
        obsolete: Map<u64, EntryId>,
        resume_from: u64,
        limit: int,
        scan_limit: int,
    ) -> (Seq<u64>, u64) {
        if self.objects.dom().len() == 0 || self.ids_name_later_object() || resume_from
            >= self.last_seq() {
            (Seq::empty(), 0)
        } else {
            let start = self.rank(resume_from);
            self.scan_from(obsolete, limit, scan_limit, start, start, Seq::empty())
        }
    }

    /// The sequence after the highest indexed one, raised above every entry id.
    pub open spec fn next_seq(self) -> int {
        let after_last = if self.objects.dom().len() == 0 {
            0
        } else {
            self.last_seq() + 1
        };
        let floor = floor_of_ids(self.max_ids);
        if after_last < floor {
            floor
        } else {
            after_last
        }
    }

    /// The segments of the region that overlap `start..=end`, in object order.
    pub open spec fn overlap(self, region: u64, start: EntryId, end: EntryId) -> Seq<
        (u64, FooterEntry),
    > {
        let keys = ordered_keys(self.region(region));
        overlapping(self.region(region), keys, start, end, keys.len() as int)
    }

    /// What a catalog promises of its contents: every footer lists its regions in order, once
    /// each, with valid ranges; the entry ids of a region strictly increase along the object
    /// sequence; and no indexed id is above the largest id kept for its region.
    pub open spec fn valid(self) -> bool {
        &&& self.objects.dom().finite()
        &&& self.max_ids.dom().finite()
        &&& forall|seq: u64| #[trigger]
            self.objects.contains_key(seq) ==> {
                &&& self.objects[seq].len() > 0
                &&& increasing_by_region(self.objects[seq])
                &&& forall|i: int|
                    0 <= i < self.objects[seq].len() ==> valid_range(
                        #[trigger] self.objects[seq][i],
                    )
            }
        &&& forall|region: u64, seq: u64| #[trigger]
            self.region(region).contains_key(seq) ==> self.max_ids.contains_key(region)
                && self.region(region)[seq].max_entry_id <= self.max_ids[region]
        &&& forall|region: u64, lower: u64, upper: u64| #[trigger]
            self.region(region).contains_key(lower) && #[trigger] self.region(
                region,
            ).contains_key(upper) && lower < upper ==> self.region(region)[lower].max_entry_id
                < self.region(region)[upper].min_entry_id
    }
}

/// The number of elements of an increasing sequence that are below `key`.
pub open spec fn count_below(keys: Seq<u64>, key: u64) -> int
    decreases keys.len(),
{
    if keys.len() == 0 {
        0
    } else if keys.last() < key {
        keys.len() as int
    } else {
        count_below(keys.drop_last(), key)
    }
}

/// A place that parts the smaller from the other keys is the number of smaller keys.
proof fn lemma_count_below(keys: Seq<u64>, key: u64, at: int)
    requires
        0 <= at <= keys.len(),
        forall|i: int| 0 <= i < at ==> #[trigger] keys[i] < key,
        forall|i: int| at <= i < keys.len() ==> key <= #[trigger] keys[i],
    ensures
        count_below(keys, key) == at,
    decreases keys.len(),
{
    if keys.len() > 0 {
        if keys.last() < key {
            if at < keys.len() {
                assert(key <= keys[keys.len() - 1]);
            }
        } else {
            if at == keys.len() {
                assert(keys[keys.len() - 1] < key);
            }
            let rest = keys.drop_last();
            assert forall|i: int| 0 <= i < at implies #[trigger] rest[i] < key by {
                assert(keys[i] < key);
            }
            assert forall|i: int| at <= i < rest.len() implies key <= #[trigger] rest[i] by {
                assert(key <= keys[i]);
            }
            lemma_count_below(rest, key, at);
        }
    }
}

/// In a footer that lists each region once, every entry is the one of its region.
pub proof fn lemma_entry_of(footer: Seq<FooterEntry>, i: int)
    requires
        increasing_by_region(footer),
        0 <= i < footer.len(),
    ensures
        has_region(footer, footer[i].region_id.0),
        entry_of(footer, footer[i].region_id.0) == footer[i],
{
    let region = footer[i].region_id.0;
    let j = choose|j: int| 0 <= j < footer.len() && (#[trigger] footer[j]).region_id.0 == region;
    assert(0 <= j < footer.len() && footer[j].region_id.0 == region);
    if i < j {
        assert(footer[i].region_id.0 < footer[j].region_id.0);
    } else if j < i {
        assert(footer[j].region_id.0 < footer[i].region_id.0);
    }
}

proof fn lemma_insert_by_region(sorted: Seq<FooterEntry>, entry: FooterEntry)
    requires
        ordered_by_region(sorted),
    ensures
        ordered_by_region(insert_by_region(sorted, entry)),
        insert_by_region(sorted, entry).to_multiset() == sorted.to_multiset().insert(entry),
        insert_by_region(sorted, entry).len() == sorted.len() + 1,
    decreases sorted.len(),
{
    sorted.to_multiset_ensures();
    let result = insert_by_region(sorted, entry);
    if sorted.len() == 0 || sorted.last().region_id.0 <= entry.region_id.0 {
    } else {
        let rest = sorted.drop_last();
        lemma_insert_by_region(rest, entry);
        let inner = insert_by_region(rest, entry);
        inner.to_multiset_ensures();
        rest.to_multiset_ensures();
        assert(sorted =~= rest.push(sorted.last()));
        assert(result.to_multiset() =~= sorted.to_multiset().insert(entry));
        assert forall|i: int, j: int|
            0 <= i <= j < result.len() implies result[i].region_id.0 <= result[j].region_id.0 by {
            if j == result.len() - 1 && i < j {
                inner.to_multiset_ensures();
                assert(inner.to_multiset().count(inner[i]) > 0);
                assert(inner.contains(inner[i]));
                if inner[i] != entry {
                    assert(rest.to_multiset().count(inner[i]) > 0);
                    assert(rest.contains(inner[i]));
                    let k = rest.index_of(inner[i]);
                    assert(rest[k] == sorted[k]);
                }
            }
        }
    }
}

/// Ordering a footer by region keeps its entries and puts the regions in order.
pub proof fn lemma_by_region(footer: Seq<FooterEntry>)
    ensures
        ordered_by_region(by_region(footer)),
        by_region(footer).to_multiset() == footer.to_multiset(),
        by_region(footer).len() == footer.len(),
    decreases footer.len(),
{
    if footer.len() > 0 {
        let rest = footer.drop_last();
        lemma_by_region(rest);
        lemma_insert_by_region(by_region(rest), footer.last());
        rest.to_multiset_ensures();
        assert(footer =~= rest.push(footer.last()));
    }
}

/// An ordered footer without two equal neighbours lists every region once.
proof fn lemma_no_duplicate(object_seq: u64, footer: Seq<FooterEntry>)
    requires
        ordered_by_region(footer),
        duplicate_from(object_seq, footer, 0) is None,
    ensures
        increasing_by_region(footer),
{
    lemma_no_duplicate_from(object_seq, footer, 0);
    assert forall|i: int, j: int| 0 <= i < j < footer.len() implies footer[i].region_id.0
        < footer[j].region_id.0 by {
        assert(footer[i].region_id != footer[i + 1].region_id);
        assert(footer[i].region_id.0 <= footer[i + 1].region_id.0);
        assert(footer[i + 1].region_id.0 <= footer[j].region_id.0);
    }
}

proof fn lemma_no_duplicate_from(object_seq: u64, footer: Seq<FooterEntry>, from: int)
    requires
        0 <= from,
        duplicate_from(object_seq, footer, from) is None,
    ensures
        forall|i: int|
            from <= i < footer.len() - 1 ==> (#[trigger] footer[i]).region_id != footer[i
                + 1].region_id,
    decreases footer.len() - from,
{
    if from + 1 < footer.len() {
        lemma_no_duplicate_from(object_seq, footer, from + 1);
    }
}

proof fn lemma_ranges_valid(object_seq: u64, footer: Seq<FooterEntry>, from: int)
    requires
        0 <= from,
        invalid_range_from(object_seq, footer, from) is None,
    ensures
        forall|i: int| from <= i < footer.len() ==> valid_range(#[trigger] footer[i]),
    decreases footer.len() - from,
{
    if from < footer.len() {
        lemma_ranges_valid(object_seq, footer, from + 1);
    }
}

proof fn lemma_no_conflict(
    objects: Map<u64, Seq<FooterEntry>>,
    object_seq: u64,
    footer: Seq<FooterEntry>,
    from: int,
)
    requires
        0 <= from,
        conflict_from(objects, object_seq, footer, from) is None,
    ensures
        forall|i: int|
            from <= i < footer.len() ==> conflict_of(
                objects,
                object_seq,
                #[trigger] footer[i],
            ) is None,
    decreases footer.len() - from,
{
    if from < footer.len() {
        lemma_no_conflict(objects, object_seq, footer, from + 1);
    }
}

/// Indexing an accepted footer keeps the promises of the catalog.
pub proof fn lemma_insert_keeps_valid(
    catalog: CatalogModel,
    object_seq: u64,
    footer: Seq<FooterEntry>,
)
    requires
        catalog.valid(),
        catalog.rejection(object_seq, footer) is None,
    ensures
        catalog.inserted(object_seq, footer).valid(),
{
    let sorted = by_region(footer);
    let after = catalog.inserted(object_seq, footer);
    lemma_by_region(footer);
    lemma_no_duplicate(object_seq, sorted);
    lemma_ranges_valid(object_seq, sorted, 0);
    lemma_no_conflict(catalog.objects, object_seq, sorted, 0);
    assert forall|region: u64| true implies #[trigger] after.region(region) == (if has_region(
        sorted,
        region,
    ) {
        catalog.region(region).insert(object_seq, entry_of(sorted, region))
    } else {
        catalog.region(region)
    }) by {
        lemma_region_after_insert(catalog, object_seq, footer, region);
    }
    assert(after.max_ids.dom().finite()) by {
        lemma_raised_ids_finite(catalog.max_ids, sorted, sorted.len() as int);
        assert(sorted.take(sorted.len() as int) =~= sorted);
    }
    assert forall|region: u64, seq: u64| #[trigger]
        after.region(region).contains_key(seq) implies after.max_ids.contains_key(region)
        && after.region(region)[seq].max_entry_id <= after.max_ids[region] by {
        if seq != object_seq || !has_region(sorted, region) {
            assert(catalog.region(region).contains_key(seq));
        }
    }
    assert forall|region: u64, lower: u64, upper: u64| #[trigger]
        after.region(region).contains_key(lower) && #[trigger] after.region(region).contains_key(
            upper,
        ) && lower < upper implies after.region(region)[lower].max_entry_id < after.region(
        region,
    )[upper].min_entry_id by {
        if has_region(sorted, region) {
            let i = choose|i: int|
                0 <= i < sorted.len() && (#[trigger] sorted[i]).region_id.0 == region;
            assert(entry_of(sorted, region) == sorted[i]);
            assert(conflict_of(catalog.objects, object_seq, sorted[i]) is None);
            if upper == object_seq {
                assert(catalog.region(region).contains_key(lower));
                lemma_largest_below_exists(catalog.region(region), object_seq, lower);
                let below = largest_below(catalog.region(region), object_seq)->0;
                if lower != below {
                    assert(catalog.region(region)[below].min_entry_id <= catalog.region(
                        region,
                    )[below].max_entry_id) by {
                        lemma_region_entry_valid(catalog, region, below);
                    }
                }
            } else if lower == object_seq {
                assert(catalog.region(region).contains_key(upper));
                lemma_smallest_above_exists(catalog.region(region), object_seq, upper);
                let above = smallest_above(catalog.region(region), object_seq)->0;
                if upper != above {
                    assert(catalog.region(region)[above].min_entry_id <= catalog.region(
                        region,
                    )[above].max_entry_id) by {
                        lemma_region_entry_valid(catalog, region, above);
                    }
                }
            } else {
                assert(catalog.region(region).contains_key(lower));
                assert(catalog.region(region).contains_key(upper));
            }
        } else {
            assert(catalog.region(region).contains_key(lower));
            assert(catalog.region(region).contains_key(upper));
        }
    }
}

/// The segments of a region once a footer is indexed under a free sequence.
proof fn lemma_region_after_insert(
    catalog: CatalogModel,
    object_seq: u64,
    footer: Seq<FooterEntry>,
    region: u64,
)
    requires
        !catalog.objects.contains_key(object_seq),
    ensures
        catalog.inserted(object_seq, footer).region(region) == (if has_region(
            by_region(footer),
            region,
        ) {
            catalog.region(region).insert(object_seq, entry_of(by_region(footer), region))
        } else {
            catalog.region(region)
        }),
{
    let sorted = by_region(footer);
    let after = catalog.inserted(object_seq, footer);
    if has_region(sorted, region) {
        assert(after.region(region) =~= catalog.region(region).insert(
            object_seq,
            entry_of(sorted, region),
        ));
    } else {
        assert(after.region(region) =~= catalog.region(region));
    }
}

/// A segment that a valid catalog lists for a region has a valid range.
pub proof fn lemma_region_entry_valid(catalog: CatalogModel, region: u64, seq: u64)
    requires
        catalog.valid(),
        catalog.region(region).contains_key(seq),
    ensures
        valid_range(catalog.region(region)[seq]),
        catalog.region(region)[seq].region_id.0 == region,
{
    let footer = catalog.objects[seq];
    let i = choose|i: int| 0 <= i < footer.len() && (#[trigger] footer[i]).region_id.0 == region;
    assert(valid_range(catalog.objects[seq][i]));
}

proof fn lemma_raised_ids_finite(max_ids: Map<u64, EntryId>, footer: Seq<FooterEntry>, n: int)
    requires
        max_ids.dom().finite(),
        0 <= n <= footer.len(),
    ensures
        raised_ids(max_ids, footer.take(n)).dom().finite(),
    decreases n,
{
    if n == 0 {
        assert(footer.take(0) =~= Seq::empty());
        assert(raised_ids(max_ids, footer.take(0)).dom() =~= max_ids.dom());
    } else {
        lemma_raised_ids_finite(max_ids, footer, n - 1);
        let before = footer.take(n - 1);
        let after = footer.take(n);
        assert forall|region: u64|
            has_region(after, region) <==> (has_region(before, region) || region == footer[n
                - 1].region_id.0) by {
            if has_region(after, region) {
                let i = choose|i: int|
                    0 <= i < after.len() && (#[trigger] after[i]).region_id.0 == region;
                if i < n - 1 {
                    assert(before[i].region_id.0 == region);
                }
            }
            if has_region(before, region) {
                let i = choose|i: int|
                    0 <= i < before.len() && (#[trigger] before[i]).region_id.0 == region;
                assert(after[i].region_id.0 == region);
            }
            if region == footer[n - 1].region_id.0 {
                assert(after[n - 1].region_id.0 == region);
            }
        }
        assert(raised_ids(max_ids, after).dom() =~= raised_ids(max_ids, before).dom().insert(
            footer[n - 1].region_id.0,
        ));
    }
}

/// Removing an object keeps the promises of the catalog.
pub proof fn lemma_remove_keeps_valid(catalog: CatalogModel, object_seq: u64)
    requires
        catalog.valid(),
    ensures
        catalog.removed(object_seq).valid(),
        forall|region: u64| #[trigger]
            catalog.removed(object_seq).region(region) == catalog.region(region).remove(object_seq),
{
    let after = catalog.removed(object_seq);
    assert forall|region: u64| #[trigger] after.region(region) == catalog.region(region).remove(
        object_seq,
    ) by {
        assert(after.region(region) =~= catalog.region(region).remove(object_seq));
    }
    assert forall|seq: u64| #[trigger] after.objects.contains_key(seq) implies
        catalog.objects.contains_key(seq) && after.objects[seq] == catalog.objects[seq] by {}
    assert forall|region: u64, seq: u64| #[trigger]
        after.region(region).contains_key(seq) implies after.max_ids.contains_key(region)
        && after.region(region)[seq].max_entry_id <= after.max_ids[region] by {
        assert(catalog.region(region).contains_key(seq));
    }
    assert forall|region: u64, lower: u64, upper: u64| #[trigger]
        after.region(region).contains_key(lower) && #[trigger] after.region(region).contains_key(
            upper,
        ) && lower < upper implies after.region(region)[lower].max_entry_id < after.region(
        region,
    )[upper].min_entry_id by {
        assert(catalog.region(region).contains_key(lower));
        assert(catalog.region(region).contains_key(upper));
    }
}

impl View for ObjectCatalog {
    type V = CatalogModel;

    closed spec fn view(&self) -> CatalogModel {
        CatalogModel {
            objects: self.objects@.map_values(|footer: Vec<FooterEntry>| footer@),
            max_ids: self.regions@.map_values(|region: RegionObjects| region.max_entry_id),
        }
    }
}

impl ObjectCatalog {
    /// The two indexes agree and the contents are valid.
    pub closed spec fn wf(&self) -> bool {
        &&& self.objects.wf()
        &&& self.regions.wf()
        &&& self@.valid()
        &&& forall|region: u64| #[trigger]
            self.regions@.contains_key(region) ==> {
                &&& self.regions@[region].objects.wf()
                &&& self.regions@[region].objects@ == self@.region(region)
            }
    }

    /// A well-formed catalog keeps what a catalog promises of its contents.
    pub proof fn lemma_wf_is_valid(&self)
        requires
            self.wf(),
        ensures
            self@.valid(),
    {
    }

    proof fn lemma_key_order(&self)
        requires
            self.wf(),
        ensures
            self.objects.key_seq() == ordered_keys(self@.objects),
            lists_keys(self@.objects, self.objects.key_seq()),
            self@.objects.dom().len() == self.objects.key_seq().len(),
            self.regions.key_seq() == ordered_keys(self@.max_ids),
            lists_keys(self@.max_ids, self.regions.key_seq()),
    {
        self.objects.lemma_key_seq();
        self.regions.lemma_key_seq();
        assert(self@.objects.dom() =~= self.objects@.dom());
        assert(self@.max_ids.dom() =~= self.regions@.dom());
        lemma_ordered_keys_of_domain(self.objects@, self@.objects, self.objects.key_seq());
        lemma_ordered_keys_of_domain(self.regions@, self@.max_ids, self.regions.key_seq());
    }

    /// A catalog without objects.
    pub fn new() -> (catalog: ObjectCatalog)
        ensures
            catalog.wf(),
            catalog@ == CatalogModel::empty(),
    {
        let catalog = ObjectCatalog { objects: OrdMap::new(), regions: OrdMap::new() };
        proof {
            assert(catalog@.objects =~= Map::empty());
            assert(catalog@.max_ids =~= Map::empty());
            assert forall|region: u64, seq: u64| !#[trigger] catalog@.region(region).contains_key(
                seq,
            ) by {}
        }
        catalog
    }

    /// Indexes the footer of the object `object_seq`. Objects may be inserted in any order, which
    /// lets recovery index them as it discovers them. A sequence that is already indexed is
    /// rejected, whether or not the footer matches the indexed one. A rejected footer leaves the
    /// catalog as it was.
    pub fn insert_object(&mut self, object_seq: u64, footer: Vec<FooterEntry>) -> (result: Result<
        (),
        Error,
    >)
        requires
            old(self).wf(),
        ensures
            final(self).wf(),
            match old(self)@.rejection(object_seq, footer@) {
                Some(reason) => result == Err::<(), Error>(Error::CorruptedWalObject { reason })
                    && final(self)@ == old(self)@,
                None => result == Ok::<(), Error>(()) && final(self)@ == old(self)@.inserted(
                    object_seq,
                    footer@,
                ),
            },
    {
        if footer.len() == 0 {
            return Err(
                Error::CorruptedWalObject { reason: Corruption::EmptyFooter { object_seq } },
            );
        }
        let sorted = sort_by_region(&footer);
        proof {
            lemma_by_region(footer@);
        }
        if let Some(reason) = find_duplicate(object_seq, &sorted) {
            return Err(Error::CorruptedWalObject { reason });
        }
        if let Some(reason) = find_invalid_range(object_seq, &sorted) {
            return Err(Error::CorruptedWalObject { reason });
        }
        assert(self@.objects.contains_key(object_seq) <==> self.objects@.contains_key(object_seq));
        if self.objects.contains_key(object_seq) {
            return Err(
                Error::CorruptedWalObject { reason: Corruption::AlreadyIndexed { object_seq } },
            );
        }
        if let Some(reason) = self.find_conflict(object_seq, &sorted) {
            return Err(Error::CorruptedWalObject { reason });
        }
        proof {
            lemma_no_duplicate(object_seq, sorted@);
            lemma_insert_keeps_valid(self@, object_seq, footer@);
        }
        self.index_regions(object_seq, &sorted);
        self.objects.insert(object_seq, sorted);
        proof {
            let before = old(self)@;
            let after = before.inserted(object_seq, footer@);
            assert(sorted@ == by_region(footer@));
            assert(self@.objects =~= after.objects);
            assert(self@.max_ids =~= after.max_ids) by {
                assert forall|region: u64| #[trigger] after.max_ids.contains_key(region) implies
                    self@.max_ids.contains_key(region) && self@.max_ids[region]
                    == after.max_ids[region] by {}
            }
            assert forall|region: u64| #[trigger] self.regions@.contains_key(region) implies
                self.regions@[region].objects.wf() && self.regions@[region].objects@
                == self@.region(region) by {
                lemma_region_after_insert(before, object_seq, footer@, region);
                if !before.max_ids.contains_key(region) {
                    assert(before.region(region) =~= Map::empty()) by {
                        assert forall|seq: u64| !before.region(region).contains_key(seq) by {}
                    }
                }
            }
        }
        Ok(())
    }

    /// Enters the segments of `sorted` into the index by region.
    fn index_regions(&mut self, object_seq: u64, sorted: &Vec<FooterEntry>)
        requires
            old(self).wf(),
            increasing_by_region(sorted@),
            !old(self)@.objects.contains_key(object_seq),
        ensures
            final(self).objects == old(self).objects,
            final(self).regions.wf(),
            forall|region: u64| #[trigger]
                final(self).regions@.contains_key(region) <==> old(self).regions@.contains_key(
                    region,
                ) || has_region(sorted@, region),
            forall|region: u64| #[trigger]
                final(self).regions@.contains_key(region) ==> indexed_region(
                    old(self).regions@,
                    old(self)@,
                    final(self).regions@[region],
                    region,
                    object_seq,
                    sorted@,
                ),
    {
        let n: usize = sorted.len();
        let mut i: usize = 0;
        assert(sorted@.take(0) =~= Seq::empty());
        while i < n
            invariant
                old(self).wf(),
                increasing_by_region(sorted@),
                !old(self)@.objects.contains_key(object_seq),
                n == sorted@.len(),
                i <= n,
                self.objects == old(self).objects,
                self.regions.wf(),
                forall|region: u64| #[trigger]
                    self.regions@.contains_key(region) <==> old(self).regions@.contains_key(region)
                        || has_region(sorted@.take(i as int), region),
                forall|region: u64| #[trigger]
                    self.regions@.contains_key(region) ==> indexed_region(
                        old(self).regions@,
                        old(self)@,
                        self.regions@[region],
                        region,
                        object_seq,
                        sorted@.take(i as int),
                    ),
            decreases n - i,
        {
            let entry = sorted[i];
            let region_key: u64 = entry.region_id.as_u64();
            let ghost before = self.regions@;
            let ghost taken = sorted@.take(i as int);
            let ghost next = sorted@.take(i + 1);
            proof {
                assert forall|region: u64| #[trigger]
                    has_region(next, region) <==> (has_region(taken, region) || region
                        == region_key) by {
                    if has_region(next, region) {
                        let j = choose|j: int|
                            0 <= j < next.len() && (#[trigger] next[j]).region_id.0 == region;
                        if j < i {
                            assert(taken[j].region_id.0 == region);
                        }
                    }
                    if has_region(taken, region) {
                        let j = choose|j: int|
                            0 <= j < taken.len() && (#[trigger] taken[j]).region_id.0 == region;
                        assert(next[j].region_id.0 == region);
                    }
                    assert(next[i as int].region_id.0 == region_key);
                }
                assert(!has_region(taken, region_key)) by {
                    if has_region(taken, region_key) {
                        let j = choose|j: int|
                            0 <= j < taken.len() && (#[trigger] taken[j]).region_id.0
                                == region_key;
                        assert(sorted@[j].region_id.0 < sorted@[i as int].region_id.0);
                    }
                }
                assert(increasing_by_region(next));
                assert(increasing_by_region(taken));
                lemma_entry_of(next, i as int);
                assert forall|region: u64| has_region(taken, region) implies #[trigger] entry_of(
                    next,
                    region,
                ) == entry_of(taken, region) by {
                    let j = choose|j: int|
                        0 <= j < taken.len() && (#[trigger] taken[j]).region_id.0 == region;
                    lemma_entry_of(taken, j);
                    lemma_entry_of(next, j);
                }
            }
            let mut region = match self.regions.remove(region_key) {
                Some(region) => region,
                None => RegionObjects { objects: OrdMap::new(), max_entry_id: 0 },
            };
            if region.max_entry_id < entry.max_entry_id {
                region.max_entry_id = entry.max_entry_id;
            }
            region.objects.insert(object_seq, entry);
            self.regions.insert(region_key, region);
            proof {
                if !before.contains_key(region_key) {
                    assert(old(self)@.region(region_key) =~= Map::empty()) by {
                        assert forall|seq: u64| !old(self)@.region(region_key).contains_key(seq) by {
                            if old(self)@.region(region_key).contains_key(seq) {
                                assert(old(self)@.max_ids.contains_key(region_key));
                                assert(old(self).regions@.contains_key(region_key));
                            }
                        }
                    }
                }
                assert forall|r: u64| #[trigger] self.regions@.contains_key(r) implies
                    indexed_region(
                    old(self).regions@,
                    old(self)@,
                    self.regions@[r],
                    r,
                    object_seq,
                    next,
                ) by {
                    if r != region_key {
                        assert(before.contains_key(r));
                    }
                }
            }
            i = i + 1;
        }
        assert(sorted@.take(n as int) =~= sorted@);
    }

    /// The first segment of `footer` that does not fit between its neighbours.
    fn find_conflict(&self, object_seq: u64, footer: &Vec<FooterEntry>) -> (conflict: Option<
        Corruption,
    >)
        requires
            self.wf(),
        ensures
            conflict == conflict_from(self@.objects, object_seq, footer@, 0),
    {
        let n: usize = footer.len();
        let mut i: usize = 0;
        while i < n
            invariant
                self.wf(),
                n == footer@.len(),
                i <= n,
                conflict_from(self@.objects, object_seq, footer@, 0) == conflict_from(
                    self@.objects,
                    object_seq,
                    footer@,
                    i as int,
                ),
            decreases n - i,
        {
            let conflict = self.conflict_with(object_seq, footer[i]);
            if conflict.is_some() {
                return conflict;
            }
            i = i + 1;
        }
        None
    }

    /// Where `entry` does not fit between the neighbours of its region.
    fn conflict_with(&self, object_seq: u64, entry: FooterEntry) -> (conflict: Option<Corruption>)
        requires
            self.wf(),
        ensures
            conflict == conflict_of(self@.objects, object_seq, entry),
    {
        let region_id = entry.region_id;
        let region = match self.regions.get(region_id.as_u64()) {
            Some(region) => region,
            None => {
                proof {
                    let none = self@.region(region_id.0);
                    assert forall|seq: u64| !#[trigger] none.contains_key(seq) by {
                        if none.contains_key(seq) {
                            assert(self@.max_ids.contains_key(region_id.0));
                        }
                    }
                }
                return None;
            },
        };
        if let Some(below) = region.objects.key_below(object_seq) {
            if let Some(previous) = region.objects.get(below) {
                if previous.max_entry_id >= entry.min_entry_id {
                    return Some(
                        out_of_order(
                            region_id,
                            below,
                            previous.max_entry_id,
                            object_seq,
                            entry.min_entry_id,
                        ),
                    );
                }
            }
        }
        if let Some(above) = region.objects.key_above(object_seq) {
            if let Some(next) = region.objects.get(above) {
                if entry.max_entry_id >= next.min_entry_id {
                    return Some(
                        out_of_order(
                            region_id,
                            object_seq,
                            entry.max_entry_id,
                            above,
                            next.min_entry_id,
                        ),
                    );
                }
            }
        }
        None
    }

    /// Removes the object `object_seq` from the index once it was deleted. The largest entry id
    /// of every region it held is kept.
    pub fn remove_object(&mut self, object_seq: u64)
        requires
            old(self).wf(),
        ensures
            final(self).wf(),
            final(self)@ == old(self)@.removed(object_seq),
    {
        proof {
            lemma_remove_keeps_valid(self@, object_seq);
        }
        let ghost before = *self;
        let footer = match self.objects.remove(object_seq) {
            Some(footer) => footer,
            None => {
                proof {
                    assert(self@.objects =~= before@.objects.remove(object_seq));
                    assert(self@.max_ids =~= before@.max_ids);
                    assert(!before@.objects.contains_key(object_seq));
                    assert(self@ == before@);
                }
                return;
            },
        };
        let n: usize = footer.len();
        let mut i: usize = 0;
        while i < n
            invariant
                before.wf(),
                n == footer@.len(),
                i <= n,
                before.objects@.contains_key(object_seq),
                footer@ == before@.objects[object_seq],
                self.objects.wf(),
                self.objects@ == before.objects@.remove(object_seq),
                self.regions.wf(),
                self.regions@.dom() == before.regions@.dom(),
                forall|region: u64| #[trigger]
                    self.regions@.contains_key(region) ==> {
                        &&& self.regions@[region].max_entry_id
                            == before.regions@[region].max_entry_id
                        &&& self.regions@[region].objects.wf()
                        &&& self.regions@[region].objects@ == (if has_region(
                            footer@.take(i as int),
                            region,
                        ) {
                            before@.region(region).remove(object_seq)
                        } else {
                            before@.region(region)
                        })
                    },
            decreases n - i,
        {
            let region_key: u64 = footer[i].region_id.as_u64();
            let ghost taken = footer@.take(i as int);
            let ghost next = footer@.take(i + 1);
            proof {
                assert forall|region: u64| #[trigger]
                    has_region(next, region) <==> (has_region(taken, region) || region
                        == region_key) by {
                    if has_region(next, region) {
                        let j = choose|j: int|
                            0 <= j < next.len() && (#[trigger] next[j]).region_id.0 == region;
                        if j < i {
                            assert(taken[j].region_id.0 == region);
                        }
                    }
                    if has_region(taken, region) {
                        let j = choose|j: int|
                            0 <= j < taken.len() && (#[trigger] taken[j]).region_id.0 == region;
                        assert(next[j].region_id.0 == region);
                    }
                    assert(next[i as int].region_id.0 == region_key);
                }
            }
            let ghost regions = self.regions@;
            if let Some(mut region) = self.regions.remove(region_key) {
                region.objects.remove(object_seq);
                assert(region.objects@ =~= before@.region(region_key).remove(object_seq));
                self.regions.insert(region_key, region);
                assert(self.regions@.dom() =~= regions.dom());
            }
            proof {
                assert forall|r: u64| #[trigger] self.regions@.contains_key(r) implies {
                    &&& self.regions@[r].max_entry_id == before.regions@[r].max_entry_id
                    &&& self.regions@[r].objects.wf()
                    &&& self.regions@[r].objects@ == (if has_region(next, r) {
                        before@.region(r).remove(object_seq)
                    } else {
                        before@.region(r)
                    })
                } by {
                    assert(regions.contains_key(r));
                }
            }
            i = i + 1;
        }
        proof {
            assert(footer@.take(n as int) =~= footer@);
            assert(self@.objects =~= before@.objects.remove(object_seq));
            assert(self@.max_ids =~= before@.max_ids);
            assert forall|region: u64| #[trigger] self.regions@.contains_key(region) implies
                self.regions@[region].objects.wf() && self.regions@[region].objects@
                == self@.region(region) by {
                assert(before@.region(region).remove(object_seq) == self@.region(region));
                if !has_region(footer@, region) {
                    assert(before@.region(region).remove(object_seq) =~= before@.region(region));
                }
            }
        }
    }

    /// Whether the object `object_seq` is indexed.
    pub fn contains_object(&self, object_seq: u64) -> (indexed: bool)
        requires
            self.wf(),
        ensures
            indexed <==> self@.objects.contains_key(object_seq),
    {
        self.objects.contains_key(object_seq)
    }

    /// Returns the largest entry id ever indexed for `region_id`, which is kept after the object
    /// holding it was removed.
    pub fn region_max_entry_id(&self, region_id: RegionId) -> (max: Option<EntryId>)
        requires
            self.wf(),
        ensures
            max == (if self@.max_ids.contains_key(region_id.0) {
                Some(self@.max_ids[region_id.0])
            } else {
                None
            }),
    {
        match self.regions.get(region_id.as_u64()) {
            Some(region) => Some(region.max_entry_id),
            None => None,
        }
    }
}

impl ObjectCatalog {
    /// Scans the catalog for objects garbage collection may delete, starting at `resume_from` and
    /// inspecting at most `scan_limit` objects, and returns at most `limit` of them together with
    /// the sequence the next pass starts at, see [`DeletableObjects`].
    ///
    /// An object is deletable when every segment it holds has its maximum entry id at or below the
    /// watermark of its region; a region without a watermark keeps its objects. The object with
    /// the highest sequence is never deletable, so that the sequence resumes above everything ever
    /// written. Nothing is deletable while an entry id names an object beyond the one after the
    /// highest indexed one: the highest object alone must resume the sequence.
    pub fn deletable_objects(
        &self,
        obsolete_entry_ids: &HashMap<u64, EntryId>,
        resume_from: u64,
        limit: usize,
        scan_limit: usize,
    ) -> (scan: DeletableObjects)
        requires
            self.wf(),
        ensures
            (scan.objects@, scan.resume_from) == self@.deletable(
                obsolete_entry_ids@,
                resume_from,
                limit as int,
                scan_limit as int,
            ),
    {
        proof {
            self.lemma_key_order();
        }
        let mut objects: Vec<u64> = Vec::new();
        let last: u64 = match self.objects.last_key() {
            Some(last) => last,
            None => {
                return DeletableObjects { objects, resume_from: 0 };
            },
        };
        if self.entry_id_floor() > last.saturating_add(1) {
            return DeletableObjects { objects, resume_from: 0 };
        }
        if resume_from >= last {
            return DeletableObjects { objects, resume_from: 0 };
        }
        let start: usize = self.objects.rank(resume_from);
        let end: usize = self.objects.len() - 1;
        proof {
            lemma_count_below(self.objects.key_seq(), resume_from, start as int);
            if start > end {
                assert(self.objects.key_seq()[end as int] < resume_from);
            }
        }
        let ghost keys = self.objects.key_seq();
        let ghost whole = self@.scan_from(
            obsolete_entry_ids@,
            limit as int,
            scan_limit as int,
            start as int,
            start as int,
            Seq::empty(),
        );
        assert(objects@ =~= Seq::empty());
        let mut i: usize = start;
        while i < end
            invariant
                self.wf(),
                keys == self.objects.key_seq(),
                keys == ordered_keys(self@.objects),
                lists_keys(self@.objects, keys),
                start <= i <= end,
                end == keys.len() - 1,
                whole == self@.deletable(
                    obsolete_entry_ids@,
                    resume_from,
                    limit as int,
                    scan_limit as int,
                ),
                whole == self@.scan_from(
                    obsolete_entry_ids@,
                    limit as int,
                    scan_limit as int,
                    start as int,
                    i as int,
                    objects@,
                ),
            decreases end - i,
        {
            let object_seq: u64 = self.objects.key_at(i);
            if i - start == scan_limit || objects.len() == limit {
                return DeletableObjects { objects, resume_from: object_seq };
            }
            let footer = self.objects.value_at(i);
            if all_obsolete(footer, obsolete_entry_ids) {
                objects.push(object_seq);
            }
            i = i + 1;
        }
        DeletableObjects { objects, resume_from: 0 }
    }

    /// Returns the objects that hold entries of `region_id` overlapping
    /// `start_entry_id..=end_entry_id`, ordered by object sequence.
    pub fn objects_for_entry_range(
        &self,
        region_id: RegionId,
        start_entry_id: EntryId,
        end_entry_id: EntryId,
    ) -> (result: Result<Vec<(u64, FooterEntry)>, Error>)
        requires
            self.wf(),
        ensures
            start_entry_id > end_entry_id ==> result == Err::<Vec<(u64, FooterEntry)>, Error>(
                Error::InvalidWalEntryRange { region_id, start_entry_id, end_entry_id },
            ),
            start_entry_id <= end_entry_id ==> (result matches Ok(objects) && objects@
                == self@.overlap(region_id.0, start_entry_id, end_entry_id)),
    {
        if start_entry_id > end_entry_id {
            return Err(
                Error::InvalidWalEntryRange { region_id, start_entry_id, end_entry_id },
            );
        }
        let mut found: Vec<(u64, FooterEntry)> = Vec::new();
        let ghost model = self@.region(region_id.0);
        let region = match self.regions.get(region_id.as_u64()) {
            Some(region) => region,
            None => {
                proof {
                    assert forall|seq: u64| !#[trigger] model.contains_key(seq) by {
                        if model.contains_key(seq) {
                            assert(self@.max_ids.contains_key(region_id.0));
                        }
                    }
                    lemma_ordered_keys(model, Seq::empty());
                    assert(found@ =~= Seq::empty());
                }
                return Ok(found);
            },
        };
        proof {
            region.objects.lemma_key_seq();
        }
        let ghost keys = region.objects.key_seq();
        let n: usize = region.objects.len();
        let mut i: usize = 0;
        assert(found@ =~= Seq::empty());
        while i < n
            invariant
                region.objects.wf(),
                region.objects@ == model,
                keys == region.objects.key_seq(),
                n == keys.len(),
                i <= n,
                found@ == overlapping(model, keys, start_entry_id, end_entry_id, i as int),
            decreases n - i,
        {
            let entry = *region.objects.value_at(i);
            if entry.max_entry_id >= start_entry_id && entry.min_entry_id <= end_entry_id {
                found.push((region.objects.key_at(i), entry));
            }
            i = i + 1;
        }
        Ok(found)
    }

    /// Returns the smallest sequence whose ids are greater than the largest entry id of every
    /// region.
    pub fn entry_id_floor(&self) -> (floor: u64)
        requires
            self.wf(),
        ensures
            floor == floor_of_ids(self@.max_ids),
            floor <= OBJECT_SEQ_LIMIT,
    {
        proof {
            self.lemma_key_order();
        }
        let n: usize = self.regions.len();
        let mut floor: u64 = 0;
        let mut i: usize = 0;
        while i < n
            invariant
                self.wf(),
                self.regions.key_seq() == ordered_keys(self@.max_ids),
                n == self.regions.key_seq().len(),
                i <= n,
                floor == floor_upto(self@.max_ids, i as int),
                floor <= OBJECT_SEQ_LIMIT,
            decreases n - i,
        {
            let region_floor: u64 = sequence_floor(self.regions.value_at(i).max_entry_id);
            if floor < region_floor {
                floor = region_floor;
            }
            i = i + 1;
        }
        floor
    }

    /// Returns the sequence to assign to the next object written after recovery.
    ///
    /// An empty catalog starts at zero. Otherwise the sequence continues after the largest indexed
    /// one and is raised further when the largest entry id of a region lies at or above the ids
    /// that sequence would assign. A sequence at or above [`OBJECT_SEQ_LIMIT`] does not fit an
    /// entry id and is rejected.
    pub fn next_object_seq(&self) -> (next: Result<u64, Error>)
        requires
            self.wf(),
        ensures
            self@.next_seq() < OBJECT_SEQ_LIMIT ==> (next matches Ok(seq) && seq
                == self@.next_seq()),
            self@.next_seq() >= OBJECT_SEQ_LIMIT ==> (next matches Err(
                Error::WalObjectSequenceExhausted { last_object_seq },
            ) && last_object_seq == self@.next_seq() - 1),
    {
        proof {
            self.lemma_key_order();
        }
        let floor: u64 = self.entry_id_floor();
        let after_last: u64 = match self.objects.last_key() {
            None => 0,
            Some(last_object_seq) => {
                if last_object_seq == u64::MAX {
                    return Err(Error::WalObjectSequenceExhausted { last_object_seq });
                }
                last_object_seq + 1
            },
        };
        let next: u64 = if after_last < floor {
            floor
        } else {
            after_last
        };
        if next >= OBJECT_SEQ_LIMIT {
            return Err(Error::WalObjectSequenceExhausted { last_object_seq: next - 1 });
        }
        Ok(next)
    }

    /// Returns the indexed objects with their footers, ordered by object sequence.
    pub fn objects_in_order(&self) -> (objects: Vec<(u64, &[FooterEntry])>)
        requires
            self.wf(),
        ensures
            objects@.len() == ordered_keys(self@.objects).len(),
            forall|i: int|
                0 <= i < objects@.len() ==> (#[trigger] objects@[i]).0 == ordered_keys(
                    self@.objects,
                )[i] && objects@[i].1@ == self@.objects[objects@[i].0],
    {
        proof {
            self.lemma_key_order();
        }
        let mut objects: Vec<(u64, &[FooterEntry])> = Vec::new();
        let n: usize = self.objects.len();
        let mut i: usize = 0;
        while i < n
            invariant
                self.wf(),
                self.objects.key_seq() == ordered_keys(self@.objects),
                n == self.objects.key_seq().len(),
                i <= n,
                objects@.len() == i,
                forall|j: int|
                    0 <= j < i ==> (#[trigger] objects@[j]).0 == self.objects.key_seq()[j]
                        && objects@[j].1@ == self@.objects[objects@[j].0],
            decreases n - i,
        {
            let object_seq: u64 = self.objects.key_at(i);
            objects.push((object_seq, self.objects.value_at(i).as_slice()));
            i = i + 1;
        }
        objects
    }
}

/// Whether every segment of `footer` is at or below the watermark of its region.
fn all_obsolete(footer: &Vec<FooterEntry>, obsolete_entry_ids: &HashMap<u64, EntryId>) -> (obsolete:
    bool)
    ensures
        obsolete <==> is_obsolete(footer@, obsolete_entry_ids@),
{
    let n: usize = footer.len();
    let mut i: usize = 0;
    while i < n
        invariant
            n == footer@.len(),
            i <= n,
            forall|j: int|
                0 <= j < i ==> obsolete_entry_ids@.contains_key((#[trigger] footer@[j]).region_id.0)
                    && footer@[j].max_entry_id <= obsolete_entry_ids@[footer@[j].region_id.0],
        decreases n - i,
    {
        let entry = footer[i];
        match obsolete_entry_ids.get(&entry.region_id.as_u64()) {
            Some(obsolete) => {
                if entry.max_entry_id > *obsolete {
                    assert(!is_obsolete(footer@, obsolete_entry_ids@));
                    return false;
                }
            },
            None => {
                assert(!is_obsolete(footer@, obsolete_entry_ids@));
                return false;
            },
        }
        i = i + 1;
    }
    true
}

/// What the index of one region holds once the segments of `taken` are entered.
spec fn indexed_region(
    before: Map<u64, RegionObjects>,
    catalog: CatalogModel,
    after: RegionObjects,
    region: u64,
    object_seq: u64,
    taken: Seq<FooterEntry>,
) -> bool {
    &&& after.objects.wf()
    &&& after.objects@ == (if has_region(taken, region) {
        catalog.region(region).insert(object_seq, entry_of(taken, region))
    } else {
        catalog.region(region)
    })
    &&& after.max_entry_id == (if !has_region(taken, region) {
        before[region].max_entry_id
    } else if before.contains_key(region) && before[region].max_entry_id >= entry_of(
        taken,
        region,
    ).max_entry_id {
        before[region].max_entry_id
    } else {
        entry_of(taken, region).max_entry_id
    })
}

/// The corruption of a region whose entry ids do not increase from one object to the next.
fn out_of_order(
    region_id: RegionId,
    lower_object_seq: u64,
    lower_max_entry_id: EntryId,
    upper_object_seq: u64,
    upper_min_entry_id: EntryId,
) -> (reason: Corruption)
    ensures
        reason == (Corruption::OutOfOrder {
            region_id,
            lower_object_seq,
            lower_max_entry_id,
            upper_object_seq,
            upper_min_entry_id,
        }),
{
    Corruption::OutOfOrder {
        region_id,
        lower_object_seq,
        lower_max_entry_id,
        upper_object_seq,
        upper_min_entry_id,
    }
}

/// Orders a footer by region.
fn sort_by_region(footer: &Vec<FooterEntry>) -> (sorted: Vec<FooterEntry>)
    ensures
        sorted@ == by_region(footer@),
{
    let mut sorted: Vec<FooterEntry> = Vec::new();
    let n: usize = footer.len();
    let mut i: usize = 0;
    assert(footer@.take(0) =~= Seq::empty());
    while i < n
        invariant
            n == footer@.len(),
            i <= n,
            sorted@ == by_region(footer@.take(i as int)),
            sorted@.len() == i,
        decreases n - i,
    {
        let entry = footer[i];
        let ghost before = sorted@;
        let mut at: usize = sorted.len();
        assert(sorted@.take(at as int) =~= sorted@);
        assert(sorted@.skip(at as int) =~= Seq::empty());
        assert(insert_by_region(sorted@, entry) =~= insert_by_region(
            sorted@.take(at as int),
            entry,
        ) + sorted@.skip(at as int));
        while at > 0 && sorted[at - 1].region_id.as_u64() > entry.region_id.as_u64()
            invariant
                sorted@ == before,
                at <= before.len(),
                insert_by_region(before, entry) == insert_by_region(before.take(at as int), entry)
                    + before.skip(at as int),
            decreases at,
        {
            proof {
                let left = before.take(at as int);
                assert(left.drop_last() =~= before.take(at - 1));
                assert(left.last() == before[at - 1]);
                assert(insert_by_region(left, entry) + before.skip(at as int) =~= insert_by_region(
                    before.take(at - 1),
                    entry,
                ) + before.skip(at - 1));
            }
            at = at - 1;
        }
        proof {
            let left = before.take(at as int);
            assert(insert_by_region(left, entry) == left.push(entry));
            lemma_insert_len(before, entry);
            assert(footer@.take(i + 1).drop_last() =~= footer@.take(i as int));
        }
        sorted.insert(at, entry);
        assert(sorted@ =~= before.take(at as int).push(entry) + before.skip(at as int));
        i = i + 1;
    }
    assert(footer@.take(n as int) =~= footer@);
    sorted
}

proof fn lemma_insert_len(sorted: Seq<FooterEntry>, entry: FooterEntry)
    ensures
        insert_by_region(sorted, entry).len() == sorted.len() + 1,
    decreases sorted.len(),
{
    if sorted.len() > 0 && sorted.last().region_id.0 > entry.region_id.0 {
        lemma_insert_len(sorted.drop_last(), entry);
    }
}

/// The first region listed twice.
fn find_duplicate(object_seq: u64, footer: &Vec<FooterEntry>) -> (found: Option<Corruption>)
    ensures
        found == duplicate_from(object_seq, footer@, 0),
{
    let n: usize = footer.len();
    let mut i: usize = 0;
    while n - i > 1
        invariant
            n == footer@.len(),
            i <= n,
            duplicate_from(object_seq, footer@, 0) == duplicate_from(
                object_seq,
                footer@,
                i as int,
            ),
        decreases n - i,
    {
        if footer[i].region_id == footer[i + 1].region_id {
            return Some(
                Corruption::DuplicateRegion { object_seq, region_id: footer[i].region_id },
            );
        }
        i = i + 1;
    }
    None
}

/// The first segment without entries or with a range that runs backwards.
fn find_invalid_range(object_seq: u64, footer: &Vec<FooterEntry>) -> (found: Option<Corruption>)
    ensures
        found == invalid_range_from(object_seq, footer@, 0),
{
    let n: usize = footer.len();
    let mut i: usize = 0;
    while i < n
        invariant
            n == footer@.len(),
            i <= n,
            invalid_range_from(object_seq, footer@, 0) == invalid_range_from(
                object_seq,
                footer@,
                i as int,
            ),
        decreases n - i,
    {
        let entry = footer[i];
        if !(entry.entry_count > 0 && entry.min_entry_id <= entry.max_entry_id) {
            return Some(
                Corruption::InvalidEntryRange {
                    object_seq,
                    region_id: entry.region_id,
                    min_entry_id: entry.min_entry_id,
                    max_entry_id: entry.max_entry_id,
                    entry_count: entry.entry_count,
                },
            );
        }
        i = i + 1;
    }
    None
}

/// What a scan accepts beyond `found`: obsolete objects of the places it passed, in order, each
/// once, and none of the place it stops at or of a later one. Every obsolete object of a place it
/// passed is accepted.
proof fn lemma_scan(
    catalog: CatalogModel,
    obsolete: Map<u64, EntryId>,
    limit: int,
    scan_limit: int,
    start: int,
    i: int,
    found: Seq<u64>,
)
    requires
        catalog.valid(),
        0 <= start <= i,
        0 < limit,
        0 < scan_limit,
        found.len() <= limit,
        i - start <= scan_limit,
        i == start ==> found.len() == 0,
        i <= ordered_keys(catalog.objects).len() - 1,
        strictly_increasing(found),
        forall|k: int| 0 <= k < found.len() ==> (#[trigger] found[k]) < ordered_keys(catalog.objects)[i],
    ensures
        ({
            let keys = ordered_keys(catalog.objects);
            let (objects, resume) = catalog.scan_from(
                obsolete,
                limit,
                scan_limit,
                start,
                i,
                found,
            );
            &&& objects.len() <= limit
            &&& strictly_increasing(objects)
            &&& forall|seq: u64| #[trigger]
                objects.contains(seq) <==> (found.contains(seq) || (catalog.objects.contains_key(
                    seq,
                ) && is_obsolete(catalog.objects[seq], obsolete) && keys[i] <= seq && seq
                    < catalog.last_seq() && (resume == 0 || seq < resume)))
            &&& resume != 0 ==> catalog.objects.contains_key(resume) && keys[i] <= resume && resume
                < catalog.last_seq()
        }),
    decreases ordered_keys(catalog.objects).len() - i,
{
    let keys = ordered_keys(catalog.objects);
    lemma_lists_keys(catalog.objects);
    assert(keys.contains(keys[i]));
    assert forall|seq: u64| #[trigger] catalog.objects.contains_key(seq) implies seq
        <= catalog.last_seq() by {
        assert(keys.contains(seq));
        let k = keys.index_of(seq);
        assert(keys[k] == seq);
    }
    if i >= keys.len() - 1 {
        assert(keys[i] == catalog.last_seq());
    } else {
        assert(keys[i] < keys.last());
        if i - start == scan_limit || found.len() == limit {
            assert(start < i);
            assert(keys[start] < keys[i]);
        } else {
            let next = if is_obsolete(catalog.objects[keys[i]], obsolete) {
                found.push(keys[i])
            } else {
                found
            };
            assert(keys[i] < keys[i + 1]);
            assert forall|k: int| 0 <= k < next.len() implies (#[trigger] next[k]) < keys[i + 1] by {
                if k < found.len() {
                    assert(found[k] < keys[i]);
                }
            }
            assert(strictly_increasing(next));
            lemma_scan(catalog, obsolete, limit, scan_limit, start, i + 1, next);
            assert forall|seq: u64| #[trigger] next.contains(seq) <==> (found.contains(seq) || (seq
                == keys[i] && is_obsolete(catalog.objects[keys[i]], obsolete))) by {
                if found.contains(seq) {
                    assert(next[found.index_of(seq)] == seq);
                }
                if next != found {
                    assert(next[found.len() as int] == keys[i]);
                }
                if next.contains(seq) {
                    let k = next.index_of(seq);
                    if k < found.len() {
                        assert(found[k] == seq);
                    }
                }
            }
            assert forall|seq: u64|
                #![trigger catalog.objects.contains_key(seq)]
                catalog.objects.contains_key(seq) && keys[i] < seq implies keys[i + 1] <= seq by {
                assert(keys.contains(seq));
                let k = keys.index_of(seq);
                assert(keys[k] == seq);
                if k < i {
                    assert(keys[k] < keys[i]);
                } else if k > i + 1 {
                    assert(keys[i + 1] < keys[k]);
                }
            }
        }
    }
}

/// A pass of a collection accepts obsolete objects only, never the highest one, in sequence order
/// and at most as many as asked for. It skips none: every obsolete object from the start of the
/// pass up to where the next one resumes is accepted, up to the highest object when it does not
/// say where to resume.
pub proof fn lemma_deletable(
    catalog: CatalogModel,
    obsolete: Map<u64, EntryId>,
    resume_from: u64,
    limit: int,
    scan_limit: int,
)
    requires
        catalog.valid(),
        0 < limit,
        0 < scan_limit,
    ensures
        ({
            let (objects, resume) = catalog.deletable(obsolete, resume_from, limit, scan_limit);
            &&& objects.len() <= limit
            &&& strictly_increasing(objects)
            &&& forall|seq: u64| #[trigger]
                objects.contains(seq) <==> {
                    &&& catalog.objects.contains_key(seq)
                    &&& is_obsolete(catalog.objects[seq], obsolete)
                    &&& resume_from <= seq
                    &&& seq < catalog.last_seq()
                    &&& !catalog.ids_name_later_object()
                    &&& resume == 0 || seq < resume
                }
            &&& resume != 0 ==> resume_from < resume && resume < catalog.last_seq()
                && catalog.objects.contains_key(resume)
        }),
{
    let keys = ordered_keys(catalog.objects);
    lemma_lists_keys(catalog.objects);
    if catalog.objects.dom().len() == 0 {
        assert forall|seq: u64| !#[trigger] catalog.objects.contains_key(seq) by {
            assert(!keys.contains(seq));
        }
    } else if !catalog.ids_name_later_object() && resume_from < catalog.last_seq() {
        let start = lemma_rank(catalog, resume_from);
        lemma_scan(catalog, obsolete, limit, scan_limit, start, start, Seq::empty());
        assert forall|seq: u64|
            #![trigger catalog.objects.contains_key(seq)]
            catalog.objects.contains_key(seq) implies (resume_from <= seq <==> keys[start]
            <= seq) by {
            assert(keys.contains(seq));
            let k = keys.index_of(seq);
            assert(keys[k] == seq);
            if k < start {
                assert(keys[k] < resume_from);
                assert(keys[k] < keys[start]);
            } else if k > start {
                assert(keys[start] < keys[k]);
            }
        }
        let (objects, resume) = catalog.deletable(obsolete, resume_from, limit, scan_limit);
        if resume != 0 {
            lemma_scan_moves(catalog, obsolete, limit, scan_limit, start, start, Seq::empty());
        }
    } else {
        let (objects, resume) = catalog.deletable(obsolete, resume_from, limit, scan_limit);
        assert(objects =~= Seq::empty());
    }
}

/// What the passes of a collection accept from `resume_from` on, one after the other, until a pass
/// does not say where to resume.
pub open spec fn sweep(
    catalog: CatalogModel,
    obsolete: Map<u64, EntryId>,
    resume_from: u64,
    limit: int,
    scan_limit: int,
) -> Seq<u64>
    decreases u64::MAX - resume_from,
{
    let (objects, resume) = catalog.deletable(obsolete, resume_from, limit, scan_limit);
    if resume <= resume_from {
        objects
    } else {
        objects + sweep(catalog, obsolete, resume, limit, scan_limit)
    }
}

/// The bounds of the passes do not change what a sweep accepts: in sequence order, and each once,
/// exactly the obsolete objects from its start on, except the highest.
pub proof fn lemma_sweep_is_complete(
    catalog: CatalogModel,
    obsolete: Map<u64, EntryId>,
    resume_from: u64,
    limit: int,
    scan_limit: int,
)
    requires
        catalog.valid(),
        0 < limit,
        0 < scan_limit,
    ensures
        ({
            let swept = sweep(catalog, obsolete, resume_from, limit, scan_limit);
            &&& strictly_increasing(swept)
            &&& forall|seq: u64| #[trigger]
                swept.contains(seq) <==> {
                    &&& catalog.objects.contains_key(seq)
                    &&& is_obsolete(catalog.objects[seq], obsolete)
                    &&& resume_from <= seq
                    &&& seq < catalog.last_seq()
                    &&& !catalog.ids_name_later_object()
                }
        }),
    decreases u64::MAX - resume_from,
{
    let (objects, resume) = catalog.deletable(obsolete, resume_from, limit, scan_limit);
    let swept = sweep(catalog, obsolete, resume_from, limit, scan_limit);
    lemma_deletable(catalog, obsolete, resume_from, limit, scan_limit);
    if resume > resume_from {
        let rest = sweep(catalog, obsolete, resume, limit, scan_limit);
        lemma_sweep_is_complete(catalog, obsolete, resume, limit, scan_limit);
        assert(swept == objects + rest);
        assert forall|seq: u64| #[trigger] swept.contains(seq) <==> objects.contains(seq)
            || rest.contains(seq) by {
            if swept.contains(seq) {
                let i = swept.index_of(seq);
                assert(swept[i] == seq);
                if i < objects.len() {
                    assert(objects[i] == seq);
                } else {
                    assert(rest[i - objects.len()] == seq);
                }
            }
            if objects.contains(seq) {
                assert(swept[objects.index_of(seq)] == seq);
            }
            if rest.contains(seq) {
                assert(swept[objects.len() + rest.index_of(seq)] == seq);
            }
        }
        assert forall|i: int, j: int| 0 <= i < j < swept.len() implies swept[i] < swept[j] by {
            if i < objects.len() {
                assert(objects.contains(objects[i]));
            }
            if j >= objects.len() {
                assert(rest.contains(rest[j - objects.len()]));
            }
        }
    }
}

/// A pass that stops early stops behind the place it started at.
proof fn lemma_scan_moves(
    catalog: CatalogModel,
    obsolete: Map<u64, EntryId>,
    limit: int,
    scan_limit: int,
    start: int,
    i: int,
    found: Seq<u64>,
)
    requires
        catalog.valid(),
        0 <= start <= i < ordered_keys(catalog.objects).len(),
        0 < limit,
        0 < scan_limit,
        i == start ==> found.len() == 0,
    ensures
        ({
            let (_, resume) = catalog.scan_from(obsolete, limit, scan_limit, start, i, found);
            resume != 0 ==> ordered_keys(catalog.objects)[start] < resume
        }),
    decreases ordered_keys(catalog.objects).len() - i,
{
    let keys = ordered_keys(catalog.objects);
    lemma_lists_keys(catalog.objects);
    if i < keys.len() - 1 {
        if i - start == scan_limit || found.len() == limit {
            assert(keys[start] < keys[i]);
        } else if is_obsolete(catalog.objects[keys[i]], obsolete) {
            lemma_scan_moves(
                catalog,
                obsolete,
                limit,
                scan_limit,
                start,
                i + 1,
                found.push(keys[i]),
            );
        } else {
            lemma_scan_moves(catalog, obsolete, limit, scan_limit, start, i + 1, found);
        }
    }
}

/// The rank of a sequence below the highest object is the place of the first object at or above
/// it.
pub(crate) proof fn lemma_rank(catalog: CatalogModel, seq: u64) -> (rank: int)
    requires
        catalog.valid(),
        catalog.objects.dom().len() > 0,
        seq < catalog.last_seq(),
    ensures
        rank == catalog.rank(seq),
        0 <= rank < ordered_keys(catalog.objects).len(),
        forall|i: int| 0 <= i < rank ==> #[trigger] ordered_keys(catalog.objects)[i] < seq,
        seq <= ordered_keys(catalog.objects)[rank],
{
    let keys = ordered_keys(catalog.objects);
    lemma_lists_keys(catalog.objects);
    lemma_count_is_place(keys, seq);
    let rank = count_below(keys, seq);
    if rank == keys.len() {
        assert(keys[rank - 1] < seq);
    }
    rank
}

proof fn lemma_count_is_place(keys: Seq<u64>, key: u64)
    requires
        strictly_increasing(keys),
    ensures
        0 <= count_below(keys, key) <= keys.len(),
        forall|i: int| 0 <= i < count_below(keys, key) ==> #[trigger] keys[i] < key,
        forall|i: int| count_below(keys, key) <= i < keys.len() ==> key <= #[trigger] keys[i],
    decreases keys.len(),
{
    if keys.len() > 0 && keys.last() >= key {
        let rest = keys.drop_last();
        lemma_count_is_place(rest, key);
        assert forall|i: int| 0 <= i < count_below(keys, key) implies #[trigger] keys[i] < key by {
            assert(rest[i] < key);
        }
        assert forall|i: int| count_below(keys, key) <= i < keys.len() implies key
            <= #[trigger] keys[i] by {
            if i < rest.len() {
                assert(key <= rest[i]);
            }
        }
    }
}

/// The floor of a set of ids is at or above the floor of each, and is the floor of one of them or
/// zero.
pub proof fn lemma_floor_of_ids(max_ids: Map<u64, EntryId>)
    requires
        max_ids.dom().finite(),
    ensures
        0 <= floor_of_ids(max_ids),
        forall|region: u64| #[trigger]
            max_ids.contains_key(region) ==> floor_of(max_ids[region] as int) <= floor_of_ids(
                max_ids,
            ),
        floor_of_ids(max_ids) == 0 || exists|region: u64| #[trigger]
            max_ids.contains_key(region) && floor_of(max_ids[region] as int) == floor_of_ids(
                max_ids,
            ),
{
    let keys = ordered_keys(max_ids);
    lemma_lists_keys(max_ids);
    lemma_floor_upto(max_ids, keys.len() as int);
    assert forall|region: u64| #[trigger] max_ids.contains_key(region) implies floor_of(
        max_ids[region] as int,
    ) <= floor_of_ids(max_ids) by {
        assert(keys.contains(region));
        let k = keys.index_of(region);
        assert(keys[k] == region);
    }
}

proof fn lemma_floor_upto(max_ids: Map<u64, EntryId>, n: int)
    requires
        lists_keys(max_ids, ordered_keys(max_ids)),
        0 <= n <= ordered_keys(max_ids).len(),
    ensures
        0 <= floor_upto(max_ids, n),
        forall|k: int|
            0 <= k < n ==> floor_of(max_ids[#[trigger] ordered_keys(max_ids)[k]] as int)
                <= floor_upto(max_ids, n),
        floor_upto(max_ids, n) == 0 || exists|region: u64| #[trigger]
            max_ids.contains_key(region) && floor_of(max_ids[region] as int) == floor_upto(
                max_ids,
                n,
            ),
    decreases n,
{
    if n > 0 {
        lemma_floor_upto(max_ids, n - 1);
        let key = ordered_keys(max_ids)[n - 1];
        assert(ordered_keys(max_ids).contains(key));
        assert(max_ids.contains_key(key));
    }
}

/// The next sequence is above every indexed one, and each of its ids is above every id that was
/// ever indexed.
pub proof fn lemma_next_seq_is_fresh(catalog: CatalogModel)
    requires
        catalog.valid(),
    ensures
        forall|seq: u64| #[trigger] catalog.objects.contains_key(seq) ==> seq < catalog.next_seq(),
        forall|region: u64, position: int|
            catalog.max_ids.contains_key(region) && 1 <= position
                ==> #[trigger] catalog.max_ids[region] < #[trigger] id_at(
                catalog.next_seq(),
                position,
            ),
{
    let keys = ordered_keys(catalog.objects);
    lemma_lists_keys(catalog.objects);
    lemma_floor_of_ids(catalog.max_ids);
    assert forall|seq: u64| #[trigger] catalog.objects.contains_key(seq) implies seq
        < catalog.next_seq() by {
        assert(keys.contains(seq));
        let k = keys.index_of(seq);
        assert(keys[k] == seq);
    }
    assert forall|region: u64, position: int|
        catalog.max_ids.contains_key(region) && 1
            <= position implies #[trigger] catalog.max_ids[region] < #[trigger] id_at(
        catalog.next_seq(),
        position,
    ) by {
        let id = catalog.max_ids[region] as int;
        lemma_floor_is_least(id);
        assert(id < id_at(floor_of(id), position));
        assert(floor_of(id) <= catalog.next_seq());
    }
}

/// A recovery after a collection resumes the same sequence: once the collected objects are gone,
/// the objects that are left give the sequence that the catalog had before, even though the ids
/// of the collected objects are forgotten.
pub proof fn lemma_collection_keeps_sequence(
    catalog: CatalogModel,
    left: CatalogModel,
    obsolete: Map<u64, EntryId>,
    resume_from: u64,
    limit: int,
    scan_limit: int,
)
    requires
        catalog.valid(),
        left.valid(),
        0 < limit,
        0 < scan_limit,
        catalog.deletable(obsolete, resume_from, limit, scan_limit).0.len() > 0,
        forall|seq: u64| #[trigger]
            left.objects.contains_key(seq) <==> catalog.objects.contains_key(seq)
                && !catalog.deletable(obsolete, resume_from, limit, scan_limit).0.contains(seq),
        forall|region: u64| #[trigger]
            left.max_ids.contains_key(region) ==> catalog.max_ids.contains_key(region)
                && left.max_ids[region] <= catalog.max_ids[region],
    ensures
        left.next_seq() == catalog.next_seq(),
        left.last_seq() == catalog.last_seq(),
{
    let (objects, resume) = catalog.deletable(obsolete, resume_from, limit, scan_limit);
    lemma_deletable(catalog, obsolete, resume_from, limit, scan_limit);
    assert(objects.contains(objects[0]));
    let last = catalog.last_seq();
    lemma_lists_keys(catalog.objects);
    lemma_lists_keys(left.objects);
    assert(ordered_keys(catalog.objects).contains(last));
    assert(left.objects.contains_key(last));
    let left_keys = ordered_keys(left.objects);
    assert(left_keys.contains(last));
    let k = left_keys.index_of(last);
    assert(left_keys[k] == last);
    assert(left_keys.contains(left_keys.last()));
    assert(left.objects.contains_key(left_keys.last()));
    assert(ordered_keys(catalog.objects).contains(left_keys.last()));
    let c = ordered_keys(catalog.objects).index_of(left_keys.last());
    assert(ordered_keys(catalog.objects)[c] == left_keys.last());
    assert(left_keys.last() == last) by {
        if k < left_keys.len() - 1 {
            assert(last < left_keys.last());
        }
        if c < ordered_keys(catalog.objects).len() - 1 {
            assert(left_keys.last() < last);
        }
    }
    lemma_floor_of_ids(catalog.max_ids);
    lemma_floor_of_ids(left.max_ids);
    assert(floor_of_ids(left.max_ids) <= floor_of_ids(catalog.max_ids)) by {
        if floor_of_ids(left.max_ids) > 0 {
            let region = choose|region: u64| #[trigger]
                left.max_ids.contains_key(region) && floor_of(left.max_ids[region] as int)
                    == floor_of_ids(left.max_ids);
            lemma_floor_is_monotone(
                left.max_ids[region] as int,
                catalog.max_ids[region] as int,
            );
        }
    }
}

/// A range query returns exactly the segments of the region that overlap the range, in object
/// order, and no entry id lies in two of them.
pub proof fn lemma_overlap(catalog: CatalogModel, region: u64, start: EntryId, end: EntryId)
    requires
        catalog.valid(),
    ensures
        ({
            let found = catalog.overlap(region, start, end);
            &&& forall|i: int|
                0 <= i < found.len() ==> {
                    let (seq, entry) = #[trigger] found[i];
                    &&& catalog.region(region).contains_key(seq)
                    &&& entry == catalog.region(region)[seq]
                    &&& entry.max_entry_id >= start
                    &&& entry.min_entry_id <= end
                }
            &&& forall|seq: u64| #[trigger]
                catalog.region(region).contains_key(seq) && catalog.region(region)[seq].max_entry_id
                    >= start && catalog.region(region)[seq].min_entry_id <= end
                    ==> found.contains((seq, catalog.region(region)[seq]))
            &&& forall|i: int, j: int|
                0 <= i < j < found.len() ==> (#[trigger] found[i]).0 < (#[trigger] found[j]).0
                    && found[i].1.max_entry_id < found[j].1.min_entry_id
        }),
{
    let model = catalog.region(region);
    let keys = ordered_keys(model);
    assert(model.dom().finite()) by {
        assert(model.dom().subset_of(catalog.objects.dom()));
        vstd::set_lib::lemma_len_subset(model.dom(), catalog.objects.dom());
    }
    lemma_lists_keys(model);
    lemma_overlapping(catalog, region, start, end, keys.len() as int);
    let found = catalog.overlap(region, start, end);
    assert forall|seq: u64| #[trigger]
        catalog.region(region).contains_key(seq) && catalog.region(region)[seq].max_entry_id
            >= start && catalog.region(region)[seq].min_entry_id <= end implies found.contains(
        (seq, catalog.region(region)[seq]),
    ) by {
        assert(keys.contains(seq));
        let k = keys.index_of(seq);
        assert(keys[k] == seq);
    }
}

proof fn lemma_overlapping(
    catalog: CatalogModel,
    region: u64,
    start: EntryId,
    end: EntryId,
    n: int,
)
    requires
        catalog.valid(),
        lists_keys(catalog.region(region), ordered_keys(catalog.region(region))),
        0 <= n <= ordered_keys(catalog.region(region)).len(),
    ensures
        ({
            let model = catalog.region(region);
            let keys = ordered_keys(model);
            let found = overlapping(model, keys, start, end, n);
            &&& forall|i: int|
                0 <= i < found.len() ==> {
                    let (seq, entry) = #[trigger] found[i];
                    &&& model.contains_key(seq)
                    &&& entry == model[seq]
                    &&& entry.max_entry_id >= start
                    &&& entry.min_entry_id <= end
                    &&& n < keys.len() ==> seq < keys[n]
                }
            &&& forall|k: int|
                0 <= k < n && model[#[trigger] keys[k]].max_entry_id >= start
                    && model[keys[k]].min_entry_id <= end ==> found.contains(
                    (keys[k], model[keys[k]]),
                )
            &&& forall|i: int, j: int|
                0 <= i < j < found.len() ==> (#[trigger] found[i]).0 < (#[trigger] found[j]).0
                    && found[i].1.max_entry_id < found[j].1.min_entry_id
        }),
    decreases n,
{
    let model = catalog.region(region);
    let keys = ordered_keys(model);
    if n > 0 {
        lemma_overlapping(catalog, region, start, end, n - 1);
        let rest = overlapping(model, keys, start, end, n - 1);
        let found = overlapping(model, keys, start, end, n);
        let key = keys[n - 1];
        assert(keys.contains(key));
        assert(model.contains_key(key));
        if n < keys.len() {
            assert(key < keys[n]);
        }
        assert forall|k: int|
            0 <= k < n && model[#[trigger] keys[k]].max_entry_id >= start
                && model[keys[k]].min_entry_id <= end implies found.contains(
            (keys[k], model[keys[k]]),
        ) by {
            if k < n - 1 {
                let at = rest.index_of((keys[k], model[keys[k]]));
                assert(found[at] == rest[at]);
            } else {
                assert(found.last() == (key, model[key]));
            }
        }
        assert forall|i: int, j: int| 0 <= i < j < found.len() implies (#[trigger] found[i]).0 < (
        #[trigger] found[j]).0 && found[i].1.max_entry_id < found[j].1.min_entry_id by {
            assert(found[i] == rest[i]);
            if j < rest.len() {
                assert(found[j] == rest[j]);
            } else {
                assert(model.contains_key(rest[i].0));
                assert(catalog.region(region).contains_key(rest[i].0));
                assert(catalog.region(region).contains_key(key));
            }
        }
    }
}

/// A collected object holds nothing a read can return: every segment it has ends at or below the
/// watermark of its region.
pub proof fn lemma_collected_is_hidden(
    catalog: CatalogModel,
    obsolete: Map<u64, EntryId>,
    resume_from: u64,
    limit: int,
    scan_limit: int,
    object_seq: u64,
    region: u64,
)
    requires
        catalog.valid(),
        0 < limit,
        0 < scan_limit,
        catalog.deletable(obsolete, resume_from, limit, scan_limit).0.contains(object_seq),
        catalog.region(region).contains_key(object_seq),
    ensures
        obsolete.contains_key(region),
        catalog.region(region)[object_seq].max_entry_id <= obsolete[region],
{
    lemma_deletable(catalog, obsolete, resume_from, limit, scan_limit);
    lemma_region_entry_valid(catalog, region, object_seq);
    let footer = catalog.objects[object_seq];
    let i = choose|i: int| 0 <= i < footer.len() && (#[trigger] footer[i]).region_id.0 == region;
    assert(footer[i].max_entry_id <= obsolete[footer[i].region_id.0]);
}

/// A footer whose regions increase is in region order already.
pub proof fn lemma_by_region_of_increasing(footer: Seq<FooterEntry>)
    requires
        increasing_by_region(footer),
    ensures
        by_region(footer) == footer,
    decreases footer.len(),
{
    if footer.len() > 0 {
        let rest = footer.drop_last();
        assert(increasing_by_region(rest)) by {
            assert forall|i: int, j: int| 0 <= i < j < rest.len() implies rest[i].region_id.0
                < rest[j].region_id.0 by {
                assert(footer[i].region_id.0 < footer[j].region_id.0);
            }
        }
        lemma_by_region_of_increasing(rest);
        if rest.len() > 0 {
            assert(footer[rest.len() - 1].region_id.0 < footer[footer.len() - 1].region_id.0);
        }
        assert(insert_by_region(rest, footer.last()) =~= footer);
    }
}

/// A footer whose regions increase lists none twice.
pub proof fn lemma_no_duplicate_in_increasing(object_seq: u64, footer: Seq<FooterEntry>, i: int)
    requires
        increasing_by_region(footer),
        0 <= i,
    ensures
        duplicate_from(object_seq, footer, i) is None,
    decreases footer.len() - i,
{
    if i + 1 < footer.len() {
        assert(footer[i].region_id.0 < footer[i + 1].region_id.0);
        lemma_no_duplicate_in_increasing(object_seq, footer, i + 1);
    }
}

/// Where every range is valid, none is found that is not.
pub proof fn lemma_no_invalid_range(object_seq: u64, footer: Seq<FooterEntry>, i: int)
    requires
        0 <= i,
        forall|k: int| 0 <= k < footer.len() ==> valid_range(#[trigger] footer[k]),
    ensures
        invalid_range_from(object_seq, footer, i) is None,
    decreases footer.len() - i,
{
    if i < footer.len() {
        assert(valid_range(footer[i]));
        lemma_no_invalid_range(object_seq, footer, i + 1);
    }
}

} // verus!
