//! Accumulation of admitted entries into the batch that becomes the next object.
use std::collections::HashMap;

use vstd::prelude::*;
use vstd::std_specs::hash::*;

use crate::error::Error;
use crate::id::{entry_id, id_at, EntryId, RegionId, OBJECT_SEQ_LIMIT, POSITION_LIMIT};
use crate::logstore::{
    count_region, lemma_count_concat, lemma_count_monotone, lemma_count_positive, total_size,
    with_id, Entry,
};

verus! {

broadcast use group_hash_axioms;

/// Entries admitted since the last seal, together with the largest entry id handed out per
/// region.
///
/// Entry ids are assigned in admission order, so the ids of a region increase across batches and
/// have no gaps. The accepted ids include entries that are not durable yet; a failed flush rolls
/// them back to the durable ids with [`OpenBatch::reset`].
#[derive(Debug)]
pub struct OpenBatch {
    max_bytes: usize,
    entries: Vec<Entry>,
    estimated_bytes: usize,
    accepted_entry_ids: HashMap<u64, EntryId>,
}

/// What an open batch holds.
pub struct OpenBatchModel {
    pub max_bytes: int,
    pub entries: Seq<Entry>,
    pub estimated_bytes: nat,
    pub accepted: Map<u64, EntryId>,
}

/// The largest id of the region, zero when it has none.
pub open spec fn largest_id(ids: Map<u64, EntryId>, region: u64) -> EntryId {
    if ids.contains_key(region) {
        ids[region]
    } else {
        0
    }
}

/// The entries with the ids that continue `accepted`: each gets the id after the last one of its
/// region.
pub open spec fn numbered(accepted: Map<u64, EntryId>, entries: Seq<Entry>) -> Seq<Entry> {
    Seq::new(
        entries.len(),
        |i: int|
            with_id(
                entries[i],
                (largest_id(accepted, entries[i].region_id.0) + count_region(
                    entries.take(i + 1),
                    entries[i].region_id.0,
                )) as u64,
            ),
    )
}

/// The last id of every region that has entries among `entries`.
pub open spec fn last_ids(accepted: Map<u64, EntryId>, entries: Seq<Entry>) -> Map<u64, EntryId> {
    Map::new(
        |region: u64| count_region(entries, region) > 0,
        |region: u64| (largest_id(accepted, region) + count_region(entries, region)) as u64,
    )
}

impl View for OpenBatch {
    type V = OpenBatchModel;

    closed spec fn view(&self) -> OpenBatchModel {
        OpenBatchModel {
            max_bytes: self.max_bytes as int,
            entries: self.entries@,
            estimated_bytes: self.estimated_bytes as nat,
            accepted: self.accepted_entry_ids@,
        }
    }
}

impl OpenBatch {
    /// Creates an empty batch that continues the ids in `accepted_entry_ids`.
    pub fn new(max_bytes: usize, accepted_entry_ids: HashMap<u64, EntryId>) -> (batch: OpenBatch)
        ensures
            batch@.max_bytes == max_bytes,
            batch@.entries == Seq::<Entry>::empty(),
            batch@.estimated_bytes == 0,
            batch@.accepted == accepted_entry_ids@,
    {
        OpenBatch { max_bytes, entries: Vec::new(), estimated_bytes: 0, accepted_entry_ids }
    }

    /// Admits `entries`, assigning each the next entry id of its region, and returns the last id
    /// assigned to every region in `entries`.
    pub fn admit_entries(&mut self, entries: Vec<Entry>) -> (last_entry_ids: HashMap<u64, EntryId>)
        requires
            forall|region: u64| #[trigger]
                count_region(entries@, region) > 0 ==> largest_id(old(self)@.accepted, region)
                    + count_region(entries@, region) <= u64::MAX,
            old(self)@.estimated_bytes + total_size(entries@) <= usize::MAX,
        ensures
            last_entry_ids@ == last_ids(old(self)@.accepted, entries@),
            final(self)@ == (OpenBatchModel {
                max_bytes: old(self)@.max_bytes,
                entries: old(self)@.entries + numbered(old(self)@.accepted, entries@),
                estimated_bytes: old(self)@.estimated_bytes + total_size(entries@),
                accepted: old(self)@.accepted.union_prefer_right(
                    last_ids(old(self)@.accepted, entries@),
                ),
            }),
    {
        let ghost all = entries@;
        let ghost before = self@;
        let mut last_entry_ids: HashMap<u64, EntryId> = HashMap::new();
        proof {
            assert(last_entry_ids@ =~= last_ids(before.accepted, all.take(0)));
            assert(before.accepted.union_prefer_right(last_ids(before.accepted, all.take(0)))
                =~= before.accepted);
            assert(before.entries + numbered(before.accepted, all.take(0)) =~= before.entries);
        }
        for entry in it: entries
            invariant
                it.seq() == all,
                forall|region: u64| #[trigger]
                    count_region(all, region) > 0 ==> largest_id(before.accepted, region)
                        + count_region(all, region) <= u64::MAX,
                before.estimated_bytes + total_size(all) <= usize::MAX,
                last_entry_ids@ == last_ids(before.accepted, all.take(it.index() as int)),
                self@ == (OpenBatchModel {
                    max_bytes: before.max_bytes,
                    entries: before.entries + numbered(
                        before.accepted,
                        all.take(it.index() as int),
                    ),
                    estimated_bytes: before.estimated_bytes + total_size(
                        all.take(it.index() as int),
                    ),
                    accepted: before.accepted.union_prefer_right(
                        last_ids(before.accepted, all.take(it.index() as int)),
                    ),
                }),
        {
            let ghost i = it.index() as int;
            let ghost front = all.take(i);
            let ghost next = all.take(i + 1);
            let mut entry = entry;
            let region: u64 = entry.region_id.as_u64();
            proof {
                assert(entry == all[i]);
                assert(next.drop_last() =~= front);
                lemma_count_monotone(all, region, i + 1, all.len() as int);
                assert(all.take(all.len() as int) =~= all);
                assert(count_region(all, region) > 0);
                lemma_count_positive(front, region);
            }
            let last: u64 = match self.accepted_entry_ids.get(&region) {
                Some(last) => *last,
                None => 0,
            };
            proof {
                assert(last == largest_id(before.accepted, region) + count_region(front, region));
            }
            let entry_id: u64 = last + 1;
            entry.entry_id = entry_id;
            self.accepted_entry_ids.insert(region, entry_id);
            last_entry_ids.insert(region, entry_id);
            self.estimated_bytes = self.estimated_bytes + entry.estimated_size;
            self.entries.push(entry);
            proof {
                assert(last_entry_ids@ =~= last_ids(before.accepted, next));
                assert(self@.accepted =~= before.accepted.union_prefer_right(
                    last_ids(before.accepted, next),
                ));
                assert(self@.entries =~= before.entries + numbered(before.accepted, next)) by {
                    assert forall|k: int| 0 <= k < i implies numbered(before.accepted, next)[k]
                        == numbered(before.accepted, front)[k] by {
                        assert(next.take(k + 1) =~= front.take(k + 1));
                    }
                    assert(next.take(i + 1) =~= next);
                }
            }
        }
        assert(all.take(all.len() as int) =~= all);
        last_entry_ids
    }

    /// Whether no entry is in the batch.
    pub fn is_empty(&self) -> (empty: bool)
        ensures
            empty <==> self@.entries.len() == 0,
    {
        self.entries.len() == 0
    }

    /// Returns true once the admitted entries reach the size limit.
    pub fn should_seal(&self) -> (full: bool)
        ensures
            full <==> self@.entries.len() > 0 && self@.estimated_bytes >= self@.max_bytes,
    {
        !self.is_empty() && self.estimated_bytes >= self.max_bytes
    }

    /// Takes the admitted entries out of the batch.
    pub fn seal(&mut self) -> (entries: Vec<Entry>)
        ensures
            entries@ == old(self)@.entries,
            final(self)@ == (OpenBatchModel {
                entries: Seq::empty(),
                estimated_bytes: 0,
                ..old(self)@
            }),
    {
        self.estimated_bytes = 0;
        let mut entries: Vec<Entry> = Vec::new();
        std::mem::swap(&mut entries, &mut self.entries);
        entries
    }

    /// Drops the admitted entries and rolls the accepted ids back to `durable_entry_ids`, so the
    /// next admission hands out the same ids again.
    pub fn reset(&mut self, durable_entry_ids: HashMap<u64, EntryId>)
        ensures
            final(self)@ == (OpenBatchModel {
                max_bytes: old(self)@.max_bytes,
                entries: Seq::empty(),
                estimated_bytes: 0,
                accepted: durable_entry_ids@,
            }),
    {
        self.entries = Vec::new();
        self.estimated_bytes = 0;
        self.accepted_entry_ids = durable_entry_ids;
    }
}

/// The ids of a region continue its accepted ids without a gap and in admission order: the first
/// entry of the region gets the id after its largest accepted one, and each later entry the id
/// after the previous entry of the region.
pub proof fn lemma_ids_are_contiguous(
    accepted: Map<u64, EntryId>,
    entries: Seq<Entry>,
    i: int,
    j: int,
)
    requires
        0 <= i < j < entries.len(),
        entries[i].region_id == entries[j].region_id,
        largest_id(accepted, entries[i].region_id.0) + count_region(
            entries,
            entries[i].region_id.0,
        ) <= u64::MAX,
    ensures
        numbered(accepted, entries)[i].entry_id > largest_id(accepted, entries[i].region_id.0),
        numbered(accepted, entries)[i].entry_id < numbered(accepted, entries)[j].entry_id,
        (forall|k: int|
            i < k < j ==> (#[trigger] entries[k]).region_id != entries[i].region_id) ==> numbered(
            accepted,
            entries,
        )[j].entry_id == numbered(accepted, entries)[i].entry_id + 1,
{
    let region = entries[i].region_id.0;
    assert(entries.take(i + 1).drop_last() =~= entries.take(i));
    assert(entries.take(j + 1).drop_last() =~= entries.take(j));
    lemma_count_monotone(entries, region, i + 1, j);
    lemma_count_monotone(entries, region, j + 1, entries.len() as int);
    assert(entries.take(entries.len() as int) =~= entries);
    if forall|k: int| i < k < j ==> (#[trigger] entries[k]).region_id != entries[i].region_id {
        lemma_count_of_gap(entries, region, i + 1, j);
    }
}

pub(crate) proof fn lemma_count_of_gap(entries: Seq<Entry>, region: u64, i: int, j: int)
    requires
        0 <= i <= j <= entries.len(),
        forall|k: int| i <= k < j ==> (#[trigger] entries[k]).region_id.0 != region,
    ensures
        count_region(entries.take(i), region) == count_region(entries.take(j), region),
    decreases j - i,
{
    if i < j {
        lemma_count_of_gap(entries, region, i, j - 1);
        assert(entries.take(j).drop_last() =~= entries.take(j - 1));
        assert(entries[j - 1].region_id.0 != region);
    }
}

/// Entries admitted for the object that is to take the next sequence.
///
/// The id of an entry is made of the sequence of the object and of the position of the entry among
/// the entries of its region in the object. Positions start at one.
#[derive(Debug)]
pub struct ObjectBatch {
    max_bytes: usize,
    entries: Vec<Entry>,
    /// The size of the entries, as far as it can be counted.
    estimated_bytes: usize,
    /// The number of entries of each region.
    positions: HashMap<u64, u64>,
    /// When the first entry was admitted, in nanoseconds of the caller's clock.
    first_admitted_at: Option<u64>,
}

/// What an object batch holds.
pub struct ObjectBatchModel {
    pub max_bytes: int,
    pub entries: Seq<Entry>,
    pub first_admitted_at: Option<u64>,
}

/// The entries with the ids they get in the object `object_seq` behind the entries `admitted`.
pub open spec fn placed(object_seq: u64, admitted: Seq<Entry>, entries: Seq<Entry>) -> Seq<Entry> {
    Seq::new(
        entries.len(),
        |i: int|
            with_id(
                entries[i],
                id_at(
                    object_seq as int,
                    (count_region(admitted, entries[i].region_id.0) + count_region(
                        entries.take(i + 1),
                        entries[i].region_id.0,
                    )) as int,
                ) as u64,
            ),
    )
}

/// The last id of every region that has entries among `entries`.
pub open spec fn placed_last_ids(
    object_seq: u64,
    admitted: Seq<Entry>,
    entries: Seq<Entry>,
) -> Map<u64, EntryId> {
    Map::new(
        |region: u64| count_region(entries, region) > 0,
        |region: u64|
            id_at(
                object_seq as int,
                (count_region(admitted, region) + count_region(entries, region)) as int,
            ) as u64,
    )
}

/// The region of the first entry from place `i` on for which no position is left.
pub open spec fn exhausted_from(
    admitted: Seq<Entry>,
    entries: Seq<Entry>,
    i: int,
) -> Option<RegionId>
    decreases entries.len() - i,
{
    if i >= entries.len() {
        None
    } else if count_region(admitted, entries[i].region_id.0) + count_region(
        entries.take(i + 1),
        entries[i].region_id.0,
    ) >= POSITION_LIMIT {
        Some(entries[i].region_id)
    } else {
        exhausted_from(admitted, entries, i + 1)
    }
}

impl ObjectBatchModel {
    /// A batch without entries.
    pub open spec fn cleared(self) -> ObjectBatchModel {
        ObjectBatchModel { entries: Seq::empty(), first_admitted_at: None, ..self }
    }

    /// The region that runs out of positions when `entries` are admitted, if one does.
    pub open spec fn exhausted(self, entries: Seq<Entry>) -> Option<RegionId> {
        exhausted_from(self.entries, entries, 0)
    }

    /// The batch with the entries admitted for the object `object_seq`.
    pub open spec fn with(self, object_seq: u64, entries: Seq<Entry>, now: u64) -> ObjectBatchModel {
        ObjectBatchModel {
            max_bytes: self.max_bytes,
            entries: self.entries + placed(object_seq, self.entries, entries),
            first_admitted_at: if self.first_admitted_at is Some || entries.len() == 0 {
                self.first_admitted_at
            } else {
                Some(now)
            },
        }
    }

    /// Whether the entries reach the size limit.
    pub open spec fn full(self) -> bool {
        self.entries.len() > 0 && total_size(self.entries) >= self.max_bytes
    }
}

impl View for ObjectBatch {
    type V = ObjectBatchModel;

    closed spec fn view(&self) -> ObjectBatchModel {
        ObjectBatchModel {
            max_bytes: self.max_bytes as int,
            entries: self.entries@,
            first_admitted_at: self.first_admitted_at,
        }
    }
}

/// The smaller of a size and the largest size there is.
pub open spec fn saturated(size: nat) -> nat {
    if size <= usize::MAX {
        size
    } else {
        usize::MAX as nat
    }
}

impl ObjectBatch {
    /// The counters agree with the entries.
    pub closed spec fn wf(&self) -> bool {
        &&& self.estimated_bytes == saturated(total_size(self.entries@))
        &&& forall|region: u64|
            count_region(self.entries@, region) == #[trigger] largest_id(self.positions@, region)
        &&& self.first_admitted_at is Some <==> self.entries@.len() > 0
    }

    /// A batch has the time of its first admission exactly while it holds entries.
    pub proof fn lemma_wf(&self)
        requires
            self.wf(),
        ensures
            self@.first_admitted_at is Some <==> self@.entries.len() > 0,
    {
    }

    /// Creates an empty batch.
    pub fn new(max_bytes: usize) -> (batch: ObjectBatch)
        ensures
            batch.wf(),
            batch@ == (ObjectBatchModel {
                max_bytes: max_bytes as int,
                entries: Seq::empty(),
                first_admitted_at: None,
            }),
    {
        ObjectBatch {
            max_bytes,
            entries: Vec::new(),
            estimated_bytes: 0,
            positions: HashMap::new(),
            first_admitted_at: None,
        }
    }

    /// The region that runs out of positions when `entries` are admitted, if one does.
    fn exhausted_region(&self, entries: &Vec<Entry>) -> (region: Option<RegionId>)
        requires
            self.wf(),
        ensures
            region == self@.exhausted(entries@),
    {
        let mut counts: HashMap<u64, u64> = HashMap::new();
        let n: usize = entries.len();
        let mut i: usize = 0;
        while i < n
            invariant
                self.wf(),
                n == entries@.len(),
                i <= n,
                self@.exhausted(entries@) == exhausted_from(self@.entries, entries@, i as int),
                forall|region: u64|
                    #![trigger largest_id(counts@, region)]
                    #![trigger count_region(entries@.take(i as int), region)]
                    largest_id(counts@, region) == count_region(entries@.take(i as int), region),
                forall|region: u64| #[trigger]
                    count_region(entries@.take(i as int), region) > 0 ==> count_region(
                        self@.entries,
                        region,
                    ) + count_region(entries@.take(i as int), region) < POSITION_LIMIT,
            decreases n - i,
        {
            let region_id = entries[i].region_id;
            let region: u64 = region_id.as_u64();
            let admitted: u64 = match self.positions.get(&region) {
                Some(count) => *count,
                None => 0,
            };
            let ahead: u64 = match counts.get(&region) {
                Some(count) => *count,
                None => 0,
            };
            proof {
                assert(admitted == largest_id(self.positions@, region));
                assert(ahead == largest_id(counts@, region));
                assert(entries@.take(i + 1).drop_last() =~= entries@.take(i as int));
            }
            if admitted >= POSITION_LIMIT || ahead >= POSITION_LIMIT || admitted + ahead + 1
                >= POSITION_LIMIT {
                return Some(region_id);
            }
            counts.insert(region, ahead + 1);
            proof {
                assert forall|r: u64|
                    #![trigger largest_id(counts@, r)]
                    #![trigger count_region(entries@.take(i + 1), r)]
                    largest_id(counts@, r) == count_region(entries@.take(i + 1), r) && (
                    count_region(entries@.take(i + 1), r) > 0 ==> count_region(self@.entries, r)
                        + count_region(entries@.take(i + 1), r) < POSITION_LIMIT) by {
                    assert(count_region(entries@.take(i + 1), r) == count_region(
                        entries@.take(i as int),
                        r,
                    ) + (if r == region {
                        1nat
                    } else {
                        0nat
                    }));
                }
            }
            i = i + 1;
        }
        None
    }

    /// Whether a region would run past the positions of the object.
    pub fn would_exhaust_positions(&self, entries: &Vec<Entry>) -> (exhausts: bool)
        requires
            self.wf(),
        ensures
            exhausts <==> self@.exhausted(entries@) is Some,
    {
        self.exhausted_region(entries).is_some()
    }

    /// Admits `entries` for the object `object_seq`, and returns the last id assigned to every
    /// region in `entries`. Nothing is admitted when a region runs out of positions.
    pub fn admit_entries(&mut self, object_seq: u64, entries: Vec<Entry>, now: u64) -> (result:
        Result<HashMap<u64, EntryId>, Error>)
        requires
            old(self).wf(),
            object_seq < OBJECT_SEQ_LIMIT,
        ensures
            final(self).wf(),
            match old(self)@.exhausted(entries@) {
                Some(region_id) => result == Err::<HashMap<u64, EntryId>, Error>(
                    Error::WalEntryPositionExhausted { region_id },
                ) && final(self)@ == old(self)@,
                None => result matches Ok(last_entry_ids) && last_entry_ids@ == placed_last_ids(
                    object_seq,
                    old(self)@.entries,
                    entries@,
                ) && final(self)@ == old(self)@.with(object_seq, entries@, now),
            },
    {
        if let Some(region_id) = self.exhausted_region(&entries) {
            return Err(Error::WalEntryPositionExhausted { region_id });
        }
        let ghost all = entries@;
        let ghost before = self@;
        let mut last_entry_ids: HashMap<u64, EntryId> = HashMap::new();
        proof {
            lemma_positions_left(before.entries, all, 0);
            assert(last_entry_ids@ =~= placed_last_ids(object_seq, before.entries, all.take(0)));
            assert(before.entries + placed(object_seq, before.entries, all.take(0))
                =~= before.entries);
        }
        for entry in it: entries
            invariant
                it.seq() == all,
                object_seq < OBJECT_SEQ_LIMIT,
                forall|k: int|
                    0 <= k < all.len() ==> count_region(
                        before.entries,
                        (#[trigger] all[k]).region_id.0,
                    ) + count_region(all.take(k + 1), all[k].region_id.0) < POSITION_LIMIT,
                last_entry_ids@ == placed_last_ids(
                    object_seq,
                    before.entries,
                    all.take(it.index() as int),
                ),
                self.wf(),
                self@ == before.with(object_seq, all.take(it.index() as int), now),
        {
            let ghost i = it.index() as int;
            let ghost front = all.take(i);
            let ghost next = all.take(i + 1);
            let mut entry = entry;
            let region: u64 = entry.region_id.as_u64();
            let ghost held = self.entries@;
            let ghost positions = self.positions@;
            proof {
                assert(entry == all[i]);
                assert(next.drop_last() =~= front);
                lemma_count_positive(front, region);
                lemma_placed_counts(object_seq, before.entries, front, region);
                lemma_count_concat(
                    before.entries,
                    placed(object_seq, before.entries, front),
                    region,
                );
                assert(count_region(held, region) == largest_id(self.positions@, region));
            }
            let position: u64 = match self.positions.get(&region) {
                Some(count) => *count + 1,
                None => 1,
            };
            proof {
                assert(position == count_region(before.entries, region) + count_region(
                    next,
                    region,
                ));
            }
            let id: u64 = entry_id(object_seq, position);
            entry.entry_id = id;
            self.positions.insert(region, position);
            last_entry_ids.insert(region, id);
            self.estimated_bytes = self.estimated_bytes.saturating_add(entry.estimated_size);
            self.entries.push(entry);
            if self.first_admitted_at.is_none() {
                self.first_admitted_at = Some(now);
            }
            proof {
                assert(self.entries@.drop_last() =~= held);
                assert forall|r: u64|
                    count_region(self.entries@, r) == #[trigger] largest_id(
                        self.positions@,
                        r,
                    ) by {
                    assert(count_region(held, r) == largest_id(positions, r));
                    assert(count_region(self.entries@, r) == count_region(held, r) + (if r
                        == region {
                        1nat
                    } else {
                        0nat
                    }));
                }
                assert(last_entry_ids@ =~= placed_last_ids(object_seq, before.entries, next));
                assert(self@.entries =~= before.entries + placed(
                    object_seq,
                    before.entries,
                    next,
                )) by {
                    assert forall|k: int| 0 <= k < i implies placed(
                        object_seq,
                        before.entries,
                        next,
                    )[k] == placed(object_seq, before.entries, front)[k] by {
                        assert(next.take(k + 1) =~= front.take(k + 1));
                    }
                    assert(next.take(i + 1) =~= next);
                }
            }
        }
        assert(all.take(all.len() as int) =~= all);
        Ok(last_entry_ids)
    }

    /// Whether no entry is in the batch.
    pub fn is_empty(&self) -> (empty: bool)
        ensures
            empty <==> self@.entries.len() == 0,
    {
        self.entries.len() == 0
    }

    /// Returns true once the admitted entries reach the size limit.
    pub fn should_seal(&self) -> (full: bool)
        requires
            self.wf(),
        ensures
            full <==> self@.full(),
    {
        !self.is_empty() && self.estimated_bytes >= self.max_bytes
    }

    /// The size of the admitted entries, as far as it can be counted.
    pub fn estimated_bytes(&self) -> (bytes: usize)
        requires
            self.wf(),
        ensures
            bytes == saturated(total_size(self@.entries)),
    {
        self.estimated_bytes
    }

    /// When the first entry was admitted.
    pub fn first_admitted_at(&self) -> (at: Option<u64>)
        ensures
            at == self@.first_admitted_at,
    {
        self.first_admitted_at
    }

    /// Takes the admitted entries out of the batch, with the time the first was admitted.
    pub fn seal(&mut self) -> (sealed: (Vec<Entry>, Option<u64>))
        ensures
            final(self).wf(),
            sealed.0@ == old(self)@.entries,
            sealed.1 == old(self)@.first_admitted_at,
            final(self)@ == old(self)@.cleared(),
    {
        let mut entries: Vec<Entry> = Vec::new();
        std::mem::swap(&mut entries, &mut self.entries);
        let first_admitted_at = self.first_admitted_at;
        self.reset();
        (entries, first_admitted_at)
    }

    /// Drops the admitted entries.
    pub fn reset(&mut self)
        ensures
            final(self).wf(),
            final(self)@ == old(self)@.cleared(),
    {
        self.entries = Vec::new();
        self.estimated_bytes = 0;
        self.positions = HashMap::new();
        self.first_admitted_at = None;
    }
}

/// Where no region runs out of positions, every entry has a position left.
pub proof fn lemma_positions_left(admitted: Seq<Entry>, entries: Seq<Entry>, from: int)
    requires
        0 <= from,
        exhausted_from(admitted, entries, from) is None,
    ensures
        forall|k: int|
            from <= k < entries.len() ==> count_region(
                admitted,
                (#[trigger] entries[k]).region_id.0,
            ) + count_region(entries.take(k + 1), entries[k].region_id.0) < POSITION_LIMIT,
    decreases entries.len() - from,
{
    if from < entries.len() {
        lemma_positions_left(admitted, entries, from + 1);
    }
}

/// Giving entries their ids changes nothing about which regions they belong to or how large they
/// are.
pub proof fn lemma_placed_counts(
    object_seq: u64,
    admitted: Seq<Entry>,
    entries: Seq<Entry>,
    region: u64,
)
    ensures
        count_region(placed(object_seq, admitted, entries), region) == count_region(
            entries,
            region,
        ),
        total_size(placed(object_seq, admitted, entries)) == total_size(entries),
    decreases entries.len(),
{
    if entries.len() > 0 {
        let rest = entries.drop_last();
        lemma_placed_counts(object_seq, admitted, rest, region);
        let whole = placed(object_seq, admitted, entries);
        assert(whole.drop_last() =~= placed(object_seq, admitted, rest)) by {
            assert forall|k: int| 0 <= k < rest.len() implies whole[k] == placed(
                object_seq,
                admitted,
                rest,
            )[k] by {
                assert(entries.take(k + 1) =~= rest.take(k + 1));
            }
        }
    }
}

} // verus!
