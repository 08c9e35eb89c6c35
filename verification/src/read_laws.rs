//! What a read gives back of what was written.
use vstd::prelude::*;

use crate::actor_laws::Event;
use crate::actor_model::{entry_records, ActorModel};
use crate::catalog::{lemma_overlap, lemma_region_entry_valid, CatalogModel};
use crate::error::Corruption;
use crate::format::{
    describes, footer_of, grouped, ids_increase, lemma_grouped, lemma_segment_round_trip,
    object_bytes, segment_in, unencodable, FooterEntry, Header, RecordModel,
};
use crate::id::{EntryId, RegionId};
use crate::logstore::Entry;
use crate::ordmap::{lemma_lists_keys, ordered_keys};
use crate::store::{from_id, read_segments, read_start, StoreModel};

verus! {

/// What a read returns of the first `n` segments it goes through.
pub open spec fn read_records(
    segments: Seq<(u64, FooterEntry)>,
    stored: Map<u64, Seq<RecordModel>>,
    start: EntryId,
    n: int,
) -> Seq<RecordModel>
    decreases n,
{
    if n <= 0 {
        Seq::empty()
    } else {
        read_records(segments, stored, start, n - 1) + from_id(stored[segments[n - 1].0], start)
    }
}

/// The records of a segment that a read returns are those at or above its first id, in order.
pub proof fn lemma_from_id(records: Seq<RecordModel>, start: EntryId)
    requires
        ids_increase(records),
    ensures
        ids_increase(from_id(records, start)),
        forall|x: RecordModel| #[trigger]
            from_id(records, start).contains(x) <==> records.contains(x) && x.entry_id >= start,
    decreases records.len(),
{
    let kept = from_id(records, start);
    if records.len() > 0 {
        let rest = records.drop_last();
        let last = records.last();
        assert(ids_increase(rest)) by {
            assert forall|i: int, j: int| 0 <= i < j < rest.len() implies (
            #[trigger] rest[i]).entry_id < (#[trigger] rest[j]).entry_id by {
                assert(records[i].entry_id < records[j].entry_id);
            }
        }
        lemma_from_id(rest, start);
        let less = from_id(rest, start);
        assert forall|i: int, j: int| 0 <= i < j < kept.len() implies (#[trigger] kept[i]).entry_id
            < (#[trigger] kept[j]).entry_id by {
            if j < less.len() {
                assert(less[i].entry_id < less[j].entry_id);
            } else {
                assert(less.contains(less[i]));
                assert(rest.contains(less[i]));
                let k = rest.index_of(less[i]);
                assert(records[k].entry_id < records[records.len() - 1].entry_id);
            }
        }
        assert forall|x: RecordModel| #[trigger] kept.contains(x) <==> records.contains(x)
            && x.entry_id >= start by {
            if rest.contains(x) {
                assert(records[rest.index_of(x)] == x);
            }
            assert(records[records.len() - 1] == last);
            if records.contains(x) {
                let k = records.index_of(x);
                if k < rest.len() {
                    assert(rest[k] == x);
                }
            }
            if less.contains(x) {
                assert(kept[less.index_of(x)] == x);
            }
            if last.entry_id >= start {
                assert(kept[less.len() as int] == last);
            }
            if kept.contains(x) {
                let k = kept.index_of(x);
                if k < less.len() {
                    assert(less[k] == x);
                }
            }
        }
    }
}

/// The records that a region has in its objects.
pub open spec fn holds_records(
    catalog: CatalogModel,
    region: u64,
    stored: Map<u64, Seq<RecordModel>>,
) -> bool {
    forall|seq: u64| #[trigger]
        catalog.region(region).contains_key(seq) ==> describes(
            catalog.region(region)[seq],
            stored[seq],
        )
}

/// The id of a record lies in the range that the footer entry gives.
proof fn lemma_described_range(entry: FooterEntry, records: Seq<RecordModel>, i: int)
    requires
        describes(entry, records),
        0 <= i < records.len(),
    ensures
        entry.min_entry_id <= records[i].entry_id <= entry.max_entry_id,
{
    if 0 < i {
        assert(records[0].entry_id < records[i].entry_id);
    }
    if i < records.len() - 1 {
        assert(records[i].entry_id < records[records.len() - 1].entry_id);
    }
}

proof fn lemma_read_upto(
    catalog: CatalogModel,
    region: u64,
    stored: Map<u64, Seq<RecordModel>>,
    start: EntryId,
    end: EntryId,
    n: int,
)
    requires
        catalog.valid(),
        holds_records(catalog, region, stored),
        0 <= n <= catalog.overlap(region, start, end).len(),
    ensures
        ({
            let segments = catalog.overlap(region, start, end);
            let result = read_records(segments, stored, start, n);
            &&& ids_increase(result)
            &&& forall|x: RecordModel| #[trigger]
                result.contains(x) <==> (x.entry_id >= start && exists|k: int|
                    0 <= k < n && stored[(#[trigger] segments[k]).0].contains(x))
            &&& forall|i: int|
                0 <= i < result.len() && n < segments.len() ==> (#[trigger] result[i]).entry_id
                    < segments[n].1.min_entry_id
        }),
    decreases n,
{
    let segments = catalog.overlap(region, start, end);
    lemma_overlap(catalog, region, start, end);
    let result = read_records(segments, stored, start, n);
    if n > 0 {
        lemma_read_upto(catalog, region, stored, start, end, n - 1);
        let before = read_records(segments, stored, start, n - 1);
        let (seq, entry) = segments[n - 1];
        assert(catalog.region(region).contains_key(seq));
        assert(describes(entry, stored[seq]));
        lemma_from_id(stored[seq], start);
        let part = from_id(stored[seq], start);
        assert forall|i: int| 0 <= i < part.len() implies entry.min_entry_id <= (
        #[trigger] part[i]).entry_id <= entry.max_entry_id by {
            assert(part.contains(part[i]));
            let k = stored[seq].index_of(part[i]);
            assert(stored[seq][k] == part[i]);
            lemma_described_range(entry, stored[seq], k);
        }
        assert forall|i: int, j: int| 0 <= i < j < result.len() implies (
        #[trigger] result[i]).entry_id < (#[trigger] result[j]).entry_id by {
            if j < before.len() {
                assert(before[i].entry_id < before[j].entry_id);
            } else if i >= before.len() {
                assert(part[i - before.len()].entry_id < part[j - before.len()].entry_id);
            } else {
                assert(before[i].entry_id < segments[n - 1].1.min_entry_id);
                assert(part[j - before.len()].entry_id >= entry.min_entry_id);
            }
        }
        assert forall|x: RecordModel| #[trigger]
            result.contains(x) <==> (x.entry_id >= start && exists|k: int|
                0 <= k < n && stored[(#[trigger] segments[k]).0].contains(x)) by {
            if result.contains(x) {
                let i = result.index_of(x);
                if i < before.len() {
                    assert(before[i] == x);
                    assert(before.contains(x));
                    let k = choose|k: int|
                        0 <= k < n - 1 && stored[(#[trigger] segments[k]).0].contains(x);
                    assert(stored[segments[k].0].contains(x));
                } else {
                    assert(part[i - before.len()] == x);
                    assert(part.contains(x));
                    assert(stored[segments[n - 1].0].contains(x));
                }
            }
            if x.entry_id >= start && exists|k: int|
                0 <= k < n && stored[(#[trigger] segments[k]).0].contains(x) {
                let k = choose|k: int|
                    0 <= k < n && stored[(#[trigger] segments[k]).0].contains(x);
                if k < n - 1 {
                    assert(stored[segments[k].0].contains(x));
                    assert(before.contains(x));
                    assert(result[before.index_of(x)] == x);
                } else {
                    assert(part.contains(x));
                    assert(result[before.len() + part.index_of(x)] == x);
                }
            }
        }
        assert forall|i: int| 0 <= i < result.len() && n < segments.len() implies (
        #[trigger] result[i]).entry_id < segments[n].1.min_entry_id by {
            assert(segments[n - 1].1.max_entry_id < segments[n].1.min_entry_id);
            if i < before.len() {
                assert(before[i].entry_id < segments[n - 1].1.min_entry_id);
                lemma_region_entry_valid(catalog, region, seq);
            } else {
                assert(part[i - before.len()].entry_id <= entry.max_entry_id);
            }
        }
    }
}

/// A read is exact: it returns the records of the region with ids at or above the asked one and
/// above the watermark, every one of them exactly once, in the order of their ids, and no other.
pub proof fn lemma_read_is_exact(
    catalog: CatalogModel,
    region: u64,
    stored: Map<u64, Seq<RecordModel>>,
    watermark: Option<EntryId>,
    entry_id: EntryId,
)
    requires
        catalog.valid(),
        holds_records(catalog, region, stored),
        watermark != Some(u64::MAX),
    ensures
        ({
            let segments = read_segments(catalog, watermark, region, entry_id);
            let start = read_start(watermark, entry_id);
            let result = read_records(segments, stored, start, segments.len() as int);
            &&& ids_increase(result)
            &&& forall|x: RecordModel| #[trigger]
                result.contains(x) <==> {
                    &&& x.entry_id >= entry_id
                    &&& watermark matches Some(obsolete) ==> x.entry_id > obsolete
                    &&& exists|seq: u64| #[trigger]
                        catalog.region(region).contains_key(seq) && stored[seq].contains(x)
                }
        }),
{
    let segments = read_segments(catalog, watermark, region, entry_id);
    let start = read_start(watermark, entry_id);
    let result = read_records(segments, stored, start, segments.len() as int);
    let listed = catalog.max_ids.contains_key(region) && start <= catalog.max_ids[region];
    if listed {
        let end = catalog.max_ids[region];
        lemma_overlap(catalog, region, start, end);
        lemma_read_upto(catalog, region, stored, start, end, segments.len() as int);
    }
    assert forall|x: RecordModel| #[trigger] result.contains(x) <==> {
        &&& x.entry_id >= entry_id
        &&& watermark matches Some(obsolete) ==> x.entry_id > obsolete
        &&& exists|seq: u64| #[trigger]
            catalog.region(region).contains_key(seq) && stored[seq].contains(x)
    } by {
        if result.contains(x) {
            let k = choose|k: int|
                0 <= k < segments.len() && stored[(#[trigger] segments[k]).0].contains(x);
            assert(catalog.region(region).contains_key(segments[k].0));
        }
        if x.entry_id >= start && exists|seq: u64| #[trigger]
            catalog.region(region).contains_key(seq) && stored[seq].contains(x) {
            let seq = choose|seq: u64| #[trigger]
                catalog.region(region).contains_key(seq) && stored[seq].contains(x);
            let entry = catalog.region(region)[seq];
            let i = stored[seq].index_of(x);
            assert(stored[seq][i] == x);
            lemma_described_range(entry, stored[seq], i);
            assert(entry.max_entry_id <= catalog.max_ids[region]);
            assert(listed);
            assert(segments.contains((seq, entry)));
            let k = segments.index_of((seq, entry));
            assert(stored[segments[k].0].contains(x));
        }
    }
}

/// A watermark at the largest id hides everything.
pub proof fn lemma_obsolete_all_hides_everything(
    catalog: CatalogModel,
    region: u64,
    entry_id: EntryId,
)
    ensures
        read_segments(catalog, Some(u64::MAX), region, entry_id).len() == 0,
{
}

/// What was appended is read back: the segment of a region in the object that entries are written
/// as gives the entry that was appended, with its id and data, and gives entries of that region
/// only.
pub proof fn lemma_appended_entry_is_read_back(header: Header, entries: Seq<Entry>, i: int)
    requires
        unencodable(entry_records(entries)) is None,
        object_bytes(header, grouped(entry_records(entries))).len() <= usize::MAX,
        0 <= i < entries.len(),
    ensures
        ({
            let records = entry_records(entries);
            let groups = grouped(records);
            let region = entries[i].region_id.0;
            let bytes = object_bytes(header, groups);
            exists|k: int|
                0 <= k < footer_of(groups).len() && (#[trigger] footer_of(groups)[k]).region_id.0
                    == region && segment_in(
                    bytes.subrange(
                        footer_of(groups)[k].segment_offset as int,
                        footer_of(groups)[k].segment_offset + footer_of(groups)[k].segment_len,
                    ),
                    footer_of(groups)[k],
                ) == Ok::<Seq<RecordModel>, Corruption>(groups[region]) && groups[region].contains(
                    records[i],
                ) && forall|x: RecordModel| #[trigger]
                    groups[region].contains(x) ==> records.contains(x) && x.region == region
        }),
{
    let records = entry_records(entries);
    let groups = grouped(records);
    let keys = ordered_keys(groups);
    let region = entries[i].region_id.0;
    lemma_grouped(records);
    lemma_lists_keys(groups);
    assert(records.contains(records[i]));
    assert(groups.contains_key(region));
    assert(keys.contains(region));
    let k = keys.index_of(region);
    assert(keys[k] == region);
    lemma_segment_round_trip(header, records, k);
    assert(footer_of(groups)[k].region_id.0 == region);
    assert forall|x: RecordModel| #[trigger] groups[region].contains(x) implies records.contains(x)
        && x.region == region by {
        let j = groups[region].index_of(x);
        assert(groups[region][j].region == region);
    }
}

/// Obsoleting and collecting entries never changes the latest durable id of a region: a region
/// whose every entry was collected still reports the id that the next ones go above.
pub proof fn lemma_latest_ignores_watermarks(
    store: StoreModel,
    region_id: RegionId,
    entry_id: EntryId,
    watermark: EntryId,
    waiter: u64,
    object_seq: u64,
    deleted: bool,
    region: u64,
)
    ensures
        store.with_actor(
            store.actor.obsolete_upto(region_id, entry_id, watermark, waiter),
        ).durable_id(region) == store.durable_id(region),
        store.with_actor(
            store.actor.step(Event::RecordObsolete { region_id, entry_id: watermark }),
        ).durable_id(region) == store.durable_id(region),
        store.with_actor(store.actor.delete_completed(object_seq, deleted)).durable_id(region)
            == store.durable_id(region),
{
    reveal(ActorModel::raise_sequence_floor);
    reveal(ActorModel::poison);
    reveal(ActorModel::collect_garbage);
}

} // verus!
