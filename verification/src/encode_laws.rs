//! When records can be written as an object, and when an object can be read again.
use vstd::prelude::*;

use crate::actor_laws::id_fits;
use crate::actor_model::{entry_records, ActorModel};
use crate::error::{Corruption, Error, Unencodable};
use crate::format::{
    footer_of, grouped, has_record, insert_by_id, lemma_grouped, lemma_object_round_trip,
    object_bytes, repeated, unencodable, FooterEntry, Header, RecordModel,
};
use crate::ordmap::{lemma_lists_keys, ordered_keys};
use crate::recovery::{
    checked_footer, first_step, lemma_parts_match_whole, lemma_written_footer_is_found, plan_of,
    ListedObject,
};

verus! {

/// The records of the region.
pub open spec fn of_region(records: Seq<RecordModel>, region: u64) -> Seq<RecordModel> {
    records.filter(|record: RecordModel| record.region == region)
}

/// The regions that have records.
pub open spec fn regions_of(records: Seq<RecordModel>) -> Set<u64> {
    records.map_values(|record: RecordModel| record.region).to_set()
}

/// No two records have the same region and the same entry id.
pub open spec fn distinct_ids(records: Seq<RecordModel>) -> bool {
    forall|i: int, j: int|
        0 <= i < j < records.len() ==> (#[trigger] records[i]).region != (
        #[trigger] records[j]).region || records[i].entry_id != records[j].entry_id
}

/// Every number that an object holds about the records can be written in its four bytes.
pub open spec fn countable(records: Seq<RecordModel>) -> bool {
    &&& forall|i: int|
        0 <= i < records.len() ==> (#[trigger] records[i]).payload.len() < 0x1_0000_0000
    &&& forall|region: u64| (#[trigger] of_region(records, region)).len() < 0x1_0000_0000
    &&& regions_of(records).len() < 0x1_0000_0000
}

proof fn lemma_repeated(records: Seq<RecordModel>)
    ensures
        repeated(records) is None <==> distinct_ids(records),
        repeated(records) matches Some(record) ==> exists|i: int, j: int|
            0 <= i < j < records.len() && (#[trigger] records[i]).region == record.region
                && records[i].entry_id == record.entry_id && (#[trigger] records[j]) == record,
    decreases records.len(),
{
    if records.len() > 0 {
        let front = records.drop_last();
        let last = records.last();
        lemma_repeated(front);
        if repeated(front) is Some {
            let record = repeated(front)->0;
            let (i, j) = choose|i: int, j: int|
                0 <= i < j < front.len() && (#[trigger] front[i]).region == record.region
                    && front[i].entry_id == record.entry_id && (#[trigger] front[j]) == record;
            assert(records[i] == front[i] && records[j] == front[j]);
        } else if has_record(front, last.region, last.entry_id) {
            let i = choose|i: int|
                0 <= i < front.len() && (#[trigger] front[i]).region == last.region
                    && front[i].entry_id == last.entry_id;
            assert(records[i] == front[i] && records[records.len() - 1] == last);
        } else {
            assert forall|i: int, j: int| 0 <= i < j < records.len() implies (
            #[trigger] records[i]).region != (#[trigger] records[j]).region
                || records[i].entry_id != records[j].entry_id by {
                assert(records[i] == front[i]);
                if j < front.len() {
                    assert(records[j] == front[j]);
                } else if records[i].region == last.region && records[i].entry_id
                    == last.entry_id {
                    assert(has_record(front, last.region, last.entry_id));
                }
            }
        }
    }
}

proof fn lemma_insert_len(group: Seq<RecordModel>, record: RecordModel)
    ensures
        insert_by_id(group, record).len() == group.len() + 1,
    decreases group.len(),
{
    if group.len() > 0 && group.last().entry_id > record.entry_id {
        lemma_insert_len(group.drop_last(), record);
    }
}

/// A group is as long as the region has records, and the groups are those of the regions.
proof fn lemma_group_lens(records: Seq<RecordModel>)
    ensures
        grouped(records).dom() =~= regions_of(records),
        forall|region: u64| #[trigger]
            grouped(records).contains_key(region) ==> grouped(records)[region].len() == of_region(
                records,
                region,
            ).len(),
        forall|region: u64|
            !grouped(records).contains_key(region) ==> (#[trigger] of_region(
                records,
                region,
            )).len() == 0,
    decreases records.len(),
{
    let region_of = |record: RecordModel| record.region;
    if records.len() == 0 {
        assert(records.map_values(region_of) =~= Seq::empty());
        assert forall|region: u64| (#[trigger] of_region(records, region)).len() == 0 by {
            reveal(Seq::filter);
        }
    } else {
        let front = records.drop_last();
        let last = records.last();
        let rest = grouped(front);
        let all = grouped(records);
        lemma_group_lens(front);
        let group = if rest.contains_key(last.region) {
            rest[last.region]
        } else {
            Seq::empty()
        };
        lemma_insert_len(group, last);
        assert forall|region: u64| true implies (#[trigger] of_region(records, region)).len()
            == of_region(front, region).len() + (if region == last.region {
            1nat
        } else {
            0nat
        }) by {
            reveal(Seq::filter);
        }
        assert(records.map_values(region_of) =~= front.map_values(region_of).push(last.region));
        assert(regions_of(records) =~= regions_of(front).insert(last.region)) by {
            let before = front.map_values(region_of);
            let after = records.map_values(region_of);
            assert forall|region: u64| after.to_set().contains(region) <==> before.to_set().insert(
                last.region,
            ).contains(region) by {
                if after.contains(region) {
                    let k = after.index_of(region);
                    if k < before.len() {
                        assert(before[k] == region);
                    }
                }
                if before.contains(region) {
                    assert(after[before.index_of(region)] == region);
                }
                assert(after[before.len() as int] == last.region);
            }
        }
    }
}

/// Records can be written as an object exactly if there are some, no two of them have the same
/// region and entry id, and every payload length, every number of records of a region and the
/// number of regions can be written in four bytes. Otherwise the reason is that there are none; a
/// region and an entry id that two records share; or else the numbers.
pub proof fn lemma_encodable(records: Seq<RecordModel>)
    ensures
        unencodable(records) is None <==> records.len() > 0 && distinct_ids(records) && countable(
            records,
        ),
        unencodable(records) == Some(Unencodable::NoRecords) <==> records.len() == 0,
        unencodable(records) matches Some(Unencodable::DuplicateEntryId { region_id, entry_id })
            ==> exists|i: int, j: int|
            0 <= i < j < records.len() && (#[trigger] records[i]).region == region_id.0
                && records[i].entry_id == entry_id && (#[trigger] records[j]).region
                == region_id.0 && records[j].entry_id == entry_id,
        unencodable(records) == Some(Unencodable::TooLarge) <==> records.len() > 0
            && distinct_ids(records) && !countable(records),
{
    lemma_repeated(records);
    if repeated(records) is None {
        let groups = grouped(records);
        lemma_grouped(records);
        lemma_group_lens(records);
        lemma_lists_keys(groups);
        assert(regions_of(records).len() == ordered_keys(groups).len());
        if countable(records) {
            assert forall|region: u64| #[trigger] groups.contains_key(region) implies
                groups[region].len() < 0x1_0000_0000 by {
                assert(of_region(records, region).len() < 0x1_0000_0000);
            }
            assert forall|region: u64, i: int|
                groups.contains_key(region) && 0 <= i < groups[region].len() implies (
            #[trigger] groups[region][i]).payload.len() < 0x1_0000_0000 by {
                let record = groups[region][i];
                assert(groups[region].contains(record));
                assert(records.contains(record));
                let k = records.index_of(record);
                assert(records[k] == record);
            }
        }
        if unencodable(records) is None {
            assert forall|i: int| 0 <= i < records.len() implies (
            #[trigger] records[i]).payload.len() < 0x1_0000_0000 by {
                let record = records[i];
                assert(records.contains(record));
                let k = groups[record.region].index_of(record);
                assert(groups[record.region][k] == record);
            }
            assert forall|region: u64| (#[trigger] of_region(records, region)).len()
                < 0x1_0000_0000 by {
                if groups.contains_key(region) {
                    assert(groups[region].len() < 0x1_0000_0000);
                }
            }
        }
    } else {
        let record = repeated(records)->0;
        let (i, j) = choose|i: int, j: int|
            0 <= i < j < records.len() && (#[trigger] records[i]).region == record.region
                && records[i].entry_id == record.entry_id && (#[trigger] records[j]) == record;
        assert(records[j].region == record.region);
    }
}

proof fn lemma_filter_bound(records: Seq<RecordModel>, region: u64)
    ensures
        of_region(records, region).len() <= records.len(),
    decreases records.len(),
{
    reveal(Seq::filter);
    if records.len() > 0 {
        lemma_filter_bound(records.drop_last(), region);
    }
}

/// What the writer admitted can always be written: as long as there are fewer than four billion
/// entries and each is smaller than four gigabytes, the open batch can be written as an object.
pub proof fn lemma_open_batch_is_encodable(actor: ActorModel)
    requires
        actor.valid(),
        actor.batch.entries.len() > 0,
        actor.batch.entries.len() < 0x1_0000_0000,
        forall|i: int|
            0 <= i < actor.batch.entries.len() ==> (#[trigger] actor.batch.entries[i]).data@.len()
                < 0x1_0000_0000,
    ensures
        unencodable(entry_records(actor.batch.entries)) is None,
{
    let entries = actor.batch.entries;
    let records = entry_records(entries);
    let seq = actor.next_object_seq->0;
    lemma_encodable(records);
    lemma_group_lens(records);
    reveal(ActorModel::valid);
    assert forall|i: int, j: int| 0 <= i < j < records.len() implies (
    #[trigger] records[i]).region != (#[trigger] records[j]).region || records[i].entry_id
        != records[j].entry_id by {
        if records[i].region == records[j].region {
            assert(id_fits(entries, seq, i));
            assert(id_fits(entries, seq, j));
            crate::logstore::lemma_count_monotone(entries, records[i].region, i + 1, j);
            assert(entries.take(j + 1).drop_last() =~= entries.take(j));
        }
    }
    assert forall|region: u64| (#[trigger] of_region(records, region)).len()
        < 0x1_0000_0000 by {
        lemma_filter_bound(records, region);
    }
    records.map_values(|record: RecordModel| record.region).lemma_cardinality_of_set();
    assert forall|i: int| 0 <= i < records.len() implies (#[trigger] records[i]).payload.len()
        < 0x1_0000_0000 by {
        assert(entries[i].data@.len() < 0x1_0000_0000);
    }
}

/// The footer of a listed object can be looked for exactly if its size can be counted and is not
/// smaller than a header, an empty footer and a trailer. At most the last sixty-four kilobytes are
/// fetched for it, and all of a smaller object.
pub proof fn lemma_plan_succeeds(object: ListedObject)
    ensures
        plan_of(object) is Ok <==> 34 + 4 + 32 <= object.size <= usize::MAX,
        plan_of(object) matches Ok(plan) ==> {
            &&& plan.object_len() == object.size
            &&& plan.window() == (if object.size <= 65_536 {
                object.size as int
            } else {
                65_536
            })
            &&& plan is Whole <==> object.size <= 65_536
        },
        plan_of(object) matches Err(error) ==> error == (Error::InvalidWalObject {
            object_seq: object.object_seq,
            reason: Corruption::TruncatedObject { expected: 70, actual: object.size },
        }),
{
}

/// What was written is recovered: of the bytes that records were written as, at whatever length,
/// the footer is planned, located and found, and it is the footer that was written.
pub proof fn lemma_written_object_is_recovered(
    header: Header,
    records: Seq<RecordModel>,
    head: Seq<u8>,
)
    requires
        records.len() > 0,
        distinct_ids(records),
        countable(records),
        object_bytes(header, grouped(records)).len() <= usize::MAX,
        object_bytes(header, grouped(records)).len() <= u64::MAX,
        34 <= head.len() <= object_bytes(header, grouped(records)).len(),
        head == object_bytes(header, grouped(records)).take(head.len() as int),
    ensures
        ({
            let bytes = object_bytes(header, grouped(records));
            let object = ListedObject {
                object_seq: header.object_seq,
                size: bytes.len() as u64,
            };
            &&& plan_of(object) matches Ok(plan)
            &&& plan.object_len() == bytes.len()
            &&& first_step(object, plan, head, bytes.skip(bytes.len() - plan.window())) matches Ok(
                (trailer, range),
            )
            &&& 34 <= range.start <= range.end <= bytes.len()
            &&& checked_footer(
                bytes.subrange(range.start as int, range.end as int),
                trailer,
                range.start as int,
            ) == Ok::<Seq<FooterEntry>, Corruption>(footer_of(grouped(records)))
        }),
{
    let bytes = object_bytes(header, grouped(records));
    let object = ListedObject { object_seq: header.object_seq, size: bytes.len() as u64 };
    lemma_encodable(records);
    lemma_object_round_trip(header, records);
    lemma_plan_succeeds(object);
    let plan = plan_of(object)->Ok_0;
    lemma_parts_match_whole(object, plan, bytes, head, bytes.skip(plan.tail_start()));
    lemma_written_footer_is_found(header, records);
}

} // verus!
