//! The layout of an object: a header, one segment per region in region order, a footer that
//! describes the segments and a trailer that locates the footer.
use vstd::prelude::*;

use crate::codec::{
    be_bytes, copy_range, field, lemma_be_round_trip, lemma_field_written, lemma_pow256, pow256,
    push_be, push_bytes, read_be,
};
use crate::crc::{crc32, crc32_of};
use crate::error::{Corruption, Unencodable};
use crate::id::{EntryId, RegionId};
use crate::ordmap::{lemma_lists_keys, lists_keys, ordered_keys, OrdMap};

verus! {

/// `GTWALOBJ`, with which an object starts.
pub const HEADER_MAGIC: u64 = 0x4754_5741_4C4F_424A;

/// `GTWALTRL`, with which an object ends.
pub const TRAILER_MAGIC: u64 = 0x4754_5741_4C54_524C;

/// The version of the layout.
pub const FORMAT_VERSION: u64 = 1;

/// Magic, version, object sequence and writer instance.
pub const HEADER_LEN: usize = 34;

/// Entry id and payload length, in front of every payload.
pub const RECORD_HEAD_LEN: usize = 12;

/// The number of segments, in front of the footer entries.
pub const FOOTER_HEAD_LEN: usize = 4;

/// Region, entry range, entry count, byte range and checksum of a segment.
pub const FOOTER_ENTRY_LEN: usize = 48;

/// Footer location, footer checksum, object checksum and magic.
pub const TRAILER_LEN: usize = 32;

/// An object is never shorter than its header, an empty footer and its trailer.
pub const MIN_OBJECT_LEN: usize = 70;

/// The number of payload lengths, segment counts and entry counts that can be told apart.
pub const COUNT_LIMIT: u64 = 0x1_0000_0000;

/// Describes the segment of one region in an object.
#[derive(Clone, Copy, Debug, PartialEq, Eq, Structural)]
pub struct FooterEntry {
    pub region_id: RegionId,
    /// The smallest entry id of the segment.
    pub min_entry_id: EntryId,
    /// The largest entry id of the segment.
    pub max_entry_id: EntryId,
    pub entry_count: u32,
    /// Where the segment starts in the object.
    pub segment_offset: u64,
    pub segment_len: u64,
    pub segment_crc32: u32,
}

/// What the header of an object says.
#[derive(Clone, Copy, Debug, PartialEq, Eq, Structural)]
pub struct Header {
    pub object_seq: u64,
    /// Tells writers apart; nothing depends on it.
    pub writer_instance: u128,
}

/// What the trailer of an object says.
#[derive(Clone, Copy, Debug, PartialEq, Eq, Structural)]
pub struct FixedTrailer {
    pub footer_offset: u64,
    pub footer_len: u64,
    pub footer_crc32: u32,
    pub object_crc32: u32,
}

/// Where the footer lies in an object.
#[derive(Clone, Copy, Debug, PartialEq, Eq, Structural)]
pub struct FooterRange {
    pub start: usize,
    pub end: usize,
}

/// One entry as an object holds it.
#[derive(Debug, PartialEq, Eq)]
pub struct Record {
    pub region_id: RegionId,
    pub entry_id: EntryId,
    pub payload: Vec<u8>,
}

/// An object ready to be written, with the footer it holds.
#[derive(Debug)]
pub struct EncodedObject {
    pub bytes: Vec<u8>,
    pub footer: Vec<FooterEntry>,
}

/// What an object holds.
#[derive(Debug)]
pub struct DecodedObject {
    pub header: Header,
    pub footer: Vec<FooterEntry>,
    pub records: Vec<Record>,
}

/// What a record says.
pub struct RecordModel {
    pub region: u64,
    pub entry_id: EntryId,
    pub payload: Seq<u8>,
}

impl View for Record {
    type V = RecordModel;

    open spec fn view(&self) -> RecordModel {
        RecordModel {
            region: self.region_id.0,
            entry_id: self.entry_id,
            payload: self.payload@,
        }
    }
}

/// What each of the records says.
pub open spec fn record_models(records: Seq<Record>) -> Seq<RecordModel> {
    records.map_values(|record: Record| record@)
}

// ---------------------------------------------------------------------------------------------
// What an object is made of.
// ---------------------------------------------------------------------------------------------
/// The bytes of a header.
pub open spec fn header_bytes(header: Header) -> Seq<u8> {
    be_bytes(HEADER_MAGIC as nat, 8) + be_bytes(FORMAT_VERSION as nat, 2) + be_bytes(
        header.object_seq as nat,
        8,
    ) + be_bytes(header.writer_instance as nat / pow256(8), 8) + be_bytes(
        header.writer_instance as nat % pow256(8),
        8,
    )
}

/// The bytes of one record.
pub open spec fn record_bytes(record: RecordModel) -> Seq<u8> {
    be_bytes(record.entry_id as nat, 8) + be_bytes(record.payload.len(), 4) + record.payload
}

/// The bytes of a segment.
pub open spec fn segment_bytes(records: Seq<RecordModel>) -> Seq<u8>
    decreases records.len(),
{
    if records.len() == 0 {
        Seq::empty()
    } else {
        segment_bytes(records.drop_last()) + record_bytes(records.last())
    }
}

/// `group` with `record` behind the last record whose id is not larger.
pub open spec fn insert_by_id(group: Seq<RecordModel>, record: RecordModel) -> Seq<RecordModel>
    decreases group.len(),
{
    if group.len() == 0 || group.last().entry_id <= record.entry_id {
        group.push(record)
    } else {
        insert_by_id(group.drop_last(), record).push(group.last())
    }
}

/// The records of each region, ordered by entry id.
pub open spec fn grouped(records: Seq<RecordModel>) -> Map<u64, Seq<RecordModel>>
    decreases records.len(),
{
    if records.len() == 0 {
        Map::empty()
    } else {
        let rest = grouped(records.drop_last());
        let record = records.last();
        let group = if rest.contains_key(record.region) {
            rest[record.region]
        } else {
            Seq::empty()
        };
        rest.insert(record.region, insert_by_id(group, record))
    }
}

/// Whether one of the records has the region and the entry id.
pub open spec fn has_record(records: Seq<RecordModel>, region: u64, entry_id: EntryId) -> bool {
    exists|i: int|
        0 <= i < records.len() && (#[trigger] records[i]).region == region && records[i].entry_id
            == entry_id
}

/// The first record that repeats the region and the entry id of an earlier one.
pub open spec fn repeated(records: Seq<RecordModel>) -> Option<RecordModel>
    decreases records.len(),
{
    if records.len() == 0 {
        None
    } else if repeated(records.drop_last()) is Some {
        repeated(records.drop_last())
    } else if has_record(
        records.drop_last(),
        records.last().region,
        records.last().entry_id,
    ) {
        Some(records.last())
    } else {
        None
    }
}

/// The bytes of the first `n` segments.
pub open spec fn body_bytes(groups: Map<u64, Seq<RecordModel>>, n: int) -> Seq<u8>
    decreases n,
{
    if n <= 0 {
        Seq::empty()
    } else {
        body_bytes(groups, n - 1) + segment_bytes(groups[ordered_keys(groups)[n - 1]])
    }
}

/// The footer entry of the segment at place `i`.
pub open spec fn footer_entry(groups: Map<u64, Seq<RecordModel>>, i: int) -> FooterEntry {
    let region = ordered_keys(groups)[i];
    let group = groups[region];
    FooterEntry {
        region_id: RegionId(region),
        min_entry_id: group[0].entry_id,
        max_entry_id: group.last().entry_id,
        entry_count: group.len() as u32,
        segment_offset: (HEADER_LEN + body_bytes(groups, i).len()) as u64,
        segment_len: segment_bytes(group).len() as u64,
        segment_crc32: crc32_of(segment_bytes(group)),
    }
}

/// The footer of an object.
pub open spec fn footer_of(groups: Map<u64, Seq<RecordModel>>) -> Seq<FooterEntry> {
    Seq::new(ordered_keys(groups).len(), |i: int| footer_entry(groups, i))
}

/// The bytes of one footer entry.
pub open spec fn footer_entry_bytes(entry: FooterEntry) -> Seq<u8> {
    be_bytes(entry.region_id.0 as nat, 8) + be_bytes(entry.min_entry_id as nat, 8) + be_bytes(
        entry.max_entry_id as nat,
        8,
    ) + be_bytes(entry.entry_count as nat, 4) + be_bytes(entry.segment_offset as nat, 8)
        + be_bytes(entry.segment_len as nat, 8) + be_bytes(entry.segment_crc32 as nat, 4)
}

/// The bytes of the footer entries.
pub open spec fn footer_entries_bytes(footer: Seq<FooterEntry>) -> Seq<u8>
    decreases footer.len(),
{
    if footer.len() == 0 {
        Seq::empty()
    } else {
        footer_entries_bytes(footer.drop_last()) + footer_entry_bytes(footer.last())
    }
}

/// The bytes of a footer.
pub open spec fn footer_bytes(footer: Seq<FooterEntry>) -> Seq<u8> {
    be_bytes(footer.len(), 4) + footer_entries_bytes(footer)
}

/// The bytes of a trailer.
pub open spec fn trailer_bytes(trailer: FixedTrailer) -> Seq<u8> {
    be_bytes(trailer.footer_offset as nat, 8) + be_bytes(trailer.footer_len as nat, 8) + be_bytes(
        trailer.footer_crc32 as nat,
        4,
    ) + be_bytes(trailer.object_crc32 as nat, 4) + be_bytes(TRAILER_MAGIC as nat, 8)
}

/// The header and the segments of an object.
pub open spec fn front_bytes(header: Header, groups: Map<u64, Seq<RecordModel>>) -> Seq<u8> {
    header_bytes(header) + body_bytes(groups, ordered_keys(groups).len() as int)
}

/// The trailer of an object.
pub open spec fn trailer_of(header: Header, groups: Map<u64, Seq<RecordModel>>) -> FixedTrailer {
    let front = front_bytes(header, groups);
    let footer = footer_bytes(footer_of(groups));
    FixedTrailer {
        footer_offset: front.len() as u64,
        footer_len: footer.len() as u64,
        footer_crc32: crc32_of(footer),
        object_crc32: crc32_of(front + footer),
    }
}

/// The bytes of an object.
pub open spec fn object_bytes(header: Header, groups: Map<u64, Seq<RecordModel>>) -> Seq<u8> {
    front_bytes(header, groups) + footer_bytes(footer_of(groups)) + trailer_bytes(
        trailer_of(header, groups),
    )
}

/// Every payload and every group is small enough for its length to be written down.
pub open spec fn lengths_fit(groups: Map<u64, Seq<RecordModel>>) -> bool {
    &&& ordered_keys(groups).len() < COUNT_LIMIT
    &&& forall|region: u64| #[trigger]
        groups.contains_key(region) ==> groups[region].len() < COUNT_LIMIT
    &&& forall|region: u64, i: int|
        groups.contains_key(region) && 0 <= i < groups[region].len() ==> (
        #[trigger] groups[region][i]).payload.len() < COUNT_LIMIT
}

/// Why the records do not make an object, if they do not.
pub open spec fn unencodable(records: Seq<RecordModel>) -> Option<Unencodable> {
    if records.len() == 0 {
        Some(Unencodable::NoRecords)
    } else if repeated(records) is Some {
        Some(
            Unencodable::DuplicateEntryId {
                region_id: RegionId(repeated(records)->0.region),
                entry_id: repeated(records)->0.entry_id,
            },
        )
    } else if !lengths_fit(grouped(records)) {
        Some(Unencodable::TooLarge)
    } else {
        None
    }
}

// ---------------------------------------------------------------------------------------------
// What bytes say.
// ---------------------------------------------------------------------------------------------
/// The header at the front of an object.
pub open spec fn header_in(bytes: Seq<u8>) -> Result<Header, Corruption> {
    if bytes.len() < HEADER_LEN {
        Err(
            Corruption::TruncatedObject {
                expected: HEADER_LEN as u64,
                actual: bytes.len() as u64,
            },
        )
    } else if field(bytes, 0, 8) != HEADER_MAGIC {
        Err(Corruption::InvalidHeaderMagic)
    } else if field(bytes, 8, 2) != FORMAT_VERSION {
        Err(Corruption::UnsupportedVersion { version: field(bytes, 8, 2) as u16 })
    } else {
        Ok(
            Header {
                object_seq: field(bytes, 10, 8) as u64,
                writer_instance: (field(bytes, 18, 8) * pow256(8) + field(bytes, 26, 8)) as u128,
            },
        )
    }
}

/// The trailer that the last bytes of an object are.
pub open spec fn trailer_in(bytes: Seq<u8>) -> Result<FixedTrailer, Corruption> {
    if bytes.len() != TRAILER_LEN {
        Err(
            Corruption::TruncatedObject {
                expected: TRAILER_LEN as u64,
                actual: bytes.len() as u64,
            },
        )
    } else if field(bytes, 24, 8) != TRAILER_MAGIC {
        Err(Corruption::InvalidTrailerMagic)
    } else {
        Ok(
            FixedTrailer {
                footer_offset: field(bytes, 0, 8) as u64,
                footer_len: field(bytes, 8, 8) as u64,
                footer_crc32: field(bytes, 16, 4) as u32,
                object_crc32: field(bytes, 20, 4) as u32,
            },
        )
    }
}

/// Where the footer lies: behind the header and right before the trailer.
pub open spec fn footer_range_of(trailer: FixedTrailer, object_len: int) -> Result<
    FooterRange,
    Corruption,
> {
    if trailer.footer_offset < HEADER_LEN || trailer.footer_offset + trailer.footer_len
        + TRAILER_LEN != object_len {
        Err(
            Corruption::InvalidFooterRange {
                offset: trailer.footer_offset,
                len: trailer.footer_len,
                object_len: object_len as u64,
            },
        )
    } else {
        Ok(
            FooterRange {
                start: trailer.footer_offset as usize,
                end: (trailer.footer_offset + trailer.footer_len) as usize,
            },
        )
    }
}

/// The footer entry whose bytes start at `at`.
pub open spec fn footer_entry_at(bytes: Seq<u8>, at: int) -> FooterEntry {
    FooterEntry {
        region_id: RegionId(field(bytes, at, 8) as u64),
        min_entry_id: field(bytes, at + 8, 8) as u64,
        max_entry_id: field(bytes, at + 16, 8) as u64,
        entry_count: field(bytes, at + 24, 4) as u32,
        segment_offset: field(bytes, at + 28, 8) as u64,
        segment_len: field(bytes, at + 36, 8) as u64,
        segment_crc32: field(bytes, at + 44, 4) as u32,
    }
}

/// The footer that the bytes are.
pub open spec fn footer_in(bytes: Seq<u8>, trailer: FixedTrailer) -> Result<
    Seq<FooterEntry>,
    Corruption,
> {
    footer_given(bytes, trailer, crc32_of(bytes))
}

/// The footer that bytes with the checksum `checksum` are.
pub open spec fn footer_given(bytes: Seq<u8>, trailer: FixedTrailer, checksum: u32) -> Result<
    Seq<FooterEntry>,
    Corruption,
> {
    if checksum != trailer.footer_crc32 {
        Err(Corruption::FooterChecksum)
    } else if bytes.len() < FOOTER_HEAD_LEN || bytes.len() != FOOTER_HEAD_LEN + field(bytes, 0, 4)
        * FOOTER_ENTRY_LEN {
        Err(Corruption::FooterLength { len: bytes.len() as u64 })
    } else {
        Ok(
            Seq::new(
                field(bytes, 0, 4),
                |i: int| footer_entry_at(bytes, FOOTER_HEAD_LEN + i * FOOTER_ENTRY_LEN),
            ),
        )
    }
}

/// Where the segments from place `i` on do not tile the bytes from `expected` up to the footer.
pub open spec fn tiling_fault(
    footer: Seq<FooterEntry>,
    i: int,
    expected: u64,
    footer_start: int,
) -> Option<Corruption>
    decreases footer.len() - i,
{
    if i >= footer.len() {
        if expected != footer_start {
            Some(Corruption::SegmentsEnd { end: expected, footer_start: footer_start as u64 })
        } else {
            None
        }
    } else if footer[i].segment_offset + footer[i].segment_len > u64::MAX {
        Some(
            Corruption::SegmentOverflow {
                region_id: footer[i].region_id,
                offset: footer[i].segment_offset,
                len: footer[i].segment_len,
            },
        )
    } else if footer[i].segment_offset != expected || footer[i].segment_offset
        + footer[i].segment_len > footer_start {
        Some(
            Corruption::InvalidSegmentRange {
                region_id: footer[i].region_id,
                offset: footer[i].segment_offset,
                len: footer[i].segment_len,
                expected,
            },
        )
    } else {
        tiling_fault(
            footer,
            i + 1,
            (footer[i].segment_offset + footer[i].segment_len) as u64,
            footer_start,
        )
    }
}

/// The records whose bytes are those from `at` on, if they are the bytes of records.
pub open spec fn records_from(bytes: Seq<u8>, region: u64, at: int) -> Option<Seq<RecordModel>>
    decreases bytes.len() - at,
{
    if at >= bytes.len() {
        Some(Seq::empty())
    } else if at + RECORD_HEAD_LEN > bytes.len() {
        None
    } else {
        let len = field(bytes, at + 8, 4);
        let start = at + RECORD_HEAD_LEN;
        if start + len > bytes.len() {
            None
        } else {
            match records_from(bytes, region, start + len) {
                None => None,
                Some(rest) => Some(
                    seq![
                        RecordModel {
                            region,
                            entry_id: field(bytes, at, 8) as u64,
                            payload: bytes.subrange(start, start + len),
                        },
                    ] + rest,
                ),
            }
        }
    }
}

/// Entry ids strictly increase along the records.
pub open spec fn ids_increase(records: Seq<RecordModel>) -> bool {
    forall|i: int, j: int|
        0 <= i < j < records.len() ==> (#[trigger] records[i]).entry_id < (
        #[trigger] records[j]).entry_id
}

/// The records are those the footer entry describes.
pub open spec fn describes(entry: FooterEntry, records: Seq<RecordModel>) -> bool {
    &&& records.len() > 0
    &&& records.len() == entry.entry_count
    &&& records[0].entry_id == entry.min_entry_id
    &&& records.last().entry_id == entry.max_entry_id
    &&& ids_increase(records)
}

/// The records of the segment that the bytes are.
pub open spec fn segment_in(bytes: Seq<u8>, entry: FooterEntry) -> Result<
    Seq<RecordModel>,
    Corruption,
> {
    segment_given(bytes, entry, crc32_of(bytes))
}

/// The records of the segment that bytes with the checksum `checksum` are.
pub open spec fn segment_given(bytes: Seq<u8>, entry: FooterEntry, checksum: u32) -> Result<
    Seq<RecordModel>,
    Corruption,
> {
    if bytes.len() != entry.segment_len {
        Err(
            Corruption::SegmentLength {
                region_id: entry.region_id,
                expected: entry.segment_len,
                actual: bytes.len() as u64,
            },
        )
    } else if checksum != entry.segment_crc32 {
        Err(Corruption::SegmentChecksum { region_id: entry.region_id })
    } else {
        match records_from(bytes, entry.region_id.0, 0) {
            None => Err(Corruption::SegmentRecords { region_id: entry.region_id }),
            Some(records) => if describes(entry, records) {
                Ok(records)
            } else {
                Err(Corruption::SegmentRecords { region_id: entry.region_id })
            },
        }
    }
}

/// Reads the header at the front of an object.
pub fn decode_header(bytes: &[u8]) -> (result: Result<Header, Corruption>)
    ensures
        result == header_in(bytes@),
{
    let len: usize = bytes.len();
    if len < HEADER_LEN {
        return Err(
            Corruption::TruncatedObject { expected: HEADER_LEN as u64, actual: len as u64 },
        );
    }
    if read_be(bytes, 0, 8) != HEADER_MAGIC {
        return Err(Corruption::InvalidHeaderMagic);
    }
    let version: u64 = read_be(bytes, 8, 2);
    proof {
        lemma_pow256();
    }
    if version != FORMAT_VERSION {
        return Err(Corruption::UnsupportedVersion { version: version as u16 });
    }
    let object_seq: u64 = read_be(bytes, 10, 8);
    let high: u64 = read_be(bytes, 18, 8);
    let low: u64 = read_be(bytes, 26, 8);
    Ok(
        Header {
            object_seq,
            writer_instance: high as u128 * 0x1_0000_0000_0000_0000 + low as u128,
        },
    )
}

/// Reads the trailer, which is the last bytes of an object.
pub fn decode_trailer(bytes: &[u8]) -> (result: Result<FixedTrailer, Corruption>)
    ensures
        result == trailer_in(bytes@),
{
    let len: usize = bytes.len();
    if len != TRAILER_LEN {
        return Err(
            Corruption::TruncatedObject { expected: TRAILER_LEN as u64, actual: len as u64 },
        );
    }
    if read_be(bytes, 24, 8) != TRAILER_MAGIC {
        return Err(Corruption::InvalidTrailerMagic);
    }
    proof {
        lemma_pow256();
    }
    Ok(
        FixedTrailer {
            footer_offset: read_be(bytes, 0, 8),
            footer_len: read_be(bytes, 8, 8),
            footer_crc32: read_be(bytes, 16, 4) as u32,
            object_crc32: read_be(bytes, 20, 4) as u32,
        },
    )
}

/// Returns where the footer lies in an object of `object_len` bytes.
pub fn footer_range(trailer: FixedTrailer, object_len: usize) -> (result: Result<
    FooterRange,
    Corruption,
>)
    ensures
        result == footer_range_of(trailer, object_len as int),
        result matches Ok(range) ==> HEADER_LEN <= range.start <= range.end && range.end
            + TRAILER_LEN == object_len,
{
    let end: u128 = trailer.footer_offset as u128 + trailer.footer_len as u128;
    if trailer.footer_offset < HEADER_LEN as u64 || end + TRAILER_LEN as u128
        != object_len as u128 {
        return Err(
            Corruption::InvalidFooterRange {
                offset: trailer.footer_offset,
                len: trailer.footer_len,
                object_len: object_len as u64,
            },
        );
    }
    Ok(FooterRange { start: trailer.footer_offset as usize, end: end as usize })
}

/// Reads the footer of an object.
pub fn decode_footer(bytes: &[u8], trailer: FixedTrailer) -> (result: Result<
    Vec<FooterEntry>,
    Corruption,
>)
    ensures
        match footer_in(bytes@, trailer) {
            Ok(footer) => result matches Ok(entries) && entries@ == footer,
            Err(reason) => result == Err::<Vec<FooterEntry>, Corruption>(reason),
        },
{
    parse_footer(bytes, trailer, crc32(bytes))
}

/// Reads the footer of an object whose bytes have the checksum `checksum`.
pub fn parse_footer(bytes: &[u8], trailer: FixedTrailer, checksum: u32) -> (result: Result<
    Vec<FooterEntry>,
    Corruption,
>)
    ensures
        match footer_given(bytes@, trailer, checksum) {
            Ok(footer) => result matches Ok(entries) && entries@ == footer,
            Err(reason) => result == Err::<Vec<FooterEntry>, Corruption>(reason),
        },
{
    let len: usize = bytes.len();
    if checksum != trailer.footer_crc32 {
        return Err(Corruption::FooterChecksum);
    }
    if len < FOOTER_HEAD_LEN {
        return Err(Corruption::FooterLength { len: len as u64 });
    }
    let count: u64 = read_be(bytes, 0, 4);
    proof {
        lemma_pow256();
    }
    if len as u64 != FOOTER_HEAD_LEN as u64 + count * FOOTER_ENTRY_LEN as u64 {
        return Err(Corruption::FooterLength { len: len as u64 });
    }
    let mut entries: Vec<FooterEntry> = Vec::new();
    let mut i: u64 = 0;
    while i < count
        invariant
            len == bytes@.len(),
            len == FOOTER_HEAD_LEN + count * FOOTER_ENTRY_LEN,
            i <= count,
            entries@.len() == i,
            forall|k: int|
                0 <= k < i ==> #[trigger] entries@[k] == footer_entry_at(
                    bytes@,
                    FOOTER_HEAD_LEN + k * FOOTER_ENTRY_LEN,
                ),
        decreases count - i,
    {
        let at: usize = FOOTER_HEAD_LEN + i as usize * FOOTER_ENTRY_LEN;
        proof {
            lemma_pow256();
        }
        entries.push(
            FooterEntry {
                region_id: RegionId(read_be(bytes, at, 8)),
                min_entry_id: read_be(bytes, at + 8, 8),
                max_entry_id: read_be(bytes, at + 16, 8),
                entry_count: read_be(bytes, at + 24, 4) as u32,
                segment_offset: read_be(bytes, at + 28, 8),
                segment_len: read_be(bytes, at + 36, 8),
                segment_crc32: read_be(bytes, at + 44, 4) as u32,
            },
        );
        i = i + 1;
    }
    assert(footer_given(bytes@, trailer, checksum)->Ok_0 =~= entries@);
    Ok(entries)
}

/// Checks that the segments tile the bytes between the header and the footer.
pub fn verify_segment_ranges(footer: &Vec<FooterEntry>, footer_start: usize) -> (result: Result<
    (),
    Corruption,
>)
    ensures
        match tiling_fault(footer@, 0, HEADER_LEN as u64, footer_start as int) {
            Some(reason) => result == Err::<(), Corruption>(reason),
            None => result == Ok::<(), Corruption>(()),
        },
{
    let n: usize = footer.len();
    let mut i: usize = 0;
    let mut expected: u64 = HEADER_LEN as u64;
    while i < n
        invariant
            n == footer@.len(),
            i <= n,
            tiling_fault(footer@, 0, HEADER_LEN as u64, footer_start as int) == tiling_fault(
                footer@,
                i as int,
                expected,
                footer_start as int,
            ),
        decreases n - i,
    {
        let entry = footer[i];
        let end: u64 = match entry.segment_offset.checked_add(entry.segment_len) {
            Some(end) => end,
            None => {
                return Err(
                    Corruption::SegmentOverflow {
                        region_id: entry.region_id,
                        offset: entry.segment_offset,
                        len: entry.segment_len,
                    },
                );
            },
        };
        if entry.segment_offset != expected || end > footer_start as u64 {
            return Err(
                Corruption::InvalidSegmentRange {
                    region_id: entry.region_id,
                    offset: entry.segment_offset,
                    len: entry.segment_len,
                    expected,
                },
            );
        }
        expected = end;
        i = i + 1;
    }
    if expected != footer_start as u64 {
        return Err(
            Corruption::SegmentsEnd { end: expected, footer_start: footer_start as u64 },
        );
    }
    Ok(())
}

/// Reads the records of the segment that `entry` describes.
pub fn decode_segment(bytes: &[u8], entry: &FooterEntry) -> (result: Result<
    Vec<Record>,
    Corruption,
>)
    ensures
        match segment_in(bytes@, *entry) {
            Ok(records) => result matches Ok(decoded) && record_models(decoded@) == records,
            Err(reason) => result == Err::<Vec<Record>, Corruption>(reason),
        },
{
    parse_segment(bytes, entry, crc32(bytes))
}

/// Reads the records of the segment that `entry` describes, whose bytes have the checksum
/// `checksum`.
pub fn parse_segment(bytes: &[u8], entry: &FooterEntry, checksum: u32) -> (result: Result<
    Vec<Record>,
    Corruption,
>)
    ensures
        match segment_given(bytes@, *entry, checksum) {
            Ok(records) => result matches Ok(decoded) && record_models(decoded@) == records,
            Err(reason) => result == Err::<Vec<Record>, Corruption>(reason),
        },
{
    let len: usize = bytes.len();
    let region_id = entry.region_id;
    if len as u64 != entry.segment_len {
        return Err(
            Corruption::SegmentLength {
                region_id,
                expected: entry.segment_len,
                actual: len as u64,
            },
        );
    }
    if checksum != entry.segment_crc32 {
        return Err(Corruption::SegmentChecksum { region_id });
    }
    let mut records: Vec<Record> = Vec::new();
    let mut at: usize = 0;
    let ghost whole = records_from(bytes@, region_id.0, 0);
    assert(record_models(records@) =~= Seq::empty());
    proof {
        if let Some(rest) = whole {
            assert(Seq::<RecordModel>::empty() + rest =~= rest);
        }
    }
    while at < len
        invariant
            len == bytes@.len(),
            at <= len,
            region_id == entry.region_id,
            bytes@.len() == entry.segment_len,
            checksum == entry.segment_crc32,
            whole == records_from(bytes@, region_id.0, 0),
            whole == match records_from(bytes@, region_id.0, at as int) {
                None => None,
                Some(rest) => Some(record_models(records@) + rest),
            },
        decreases len - at,
    {
        if len - at < RECORD_HEAD_LEN {
            return Err(Corruption::SegmentRecords { region_id });
        }
        let entry_id: u64 = read_be(bytes, at, 8);
        let payload_len: u64 = read_be(bytes, at + 8, 4);
        let start: usize = at + RECORD_HEAD_LEN;
        if payload_len > (len - start) as u64 {
            return Err(Corruption::SegmentRecords { region_id });
        }
        let end: usize = start + payload_len as usize;
        let payload = copy_range(bytes, start, end);
        let ghost before = records@;
        let record = Record { region_id, entry_id, payload };
        records.push(record);
        proof {
            assert(record_models(records@) =~= record_models(before).push(record@));
            if let Some(rest) = records_from(bytes@, region_id.0, end as int) {
                assert(record_models(before) + (seq![record@] + rest) =~= record_models(records@)
                    + rest);
            }
        }
        at = end;
    }
    proof {
        assert(record_models(records@) + Seq::<RecordModel>::empty() =~= record_models(records@));
    }
    if !records_described(entry, &records) {
        return Err(Corruption::SegmentRecords { region_id });
    }
    Ok(records)
}

/// Whether the records are those that `entry` describes.
fn records_described(entry: &FooterEntry, records: &Vec<Record>) -> (described: bool)
    ensures
        described <==> describes(*entry, record_models(records@)),
{
    let n: usize = records.len();
    if n == 0 || n as u64 != entry.entry_count as u64 || records[0].entry_id != entry.min_entry_id
        || records[n - 1].entry_id != entry.max_entry_id {
        return false;
    }
    let ghost models = record_models(records@);
    let mut i: usize = 1;
    while i < n
        invariant
            models == record_models(records@),
            n == records@.len(),
            1 <= i <= n,
            forall|a: int, b: int|
                0 <= a < b < i ==> (#[trigger] models[a]).entry_id < (
                #[trigger] models[b]).entry_id,
        decreases n - i,
    {
        if records[i - 1].entry_id >= records[i].entry_id {
            proof {
                assert(models[i - 1].entry_id >= models[i as int].entry_id);
            }
            return false;
        }
        proof {
            assert(models[i - 1].entry_id < models[i as int].entry_id);
            assert forall|a: int, b: int| 0 <= a < b < i + 1 implies (#[trigger] models[a]).entry_id
                < (#[trigger] models[b]).entry_id by {
                if b == i && a < i - 1 {
                    assert(models[a].entry_id < models[i - 1].entry_id);
                }
            }
        }
        i = i + 1;
    }
    true
}

// ---------------------------------------------------------------------------------------------
// Grouping records by region.
// ---------------------------------------------------------------------------------------------
/// Whether one of the records has the entry id.
pub open spec fn has_id(group: Seq<RecordModel>, entry_id: EntryId) -> bool {
    exists|i: int| 0 <= i < group.len() && (#[trigger] group[i]).entry_id == entry_id
}

proof fn lemma_insert_by_id(group: Seq<RecordModel>, record: RecordModel, region: u64)
    requires
        ids_increase(group),
        !has_id(group, record.entry_id),
        record.region == region,
        forall|i: int| 0 <= i < group.len() ==> (#[trigger] group[i]).region == region,
    ensures
        insert_by_id(group, record).len() == group.len() + 1,
        ids_increase(insert_by_id(group, record)),
        forall|i: int|
            0 <= i < group.len() + 1 ==> (#[trigger] insert_by_id(group, record)[i]).region
                == region,
        forall|x: RecordModel| #[trigger]
            insert_by_id(group, record).contains(x) <==> (group.contains(x) || x == record),
    decreases group.len(),
{
    let result = insert_by_id(group, record);
    if group.len() == 0 || group.last().entry_id <= record.entry_id {
        if group.len() > 0 {
            assert(group[group.len() - 1].entry_id != record.entry_id);
        }
        assert forall|x: RecordModel| #[trigger] result.contains(x) <==> (group.contains(x) || x
            == record) by {
            if group.contains(x) {
                assert(result[group.index_of(x)] == x);
            }
            if x == record {
                assert(result[group.len() as int] == x);
            }
            if result.contains(x) {
                let i = result.index_of(x);
                if i < group.len() {
                    assert(group[i] == x);
                }
            }
        }
    } else {
        let rest = group.drop_last();
        let last = group.last();
        assert(!has_id(rest, record.entry_id)) by {
            if has_id(rest, record.entry_id) {
                let i = choose|i: int|
                    0 <= i < rest.len() && (#[trigger] rest[i]).entry_id == record.entry_id;
                assert(group[i].entry_id == record.entry_id);
            }
        }
        assert(ids_increase(rest)) by {
            assert forall|i: int, j: int| 0 <= i < j < rest.len() implies (
            #[trigger] rest[i]).entry_id < (#[trigger] rest[j]).entry_id by {
                assert(group[i].entry_id < group[j].entry_id);
            }
        }
        assert forall|i: int| 0 <= i < rest.len() implies (#[trigger] rest[i]).region
            == region by {
            assert(group[i].region == region);
        }
        lemma_insert_by_id(rest, record, region);
        let inner = insert_by_id(rest, record);
        assert forall|i: int| 0 <= i < result.len() implies (#[trigger] result[i]).region
            == region by {
            if i < inner.len() {
                assert(inner[i].region == region);
            } else {
                assert(group[group.len() - 1].region == region);
            }
        }
        assert forall|i: int, j: int| 0 <= i < j < result.len() implies (
        #[trigger] result[i]).entry_id < (#[trigger] result[j]).entry_id by {
            if j < inner.len() {
                assert(inner[i].entry_id < inner[j].entry_id);
            } else {
                assert(inner.contains(inner[i]));
                if inner[i] != record {
                    assert(rest.contains(inner[i]));
                    let k = rest.index_of(inner[i]);
                    assert(group[k].entry_id < group[group.len() - 1].entry_id);
                }
            }
        }
        assert forall|x: RecordModel| #[trigger] result.contains(x) <==> (group.contains(x) || x
            == record) by {
            if group.contains(x) {
                let k = group.index_of(x);
                if k < rest.len() {
                    assert(rest[k] == x);
                    assert(rest.contains(x));
                    assert(inner.contains(x));
                    assert(result[inner.index_of(x)] == x);
                } else {
                    assert(result[inner.len() as int] == x);
                }
            }
            if x == record {
                assert(inner.contains(x));
                assert(result[inner.index_of(x)] == x);
            }
            if result.contains(x) {
                let i = result.index_of(x);
                if i < inner.len() {
                    assert(inner[i] == x);
                    assert(inner.contains(x));
                    if rest.contains(x) {
                        assert(group[rest.index_of(x)] == x);
                    }
                } else {
                    assert(group[group.len() - 1] == x);
                }
            }
        }
    }
}

/// Grouping puts every record under its region, in the order of entry ids, and nothing else.
pub proof fn lemma_grouped(records: Seq<RecordModel>)
    requires
        repeated(records) is None,
    ensures
        grouped(records).dom().finite(),
        forall|region: u64| #[trigger]
            grouped(records).contains_key(region) ==> {
                &&& grouped(records)[region].len() > 0
                &&& ids_increase(grouped(records)[region])
                &&& forall|i: int|
                    0 <= i < grouped(records)[region].len() ==> (
                    #[trigger] grouped(records)[region][i]).region == region
            },
        forall|x: RecordModel| #[trigger]
            records.contains(x) <==> (grouped(records).contains_key(x.region) && grouped(
                records,
            )[x.region].contains(x)),
    decreases records.len(),
{
    if records.len() == 0 {
        assert forall|x: RecordModel| !#[trigger] records.contains(x) by {}
    } else {
        let front = records.drop_last();
        let record = records.last();
        lemma_grouped(front);
        let rest = grouped(front);
        let region = record.region;
        let group = if rest.contains_key(region) {
            rest[region]
        } else {
            Seq::empty()
        };
        assert(!has_id(group, record.entry_id)) by {
            if has_id(group, record.entry_id) {
                let i = choose|i: int|
                    0 <= i < group.len() && (#[trigger] group[i]).entry_id == record.entry_id;
                assert(group.contains(group[i]));
                assert(rest[region].contains(group[i]));
                assert(group[i].region == region);
                assert(front.contains(group[i]));
                let k = front.index_of(group[i]);
                assert(front[k].region == region && front[k].entry_id == record.entry_id);
                assert(has_record(front, region, record.entry_id));
            }
        }
        lemma_insert_by_id(group, record, region);
        let all = grouped(records);
        assert forall|r: u64| #[trigger] all.contains_key(r) implies {
            &&& all[r].len() > 0
            &&& ids_increase(all[r])
            &&& forall|i: int| 0 <= i < all[r].len() ==> (#[trigger] all[r][i]).region == r
        } by {
            if r != region {
                assert(rest.contains_key(r));
            }
        }
        assert forall|x: RecordModel| #[trigger]
            records.contains(x) <==> (all.contains_key(x.region) && all[x.region].contains(x)) by {
            if records.contains(x) {
                let k = records.index_of(x);
                if k < front.len() {
                    assert(front[k] == x);
                    assert(front.contains(x));
                }
            }
            if front.contains(x) {
                assert(records[front.index_of(x)] == x);
            }
            assert(records[records.len() - 1] == record);
            if all.contains_key(x.region) && all[x.region].contains(x) {
                if x.region == region {
                    if x != record {
                        assert(group.contains(x));
                    }
                } else {
                    assert(rest.contains_key(x.region));
                }
            }
        }
    }
}

/// A repetition among the first records is the repetition among all of them.
proof fn lemma_repeated_prefix(records: Seq<RecordModel>, n: int)
    requires
        0 <= n <= records.len(),
        repeated(records.take(n)) is Some,
    ensures
        repeated(records) == repeated(records.take(n)),
    decreases records.len() - n,
{
    if n == records.len() {
        assert(records.take(n) =~= records);
    } else {
        assert(records.take(n + 1).drop_last() =~= records.take(n));
        lemma_repeated_prefix(records, n + 1);
    }
}

/// The records that the places of `group` name.
pub open spec fn at_places(records: Seq<RecordModel>, group: Seq<usize>) -> Seq<RecordModel> {
    Seq::new(group.len(), |k: int| records[group[k] as int])
}

/// `index` holds, per region, the places of the records that make up its group.
spec fn indexes(
    index: OrdMap<Vec<usize>>,
    records: Seq<RecordModel>,
    groups: Map<u64, Seq<RecordModel>>,
) -> bool {
    &&& index.wf()
    &&& index@.dom() == groups.dom()
    &&& forall|region: u64| #[trigger]
        groups.contains_key(region) ==> at_places(records, index@[region]@) == groups[region]
            && forall|k: int|
            0 <= k < index@[region]@.len() ==> (#[trigger] index@[region]@[k]) < records.len()
}

/// Finds the records of each region.
fn group_records(records: &Vec<Record>) -> (result: Result<OrdMap<Vec<usize>>, Unencodable>)
    ensures
        match repeated(record_models(records@)) {
            Some(record) => result == Err::<OrdMap<Vec<usize>>, Unencodable>(
                Unencodable::DuplicateEntryId {
                    region_id: RegionId(record.region),
                    entry_id: record.entry_id,
                },
            ),
            None => result matches Ok(index) && indexes(
                index,
                record_models(records@),
                grouped(record_models(records@)),
            ),
        },
{
    let ghost models = record_models(records@);
    let mut index: OrdMap<Vec<usize>> = OrdMap::new();
    let n: usize = records.len();
    let mut i: usize = 0;
    proof {
        assert(models.take(0) =~= Seq::empty());
        assert(index@.dom() =~= grouped(models.take(0)).dom());
    }
    while i < n
        invariant
            models == record_models(records@),
            n == records@.len(),
            i <= n,
            repeated(models.take(i as int)) is None,
            indexes(index, models, grouped(models.take(i as int))),
        decreases n - i,
    {
        let ghost front = models.take(i as int);
        let ghost groups = grouped(front);
        proof {
            lemma_grouped(front);
            assert(models.take(i + 1).drop_last() =~= front);
            assert(models.take(i + 1).last() == models[i as int]);
        }
        let region_id = records[i].region_id;
        let entry_id: u64 = records[i].entry_id;
        let region: u64 = region_id.as_u64();
        let ghost before = index@;
        let mut group: Vec<usize> = match index.remove(region) {
            Some(group) => group,
            None => Vec::new(),
        };
        let ghost places = group@;
        let ghost old_group = if groups.contains_key(region) {
            groups[region]
        } else {
            Seq::empty()
        };
        assert(at_places(models, places) =~= old_group) by {
            assert(before.contains_key(region) <==> before.dom().contains(region));
            assert(groups.contains_key(region) <==> groups.dom().contains(region));
        }
        let ghost record = models[i as int];
        let mut at: usize = group.len();
        proof {
            assert(old_group.take(at as int) =~= old_group);
            assert(insert_by_id(old_group, record) =~= insert_by_id(
                old_group.take(at as int),
                record,
            ) + old_group.skip(at as int));
        }
        while at > 0 && records[group[at - 1]].entry_id > entry_id
            invariant
                models == record_models(records@),
                n == records@.len(),
                i < n,
                record == models[i as int],
                entry_id == record.entry_id,
                group@ == places,
                at <= places.len(),
                old_group == at_places(models, places),
                forall|k: int| 0 <= k < places.len() ==> (#[trigger] places[k]) < n,
                forall|k: int|
                    at <= k < old_group.len() ==> (#[trigger] old_group[k]).entry_id > entry_id,
                insert_by_id(old_group, record) == insert_by_id(old_group.take(at as int), record)
                    + old_group.skip(at as int),
            decreases at,
        {
            proof {
                let left = old_group.take(at as int);
                assert(left.drop_last() =~= old_group.take(at - 1));
                assert(left.last() == old_group[at - 1]);
                assert(old_group[at - 1] == models[places[at - 1] as int]);
                assert(insert_by_id(left, record) + old_group.skip(at as int) =~= insert_by_id(
                    old_group.take(at - 1),
                    record,
                ) + old_group.skip(at - 1));
            }
            at = at - 1;
        }
        if at > 0 && records[group[at - 1]].entry_id == entry_id {
            proof {
                let twin = old_group[at - 1];
                assert(twin == models[places[at - 1] as int]);
                assert(old_group.contains(twin));
                assert(twin.region == region);
                assert(front.contains(twin));
                let k = front.index_of(twin);
                assert(front[k].region == region && front[k].entry_id == entry_id);
                assert(has_record(front, region, entry_id));
                assert(repeated(models.take(i + 1)) == Some(record));
                lemma_repeated_prefix(models, i + 1);
            }
            return Err(Unencodable::DuplicateEntryId { region_id, entry_id });
        }
        proof {
            let left = old_group.take(at as int);
            if at > 0 {
                assert(left.last() == old_group[at - 1]);
                assert(old_group[at - 1] == models[places[at - 1] as int]);
            }
            assert(insert_by_id(left, record) == left.push(record));
            // Nothing among the records before has the id.
            assert(!has_record(front, region, entry_id)) by {
                if has_record(front, region, entry_id) {
                    let k = choose|k: int|
                        0 <= k < front.len() && (#[trigger] front[k]).region == region
                            && front[k].entry_id == entry_id;
                    assert(front.contains(front[k]));
                    let j = old_group.index_of(front[k]);
                    assert(old_group[j].entry_id == entry_id);
                    if j < at {
                        if j < at - 1 {
                            assert(old_group[j].entry_id < old_group[at - 1].entry_id);
                        }
                    } else {
                        assert(old_group[j].entry_id > entry_id);
                    }
                }
            }
        }
        group.insert(at, i);
        proof {
            assert(at_places(models, group@) =~= old_group.take(at as int).push(record)
                + old_group.skip(at as int));
            assert(at_places(models, group@) == insert_by_id(old_group, record));
            assert(grouped(models.take(i + 1)) == groups.insert(
                region,
                insert_by_id(old_group, record),
            ));
        }
        index.insert(region, group);
        proof {
            let next = grouped(models.take(i + 1));
            assert(index@.dom() =~= next.dom());
            assert forall|r: u64| #[trigger] next.contains_key(r) implies at_places(
                models,
                index@[r]@,
            ) == next[r] && (forall|k: int|
                0 <= k < index@[r]@.len() ==> (#[trigger] index@[r]@[k]) < models.len()) by {
                if r != region {
                    assert(groups.contains_key(r));
                } else {
                    assert forall|k: int| 0 <= k < index@[r]@.len() implies (
                    #[trigger] index@[r]@[k]) < models.len() by {
                        if k < at {
                            assert(group@[k] == places[k]);
                        } else if k > at {
                            assert(group@[k] == places[k - 1]);
                        }
                    }
                }
            }
        }
        i = i + 1;
    }
    assert(models.take(n as int) =~= models);
    Ok(index)
}

// ---------------------------------------------------------------------------------------------
// Writing objects.
// ---------------------------------------------------------------------------------------------
/// Whether every count and length can be written down.
fn check_lengths(
    records: &Vec<Record>,
    index: &OrdMap<Vec<usize>>,
    groups: Ghost<Map<u64, Seq<RecordModel>>>,
) -> (fit: bool)
    requires
        indexes(*index, record_models(records@), groups@),
    ensures
        fit <==> lengths_fit(groups@),
{
    let ghost models = record_models(records@);
    let ghost keys = ordered_keys(groups@);
    proof {
        index.lemma_key_seq();
        crate::ordmap::lemma_ordered_keys_of_domain(index@, groups@, index.key_seq());
    }
    let n: usize = index.len();
    if n as u64 >= COUNT_LIMIT {
        return false;
    }
    let mut i: usize = 0;
    while i < n
        invariant
            models == record_models(records@),
            indexes(*index, models, groups@),
            keys == ordered_keys(groups@),
            keys == index.key_seq(),
            lists_keys(groups@, keys),
            n == keys.len(),
            i <= n,
            forall|k: int|
                0 <= k < i ==> groups@[#[trigger] keys[k]].len() < COUNT_LIMIT && forall|j: int|
                    0 <= j < groups@[keys[k]].len() ==> (
                    #[trigger] groups@[keys[k]][j]).payload.len() < COUNT_LIMIT,
        decreases n - i,
    {
        let group = index.value_at(i);
        let ghost region = keys[i as int];
        proof {
            assert(keys.contains(region));
            assert(groups@.contains_key(region));
        }
        let m: usize = group.len();
        if m as u64 >= COUNT_LIMIT {
            return false;
        }
        let mut j: usize = 0;
        while j < m
            invariant
                models == record_models(records@),
                groups@.contains_key(region),
                at_places(models, group@) == groups@[region],
                forall|k: int| 0 <= k < group@.len() ==> (#[trigger] group@[k]) < models.len(),
                m == group@.len(),
                j <= m,
                forall|k: int|
                    0 <= k < j ==> (#[trigger] groups@[region][k]).payload.len() < COUNT_LIMIT,
            decreases m - j,
        {
            let place: usize = group[j];
            assert(groups@[region][j as int] == models[place as int]);
            if records[place].payload.len() as u64 >= COUNT_LIMIT {
                return false;
            }
            j = j + 1;
        }
        i = i + 1;
    }
    proof {
        assert forall|region: u64| #[trigger] groups@.contains_key(region) implies
            groups@[region].len() < COUNT_LIMIT by {
            assert(keys.contains(region));
            let k = keys.index_of(region);
            assert(keys[k] == region);
        }
        assert forall|region: u64, j: int|
            groups@.contains_key(region) && 0 <= j < groups@[region].len() implies (
        #[trigger] groups@[region][j]).payload.len() < COUNT_LIMIT by {
            assert(keys.contains(region));
            let k = keys.index_of(region);
            assert(keys[k] == region);
        }
    }
    true
}

/// Appends the records at the places of `group`.
fn push_segment(out: &mut Vec<u8>, records: &Vec<Record>, group: &Vec<usize>)
    requires
        forall|k: int| 0 <= k < group@.len() ==> (#[trigger] group@[k]) < records@.len(),
        forall|k: int|
            0 <= k < group@.len() ==> (#[trigger] at_places(
                record_models(records@),
                group@,
            )[k]).payload.len() < COUNT_LIMIT,
    ensures
        final(out)@ == old(out)@ + segment_bytes(at_places(record_models(records@), group@)),
{
    let ghost models = record_models(records@);
    let ghost whole = at_places(models, group@);
    let n: usize = group.len();
    let mut i: usize = 0;
    assert(out@ =~= old(out)@ + segment_bytes(whole.take(0)));
    while i < n
        invariant
            models == record_models(records@),
            whole == at_places(models, group@),
            n == group@.len(),
            i <= n,
            forall|k: int| 0 <= k < group@.len() ==> (#[trigger] group@[k]) < records@.len(),
            forall|k: int|
                0 <= k < whole.len() ==> (#[trigger] whole[k]).payload.len() < COUNT_LIMIT,
            out@ == old(out)@ + segment_bytes(whole.take(i as int)),
        decreases n - i,
    {
        let place: usize = group[i];
        let ghost before = out@;
        let record = &records[place];
        assert(whole[i as int] == record@);
        push_be(out, record.entry_id, 8);
        push_be(out, record.payload.len() as u64, 4);
        push_bytes(out, record.payload.as_slice());
        proof {
            assert(out@ =~= before + record_bytes(record@));
            assert(whole.take(i + 1).drop_last() =~= whole.take(i as int));
            assert(whole.take(i + 1).last() == record@);
            assert(out@ =~= old(out)@ + segment_bytes(whole.take(i + 1)));
        }
        i = i + 1;
    }
    assert(whole.take(n as int) =~= whole);
}

/// Appends a header.
pub fn push_header(out: &mut Vec<u8>, header: &Header)
    ensures
        final(out)@ == old(out)@ + header_bytes(*header),
{
    let high: u64 = (header.writer_instance / 0x1_0000_0000_0000_0000) as u64;
    let low: u64 = (header.writer_instance % 0x1_0000_0000_0000_0000) as u64;
    proof {
        lemma_pow256();
    }
    push_be(out, HEADER_MAGIC, 8);
    push_be(out, FORMAT_VERSION, 2);
    push_be(out, header.object_seq, 8);
    push_be(out, high, 8);
    push_be(out, low, 8);
    assert(out@ =~= old(out)@ + header_bytes(*header));
}

/// Appends a footer.
pub fn push_footer(out: &mut Vec<u8>, footer: &Vec<FooterEntry>)
    ensures
        final(out)@ == old(out)@ + footer_bytes(footer@),
{
    let n: usize = footer.len();
    push_be(out, n as u64, 4);
    let ghost start = out@;
    let mut i: usize = 0;
    assert(out@ =~= start + footer_entries_bytes(footer@.take(0)));
    while i < n
        invariant
            n == footer@.len(),
            i <= n,
            out@ == start + footer_entries_bytes(footer@.take(i as int)),
        decreases n - i,
    {
        let entry = footer[i];
        let ghost before = out@;
        push_be(out, entry.region_id.as_u64(), 8);
        push_be(out, entry.min_entry_id, 8);
        push_be(out, entry.max_entry_id, 8);
        push_be(out, entry.entry_count as u64, 4);
        push_be(out, entry.segment_offset, 8);
        push_be(out, entry.segment_len, 8);
        push_be(out, entry.segment_crc32 as u64, 4);
        proof {
            assert(out@ =~= before + footer_entry_bytes(entry));
            assert(footer@.take(i + 1).drop_last() =~= footer@.take(i as int));
            assert(out@ =~= start + footer_entries_bytes(footer@.take(i + 1)));
        }
        i = i + 1;
    }
    assert(footer@.take(n as int) =~= footer@);
    assert(out@ =~= old(out)@ + footer_bytes(footer@));
}

/// Appends a trailer.
pub fn push_trailer(out: &mut Vec<u8>, trailer: &FixedTrailer)
    ensures
        final(out)@ == old(out)@ + trailer_bytes(*trailer),
{
    push_be(out, trailer.footer_offset, 8);
    push_be(out, trailer.footer_len, 8);
    push_be(out, trailer.footer_crc32 as u64, 4);
    push_be(out, trailer.object_crc32 as u64, 4);
    push_be(out, TRAILER_MAGIC, 8);
    assert(out@ =~= old(out)@ + trailer_bytes(*trailer));
}

/// Writes the records as one object. The bytes depend on the header and on which records there
/// are, not on the order in which the regions take turns, so a repeated attempt to write the same
/// entries writes the same object.
pub fn encode_object(header: Header, records: &Vec<Record>) -> (result: Result<
    EncodedObject,
    Unencodable,
>)
    ensures
        match unencodable(record_models(records@)) {
            Some(reason) => result == Err::<EncodedObject, Unencodable>(reason),
            None => result matches Ok(object) && object.bytes@ == object_bytes(
                header,
                grouped(record_models(records@)),
            ) && object.footer@ == footer_of(grouped(record_models(records@))),
        },
{
    let ghost models = record_models(records@);
    if records.len() == 0 {
        return Err(Unencodable::NoRecords);
    }
    let index = match group_records(records) {
        Ok(index) => index,
        Err(reason) => {
            return Err(reason);
        },
    };
    let ghost groups = grouped(models);
    proof {
        lemma_grouped(models);
        index.lemma_key_seq();
        crate::ordmap::lemma_ordered_keys_of_domain(index@, groups, index.key_seq());
    }
    if !check_lengths(records, &index, Ghost(groups)) {
        return Err(Unencodable::TooLarge);
    }
    let ghost keys = ordered_keys(groups);
    let mut bytes: Vec<u8> = Vec::new();
    push_header(&mut bytes, &header);
    let mut footer: Vec<FooterEntry> = Vec::new();
    let n: usize = index.len();
    let mut i: usize = 0;
    proof {
        assert(bytes@ =~= header_bytes(header) + body_bytes(groups, 0));
        lemma_header_len(header);
    }
    while i < n
        invariant
            models == record_models(records@),
            groups == grouped(models),
            repeated(models) is None,
            lengths_fit(groups),
            indexes(index, models, groups),
            keys == ordered_keys(groups),
            keys == index.key_seq(),
            lists_keys(groups, keys),
            header_bytes(header).len() == HEADER_LEN,
            n == keys.len(),
            i <= n,
            bytes@ == header_bytes(header) + body_bytes(groups, i as int),
            footer@.len() == i,
            forall|k: int| 0 <= k < i ==> #[trigger] footer@[k] == footer_entry(groups, k),
        decreases n - i,
    {
        let region: u64 = index.key_at(i);
        let group = index.value_at(i);
        let start: usize = bytes.len();
        let ghost before = bytes@;
        let ghost segment = segment_bytes(groups[region]);
        proof {
            lemma_grouped(models);
            assert(keys.contains(region));
            assert(groups.contains_key(region));
            assert(at_places(models, group@) == groups[region]);
            assert(groups[region].len() == group@.len());
            assert forall|k: int| 0 <= k < group@.len() implies (#[trigger] at_places(
                models,
                group@,
            )[k]).payload.len() < COUNT_LIMIT by {
                assert(groups[region][k].payload.len() < COUNT_LIMIT);
            }
        }
        push_segment(&mut bytes, records, group);
        let end: usize = bytes.len();
        let crc: u32 = crc32(vstd::slice::slice_subrange(bytes.as_slice(), start, end));
        let last: usize = group.len() - 1;
        proof {
            assert(bytes@ =~= before + segment);
            assert(bytes@.subrange(start as int, end as int) =~= segment);
            assert(groups[region][0] == models[group@[0] as int]);
            assert(groups[region][last as int] == models[group@[last as int] as int]);
        }
        footer.push(
            FooterEntry {
                region_id: RegionId(region),
                min_entry_id: records[group[0]].entry_id,
                max_entry_id: records[group[last]].entry_id,
                entry_count: group.len() as u32,
                segment_offset: start as u64,
                segment_len: (end - start) as u64,
                segment_crc32: crc,
            },
        );
        proof {
            assert(footer@[i as int] == footer_entry(groups, i as int));
            assert(bytes@ =~= header_bytes(header) + body_bytes(groups, i + 1));
        }
        i = i + 1;
    }
    let footer_start: usize = bytes.len();
    let ghost front = bytes@;
    proof {
        assert(footer@ =~= footer_of(groups));
        assert(front == front_bytes(header, groups));
    }
    push_footer(&mut bytes, &footer);
    let footer_end: usize = bytes.len();
    proof {
        assert(bytes@.subrange(footer_start as int, footer_end as int) =~= footer_bytes(footer@));
    }
    let trailer = FixedTrailer {
        footer_offset: footer_start as u64,
        footer_len: (footer_end - footer_start) as u64,
        footer_crc32: crc32(
            vstd::slice::slice_subrange(bytes.as_slice(), footer_start, footer_end),
        ),
        object_crc32: crc32(bytes.as_slice()),
    };
    push_trailer(&mut bytes, &trailer);
    proof {
        assert(trailer == trailer_of(header, groups));
        assert(bytes@ =~= object_bytes(header, groups));
    }
    Ok(EncodedObject { bytes, footer })
}

/// A header has a fixed length.
pub proof fn lemma_header_len(header: Header)
    ensures
        header_bytes(header).len() == HEADER_LEN,
{
    lemma_be_round_trip(HEADER_MAGIC as nat, 8);
    lemma_be_round_trip(FORMAT_VERSION as nat, 2);
    lemma_be_round_trip(header.object_seq as nat, 8);
    lemma_be_round_trip(header.writer_instance as nat / pow256(8), 8);
    lemma_be_round_trip(header.writer_instance as nat % pow256(8), 8);
}

// ---------------------------------------------------------------------------------------------
// What is read of an object that was written.
// ---------------------------------------------------------------------------------------------
/// A field is the same in a sequence and in the part of it that holds the field.
proof fn lemma_field_of_part(bytes: Seq<u8>, start: int, end: int, at: int, width: int)
    requires
        0 <= start <= start + at,
        0 <= width,
        start + at + width <= end <= bytes.len(),
    ensures
        field(bytes, start + at, width) == field(bytes.subrange(start, end), at, width),
{
    assert(bytes.subrange(start + at, start + at + width) =~= bytes.subrange(start, end).subrange(
        at,
        at + width,
    ));
}

/// The header of an object reads back as written, whatever follows it.
pub proof fn lemma_header_round_trip(header: Header, rest: Seq<u8>)
    ensures
        header_in(header_bytes(header) + rest) == Ok::<Header, Corruption>(header),
{
    lemma_header_len(header);
    lemma_pow256();
    let high = header.writer_instance as nat / pow256(8);
    let low = header.writer_instance as nat % pow256(8);
    let bytes = header_bytes(header) + rest;
    let p0 = be_bytes(HEADER_MAGIC as nat, 8);
    let p1 = be_bytes(FORMAT_VERSION as nat, 2);
    let p2 = be_bytes(header.object_seq as nat, 8);
    let p3 = be_bytes(high, 8);
    let p4 = be_bytes(low, 8);
    lemma_be_round_trip(HEADER_MAGIC as nat, 8);
    lemma_be_round_trip(FORMAT_VERSION as nat, 2);
    lemma_be_round_trip(header.object_seq as nat, 8);
    lemma_be_round_trip(high, 8);
    lemma_be_round_trip(low, 8);
    assert(high < pow256(8));
    assert(bytes =~= Seq::empty() + p0 + (p1 + p2 + p3 + p4 + rest));
    lemma_field_written(Seq::empty(), HEADER_MAGIC as nat, 8, p1 + p2 + p3 + p4 + rest);
    assert(bytes =~= p0 + p1 + (p2 + p3 + p4 + rest));
    lemma_field_written(p0, FORMAT_VERSION as nat, 2, p2 + p3 + p4 + rest);
    assert(bytes =~= (p0 + p1) + p2 + (p3 + p4 + rest));
    lemma_field_written(p0 + p1, header.object_seq as nat, 8, p3 + p4 + rest);
    assert(bytes =~= (p0 + p1 + p2) + p3 + (p4 + rest));
    lemma_field_written(p0 + p1 + p2, high, 8, p4 + rest);
    assert(bytes =~= (p0 + p1 + p2 + p3) + p4 + rest);
    lemma_field_written(p0 + p1 + p2 + p3, low, 8, rest);
}

/// A trailer reads back as written.
pub proof fn lemma_trailer_round_trip(trailer: FixedTrailer)
    ensures
        trailer_bytes(trailer).len() == TRAILER_LEN,
        trailer_in(trailer_bytes(trailer)) == Ok::<FixedTrailer, Corruption>(trailer),
{
    lemma_pow256();
    let bytes = trailer_bytes(trailer);
    let p0 = be_bytes(trailer.footer_offset as nat, 8);
    let p1 = be_bytes(trailer.footer_len as nat, 8);
    let p2 = be_bytes(trailer.footer_crc32 as nat, 4);
    let p3 = be_bytes(trailer.object_crc32 as nat, 4);
    let p4 = be_bytes(TRAILER_MAGIC as nat, 8);
    lemma_be_round_trip(trailer.footer_offset as nat, 8);
    lemma_be_round_trip(trailer.footer_len as nat, 8);
    lemma_be_round_trip(trailer.footer_crc32 as nat, 4);
    lemma_be_round_trip(trailer.object_crc32 as nat, 4);
    lemma_be_round_trip(TRAILER_MAGIC as nat, 8);
    assert(bytes =~= Seq::empty() + p0 + (p1 + p2 + p3 + p4));
    lemma_field_written(Seq::empty(), trailer.footer_offset as nat, 8, p1 + p2 + p3 + p4);
    assert(bytes =~= p0 + p1 + (p2 + p3 + p4));
    lemma_field_written(p0, trailer.footer_len as nat, 8, p2 + p3 + p4);
    assert(bytes =~= (p0 + p1) + p2 + (p3 + p4));
    lemma_field_written(p0 + p1, trailer.footer_crc32 as nat, 4, p3 + p4);
    assert(bytes =~= (p0 + p1 + p2) + p3 + p4);
    lemma_field_written(p0 + p1 + p2, trailer.object_crc32 as nat, 4, p4);
    assert(bytes =~= (p0 + p1 + p2 + p3) + p4 + Seq::empty());
    lemma_field_written(p0 + p1 + p2 + p3, TRAILER_MAGIC as nat, 8, Seq::empty());
}

/// A footer entry reads back as written.
proof fn lemma_footer_entry_round_trip(entry: FooterEntry)
    ensures
        footer_entry_bytes(entry).len() == FOOTER_ENTRY_LEN,
        footer_entry_at(footer_entry_bytes(entry), 0) == entry,
{
    lemma_pow256();
    let bytes = footer_entry_bytes(entry);
    let p0 = be_bytes(entry.region_id.0 as nat, 8);
    let p1 = be_bytes(entry.min_entry_id as nat, 8);
    let p2 = be_bytes(entry.max_entry_id as nat, 8);
    let p3 = be_bytes(entry.entry_count as nat, 4);
    let p4 = be_bytes(entry.segment_offset as nat, 8);
    let p5 = be_bytes(entry.segment_len as nat, 8);
    let p6 = be_bytes(entry.segment_crc32 as nat, 4);
    lemma_be_round_trip(entry.region_id.0 as nat, 8);
    lemma_be_round_trip(entry.min_entry_id as nat, 8);
    lemma_be_round_trip(entry.max_entry_id as nat, 8);
    lemma_be_round_trip(entry.entry_count as nat, 4);
    lemma_be_round_trip(entry.segment_offset as nat, 8);
    lemma_be_round_trip(entry.segment_len as nat, 8);
    lemma_be_round_trip(entry.segment_crc32 as nat, 4);
    assert(bytes =~= Seq::empty() + p0 + (p1 + p2 + p3 + p4 + p5 + p6));
    lemma_field_written(Seq::empty(), entry.region_id.0 as nat, 8, p1 + p2 + p3 + p4 + p5 + p6);
    assert(bytes =~= p0 + p1 + (p2 + p3 + p4 + p5 + p6));
    lemma_field_written(p0, entry.min_entry_id as nat, 8, p2 + p3 + p4 + p5 + p6);
    assert(bytes =~= (p0 + p1) + p2 + (p3 + p4 + p5 + p6));
    lemma_field_written(p0 + p1, entry.max_entry_id as nat, 8, p3 + p4 + p5 + p6);
    assert(bytes =~= (p0 + p1 + p2) + p3 + (p4 + p5 + p6));
    lemma_field_written(p0 + p1 + p2, entry.entry_count as nat, 4, p4 + p5 + p6);
    assert(bytes =~= (p0 + p1 + p2 + p3) + p4 + (p5 + p6));
    lemma_field_written(p0 + p1 + p2 + p3, entry.segment_offset as nat, 8, p5 + p6);
    assert(bytes =~= (p0 + p1 + p2 + p3 + p4) + p5 + p6);
    lemma_field_written(p0 + p1 + p2 + p3 + p4, entry.segment_len as nat, 8, p6);
    assert(bytes =~= (p0 + p1 + p2 + p3 + p4 + p5) + p6 + Seq::empty());
    lemma_field_written(
        p0 + p1 + p2 + p3 + p4 + p5,
        entry.segment_crc32 as nat,
        4,
        Seq::empty(),
    );
}

/// The bytes of the footer entry at place `i` among all of them.
proof fn lemma_footer_entries_part(footer: Seq<FooterEntry>, i: int)
    requires
        0 <= i < footer.len(),
    ensures
        footer_entries_bytes(footer).len() == footer.len() * FOOTER_ENTRY_LEN,
        footer_entries_bytes(footer).subrange(i * FOOTER_ENTRY_LEN, (i + 1) * FOOTER_ENTRY_LEN)
            == footer_entry_bytes(footer[i]),
    decreases footer.len(),
{
    let rest = footer.drop_last();
    lemma_footer_entries_len(rest);
    lemma_footer_entry_round_trip(footer.last());
    let bytes = footer_entries_bytes(footer);
    if i == footer.len() - 1 {
        assert(bytes.subrange(i * FOOTER_ENTRY_LEN, (i + 1) * FOOTER_ENTRY_LEN)
            =~= footer_entry_bytes(footer[i]));
    } else {
        lemma_footer_entries_part(rest, i);
        assert(bytes.subrange(i * FOOTER_ENTRY_LEN, (i + 1) * FOOTER_ENTRY_LEN)
            =~= footer_entries_bytes(rest).subrange(
            i * FOOTER_ENTRY_LEN,
            (i + 1) * FOOTER_ENTRY_LEN,
        ));
    }
}

proof fn lemma_footer_entries_len(footer: Seq<FooterEntry>)
    ensures
        footer_entries_bytes(footer).len() == footer.len() * FOOTER_ENTRY_LEN,
    decreases footer.len(),
{
    if footer.len() > 0 {
        lemma_footer_entries_len(footer.drop_last());
        lemma_footer_entry_round_trip(footer.last());
    }
}

/// A footer reads back as written under a trailer that carries its checksum.
pub proof fn lemma_footer_round_trip(footer: Seq<FooterEntry>, trailer: FixedTrailer)
    requires
        footer.len() < COUNT_LIMIT,
        trailer.footer_crc32 == crc32_of(footer_bytes(footer)),
    ensures
        footer_bytes(footer).len() == FOOTER_HEAD_LEN + footer.len() * FOOTER_ENTRY_LEN,
        footer_in(footer_bytes(footer), trailer) == Ok::<Seq<FooterEntry>, Corruption>(footer),
{
    lemma_pow256();
    let bytes = footer_bytes(footer);
    let entries = footer_entries_bytes(footer);
    lemma_be_round_trip(footer.len(), 4);
    lemma_footer_entries_len(footer);
    assert(bytes =~= Seq::empty() + be_bytes(footer.len(), 4) + entries);
    lemma_field_written(Seq::empty(), footer.len(), 4, entries);
    let read = Seq::new(
        footer.len(),
        |i: int| footer_entry_at(bytes, FOOTER_HEAD_LEN + i * FOOTER_ENTRY_LEN),
    );
    assert forall|i: int| 0 <= i < footer.len() implies #[trigger] read[i] == footer[i] by {
        let start = FOOTER_HEAD_LEN + i * FOOTER_ENTRY_LEN;
        let end = start + FOOTER_ENTRY_LEN;
        lemma_footer_entries_part(footer, i);
        lemma_footer_entry_round_trip(footer[i]);
        assert(end <= bytes.len());
        assert(bytes.subrange(start, end) =~= entries.subrange(
            i * FOOTER_ENTRY_LEN,
            (i + 1) * FOOTER_ENTRY_LEN,
        ));
        lemma_field_of_part(bytes, start, end, 0, 8);
        lemma_field_of_part(bytes, start, end, 8, 8);
        lemma_field_of_part(bytes, start, end, 16, 8);
        lemma_field_of_part(bytes, start, end, 24, 4);
        lemma_field_of_part(bytes, start, end, 28, 8);
        lemma_field_of_part(bytes, start, end, 36, 8);
        lemma_field_of_part(bytes, start, end, 44, 4);
    }
    assert(read =~= footer);
}

pub(crate) proof fn lemma_segment_split(records: Seq<RecordModel>)
    requires
        records.len() > 0,
    ensures
        segment_bytes(records) == record_bytes(records[0]) + segment_bytes(records.drop_first()),
    decreases records.len(),
{
    if records.len() == 1 {
        assert(records.drop_last() =~= Seq::empty());
        assert(records.drop_first() =~= Seq::empty());
        assert(segment_bytes(records) =~= record_bytes(records[0]) + segment_bytes(
            records.drop_first(),
        ));
    } else {
        let front = records.drop_last();
        lemma_segment_split(front);
        assert(front.drop_first() =~= records.drop_first().drop_last());
        assert(records.drop_first().last() == records.last());
        assert(segment_bytes(records) =~= record_bytes(records[0]) + segment_bytes(
            records.drop_first(),
        ));
    }
}

/// The records of a segment read back as written.
pub proof fn lemma_records_round_trip(before: Seq<u8>, records: Seq<RecordModel>, region: u64)
    requires
        forall|i: int|
            0 <= i < records.len() ==> (#[trigger] records[i]).region == region
                && records[i].payload.len() < COUNT_LIMIT,
    ensures
        records_from(before + segment_bytes(records), region, before.len() as int) == Some(
            records,
        ),
    decreases records.len(),
{
    let bytes = before + segment_bytes(records);
    let at = before.len() as int;
    if records.len() == 0 {
        assert(bytes.len() == at);
        assert(records =~= Seq::empty());
    } else {
        lemma_segment_split(records);
        lemma_pow256();
        let record = records[0];
        let rest = records.drop_first();
        let p0 = be_bytes(record.entry_id as nat, 8);
        let p1 = be_bytes(record.payload.len(), 4);
        lemma_be_round_trip(record.entry_id as nat, 8);
        lemma_be_round_trip(record.payload.len(), 4);
        let tail = segment_bytes(rest);
        assert(bytes =~= before + p0 + (p1 + record.payload + tail));
        lemma_field_written(before, record.entry_id as nat, 8, p1 + record.payload + tail);
        assert(bytes =~= (before + p0) + p1 + (record.payload + tail));
        lemma_field_written(before + p0, record.payload.len(), 4, record.payload + tail);
        let next = before + record_bytes(record);
        assert(bytes =~= next + tail);
        assert forall|i: int| 0 <= i < rest.len() implies (#[trigger] rest[i]).region == region
            && rest[i].payload.len() < COUNT_LIMIT by {
            assert(records[i + 1].region == region);
        }
        lemma_records_round_trip(next, rest, region);
        let start = at + RECORD_HEAD_LEN;
        assert(bytes.subrange(start, start + record.payload.len()) =~= record.payload);
        assert(seq![record] + rest =~= records);
    }
}

/// The sum of the lengths of the segments before place `i` grows with `i`.
proof fn lemma_body_part(groups: Map<u64, Seq<RecordModel>>, i: int, n: int)
    requires
        0 <= i < n <= ordered_keys(groups).len(),
    ensures
        body_bytes(groups, i).len() + segment_bytes(groups[ordered_keys(groups)[i]]).len()
            <= body_bytes(groups, n).len(),
        body_bytes(groups, n).subrange(
            body_bytes(groups, i).len() as int,
            (body_bytes(groups, i).len() + segment_bytes(
                groups[ordered_keys(groups)[i]],
            ).len()) as int,
        ) == segment_bytes(groups[ordered_keys(groups)[i]]),
    decreases n,
{
    let start = body_bytes(groups, i).len() as int;
    let segment = segment_bytes(groups[ordered_keys(groups)[i]]);
    if i == n - 1 {
        assert(body_bytes(groups, n).subrange(start, (start + segment.len()) as int) =~= segment);
    } else {
        lemma_body_part(groups, i, n - 1);
        assert(body_bytes(groups, n).subrange(start, (start + segment.len()) as int)
            =~= body_bytes(groups, n - 1).subrange(start, (start + segment.len()) as int));
    }
}

proof fn lemma_tiles(groups: Map<u64, Seq<RecordModel>>, i: int, footer_start: int)
    requires
        0 <= i <= ordered_keys(groups).len(),
        footer_start == HEADER_LEN + body_bytes(groups, ordered_keys(groups).len() as int).len(),
        footer_start <= u64::MAX,
    ensures
        tiling_fault(
            footer_of(groups),
            i,
            (HEADER_LEN + body_bytes(groups, i).len()) as u64,
            footer_start,
        ) is None,
    decreases ordered_keys(groups).len() - i,
{
    let n = ordered_keys(groups).len() as int;
    if i < n {
        lemma_body_part(groups, i, n);
        lemma_tiles(groups, i + 1, footer_start);
    }
}

/// What is read of an object is what was written to it. From the bytes that records were written
/// as, the header, the trailer, the footer and every segment read back as written: the segment of
/// a region gives exactly the records of that region, in the order of their entry ids, without
/// the bytes of any other region.
pub proof fn lemma_object_round_trip(header: Header, records: Seq<RecordModel>)
    requires
        unencodable(records) is None,
        object_bytes(header, grouped(records)).len() <= usize::MAX,
    ensures
        ({
            let groups = grouped(records);
            let keys = ordered_keys(groups);
            let bytes = object_bytes(header, groups);
            let trailer = trailer_of(header, groups);
            let footer = footer_of(groups);
            &&& bytes.len() >= MIN_OBJECT_LEN
            &&& header_in(bytes) == Ok::<Header, Corruption>(header)
            &&& trailer_in(bytes.subrange(bytes.len() - TRAILER_LEN, bytes.len() as int)) == Ok::<
                FixedTrailer,
                Corruption,
            >(trailer)
            &&& footer_range_of(trailer, bytes.len() as int) matches Ok(range) && footer_in(
                bytes.subrange(range.start as int, range.end as int),
                trailer,
            ) == Ok::<Seq<FooterEntry>, Corruption>(footer) && tiling_fault(
                footer,
                0,
                HEADER_LEN as u64,
                range.start as int,
            ) is None
            &&& crc32_of(bytes.subrange(0, bytes.len() - TRAILER_LEN)) == trailer.object_crc32
            &&& footer.len() == keys.len()
            &&& forall|i: int|
                0 <= i < keys.len() ==> {
                    let entry = #[trigger] footer[i];
                    &&& entry.region_id.0 == keys[i]
                    &&& entry.segment_offset + entry.segment_len <= bytes.len()
                    &&& segment_in(
                        bytes.subrange(
                            entry.segment_offset as int,
                            entry.segment_offset + entry.segment_len,
                        ),
                        entry,
                    ) == Ok::<Seq<RecordModel>, Corruption>(groups[keys[i]])
                }
        }),
{
    let groups = grouped(records);
    let keys = ordered_keys(groups);
    let bytes = object_bytes(header, groups);
    let trailer = trailer_of(header, groups);
    let footer = footer_of(groups);
    let front = front_bytes(header, groups);
    let tail = footer_bytes(footer);
    let body = body_bytes(groups, keys.len() as int);
    lemma_grouped(records);
    lemma_lists_keys(groups);
    lemma_header_len(header);
    lemma_footer_entries_len(footer);
    lemma_be_round_trip(footer.len(), 4);
    lemma_trailer_round_trip(trailer);
    assert(bytes =~= header_bytes(header) + (body + tail + trailer_bytes(trailer)));
    lemma_header_round_trip(header, body + tail + trailer_bytes(trailer));
    assert(bytes.subrange(bytes.len() - TRAILER_LEN, bytes.len() as int) =~= trailer_bytes(
        trailer,
    ));
    assert(bytes.subrange(0, bytes.len() - TRAILER_LEN) =~= front + tail);
    assert(bytes.subrange(front.len() as int, (front.len() + tail.len()) as int) =~= tail);
    lemma_footer_round_trip(footer, trailer);
    lemma_tiles(groups, 0, front.len() as int);
    assert forall|i: int| 0 <= i < keys.len() implies {
        let entry = #[trigger] footer[i];
        &&& entry.region_id.0 == keys[i]
        &&& entry.segment_offset + entry.segment_len <= bytes.len()
        &&& segment_in(
            bytes.subrange(
                entry.segment_offset as int,
                entry.segment_offset + entry.segment_len,
            ),
            entry,
        ) == Ok::<Seq<RecordModel>, Corruption>(groups[keys[i]])
    } by {
        lemma_segment_round_trip(header, records, i);
    }
}

/// The segment at place `i` of an object reads back as written.
pub proof fn lemma_segment_round_trip(header: Header, records: Seq<RecordModel>, i: int)
    requires
        unencodable(records) is None,
        object_bytes(header, grouped(records)).len() <= usize::MAX,
        0 <= i < ordered_keys(grouped(records)).len(),
    ensures
        ({
            let groups = grouped(records);
            let bytes = object_bytes(header, groups);
            let entry = footer_of(groups)[i];
            &&& entry.region_id.0 == ordered_keys(groups)[i]
            &&& entry.segment_offset + entry.segment_len <= bytes.len()
            &&& segment_in(
                bytes.subrange(
                    entry.segment_offset as int,
                    entry.segment_offset + entry.segment_len,
                ),
                entry,
            ) == Ok::<Seq<RecordModel>, Corruption>(groups[ordered_keys(groups)[i]])
        }),
{
    let groups = grouped(records);
    let keys = ordered_keys(groups);
    let bytes = object_bytes(header, groups);
    let entry = footer_of(groups)[i];
    let body = body_bytes(groups, keys.len() as int);
    lemma_grouped(records);
    lemma_lists_keys(groups);
    lemma_header_len(header);
    let region = keys[i];
    let group = groups[region];
    let segment = segment_bytes(group);
    assert(keys.contains(region));
    assert(groups.contains_key(region));
    lemma_body_part(groups, i, keys.len() as int);
    let start = body_bytes(groups, i).len() as int;
    let end = (start + segment.len()) as int;
    assert(entry.segment_offset == HEADER_LEN + start);
    assert(entry.segment_len == segment.len());
    assert(bytes.subrange(HEADER_LEN + start, HEADER_LEN + end) =~= body.subrange(start, end));
    assert forall|k: int| 0 <= k < group.len() implies (#[trigger] group[k]).region == region
        && group[k].payload.len() < COUNT_LIMIT by {
        assert(groups[region][k].region == region);
        assert(groups[region][k].payload.len() < COUNT_LIMIT);
    }
    lemma_records_round_trip(Seq::empty(), group, region);
    assert(Seq::<u8>::empty() + segment =~= segment);
    assert(group.len() < COUNT_LIMIT);
    assert(describes(entry, group));
}

/// Two groups with increasing ids and the same records are equal.
proof fn lemma_group_is_unique(a: Seq<RecordModel>, b: Seq<RecordModel>)
    requires
        ids_increase(a),
        ids_increase(b),
        forall|x: RecordModel| #[trigger] a.contains(x) <==> b.contains(x),
    ensures
        a == b,
    decreases a.len(),
{
    if a.len() == 0 {
        if b.len() > 0 {
            assert(b.contains(b[0]));
            assert(a.contains(b[0]));
        }
        assert(a =~= b);
    } else {
        assert(a.contains(a[a.len() - 1]));
        assert(b.contains(a.last()));
        let in_b = b.index_of(a.last());
        assert(b[in_b] == a.last());
        assert(b.contains(b[b.len() - 1]));
        assert(a.contains(b.last()));
        let in_a = a.index_of(b.last());
        assert(a[in_a] == b.last());
        assert(a.last() == b.last()) by {
            if in_b < b.len() - 1 {
                assert(b[in_b].entry_id < b[b.len() - 1].entry_id);
                if in_a < a.len() - 1 {
                    assert(a[in_a].entry_id < a[a.len() - 1].entry_id);
                }
            }
        }
        let a0 = a.drop_last();
        let b0 = b.drop_last();
        assert(ids_increase(a0)) by {
            assert forall|i: int, j: int| 0 <= i < j < a0.len() implies (#[trigger] a0[i]).entry_id
                < (#[trigger] a0[j]).entry_id by {
                assert(a[i].entry_id < a[j].entry_id);
            }
        }
        assert(ids_increase(b0)) by {
            assert forall|i: int, j: int| 0 <= i < j < b0.len() implies (#[trigger] b0[i]).entry_id
                < (#[trigger] b0[j]).entry_id by {
                assert(b[i].entry_id < b[j].entry_id);
            }
        }
        assert forall|x: RecordModel| #[trigger] a0.contains(x) <==> b0.contains(x) by {
            if a0.contains(x) {
                let i = a0.index_of(x);
                assert(a[i] == x);
                assert(a[i].entry_id < a[a.len() - 1].entry_id);
                assert(a.contains(x));
                let j = b.index_of(x);
                assert(b[j] == x);
                assert(b0[j] == x);
            }
            if b0.contains(x) {
                let i = b0.index_of(x);
                assert(b[i] == x);
                assert(b[i].entry_id < b[b.len() - 1].entry_id);
                assert(b.contains(x));
                assert(a.contains(x));
                let j = a.index_of(x);
                assert(a[j] == x);
                assert(a0[j] == x);
            }
        }
        lemma_group_is_unique(a0, b0);
        assert(a =~= a0.push(a.last()));
        assert(b =~= b0.push(b.last()));
    }
}

/// The encoding is deterministic: the same records under the same header are written as the same
/// bytes, in whatever order they are given.
pub proof fn lemma_encoding_ignores_order(
    header: Header,
    a: Seq<RecordModel>,
    b: Seq<RecordModel>,
)
    requires
        repeated(a) is None,
        repeated(b) is None,
        forall|x: RecordModel| #[trigger] a.contains(x) <==> b.contains(x),
    ensures
        grouped(a) == grouped(b),
        object_bytes(header, grouped(a)) == object_bytes(header, grouped(b)),
{
    lemma_grouped(a);
    lemma_grouped(b);
    let left = grouped(a);
    let right = grouped(b);
    assert forall|region: u64| left.contains_key(region) implies right.contains_key(
        region,
    ) && #[trigger] left[region] == right[region] by {
        let first = left[region][0];
        assert(left[region].contains(first));
        assert(first.region == region);
        assert(a.contains(first));
        assert(b.contains(first));
        assert(right.contains_key(region));
        assert forall|x: RecordModel| #[trigger] left[region].contains(x) <==> right[
            region
        ].contains(x) by {
            if left[region].contains(x) {
                let i = left[region].index_of(x);
                assert(left[region][i].region == region);
                assert(a.contains(x));
                assert(b.contains(x));
            }
            if right[region].contains(x) {
                let i = right[region].index_of(x);
                assert(right[region][i].region == region);
                assert(b.contains(x));
                assert(a.contains(x));
            }
        }
        lemma_group_is_unique(left[region], right[region]);
    }
    assert forall|region: u64| #[trigger] right.contains_key(region) implies left.contains_key(
        region,
    ) by {
        let first = right[region][0];
        assert(right[region].contains(first));
        assert(first.region == region);
        assert(b.contains(first));
        assert(a.contains(first));
    }
    assert(left =~= right);
}

// ---------------------------------------------------------------------------------------------
// Reading whole objects.
// ---------------------------------------------------------------------------------------------
/// The records of the first `n` segments of an object.
pub open spec fn records_in(bytes: Seq<u8>, footer: Seq<FooterEntry>, n: int) -> Result<
    Seq<RecordModel>,
    Corruption,
>
    decreases n,
{
    if n <= 0 {
        Ok(Seq::empty())
    } else {
        match records_in(bytes, footer, n - 1) {
            Err(reason) => Err(reason),
            Ok(records) => {
                let entry = footer[n - 1];
                match segment_in(
                    bytes.subrange(
                        entry.segment_offset as int,
                        entry.segment_offset + entry.segment_len,
                    ),
                    entry,
                ) {
                    Err(reason) => Err(reason),
                    Ok(segment) => Ok(records + segment),
                }
            },
        }
    }
}

/// What an object holds, once every checksum and every length is seen to be right.
pub open spec fn object_in(bytes: Seq<u8>) -> Result<
    (Header, Seq<FooterEntry>, Seq<RecordModel>),
    Corruption,
> {
    if bytes.len() < MIN_OBJECT_LEN {
        Err(
            Corruption::TruncatedObject {
                expected: MIN_OBJECT_LEN as u64,
                actual: bytes.len() as u64,
            },
        )
    } else {
        match header_in(bytes) {
            Err(reason) => Err(reason),
            Ok(header) => match trailer_in(
                bytes.subrange(bytes.len() - TRAILER_LEN, bytes.len() as int),
            ) {
                Err(reason) => Err(reason),
                Ok(trailer) => match footer_range_of(trailer, bytes.len() as int) {
                    Err(reason) => Err(reason),
                    Ok(range) => match footer_in(
                        bytes.subrange(range.start as int, range.end as int),
                        trailer,
                    ) {
                        Err(reason) => Err(reason),
                        Ok(footer) => if let Some(reason) = tiling_fault(
                            footer,
                            0,
                            HEADER_LEN as u64,
                            range.start as int,
                        ) {
                            Err(reason)
                        } else {
                            match records_in(bytes, footer, footer.len() as int) {
                                Err(reason) => Err(reason),
                                Ok(records) => if crc32_of(
                                    bytes.subrange(0, bytes.len() - TRAILER_LEN),
                                ) != trailer.object_crc32 {
                                    Err(Corruption::ObjectChecksum)
                                } else {
                                    Ok((header, footer, records))
                                },
                            }
                        },
                    },
                },
            },
        }
    }
}

/// Segments that tile an object lie within it.
proof fn lemma_tiles_within(footer: Seq<FooterEntry>, i: int, expected: u64, footer_start: int)
    requires
        0 <= i <= footer.len(),
        tiling_fault(footer, i, expected, footer_start) is None,
    ensures
        forall|k: int|
            i <= k < footer.len() ==> (#[trigger] footer[k]).segment_offset + footer[k].segment_len
                <= footer_start,
    decreases footer.len() - i,
{
    if i < footer.len() {
        lemma_tiles_within(
            footer,
            i + 1,
            (footer[i].segment_offset + footer[i].segment_len) as u64,
            footer_start,
        );
    }
}

proof fn lemma_records_fault(bytes: Seq<u8>, footer: Seq<FooterEntry>, n: int, m: int)
    requires
        0 <= n <= m,
        records_in(bytes, footer, n) is Err,
    ensures
        records_in(bytes, footer, m) == records_in(bytes, footer, n),
    decreases m - n,
{
    if n < m {
        lemma_records_fault(bytes, footer, n, m - 1);
    }
}

/// Reads the records of all segments of an object.
fn decode_segments(bytes: &[u8], footer: &Vec<FooterEntry>) -> (result: Result<
    Vec<Record>,
    Corruption,
>)
    requires
        forall|k: int|
            0 <= k < footer@.len() ==> (#[trigger] footer@[k]).segment_offset
                + footer@[k].segment_len <= bytes@.len(),
    ensures
        match records_in(bytes@, footer@, footer@.len() as int) {
            Ok(records) => result matches Ok(decoded) && record_models(decoded@) == records,
            Err(reason) => result == Err::<Vec<Record>, Corruption>(reason),
        },
{
    let len: usize = bytes.len();
    let mut records: Vec<Record> = Vec::new();
    let n: usize = footer.len();
    let mut i: usize = 0;
    assert(record_models(records@) =~= Seq::empty());
    while i < n
        invariant
            len == bytes@.len(),
            n == footer@.len(),
            i <= n,
            forall|k: int|
                0 <= k < footer@.len() ==> (#[trigger] footer@[k]).segment_offset
                    + footer@[k].segment_len <= bytes@.len(),
            records_in(bytes@, footer@, i as int) == Ok::<Seq<RecordModel>, Corruption>(
                record_models(records@),
            ),
        decreases n - i,
    {
        let entry = footer[i];
        assert(footer@[i as int].segment_offset + footer@[i as int].segment_len <= len);
        let start: usize = entry.segment_offset as usize;
        let end: usize = start + entry.segment_len as usize;
        let mut segment = match decode_segment(
            vstd::slice::slice_subrange(bytes, start, end),
            &entry,
        ) {
            Ok(segment) => segment,
            Err(reason) => {
                proof {
                    lemma_records_fault(bytes@, footer@, i + 1, n as int);
                }
                return Err(reason);
            },
        };
        let ghost before = records@;
        let ghost more = segment@;
        records.append(&mut segment);
        assert(record_models(records@) =~= record_models(before) + record_models(more));
        i = i + 1;
    }
    Ok(records)
}

/// Reads a whole object and verifies all of it: the header, the trailer, the footer, that the
/// segments tile the body, every segment checksum and the checksum of the object.
pub fn decode_object(bytes: &[u8]) -> (result: Result<DecodedObject, Corruption>)
    ensures
        match object_in(bytes@) {
            Ok((header, footer, records)) => result matches Ok(object) && object.header == header
                && object.footer@ == footer && record_models(object.records@) == records,
            Err(reason) => result matches Err(failed) && failed == reason,
        },
{
    let len: usize = bytes.len();
    if len < MIN_OBJECT_LEN {
        return Err(
            Corruption::TruncatedObject { expected: MIN_OBJECT_LEN as u64, actual: len as u64 },
        );
    }
    let header = match decode_header(bytes) {
        Ok(header) => header,
        Err(reason) => {
            return Err(reason);
        },
    };
    let trailer = match decode_trailer(
        vstd::slice::slice_subrange(bytes, len - TRAILER_LEN, len),
    ) {
        Ok(trailer) => trailer,
        Err(reason) => {
            return Err(reason);
        },
    };
    let range = match footer_range(trailer, len) {
        Ok(range) => range,
        Err(reason) => {
            return Err(reason);
        },
    };
    let footer = match decode_footer(
        vstd::slice::slice_subrange(bytes, range.start, range.end),
        trailer,
    ) {
        Ok(footer) => footer,
        Err(reason) => {
            return Err(reason);
        },
    };
    if let Err(reason) = verify_segment_ranges(&footer, range.start) {
        return Err(reason);
    }
    proof {
        lemma_tiles_within(footer@, 0, HEADER_LEN as u64, range.start as int);
        assert forall|k: int| 0 <= k < footer@.len() implies (
        #[trigger] footer@[k]).segment_offset + footer@[k].segment_len <= bytes@.len() by {}
    }
    let records = match decode_segments(bytes, &footer) {
        Ok(records) => records,
        Err(reason) => {
            return Err(reason);
        },
    };
    if crc32(vstd::slice::slice_subrange(bytes, 0, len - TRAILER_LEN)) != trailer.object_crc32 {
        return Err(Corruption::ObjectChecksum);
    }
    Ok(DecodedObject { header, footer, records })
}

/// The records of the first `n` groups, region by region.
pub open spec fn flattened(groups: Map<u64, Seq<RecordModel>>, n: int) -> Seq<RecordModel>
    decreases n,
{
    if n <= 0 {
        Seq::empty()
    } else {
        flattened(groups, n - 1) + groups[ordered_keys(groups)[n - 1]]
    }
}

/// A whole object reads back as written: the header, the footer, and the records region by region
/// and in the order of their entry ids.
pub proof fn lemma_whole_object_round_trip(header: Header, records: Seq<RecordModel>)
    requires
        unencodable(records) is None,
        object_bytes(header, grouped(records)).len() <= usize::MAX,
    ensures
        object_in(object_bytes(header, grouped(records))) == Ok::<
            (Header, Seq<FooterEntry>, Seq<RecordModel>),
            Corruption,
        >(
            (
                header,
                footer_of(grouped(records)),
                flattened(grouped(records), ordered_keys(grouped(records)).len() as int),
            ),
        ),
{
    lemma_object_round_trip(header, records);
    lemma_records_written(header, records, ordered_keys(grouped(records)).len() as int);
}

proof fn lemma_records_written(header: Header, records: Seq<RecordModel>, n: int)
    requires
        unencodable(records) is None,
        object_bytes(header, grouped(records)).len() <= usize::MAX,
        0 <= n <= ordered_keys(grouped(records)).len(),
    ensures
        records_in(
            object_bytes(header, grouped(records)),
            footer_of(grouped(records)),
            n,
        ) == Ok::<Seq<RecordModel>, Corruption>(flattened(grouped(records), n)),
    decreases n,
{
    if n > 0 {
        lemma_records_written(header, records, n - 1);
        lemma_segment_round_trip(header, records, n - 1);
    }
}

} // verus!
