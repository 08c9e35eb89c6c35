//! Where each number lies in the bytes of an object, and which bytes are refused.
use vstd::prelude::*;

use crate::codec::{
    be_bytes, be_value, field, lemma_be_round_trip, lemma_be_value_bound, lemma_pow256,
};
use crate::crc::crc32_of;
use crate::error::Corruption;
use crate::format::{
    footer_bytes, footer_entry_at, footer_given, footer_in, footer_of, footer_range_of, front_bytes,
    header_bytes, header_in, lemma_header_len, lemma_header_round_trip, lemma_records_round_trip,
    lemma_segment_split, lemma_trailer_round_trip, object_bytes, object_in, record_bytes,
    records_from, segment_bytes, segment_given, segment_in, tiling_fault, trailer_bytes, trailer_in,
    trailer_of, FixedTrailer, FooterEntry, Header, RecordModel,
};
use crate::recovery::{first_step, object_footer, FetchPlan, ListedObject};

verus! {

/// The number that two bytes spell, the most significant first.
pub open spec fn number2(bytes: Seq<u8>, at: int) -> nat {
    bytes[at] as nat * 256 + bytes[at + 1] as nat
}

/// The number that four bytes spell, the most significant first.
pub open spec fn number4(bytes: Seq<u8>, at: int) -> nat {
    bytes[at] as nat * 16_777_216 + bytes[at + 1] as nat * 65_536 + bytes[at + 2] as nat * 256
        + bytes[at + 3] as nat
}

/// The number that eight bytes spell, the most significant first.
pub open spec fn number8(bytes: Seq<u8>, at: int) -> nat {
    number4(bytes, at) * 4_294_967_296 + number4(bytes, at + 4)
}

proof fn lemma_value_of_parts(bytes: Seq<u8>)
    requires
        bytes.len() > 0,
    ensures
        be_value(bytes) == be_value(bytes.drop_last()) * 256 + bytes.last() as nat,
{
}

/// A field of an object is the number that its bytes spell.
pub proof fn lemma_fields_are_numbers(bytes: Seq<u8>, at: int)
    requires
        0 <= at,
    ensures
        at + 2 <= bytes.len() ==> field(bytes, at, 2) == number2(bytes, at),
        at + 4 <= bytes.len() ==> field(bytes, at, 4) == number4(bytes, at),
        at + 8 <= bytes.len() ==> field(bytes, at, 8) == number8(bytes, at),
{
    let n = bytes.len() - at;
    assert forall|k: int| 0 <= k < n && k < 8 implies #[trigger] be_value(
        bytes.subrange(at, at + k + 1),
    ) == be_value(bytes.subrange(at, at + k)) * 256 + bytes[at + k] as nat by {
        let part = bytes.subrange(at, at + k + 1);
        assert(part.drop_last() =~= bytes.subrange(at, at + k));
        lemma_value_of_parts(part);
    }
    if n >= 2 {
        assert(be_value(bytes.subrange(at, at)) == 0);
        assert(be_value(bytes.subrange(at, at + 0 + 1)) == bytes[at] as nat);
        assert(be_value(bytes.subrange(at, at + 1 + 1)) == number2(bytes, at));
    }
    if n >= 4 {
        assert(be_value(bytes.subrange(at, at + 2 + 1)) == number2(bytes, at) * 256 + bytes[at
            + 2] as nat);
        assert(be_value(bytes.subrange(at, at + 3 + 1)) == number4(bytes, at));
    }
    if n >= 8 {
        let a = number4(bytes, at);
        assert(be_value(bytes.subrange(at, at + 4 + 1)) == a * 256 + bytes[at + 4] as nat);
        assert(be_value(bytes.subrange(at, at + 5 + 1)) == (a * 256 + bytes[at + 4] as nat) * 256
            + bytes[at + 5] as nat);
        assert(be_value(bytes.subrange(at, at + 6 + 1)) == ((a * 256 + bytes[at + 4] as nat) * 256
            + bytes[at + 5] as nat) * 256 + bytes[at + 6] as nat);
        assert(be_value(bytes.subrange(at, at + 7 + 1)) == number8(bytes, at));
    }
}

/// A header is accepted exactly when there are thirty-four bytes of it that start with the magic
/// and the first version. Then it says the sequence and the writer that follow.
pub proof fn lemma_header_is_accepted(bytes: Seq<u8>)
    ensures
        header_in(bytes) is Ok <==> bytes.len() >= 34 && number8(bytes, 0)
            == 0x4754_5741_4C4F_424A && number2(bytes, 8) == 1,
        header_in(bytes) matches Ok(header) ==> header.object_seq == number8(bytes, 10)
            && header.writer_instance == number8(bytes, 18) * 0x1_0000_0000_0000_0000 + number8(
            bytes,
            26,
        ),
        header_in(bytes) matches Err(reason) ==> {
            &&& reason is TruncatedObject <==> bytes.len() < 34
            &&& reason is InvalidHeaderMagic <==> bytes.len() >= 34 && number8(bytes, 0)
                != 0x4754_5741_4C4F_424A
            &&& reason is UnsupportedVersion <==> bytes.len() >= 34 && number8(bytes, 0)
                == 0x4754_5741_4C4F_424A && number2(bytes, 8) != 1
        },
{
    lemma_pow256();
    if bytes.len() >= 34 {
        lemma_fields_are_numbers(bytes, 0);
        lemma_fields_are_numbers(bytes, 8);
        lemma_fields_are_numbers(bytes, 10);
        lemma_fields_are_numbers(bytes, 18);
        lemma_fields_are_numbers(bytes, 26);
    }
}

/// The bytes of a header: thirty-four, with the magic, the version, the sequence and the writer at
/// their places.
pub proof fn lemma_header_layout(header: Header)
    ensures
        header_bytes(header).len() == 34,
        number8(header_bytes(header), 0) == 0x4754_5741_4C4F_424A,
        number2(header_bytes(header), 8) == 1,
        number8(header_bytes(header), 10) == header.object_seq,
        number8(header_bytes(header), 18) * 0x1_0000_0000_0000_0000 + number8(
            header_bytes(header),
            26,
        ) == header.writer_instance,
{
    let bytes = header_bytes(header);
    lemma_header_len(header);
    lemma_header_round_trip(header, Seq::empty());
    assert(bytes + Seq::empty() =~= bytes);
    lemma_header_is_accepted(bytes);
}

/// A trailer is accepted exactly when it has thirty-two bytes that end with the magic. Then it
/// says where the footer starts, how long it is, and the two checksums.
pub proof fn lemma_trailer_is_accepted(bytes: Seq<u8>)
    ensures
        trailer_in(bytes) is Ok <==> bytes.len() == 32 && number8(bytes, 24)
            == 0x4754_5741_4C54_524C,
        trailer_in(bytes) matches Ok(trailer) ==> {
            &&& trailer.footer_offset == number8(bytes, 0)
            &&& trailer.footer_len == number8(bytes, 8)
            &&& trailer.footer_crc32 == number4(bytes, 16)
            &&& trailer.object_crc32 == number4(bytes, 20)
        },
        trailer_in(bytes) matches Err(reason) ==> {
            &&& reason is TruncatedObject <==> bytes.len() != 32
            &&& reason is InvalidTrailerMagic <==> bytes.len() == 32
        },
{
    if bytes.len() == 32 {
        lemma_fields_are_numbers(bytes, 0);
        lemma_fields_are_numbers(bytes, 8);
        lemma_fields_are_numbers(bytes, 16);
        lemma_fields_are_numbers(bytes, 20);
        lemma_fields_are_numbers(bytes, 24);
    }
}

/// The bytes of a trailer: thirty-two, with the place of the footer, the checksums and the magic
/// at their places.
pub proof fn lemma_trailer_layout(trailer: FixedTrailer)
    ensures
        trailer_bytes(trailer).len() == 32,
        number8(trailer_bytes(trailer), 0) == trailer.footer_offset,
        number8(trailer_bytes(trailer), 8) == trailer.footer_len,
        number4(trailer_bytes(trailer), 16) == trailer.footer_crc32,
        number4(trailer_bytes(trailer), 20) == trailer.object_crc32,
        number8(trailer_bytes(trailer), 24) == 0x4754_5741_4C54_524C,
{
    lemma_trailer_round_trip(trailer);
    lemma_trailer_is_accepted(trailer_bytes(trailer));
}

/// A footer can lie exactly behind the header and right before the trailer.
pub proof fn lemma_footer_place(trailer: FixedTrailer, object_len: int)
    requires
        0 <= object_len <= usize::MAX,
    ensures
        footer_range_of(trailer, object_len) is Ok <==> trailer.footer_offset >= 34
            && trailer.footer_offset + trailer.footer_len + 32 == object_len,
        footer_range_of(trailer, object_len) matches Ok(range) ==> range.start
            == trailer.footer_offset && range.end == object_len - 32,
{
}

/// A footer is accepted exactly when its checksum is the one of the trailer and its length is that
/// of the number of entries it starts with: four bytes, and forty-eight for each. Then each entry
/// says the region, the range of ids, the number of entries and the bytes and checksum of a
/// segment, one after the other.
pub proof fn lemma_footer_is_accepted(bytes: Seq<u8>, trailer: FixedTrailer, checksum: u32)
    ensures
        footer_given(bytes, trailer, checksum) is Ok <==> checksum == trailer.footer_crc32
            && bytes.len() >= 4 && bytes.len() == 4 + number4(bytes, 0) * 48,
        footer_given(bytes, trailer, checksum) matches Ok(footer) ==> footer.len() == number4(
            bytes,
            0,
        ) && forall|i: int|
            0 <= i < footer.len() ==> entry_is_at(bytes, 4 + i * 48, #[trigger] footer[i]),
        footer_given(bytes, trailer, checksum) matches Err(reason) ==> {
            &&& reason is FooterChecksum <==> checksum != trailer.footer_crc32
            &&& reason is FooterLength <==> checksum == trailer.footer_crc32
        },
        footer_in(bytes, trailer) == footer_given(bytes, trailer, crc32_of(bytes)),
{
    if bytes.len() >= 4 {
        lemma_fields_are_numbers(bytes, 0);
    }
    if let Ok(footer) = footer_given(bytes, trailer, checksum) {
        assert forall|i: int| 0 <= i < footer.len() implies entry_is_at(
            bytes,
            4 + i * 48,
            #[trigger] footer[i],
        ) by {
            let at = 4 + i * 48;
            assert(at + 48 <= bytes.len());
            lemma_fields_are_numbers(bytes, at);
            lemma_fields_are_numbers(bytes, at + 8);
            lemma_fields_are_numbers(bytes, at + 16);
            lemma_fields_are_numbers(bytes, at + 24);
            lemma_fields_are_numbers(bytes, at + 28);
            lemma_fields_are_numbers(bytes, at + 36);
            lemma_fields_are_numbers(bytes, at + 44);
            assert(footer[i] == footer_entry_at(bytes, at));
        }
    }
}

/// The bytes from `at` on are those of the footer entry.
pub open spec fn entry_is_at(bytes: Seq<u8>, at: int, entry: FooterEntry) -> bool {
    &&& entry.region_id.0 == number8(bytes, at)
    &&& entry.min_entry_id == number8(bytes, at + 8)
    &&& entry.max_entry_id == number8(bytes, at + 16)
    &&& entry.entry_count == number4(bytes, at + 24)
    &&& entry.segment_offset == number8(bytes, at + 28)
    &&& entry.segment_len == number8(bytes, at + 36)
    &&& entry.segment_crc32 == number4(bytes, at + 44)
}

/// Where the segment at place `i` has to start: behind the header or behind the segment before.
pub open spec fn due_start(footer: Seq<FooterEntry>, i: int) -> int {
    if i <= 0 {
        34
    } else {
        footer[i - 1].segment_offset + footer[i - 1].segment_len
    }
}

proof fn lemma_tiles_from(footer: Seq<FooterEntry>, i: int, footer_start: int)
    requires
        0 <= i <= footer.len(),
        due_start(footer, i) <= u64::MAX,
        0 <= footer_start <= u64::MAX,
    ensures
        tiling_fault(footer, i, due_start(footer, i) as u64, footer_start) is None <==> {
            &&& forall|k: int|
                i <= k < footer.len() ==> (#[trigger] footer[k]).segment_offset == due_start(
                    footer,
                    k,
                ) && footer[k].segment_offset + footer[k].segment_len <= footer_start
            &&& due_start(footer, footer.len() as int) == footer_start
        },
    decreases footer.len() - i,
{
    if i < footer.len() {
        let end = footer[i].segment_offset + footer[i].segment_len;
        if end <= u64::MAX {
            assert(due_start(footer, i + 1) == end);
            lemma_tiles_from(footer, i + 1, footer_start);
        }
    }
}

/// The segments of an object are accepted exactly when they follow each other without a gap, from
/// the end of the header to the start of the footer.
pub proof fn lemma_segments_are_accepted(footer: Seq<FooterEntry>, footer_start: int)
    requires
        0 <= footer_start <= u64::MAX,
    ensures
        tiling_fault(footer, 0, 34, footer_start) is None <==> {
            &&& forall|k: int|
                0 <= k < footer.len() ==> (#[trigger] footer[k]).segment_offset == due_start(
                    footer,
                    k,
                ) && footer[k].segment_offset + footer[k].segment_len <= footer_start
            &&& due_start(footer, footer.len() as int) == footer_start
        },
{
    lemma_tiles_from(footer, 0, footer_start);
}

/// Bytes are those of the number that they spell.
proof fn lemma_bytes_of_value(bytes: Seq<u8>)
    ensures
        be_bytes(be_value(bytes), bytes.len()) == bytes,
    decreases bytes.len(),
{
    if bytes.len() == 0 {
        assert(be_bytes(be_value(bytes), 0) =~= bytes);
    } else {
        let front = bytes.drop_last();
        lemma_bytes_of_value(front);
        let value = be_value(bytes);
        assert(value / 256 == be_value(front) && value % 256 == bytes.last() as nat);
        assert(be_bytes(value, bytes.len()) =~= front.push(bytes.last()));
        assert(front.push(bytes.last()) =~= bytes);
    }
}

/// The bytes of a record: its id, the length of its payload and the payload, twelve bytes more than
/// the payload.
pub proof fn lemma_record_layout(record: RecordModel)
    requires
        record.payload.len() < 0x1_0000_0000,
    ensures
        record_bytes(record).len() == 12 + record.payload.len(),
        number8(record_bytes(record), 0) == record.entry_id,
        number4(record_bytes(record), 8) == record.payload.len(),
        record_bytes(record).skip(12) == record.payload,
{
    let bytes = record_bytes(record);
    let id = be_bytes(record.entry_id as nat, 8);
    let len = be_bytes(record.payload.len(), 4);
    lemma_pow256();
    lemma_be_round_trip(record.entry_id as nat, 8);
    lemma_be_round_trip(record.payload.len(), 4);
    assert(bytes.subrange(0, 8) =~= id);
    assert(bytes.subrange(8, 12) =~= len);
    assert(bytes.skip(12) =~= record.payload);
    lemma_fields_are_numbers(bytes, 0);
    lemma_fields_are_numbers(bytes, 8);
}

/// A segment is the bytes of its records, one after the other.
pub proof fn lemma_segment_layout(records: Seq<RecordModel>, record: RecordModel)
    ensures
        segment_bytes(Seq::<RecordModel>::empty()).len() == 0,
        segment_bytes(records.push(record)) == segment_bytes(records) + record_bytes(record),
{
    assert(records.push(record).drop_last() =~= records);
}

/// Records are read of bytes only when these are exactly the bytes of the records.
pub proof fn lemma_records_are_their_bytes(bytes: Seq<u8>, region: u64, at: int)
    requires
        0 <= at <= bytes.len(),
    ensures
        records_from(bytes, region, at) matches Some(records) ==> {
            &&& segment_bytes(records) == bytes.skip(at)
            &&& forall|i: int| 0 <= i < records.len() ==> (#[trigger] records[i]).region == region
        },
    decreases bytes.len() - at,
{
    if at == bytes.len() {
        assert(bytes.skip(at) =~= Seq::empty());
    } else if at + 12 <= bytes.len() {
        let len = field(bytes, at + 8, 4);
        let start = at + 12;
        if start + len <= bytes.len() {
            lemma_records_are_their_bytes(bytes, region, start + len);
            if let Some(rest) = records_from(bytes, region, start + len) {
                let record = RecordModel {
                    region,
                    entry_id: field(bytes, at, 8) as u64,
                    payload: bytes.subrange(start, start + len),
                };
                let records = seq![record] + rest;
                lemma_segment_split(records);
                assert(records[0] == record);
                assert(records.skip(1) =~= rest);
                let id = bytes.subrange(at, at + 8);
                let count = bytes.subrange(at + 8, at + 12);
                lemma_bytes_of_value(id);
                lemma_bytes_of_value(count);
                lemma_be_value_bound(id);
                lemma_pow256();
                assert(be_bytes(record.entry_id as nat, 8) == id);
                assert(be_bytes(record.payload.len(), 4) == count);
                assert(record_bytes(record) + bytes.skip(start + len) =~= bytes.skip(at));
            }
        }
    }
}

/// The records of a segment are accepted exactly when the bytes have the length and the checksum
/// of the footer entry and are those of records of which there are as many as the entry says, the
/// first with its smallest id and the last with its largest, in the order of their ids.
pub proof fn lemma_segment_is_accepted(bytes: Seq<u8>, entry: FooterEntry, checksum: u32)
    ensures
        segment_given(bytes, entry, checksum) matches Ok(records) ==> {
            &&& bytes.len() == entry.segment_len
            &&& checksum == entry.segment_crc32
            &&& segment_bytes(records) == bytes
            &&& records_fit(records, entry)
        },
        forall|records: Seq<RecordModel>|
            bytes == #[trigger] segment_bytes(records) && records_fit(records, entry)
                && bytes.len() == entry.segment_len && checksum == entry.segment_crc32
                && payloads_fit(records) ==> segment_given(bytes, entry, checksum) == Ok::<
                Seq<RecordModel>,
                Corruption,
            >(records),
        segment_in(bytes, entry) == segment_given(bytes, entry, crc32_of(bytes)),
{
    lemma_records_are_their_bytes(bytes, entry.region_id.0, 0);
    assert(bytes.skip(0) =~= bytes);
    if let Ok(records) = segment_given(bytes, entry, checksum) {
        assert(records.last() == records[records.len() - 1]);
    }
    assert forall|records: Seq<RecordModel>|
        bytes == #[trigger] segment_bytes(records) && records_fit(records, entry) && bytes.len()
            == entry.segment_len && checksum == entry.segment_crc32 && payloads_fit(
            records,
        ) implies segment_given(bytes, entry, checksum) == Ok::<Seq<RecordModel>, Corruption>(
        records,
    ) by {
        lemma_records_round_trip(Seq::empty(), records, entry.region_id.0);
        assert(Seq::<u8>::empty() + segment_bytes(records) =~= bytes);
    }
}

/// Every payload length can be written in four bytes.
pub open spec fn payloads_fit(records: Seq<RecordModel>) -> bool {
    forall|i: int| 0 <= i < records.len() ==> (#[trigger] records[i]).payload.len() < 0x1_0000_0000
}

/// The records are those that the footer entry tells of.
pub open spec fn records_fit(records: Seq<RecordModel>, entry: FooterEntry) -> bool {
    &&& records.len() > 0
    &&& records.len() == entry.entry_count
    &&& records[0].entry_id == entry.min_entry_id
    &&& records[records.len() - 1].entry_id == entry.max_entry_id
    &&& forall|i: int, j: int|
        0 <= i < j < records.len() ==> (#[trigger] records[i]).entry_id < (
        #[trigger] records[j]).entry_id
    &&& forall|i: int| 0 <= i < records.len() ==> (#[trigger] records[i]).region
        == entry.region_id.0
}

/// The parts of an object that is written: the header in front, the segments, the footer where the
/// trailer says, and the trailer in the last thirty-two bytes, with the checksums of the footer and
/// of everything before the trailer.
pub proof fn lemma_object_layout(header: Header, groups: Map<u64, Seq<RecordModel>>)
    requires
        object_bytes(header, groups).len() <= u64::MAX,
    ensures
        ({
            let bytes = object_bytes(header, groups);
            let end = bytes.len() - 32;
            let offset = number8(bytes, end) as int;
            let len = number8(bytes, end + 8) as int;
            &&& bytes.len() >= 70
            &&& bytes.take(34) == header_bytes(header)
            &&& 34 <= offset
            &&& offset + len == end
            &&& bytes.subrange(offset, end) == footer_bytes(footer_of(groups))
            &&& number4(bytes, end + 16) == crc32_of(bytes.subrange(offset, end))
            &&& number4(bytes, end + 20) == crc32_of(bytes.take(end))
            &&& number8(bytes, end + 24) == 0x4754_5741_4C54_524C
        }),
{
    let bytes = object_bytes(header, groups);
    let front = front_bytes(header, groups);
    let footer = footer_bytes(footer_of(groups));
    let trailer = trailer_of(header, groups);
    let last = trailer_bytes(trailer);
    lemma_header_layout(header);
    lemma_trailer_layout(trailer);
    lemma_be_round_trip(footer_of(groups).len(), 4);
    let end = bytes.len() - 32;
    assert(bytes == front + footer + last);
    assert forall|k: int| 0 <= k < 32 implies #[trigger] last[k] == bytes[end + k] by {}
    assert(bytes.take(34) =~= header_bytes(header));
    assert(bytes.subrange(front.len() as int, end) =~= footer);
    assert(bytes.take(end) =~= front + footer);
    assert(number8(bytes, end) == number8(last, 0)) by {
        assert(last[0] == bytes[end + 0]);
        assert(last[1] == bytes[end + 1]);
    }
}

/// A number in a part of the bytes is the number at that place of the bytes.
proof fn lemma_number_of_part(bytes: Seq<u8>, start: int, end: int, at: int)
    requires
        0 <= start <= end <= bytes.len(),
        0 <= at,
    ensures
        at + 4 <= end - start ==> number4(bytes.subrange(start, end), at) == number4(
            bytes,
            start + at,
        ),
        at + 8 <= end - start ==> number8(bytes.subrange(start, end), at) == number8(
            bytes,
            start + at,
        ),
{
    let part = bytes.subrange(start, end);
    assert forall|k: int| 0 <= k < end - start implies #[trigger] part[k] == bytes[start + k] by {}
}

/// The footer of an object is found only when the object is long enough, its header names the
/// sequence that it is listed under, the footer lies where the trailer says, its checksum is that
/// of the trailer, and its segments fill the object.
pub proof fn lemma_found_footer_is_checked(object_seq: u64, bytes: Seq<u8>)
    requires
        70 <= bytes.len() <= usize::MAX,
        object_footer(object_seq, bytes) is Ok,
    ensures
        ({
            let footer = object_footer(object_seq, bytes)->Ok_0;
            let end = bytes.len() - 32;
            let offset = number8(bytes, end) as int;
            &&& number8(bytes, 0) == 0x4754_5741_4C4F_424A
            &&& number2(bytes, 8) == 1
            &&& number8(bytes, 10) == object_seq
            &&& number8(bytes, end + 24) == 0x4754_5741_4C54_524C
            &&& 34 <= offset
            &&& offset + number8(bytes, end + 8) == end
            &&& crc32_of(bytes.subrange(offset, end)) == number4(bytes, end + 16)
            &&& footer.len() == number4(bytes, offset)
            &&& end - offset == 4 + footer.len() * 48
            &&& forall|k: int|
                0 <= k < footer.len() ==> (#[trigger] footer[k]).segment_offset == due_start(
                    footer,
                    k,
                )
            &&& due_start(footer, footer.len() as int) == offset
        }),
{
    let n = bytes.len() as int;
    let end = n - 32;
    let last = bytes.subrange(end, n);
    lemma_header_is_accepted(bytes);
    lemma_trailer_is_accepted(last);
    lemma_number_of_part(bytes, end, n, 0);
    lemma_number_of_part(bytes, end, n, 8);
    lemma_number_of_part(bytes, end, n, 16);
    lemma_number_of_part(bytes, end, n, 24);
    let trailer = trailer_in(last)->Ok_0;
    lemma_footer_place(trailer, n);
    let range = footer_range_of(trailer, n)->Ok_0;
    let part = bytes.subrange(range.start as int, range.end as int);
    lemma_number_of_part(bytes, range.start as int, range.end as int, 0);
    lemma_footer_is_accepted(part, trailer, crc32_of(part));
    let footer = footer_in(part, trailer)->Ok_0;
    lemma_segments_are_accepted(footer, range.start as int);
}

/// A whole object is accepted only when, besides, every segment is, and the checksum of everything
/// before the trailer is that of the trailer.
pub proof fn lemma_whole_object_is_checked(bytes: Seq<u8>)
    requires
        bytes.len() <= usize::MAX,
        object_in(bytes) is Ok,
    ensures
        ({
            let (header, footer, records) = object_in(bytes)->Ok_0;
            let end = bytes.len() - 32;
            &&& bytes.len() >= 70
            &&& number8(bytes, 10) == header.object_seq
            &&& object_footer(header.object_seq, bytes) == Ok::<Seq<FooterEntry>, Corruption>(
                footer,
            )
            &&& crc32_of(bytes.take(end)) == number4(bytes, end + 20)
        }),
{
    let n = bytes.len() as int;
    let end = n - 32;
    let last = bytes.subrange(end, n);
    lemma_header_is_accepted(bytes);
    lemma_trailer_is_accepted(last);
    lemma_number_of_part(bytes, end, n, 20);
    assert(bytes.subrange(0, end) =~= bytes.take(end));
}

/// The first bytes of an object are taken exactly when the header is complete and as many of the
/// last bytes are there as were asked for.
pub proof fn lemma_short_object(
    object: ListedObject,
    plan: FetchPlan,
    head: Seq<u8>,
    tail: Seq<u8>,
)
    requires
        plan.fits(),
    ensures
        (first_step(object, plan, head, tail) matches Err(reason) && reason is ShortObject)
            <==> head.len() < 34 || tail.len() != plan.window(),
{
}

} // verus!
