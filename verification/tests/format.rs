use greptime::error::{Corruption, Unencodable};
use greptime::format::{
    decode_footer, decode_header, decode_object, decode_segment, decode_trailer, encode_object,
    footer_range, parse_footer, parse_segment, push_footer, push_header, push_trailer,
    verify_segment_ranges, FixedTrailer, FooterEntry, Header, Record,
    FOOTER_ENTRY_LEN, HEADER_LEN, MIN_OBJECT_LEN, TRAILER_LEN,
};
use greptime::id::RegionId;
use greptime::object::check_prefix;

const HEADER: Header = Header {
    object_seq: 0x0102_0304_0506_0708,
    writer_instance: 0x1112_1314_1516_1718_191a_1b1c_1d1e_1f20,
};

fn record(region: u64, entry_id: u64, payload: &[u8]) -> Record {
    Record {
        region_id: RegionId(region),
        entry_id,
        payload: payload.to_vec(),
    }
}

fn records() -> Vec<Record> {
    vec![
        record(9, 4, b"d"),
        record(2, 3, b"abc"),
        record(2, 1, b""),
        record(9, 3, b"c"),
    ]
}

fn be(parts: &[&[u8]]) -> Vec<u8> {
    parts.concat()
}

#[test]
fn an_object_has_exactly_these_bytes() {
    let header = be(&[
        b"GTWALOBJ",
        &1u16.to_be_bytes(),
        &HEADER.object_seq.to_be_bytes(),
        &HEADER.writer_instance.to_be_bytes(),
    ]);
    let first = be(&[
        &1u64.to_be_bytes(),
        &0u32.to_be_bytes(),
        &3u64.to_be_bytes(),
        &3u32.to_be_bytes(),
        b"abc",
    ]);
    let second = be(&[
        &3u64.to_be_bytes(),
        &1u32.to_be_bytes(),
        b"c",
        &4u64.to_be_bytes(),
        &1u32.to_be_bytes(),
        b"d",
    ]);
    let entry = |region: u64, min: u64, max: u64, offset: usize, segment: &[u8]| {
        be(&[
            &region.to_be_bytes(),
            &min.to_be_bytes(),
            &max.to_be_bytes(),
            &2u32.to_be_bytes(),
            &(offset as u64).to_be_bytes(),
            &(segment.len() as u64).to_be_bytes(),
            &crc32fast::hash(segment).to_be_bytes(),
        ])
    };
    let footer = be(&[
        &2u32.to_be_bytes(),
        &entry(2, 1, 3, HEADER_LEN, &first),
        &entry(9, 3, 4, HEADER_LEN + first.len(), &second),
    ]);
    assert_eq!(4 + 2 * FOOTER_ENTRY_LEN, footer.len());
    let body = be(&[&header, &first, &second, &footer]);
    let trailer = be(&[
        &((body.len() - footer.len()) as u64).to_be_bytes(),
        &(footer.len() as u64).to_be_bytes(),
        &crc32fast::hash(&footer).to_be_bytes(),
        &crc32fast::hash(&body).to_be_bytes(),
        b"GTWALTRL",
    ]);
    assert_eq!(TRAILER_LEN, trailer.len());

    let encoded = encode_object(HEADER, &records()).unwrap();
    assert_eq!(be(&[&body, &trailer]), encoded.bytes);
}

#[test]
fn an_object_decodes_to_what_was_encoded() {
    let encoded = encode_object(HEADER, &records()).unwrap();
    let decoded = decode_object(&encoded.bytes).unwrap();
    assert_eq!(HEADER, decoded.header);
    assert_eq!(encoded.footer, decoded.footer);
    let found = decoded
        .records
        .iter()
        .map(|record| (record.region_id.as_u64(), record.entry_id, record.payload.as_slice()))
        .collect::<Vec<_>>();
    assert_eq!(
        vec![
            (2, 1, b"".as_slice()),
            (2, 3, b"abc".as_slice()),
            (9, 3, b"c".as_slice()),
            (9, 4, b"d".as_slice()),
        ],
        found
    );
    assert_eq!(Ok(HEADER), decode_header(&encoded.bytes));
}

#[test]
fn the_encoding_does_not_depend_on_the_order() {
    let mut shuffled = records();
    shuffled.reverse();
    shuffled.swap(0, 2);
    assert_eq!(
        encode_object(HEADER, &records()).unwrap().bytes,
        encode_object(HEADER, &shuffled).unwrap().bytes
    );
}

#[test]
fn one_segment_decodes_without_the_others() {
    let encoded = encode_object(HEADER, &records()).unwrap();
    let entry = &encoded.footer[1];
    let start = entry.segment_offset as usize;
    let bytes = &encoded.bytes[start..start + entry.segment_len as usize];
    let decoded = decode_segment(bytes, entry).unwrap();
    assert_eq!(2, decoded.len());
    assert_eq!((3, b"c".to_vec()), (decoded[0].entry_id, decoded[0].payload.clone()));
    assert_eq!((4, b"d".to_vec()), (decoded[1].entry_id, decoded[1].payload.clone()));

    let region_id = entry.region_id;
    let mut damaged = bytes.to_vec();
    damaged[0] ^= 1;
    assert_eq!(
        Err(Corruption::SegmentChecksum { region_id }),
        decode_segment(&damaged, entry).map(|_| ())
    );
    assert_eq!(
        Err(Corruption::SegmentLength {
            region_id,
            expected: entry.segment_len,
            actual: entry.segment_len - 1,
        }),
        decode_segment(&bytes[1..], entry).map(|_| ())
    );
    let wrong_count = FooterEntry {
        entry_count: 3,
        ..*entry
    };
    assert_eq!(
        Err(Corruption::SegmentRecords { region_id }),
        decode_segment(bytes, &wrong_count).map(|_| ())
    );
}

#[test]
fn footers_and_segments_are_read_by_their_checksums() {
    let encoded = encode_object(HEADER, &records()).unwrap();
    let bytes = &encoded.bytes;
    let trailer = decode_trailer(&bytes[bytes.len() - TRAILER_LEN..]).unwrap();
    let range = footer_range(trailer, bytes.len()).unwrap();
    let footer = &bytes[range.start..range.end];
    assert_eq!(
        Ok(encoded.footer.clone()),
        parse_footer(footer, trailer, trailer.footer_crc32)
    );
    assert_eq!(
        Err(Corruption::FooterChecksum),
        parse_footer(footer, trailer, !trailer.footer_crc32)
    );
    let entry = &encoded.footer[0];
    let start = entry.segment_offset as usize;
    let segment = &bytes[start..start + entry.segment_len as usize];
    let read = parse_segment(segment, entry, entry.segment_crc32).unwrap();
    assert_eq!(2, read.len());
    assert_eq!(
        Err(Corruption::SegmentChecksum { region_id: entry.region_id }),
        parse_segment(segment, entry, !entry.segment_crc32).map(|_| ())
    );

    // The parts, written one by one, are the object.
    let mut parts = Vec::new();
    push_header(&mut parts, &HEADER);
    parts.extend_from_slice(&bytes[HEADER_LEN..range.start]);
    push_footer(&mut parts, &encoded.footer);
    push_trailer(&mut parts, &trailer);
    assert_eq!(bytes, &parts);
}

#[test]
fn what_cannot_be_encoded_is_refused() {
    assert_eq!(
        Err(Unencodable::NoRecords),
        encode_object(HEADER, &Vec::new()).map(|_| ())
    );
    let twice = vec![record(2, 1, b"a"), record(3, 1, b"b"), record(2, 1, b"c")];
    assert_eq!(
        Err(Unencodable::DuplicateEntryId {
            region_id: RegionId(2),
            entry_id: 1,
        }),
        encode_object(HEADER, &twice).map(|_| ())
    );
}

#[test]
fn damaged_objects_are_rejected() {
    let bytes = encode_object(HEADER, &records()).unwrap().bytes;
    let with = |change: fn(&mut Vec<u8>)| {
        let mut damaged = bytes.clone();
        change(&mut damaged);
        decode_object(&damaged).map(|_| ()).unwrap_err()
    };
    assert_eq!(Corruption::InvalidHeaderMagic, with(|bytes| bytes[0] ^= 1));
    assert_eq!(
        Corruption::UnsupportedVersion { version: 3 },
        with(|bytes| bytes[9] = 3)
    );
    assert_eq!(
        Corruption::InvalidTrailerMagic,
        with(|bytes| *bytes.last_mut().unwrap() ^= 1)
    );
    // The writer instance is covered by the checksum of the whole object alone.
    assert_eq!(Corruption::ObjectChecksum, with(|bytes| bytes[HEADER_LEN - 1] ^= 1));
    assert_eq!(
        Corruption::FooterChecksum,
        with(|bytes| {
            let at = bytes.len() - TRAILER_LEN - 1;
            bytes[at] ^= 1;
        })
    );
    let truncated = decode_object(&bytes[..MIN_OBJECT_LEN - 1]).map(|_| ()).unwrap_err();
    assert_eq!(
        Corruption::TruncatedObject {
            expected: MIN_OBJECT_LEN as u64,
            actual: MIN_OBJECT_LEN as u64 - 1,
        },
        truncated
    );
}

#[test]
fn footers_are_located_and_checked() {
    let encoded = encode_object(HEADER, &records()).unwrap();
    let bytes = &encoded.bytes;
    let trailer = decode_trailer(&bytes[bytes.len() - TRAILER_LEN..]).unwrap();
    let range = footer_range(trailer, bytes.len()).unwrap();
    let footer = decode_footer(&bytes[range.start..range.end], trailer).unwrap();
    assert_eq!(encoded.footer, footer);
    assert_eq!(Ok(()), verify_segment_ranges(&footer, range.start));

    let moved = FixedTrailer {
        footer_offset: trailer.footer_offset + 1,
        ..trailer
    };
    assert_eq!(
        Err(Corruption::InvalidFooterRange {
            offset: trailer.footer_offset + 1,
            len: trailer.footer_len,
            object_len: bytes.len() as u64,
        }),
        footer_range(moved, bytes.len())
    );
    let empty = 0u32.to_be_bytes();
    let one_too_many = FixedTrailer {
        footer_crc32: crc32fast::hash(&[0, 0, 0, 1]),
        footer_len: 4,
        ..trailer
    };
    assert_eq!(
        Err(Corruption::FooterLength { len: 4 }),
        decode_footer(&[0, 0, 0, 1], one_too_many).map(|_| ())
    );
    let none = FixedTrailer {
        footer_crc32: crc32fast::hash(&empty),
        footer_len: 4,
        ..trailer
    };
    assert_eq!(Ok(Vec::new()), decode_footer(&empty, none));

    let mut gap = footer.clone();
    gap[1].segment_offset += 1;
    assert!(matches!(
        verify_segment_ranges(&gap, range.start),
        Err(Corruption::InvalidSegmentRange { .. })
    ));
    let mut overflow = footer.clone();
    overflow[0].segment_offset = u64::MAX;
    assert!(matches!(
        verify_segment_ranges(&overflow, range.start),
        Err(Corruption::SegmentOverflow { .. })
    ));
    assert!(matches!(
        verify_segment_ranges(&footer, range.start + 1),
        Err(Corruption::SegmentsEnd { .. })
    ));
}

#[test]
fn prefixes_are_relative_paths_without_empty_or_parent_components() {
    for prefix in ["wal", "cluster-a/wal", "a/..b/c..", "...", "a/./b"] {
        assert!(check_prefix(&prefix.to_string()), "{prefix}");
    }
    for prefix in ["", "/", "/absolute", "wal/", "a//b", "..", "../a", "a/..", "a/../b"] {
        assert!(!check_prefix(&prefix.to_string()), "{prefix}");
    }
}
