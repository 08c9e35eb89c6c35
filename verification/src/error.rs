//! What can go wrong with the objects of a write-ahead log and with the requests made of it.
use vstd::prelude::*;
use vstd::string::*;

use crate::id::{EntryId, RegionId, REGION_NUMBERS};
use crate::text::{decimal, duration_text, push_decimal, push_duration, push_text};

verus! {

/// What is wrong with the bytes of an object or with what its footer says.
#[derive(Clone, Copy, Debug, PartialEq, Eq, Structural)]
pub enum Corruption {
    /// The footer lists no segment.
    EmptyFooter { object_seq: u64 },
    /// The footer lists two segments of one region.
    DuplicateRegion { object_seq: u64, region_id: RegionId },
    /// A segment has no entries or an entry range that runs backwards.
    InvalidEntryRange {
        object_seq: u64,
        region_id: RegionId,
        min_entry_id: EntryId,
        max_entry_id: EntryId,
        entry_count: u32,
    },
    /// An object of that sequence is indexed already.
    AlreadyIndexed { object_seq: u64 },
    /// The entry ids of a region do not increase along the object sequence.
    OutOfOrder {
        region_id: RegionId,
        lower_object_seq: u64,
        lower_max_entry_id: EntryId,
        upper_object_seq: u64,
        upper_min_entry_id: EntryId,
    },
    /// The object is shorter than the shortest object there can be.
    TruncatedObject { expected: u64, actual: u64 },
    /// Fewer bytes came back than the listing announced.
    ShortObject { size: u64, head: u64, tail: u64 },
    /// The object does not start with the header magic.
    InvalidHeaderMagic,
    /// The format version is not known.
    UnsupportedVersion { version: u16 },
    /// The header carries another sequence than the key of the object.
    HeaderSequence { header_seq: u64, object_seq: u64 },
    /// The object does not end with the trailer magic.
    InvalidTrailerMagic,
    /// The footer does not lie between the segments and the trailer.
    InvalidFooterRange { offset: u64, len: u64, object_len: u64 },
    /// The footer does not match the checksum of the trailer.
    FooterChecksum,
    /// The footer does not hold the number of entries it announces.
    FooterLength { len: u64 },
    /// The byte range of a segment exceeds what can be addressed.
    SegmentOverflow { region_id: RegionId, offset: u64, len: u64 },
    /// A segment does not start where the previous one ends, or runs into the footer.
    InvalidSegmentRange { region_id: RegionId, offset: u64, len: u64, expected: u64 },
    /// The segments do not reach the footer.
    SegmentsEnd { end: u64, footer_start: u64 },
    /// The bytes of a segment are not as many as the footer says.
    SegmentLength { region_id: RegionId, expected: u64, actual: u64 },
    /// A segment does not match its checksum.
    SegmentChecksum { region_id: RegionId },
    /// The records of a segment are not those its footer entry describes.
    SegmentRecords { region_id: RegionId },
    /// The object does not match the checksum of the trailer.
    ObjectChecksum,
}

/// Why records cannot be written as one object.
#[derive(Clone, Copy, Debug, PartialEq, Eq, Structural)]
pub enum Unencodable {
    /// There is no record to write.
    NoRecords,
    /// Two records of a region have the same entry id.
    DuplicateEntryId { region_id: RegionId, entry_id: EntryId },
    /// The object is larger than its lengths and counts can say.
    TooLarge,
}

/// The request that an object store did not carry out.
#[derive(Clone, Copy, Debug, PartialEq, Eq, Structural)]
pub enum StoreOperation {
    Write,
    Read,
    Delete,
    List,
}

/// Why an append was refused for one of its entries.
#[derive(Clone, Copy, Debug, PartialEq, Eq, Structural)]
pub enum InvalidEntry {
    /// The provider of the entry belongs to another region.
    ProviderRegion { provider_region: RegionId },
    /// Parts of the entry are missing.
    Incomplete,
}

/// A setting that a store cannot be opened with.
#[derive(Clone, Copy, Debug, PartialEq, Eq, Structural)]
pub enum InvalidSetting {
    /// Objects cannot be kept under the prefix.
    Prefix,
    FlushInterval { nanos: u64 },
    MaxBatchBytes { bytes: u64 },
    MaxUnpersistedBytes { bytes: u64 },
    MaxUnpersistedAge,
}

/// An error of the write-ahead log.
#[allow(inconsistent_fields)]
#[derive(Clone, Copy, Debug, PartialEq, Eq, Structural)]
pub enum Error {
    /// What an object holds is not what an object can hold.
    CorruptedWalObject { reason: Corruption },
    /// The object of that sequence is corrupted.
    InvalidWalObject { object_seq: u64, reason: Corruption },
    /// The records do not make an object.
    UnencodableWalObject { reason: Unencodable },
    /// The object store failed to carry out a request. `cause` is the number under which the
    /// caller keeps the error of the object store itself.
    WalObjectStore { operation: StoreOperation, object_seq: u64, cause: u64 },
    /// Another object exists under the sequence.
    WalObjectConflict { object_seq: u64 },
    /// A later object exists while an earlier one could not be created.
    WalObjectHistoryGap { object_seq: u64, later_object_seq: u64 },
    /// No sequence is left for another object.
    WalObjectSequenceExhausted { last_object_seq: u64 },
    /// The sequence cannot be raised while the outcome at `object_seq` is not known.
    WalObjectSequenceUnsettled { object_seq: u64 },
    /// An append has more entries of a region than an object has positions.
    WalEntryPositionExhausted { region_id: RegionId },
    /// The first id of a range is above its last.
    InvalidWalEntryRange { region_id: RegionId, start_entry_id: EntryId, end_entry_id: EntryId },
    /// An entry cannot be appended.
    InvalidWalEntry { region_id: RegionId, reason: InvalidEntry },
    /// The store cannot be opened with its settings.
    InvalidWalObjectStore { reason: InvalidSetting },
    /// The store was stopped.
    ObjectStoreWalStopped,
}

/// How a request fails: with an error of its own, or with one that other requests receive too.
#[derive(Clone, Copy, Debug, PartialEq, Eq, Structural)]
pub enum Failure {
    Own(Error),
    Shared(Error),
}

/// The text of a region id: the id, and in brackets the table id and the region number.
pub open spec fn region_text(region_id: RegionId) -> Seq<char> {
    decimal(region_id.0 as nat) + "("@ + decimal(
        (region_id.0 as int / REGION_NUMBERS as int) as nat,
    ) + ", "@ + decimal((region_id.0 as int % REGION_NUMBERS as int) as nat) + ")"@
}

/// The sentence that describes a corruption.
pub open spec fn corruption_text(reason: Corruption) -> Seq<char> {
    match reason {
        Corruption::EmptyFooter { object_seq } => "object "@ + decimal(object_seq as nat)
            + " has an empty footer"@,
        Corruption::DuplicateRegion { object_seq, region_id } => "object "@ + decimal(
            object_seq as nat,
        ) + " has duplicate footer entries for region "@ + region_text(region_id),
        Corruption::InvalidEntryRange {
            object_seq,
            region_id,
            min_entry_id,
            max_entry_id,
            entry_count,
        } => "object "@ + decimal(object_seq as nat) + " has invalid entry range "@ + decimal(
            min_entry_id as nat,
        ) + "..="@ + decimal(max_entry_id as nat) + " with "@ + decimal(entry_count as nat)
            + " entries for region "@ + region_text(region_id),
        Corruption::AlreadyIndexed { object_seq } => "object "@ + decimal(object_seq as nat)
            + " is already indexed"@,
        Corruption::OutOfOrder {
            region_id,
            lower_object_seq,
            lower_max_entry_id,
            upper_object_seq,
            upper_min_entry_id,
        } => "entry ranges of region "@ + region_text(region_id)
            + " are not strictly increasing, object "@ + decimal(lower_object_seq as nat)
            + " ends at "@ + decimal(lower_max_entry_id as nat) + ", object "@ + decimal(
            upper_object_seq as nat,
        ) + " starts at "@ + decimal(upper_min_entry_id as nat),
        Corruption::TruncatedObject { expected, actual } =>
            "truncated object, expected at least "@ + decimal(expected as nat)
            + " bytes, actual "@ + decimal(actual as nat),
        Corruption::ShortObject { size, head, tail } =>
            "object holds fewer bytes than the listed "@ + decimal(size as nat) + ", head "@
            + decimal(head as nat) + " bytes, tail "@ + decimal(tail as nat) + " bytes"@,
        Corruption::InvalidHeaderMagic => "invalid header magic"@,
        Corruption::UnsupportedVersion { version } => "unsupported format version "@ + decimal(
            version as nat,
        ),
        Corruption::HeaderSequence { header_seq, object_seq } => "header sequence "@ + decimal(
            header_seq as nat,
        ) + " does not match key sequence "@ + decimal(object_seq as nat),
        Corruption::InvalidTrailerMagic => "invalid trailer magic"@,
        Corruption::InvalidFooterRange { offset, len, object_len } => "invalid footer range "@
            + decimal(offset as nat) + " of "@ + decimal(len as nat) + " bytes in an object of "@
            + decimal(object_len as nat) + " bytes"@,
        Corruption::FooterChecksum => "footer checksum mismatch"@,
        Corruption::FooterLength { len } => "invalid footer length "@ + decimal(len as nat),
        Corruption::SegmentOverflow { region_id, offset, len } => "segment of region "@
            + region_text(region_id) + " at "@ + decimal(offset as nat) + " of "@ + decimal(
            len as nat,
        ) + " bytes overflows the object"@,
        Corruption::InvalidSegmentRange { region_id, offset, len, expected } =>
            "invalid segment range of region "@ + region_text(region_id) + " at "@ + decimal(
            offset as nat,
        ) + " of "@ + decimal(len as nat) + " bytes, expected to start at "@ + decimal(
            expected as nat,
        ),
        Corruption::SegmentsEnd { end, footer_start } => "segments end at "@ + decimal(end as nat)
            + ", footer starts at "@ + decimal(footer_start as nat),
        Corruption::SegmentLength { region_id, expected, actual } => "segment of region "@
            + region_text(region_id) + " holds "@ + decimal(actual as nat)
            + " bytes, expected "@ + decimal(expected as nat),
        Corruption::SegmentChecksum { region_id } => "segment of region "@ + region_text(
            region_id,
        ) + " checksum mismatch"@,
        Corruption::SegmentRecords { region_id } => "segment of region "@ + region_text(region_id)
            + " holds other records than its footer entry"@,
        Corruption::ObjectChecksum => "object checksum mismatch"@,
    }
}

fn push_region(text: &mut String, region_id: RegionId)
    ensures
        final(text)@ == old(text)@ + region_text(region_id),
{
    push_decimal(text, region_id.as_u64());
    push_text(text, "(");
    push_decimal(text, region_id.table_id() as u64);
    push_text(text, ", ");
    push_decimal(text, region_id.region_number() as u64);
    push_text(text, ")");
    assert(text@ =~= old(text)@ + region_text(region_id));
}

impl Corruption {
    /// The sentence that describes the corruption.
    pub fn message(&self) -> (text: String)
        ensures
            text@ == corruption_text(*self),
    {
        let mut text = String::new();
        match *self {
            Corruption::EmptyFooter { object_seq } => {
                push_text(&mut text, "object ");
                push_decimal(&mut text, object_seq);
                push_text(&mut text, " has an empty footer");
            },
            Corruption::DuplicateRegion { object_seq, region_id } => {
                push_text(&mut text, "object ");
                push_decimal(&mut text, object_seq);
                push_text(&mut text, " has duplicate footer entries for region ");
                push_region(&mut text, region_id);
            },
            Corruption::InvalidEntryRange {
                object_seq,
                region_id,
                min_entry_id,
                max_entry_id,
                entry_count,
            } => {
                push_text(&mut text, "object ");
                push_decimal(&mut text, object_seq);
                push_text(&mut text, " has invalid entry range ");
                push_decimal(&mut text, min_entry_id);
                push_text(&mut text, "..=");
                push_decimal(&mut text, max_entry_id);
                push_text(&mut text, " with ");
                push_decimal(&mut text, entry_count as u64);
                push_text(&mut text, " entries for region ");
                push_region(&mut text, region_id);
            },
            Corruption::AlreadyIndexed { object_seq } => {
                push_text(&mut text, "object ");
                push_decimal(&mut text, object_seq);
                push_text(&mut text, " is already indexed");
            },
            Corruption::OutOfOrder {
                region_id,
                lower_object_seq,
                lower_max_entry_id,
                upper_object_seq,
                upper_min_entry_id,
            } => {
                push_text(&mut text, "entry ranges of region ");
                push_region(&mut text, region_id);
                push_text(&mut text, " are not strictly increasing, object ");
                push_decimal(&mut text, lower_object_seq);
                push_text(&mut text, " ends at ");
                push_decimal(&mut text, lower_max_entry_id);
                push_text(&mut text, ", object ");
                push_decimal(&mut text, upper_object_seq);
                push_text(&mut text, " starts at ");
                push_decimal(&mut text, upper_min_entry_id);
            },
            Corruption::TruncatedObject { expected, actual } => {
                push_text(&mut text, "truncated object, expected at least ");
                push_decimal(&mut text, expected);
                push_text(&mut text, " bytes, actual ");
                push_decimal(&mut text, actual);
            },
            Corruption::ShortObject { size, head, tail } => {
                push_text(&mut text, "object holds fewer bytes than the listed ");
                push_decimal(&mut text, size);
                push_text(&mut text, ", head ");
                push_decimal(&mut text, head);
                push_text(&mut text, " bytes, tail ");
                push_decimal(&mut text, tail);
                push_text(&mut text, " bytes");
            },
            Corruption::InvalidHeaderMagic => push_text(&mut text, "invalid header magic"),
            Corruption::UnsupportedVersion { version } => {
                push_text(&mut text, "unsupported format version ");
                push_decimal(&mut text, version as u64);
            },
            Corruption::HeaderSequence { header_seq, object_seq } => {
                push_text(&mut text, "header sequence ");
                push_decimal(&mut text, header_seq);
                push_text(&mut text, " does not match key sequence ");
                push_decimal(&mut text, object_seq);
            },
            Corruption::InvalidTrailerMagic => push_text(&mut text, "invalid trailer magic"),
            Corruption::InvalidFooterRange { offset, len, object_len } => {
                push_text(&mut text, "invalid footer range ");
                push_decimal(&mut text, offset);
                push_text(&mut text, " of ");
                push_decimal(&mut text, len);
                push_text(&mut text, " bytes in an object of ");
                push_decimal(&mut text, object_len);
                push_text(&mut text, " bytes");
            },
            Corruption::FooterChecksum => push_text(&mut text, "footer checksum mismatch"),
            Corruption::FooterLength { len } => {
                push_text(&mut text, "invalid footer length ");
                push_decimal(&mut text, len);
            },
            Corruption::SegmentOverflow { region_id, offset, len } => {
                push_text(&mut text, "segment of region ");
                push_region(&mut text, region_id);
                push_text(&mut text, " at ");
                push_decimal(&mut text, offset);
                push_text(&mut text, " of ");
                push_decimal(&mut text, len);
                push_text(&mut text, " bytes overflows the object");
            },
            Corruption::InvalidSegmentRange { region_id, offset, len, expected } => {
                push_text(&mut text, "invalid segment range of region ");
                push_region(&mut text, region_id);
                push_text(&mut text, " at ");
                push_decimal(&mut text, offset);
                push_text(&mut text, " of ");
                push_decimal(&mut text, len);
                push_text(&mut text, " bytes, expected to start at ");
                push_decimal(&mut text, expected);
            },
            Corruption::SegmentsEnd { end, footer_start } => {
                push_text(&mut text, "segments end at ");
                push_decimal(&mut text, end);
                push_text(&mut text, ", footer starts at ");
                push_decimal(&mut text, footer_start);
            },
            Corruption::SegmentLength { region_id, expected, actual } => {
                push_text(&mut text, "segment of region ");
                push_region(&mut text, region_id);
                push_text(&mut text, " holds ");
                push_decimal(&mut text, actual);
                push_text(&mut text, " bytes, expected ");
                push_decimal(&mut text, expected);
            },
            Corruption::SegmentChecksum { region_id } => {
                push_text(&mut text, "segment of region ");
                push_region(&mut text, region_id);
                push_text(&mut text, " checksum mismatch");
            },
            Corruption::SegmentRecords { region_id } => {
                push_text(&mut text, "segment of region ");
                push_region(&mut text, region_id);
                push_text(&mut text, " holds other records than its footer entry");
            },
            Corruption::ObjectChecksum => push_text(&mut text, "object checksum mismatch"),
        }
        assert(text@ =~= corruption_text(*self));
        text
    }
}

/// What is wrong with the records.
pub open spec fn unencodable_text(reason: Unencodable) -> Seq<char> {
    match reason {
        Unencodable::NoRecords => "no records"@,
        Unencodable::DuplicateEntryId { region_id, entry_id } => "duplicate entry id "@ + decimal(
            entry_id as nat,
        ) + " of region "@ + region_text(region_id),
        Unencodable::TooLarge => "too many or too large records"@,
    }
}

/// What is wrong with an entry.
pub open spec fn invalid_entry_text(reason: InvalidEntry) -> Seq<char> {
    match reason {
        InvalidEntry::ProviderRegion { provider_region } => "provider belongs to region "@
            + region_text(provider_region),
        InvalidEntry::Incomplete => "multipart entry is incomplete"@,
    }
}

/// What is wrong with a setting.
pub open spec fn invalid_setting_text(reason: InvalidSetting) -> Seq<char> {
    match reason {
        InvalidSetting::Prefix => "the prefix is empty, absolute or has an empty or parent component"@,
        InvalidSetting::FlushInterval { nanos } => "flush interval "@ + duration_text(
            nanos as nat,
        ) + " is shorter than 10ms"@,
        InvalidSetting::MaxBatchBytes { bytes } => "max batch bytes "@ + decimal(bytes as nat)
            + " is zero or too large"@,
        InvalidSetting::MaxUnpersistedBytes { bytes } => "max unpersisted bytes "@ + decimal(
            bytes as nat,
        ) + " is zero or too large"@,
        InvalidSetting::MaxUnpersistedAge => "max unpersisted age is zero"@,
    }
}

/// The name of a request.
pub open spec fn operation_text(operation: StoreOperation) -> Seq<char> {
    match operation {
        StoreOperation::Write => "write"@,
        StoreOperation::Read => "read"@,
        StoreOperation::Delete => "delete"@,
        StoreOperation::List => "list"@,
    }
}

/// The sentence that describes an error.
pub open spec fn error_text(error: Error) -> Seq<char> {
    match error {
        Error::CorruptedWalObject { reason } => "corrupted WAL object: "@ + corruption_text(reason),
        Error::InvalidWalObject { object_seq, reason } => "invalid WAL object "@ + decimal(
            object_seq as nat,
        ) + ": "@ + corruption_text(reason),
        Error::UnencodableWalObject { reason } => "WAL object cannot be encoded: "@
            + unencodable_text(reason),
        Error::WalObjectStore { operation, object_seq, cause } => "failed to "@ + operation_text(
            operation,
        ) + " WAL object "@ + decimal(object_seq as nat) + ", cause "@ + decimal(cause as nat),
        Error::WalObjectConflict { object_seq } => "WAL object "@ + decimal(object_seq as nat)
            + " exists with different content"@,
        Error::WalObjectHistoryGap { object_seq, later_object_seq } => "WAL object "@ + decimal(
            object_seq as nat,
        ) + " was not created but the later object "@ + decimal(later_object_seq as nat)
            + " was"@,
        Error::WalObjectSequenceExhausted { last_object_seq } =>
            "WAL object sequence is exhausted, last object "@ + decimal(last_object_seq as nat),
        Error::WalObjectSequenceUnsettled { object_seq } => "WAL object sequence "@ + decimal(
            object_seq as nat,
        ) + " is not settled"@,
        Error::WalEntryPositionExhausted { region_id } => "entry positions of region "@
            + region_text(region_id) + " are exhausted"@,
        Error::InvalidWalEntryRange { region_id, start_entry_id, end_entry_id } =>
            "invalid entry range "@ + decimal(start_entry_id as nat) + "..="@ + decimal(
            end_entry_id as nat,
        ) + " of region "@ + region_text(region_id),
        Error::InvalidWalEntry { region_id, reason } => "invalid entry of region "@ + region_text(
            region_id,
        ) + ": "@ + invalid_entry_text(reason),
        Error::InvalidWalObjectStore { reason } => "invalid object store WAL: "@
            + invalid_setting_text(reason),
        Error::ObjectStoreWalStopped => "object store WAL is stopped"@,
    }
}

impl Error {
    /// The sentence that describes the error.
    pub fn message(&self) -> (text: String)
        ensures
            text@ == error_text(*self),
    {
        let mut text = String::new();
        match *self {
            Error::CorruptedWalObject { reason } => {
                push_text(&mut text, "corrupted WAL object: ");
                push_text(&mut text, reason.message().as_str());
            },
            Error::InvalidWalObject { object_seq, reason } => {
                push_text(&mut text, "invalid WAL object ");
                push_decimal(&mut text, object_seq);
                push_text(&mut text, ": ");
                push_text(&mut text, reason.message().as_str());
            },
            Error::UnencodableWalObject { reason } => {
                push_text(&mut text, "WAL object cannot be encoded: ");
                match reason {
                    Unencodable::NoRecords => push_text(&mut text, "no records"),
                    Unencodable::DuplicateEntryId { region_id, entry_id } => {
                        push_text(&mut text, "duplicate entry id ");
                        push_decimal(&mut text, entry_id);
                        push_text(&mut text, " of region ");
                        push_region(&mut text, region_id);
                    },
                    Unencodable::TooLarge => push_text(&mut text, "too many or too large records"),
                }
            },
            Error::WalObjectStore { operation, object_seq, cause } => {
                push_text(&mut text, "failed to ");
                match operation {
                    StoreOperation::Write => push_text(&mut text, "write"),
                    StoreOperation::Read => push_text(&mut text, "read"),
                    StoreOperation::Delete => push_text(&mut text, "delete"),
                    StoreOperation::List => push_text(&mut text, "list"),
                }
                push_text(&mut text, " WAL object ");
                push_decimal(&mut text, object_seq);
                push_text(&mut text, ", cause ");
                push_decimal(&mut text, cause);
            },
            Error::WalObjectConflict { object_seq } => {
                push_text(&mut text, "WAL object ");
                push_decimal(&mut text, object_seq);
                push_text(&mut text, " exists with different content");
            },
            Error::WalObjectHistoryGap { object_seq, later_object_seq } => {
                push_text(&mut text, "WAL object ");
                push_decimal(&mut text, object_seq);
                push_text(&mut text, " was not created but the later object ");
                push_decimal(&mut text, later_object_seq);
                push_text(&mut text, " was");
            },
            Error::WalObjectSequenceExhausted { last_object_seq } => {
                push_text(&mut text, "WAL object sequence is exhausted, last object ");
                push_decimal(&mut text, last_object_seq);
            },
            Error::WalObjectSequenceUnsettled { object_seq } => {
                push_text(&mut text, "WAL object sequence ");
                push_decimal(&mut text, object_seq);
                push_text(&mut text, " is not settled");
            },
            Error::WalEntryPositionExhausted { region_id } => {
                push_text(&mut text, "entry positions of region ");
                push_region(&mut text, region_id);
                push_text(&mut text, " are exhausted");
            },
            Error::InvalidWalEntryRange { region_id, start_entry_id, end_entry_id } => {
                push_text(&mut text, "invalid entry range ");
                push_decimal(&mut text, start_entry_id);
                push_text(&mut text, "..=");
                push_decimal(&mut text, end_entry_id);
                push_text(&mut text, " of region ");
                push_region(&mut text, region_id);
            },
            Error::InvalidWalEntry { region_id, reason } => {
                push_text(&mut text, "invalid entry of region ");
                push_region(&mut text, region_id);
                push_text(&mut text, ": ");
                match reason {
                    InvalidEntry::ProviderRegion { provider_region } => {
                        push_text(&mut text, "provider belongs to region ");
                        push_region(&mut text, provider_region);
                    },
                    InvalidEntry::Incomplete => push_text(
                        &mut text,
                        "multipart entry is incomplete",
                    ),
                }
            },
            Error::InvalidWalObjectStore { reason } => {
                push_text(&mut text, "invalid object store WAL: ");
                match reason {
                    InvalidSetting::Prefix => push_text(
                        &mut text,
                        "the prefix is empty, absolute or has an empty or parent component",
                    ),
                    InvalidSetting::FlushInterval { nanos } => {
                        push_text(&mut text, "flush interval ");
                        push_duration(&mut text, nanos);
                        push_text(&mut text, " is shorter than 10ms");
                    },
                    InvalidSetting::MaxBatchBytes { bytes } => {
                        push_text(&mut text, "max batch bytes ");
                        push_decimal(&mut text, bytes);
                        push_text(&mut text, " is zero or too large");
                    },
                    InvalidSetting::MaxUnpersistedBytes { bytes } => {
                        push_text(&mut text, "max unpersisted bytes ");
                        push_decimal(&mut text, bytes);
                        push_text(&mut text, " is zero or too large");
                    },
                    InvalidSetting::MaxUnpersistedAge => push_text(
                        &mut text,
                        "max unpersisted age is zero",
                    ),
                }
            },
            Error::ObjectStoreWalStopped => push_text(&mut text, "object store WAL is stopped"),
        }
        assert(text@ =~= error_text(*self));
        text
    }
}

} // verus!
