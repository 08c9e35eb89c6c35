//! The checksum that guards footers, segments and objects.
use vstd::prelude::*;

verus! {

/// The CRC32 checksum of `bytes`, as `crc32fast::hash` computes it.
pub uninterp spec fn crc32_of(bytes: Seq<u8>) -> u32;

/// Calls `crc32fast::hash`. The contract gives the result a name: the checksum is a function of
/// the bytes alone. What number the bytes have is left unsaid.
#[verifier::external_body]
pub(crate) fn crc32(bytes: &[u8]) -> (checksum: u32)
    ensures
        checksum == crc32_of(bytes@),
{
    crc32fast::hash(bytes)
}

} // verus!
