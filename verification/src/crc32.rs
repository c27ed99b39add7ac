//! The checksum that guards every PNG chunk.
use vstd::prelude::*;

verus! {

/// The CRC-32/ISO-HDLC checksum of a byte sequence.
///
/// The checksum is a fixed function of the bytes alone; its defining
/// polynomial arithmetic is left to the outside implementation, so the value
/// is named here rather than spelled out.
pub uninterp spec fn crc32_of(bytes: Seq<u8>) -> u32;

/// Relies on crc's `Crc::<u32>::checksum` over the `CRC_32_ISO_HDLC`
/// algorithm: a pure function of the input bytes.
#[verifier::external_body]
pub(crate) fn crc32(bytes: &Vec<u8>) -> (r: u32)
    ensures
        r == crc32_of(bytes@),
{
    crc::Crc::<u32>::new(&crc::CRC_32_ISO_HDLC).checksum(bytes.as_slice())
}

} // verus!
