//! The four-letter type code that names a PNG chunk.
use vstd::prelude::*;
use vstd::string::StringSliceAdditionalSpecFns;

use crate::PngKeyError;

verus! {

/// One byte is an ASCII letter (A-Z or a-z).
pub open spec fn is_ascii_letter(b: u8) -> bool {
    (0x41 <= b && b <= 0x5a) || (0x61 <= b && b <= 0x7a)
}

/// Every byte of the sequence is an ASCII letter.
pub open spec fn all_ascii_letters(s: Seq<u8>) -> bool {
    forall|i: int| 0 <= i < s.len() ==> is_ascii_letter(#[trigger] s[i])
}

/// A PNG chunk type code: four bytes, each an ASCII letter.
///
/// The case of each letter encodes the ancillary/private/reserved/copy-safe
/// bits of the PNG specification; beyond being alphabetic the cases are not
/// checked here.
#[derive(Clone, Copy, Debug, PartialEq, Eq, Structural)]
pub struct ChunkType {
    pub first_byte: u8,
    pub second_byte: u8,
    pub third_byte: u8,
    pub fourth_byte: u8,
}

impl View for ChunkType {
    type V = Seq<u8>;

    open spec fn view(&self) -> Seq<u8> {
        seq![self.first_byte, self.second_byte, self.third_byte, self.fourth_byte]
    }
}

impl ChunkType {
    /// All four type bytes are ASCII letters.
    pub open spec fn wf(self) -> bool {
        all_ascii_letters(self@)
    }

    /// The raw four bytes of the type code.
    pub fn bytes(&self) -> (r: [u8; 4])
        ensures
            r@ == self@,
    {
        let r = [self.first_byte, self.second_byte, self.third_byte, self.fourth_byte];
        proof {
            assert(r@ =~= self@);
        }
        r
    }

    /// Build a chunk type from four raw bytes; rejects anything that is not
    /// all letters.
    pub fn from_bytes(bytes: [u8; 4]) -> (r: Result<ChunkType, PngKeyError>)
        ensures
            r is Ok <==> all_ascii_letters(bytes@),
            r matches Ok(ct) ==> ct@ == bytes@ && ct.wf(),
            r is Err ==> r == Err::<ChunkType, PngKeyError>(PngKeyError::InvalidIdentity),
    {
        if !is_all_alphabetic(&bytes) {
            return Err(PngKeyError::InvalidIdentity);
        }
        let ct = ChunkType {
            first_byte: bytes[0],
            second_byte: bytes[1],
            third_byte: bytes[2],
            fourth_byte: bytes[3],
        };
        proof {
            assert(ct@ =~= bytes@);
        }
        Ok(ct)
    }

    /// Parse a user-supplied key string: it must be exactly four ASCII
    /// letters.
    pub fn from_key(s: &str) -> (r: Result<ChunkType, PngKeyError>)
        ensures
            r is Ok <==> s.spec_bytes().len() == 4 && all_ascii_letters(s.spec_bytes()),
            r matches Ok(ct) ==> ct@ == s.spec_bytes() && ct.wf(),
            r is Err ==> r == Err::<ChunkType, PngKeyError>(PngKeyError::InvalidIdentity),
    {
        let b = s.as_bytes();
        if b.len() != 4 {
            return Err(PngKeyError::InvalidIdentity);
        }
        let arr = [b[0], b[1], b[2], b[3]];
        proof {
            assert(arr@ =~= s.spec_bytes());
        }
        ChunkType::from_bytes(arr)
    }
}

/// All four bytes of the array are ASCII letters.
pub fn is_all_alphabetic(bytes: &[u8; 4]) -> (r: bool)
    ensures
        r == all_ascii_letters(bytes@),
{
    let r = is_letter(bytes[0]) && is_letter(bytes[1]) && is_letter(bytes[2]) && is_letter(
        bytes[3],
    );
    proof {
        if r {
            assert forall|i: int| 0 <= i < bytes@.len() implies is_ascii_letter(
                #[trigger] bytes@[i],
            ) by {
                assert(bytes@[0] == bytes[0] && bytes@[1] == bytes[1] && bytes@[2] == bytes[2]
                    && bytes@[3] == bytes[3]);
            }
        }
    }
    r
}

/// One byte is an ASCII letter.
fn is_letter(b: u8) -> (r: bool)
    ensures
        r == is_ascii_letter(b),
{
    (0x41 <= b && b <= 0x5a) || (0x61 <= b && b <= 0x7a)
}

} // verus!
