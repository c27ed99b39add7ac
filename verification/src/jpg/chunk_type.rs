//! The one-byte marker code that names a JPEG segment, written by users as a
//! decimal string.
use vstd::prelude::*;
use vstd::string::StringSliceAdditionalSpecFns;

use crate::PngKeyError;

verus! {

/// One byte is an ASCII decimal digit.
pub open spec fn is_digit(b: u8) -> bool {
    0x30 <= b && b <= 0x39
}

/// Every byte is a decimal digit.
pub open spec fn all_digits(s: Seq<u8>) -> bool {
    forall|i: int| 0 <= i < s.len() ==> is_digit(#[trigger] s[i])
}

/// The value of a decimal digit string.
pub open spec fn dec_val(s: Seq<u8>) -> int
    decreases s.len(),
{
    if s.len() == 0 {
        0
    } else {
        dec_val(s.drop_last()) * 10 + (s.last() - 0x30)
    }
}

/// A JPEG marker code.
#[derive(Clone, Copy, Debug, PartialEq, Eq, Structural)]
pub struct ChunkType {
    pub marker: u8,
}

impl ChunkType {
    /// The raw marker byte.
    pub fn bytes(&self) -> (r: u8)
        ensures
            r == self.marker,
    {
        self.marker
    }

    /// Parse a user key: a decimal string naming a byte value.
    pub fn from_key(s: &str) -> (r: Result<ChunkType, PngKeyError>)
        ensures
            r is Ok <==> 1 <= s.spec_bytes().len() <= 3 && all_digits(s.spec_bytes()) && dec_val(
                s.spec_bytes(),
            ) <= 255,
            r matches Ok(ct) ==> ct.marker == dec_val(s.spec_bytes()),
            r is Err ==> r == Err::<ChunkType, PngKeyError>(PngKeyError::InvalidIdentity),
    {
        match parse_dec_u8(s) {
            Some(v) => Ok(ChunkType { marker: v }),
            None => Err(PngKeyError::InvalidIdentity),
        }
    }
}

/// Parse a short decimal string into a byte value.
pub fn parse_dec_u8(s: &str) -> (r: Option<u8>)
    ensures
        r is Some <==> 1 <= s.spec_bytes().len() <= 3 && all_digits(s.spec_bytes()) && dec_val(
            s.spec_bytes(),
        ) <= 255,
        r matches Some(v) ==> v == dec_val(s.spec_bytes()),
{
    let b = s.as_bytes();
    let n = b.len();
    if n < 1 || n > 3 {
        return None;
    }
    let mut acc: u32 = 0;
    let mut i: usize = 0;
    while i < n
        invariant
            i <= n == s.spec_bytes().len(),
            n <= 3,
            b@ == s.spec_bytes(),
            acc == dec_val(b@.subrange(0, i as int)),
            i == 0 ==> acc == 0,
            i == 1 ==> acc <= 9,
            i == 2 ==> acc <= 99,
            i == 3 ==> acc <= 999,
            forall|j: int| 0 <= j < i ==> is_digit(#[trigger] b@[j]),
        decreases n - i,
    {
        let d = b[i];
        if d < 0x30 || d > 0x39 {
            return None;
        }
        acc = acc * 10 + ((d - 0x30) as u32);
        i = i + 1;
        proof {
            let pre = b@.subrange(0, i - 1);
            let cur = b@.subrange(0, i as int);
            assert(cur.drop_last() =~= pre);
            assert(cur.last() == b@[i - 1]);
        }
    }
    proof {
        assert(b@.subrange(0, n as int) =~= b@);
    }
    if acc > 255 {
        return None;
    }
    Some(acc as u8)
}

} // verus!
