//! One JPEG marker segment: `FF`, the marker byte, and its payload.
use vstd::prelude::*;

use crate::util::{append_bytes, be16, push_be16};

verus! {

/// The marker stands alone, with no length field and no payload.
pub open spec fn is_bare_marker(m: u8) -> bool {
    m == 0xd8 || m == 0xd9
}

/// The scan marker: raw entropy-coded bytes follow, up to the next marker.
pub open spec fn is_scan_marker(m: u8) -> bool {
    m == 0xda
}

/// No unstuffed `FF` inside the scan bytes: every `FF` is followed by `00`.
pub open spec fn scan_clean(d: Seq<u8>) -> bool {
    forall|i: int| 0 <= i < d.len() - 1 ==> !(#[trigger] d[i] == 0xff && d[i + 1] != 0x00)
}

/// One segment of a JPEG stream.
///
/// `SOI` and `EOI` carry nothing; the scan segment carries the raw
/// entropy-coded bytes up to the next marker; every other marker carries a
/// length-prefixed payload whose on-disk length field counts itself.
#[derive(Debug, Clone, PartialEq, Eq)]
pub struct Chunk {
    pub head: u8,
    pub chunk_type: u8,
    pub length: u16,
    pub data: Vec<u8>,
}

impl Chunk {
    /// The fields agree with the marker's class.
    pub open spec fn wf(self) -> bool {
        &&& self.head == 0xff
        &&& if is_bare_marker(self.chunk_type) {
            self.data@.len() == 0 && self.length == 0
        } else if is_scan_marker(self.chunk_type) {
            &&& self.length == if self.data@.len() >= 2 {
                crate::util::be16_int(self.data@.subrange(0, 2))
            } else {
                0
            }
            &&& scan_clean(self.data@)
            &&& (self.data@.len() > 0 ==> self.data@.last() != 0xff)
        } else {
            self.length == self.data@.len() + 2
        }
    }

    /// The on-disk bytes: `FF`, the marker, the length field where the class
    /// has one, then the payload.
    pub open spec fn ser(self) -> Seq<u8> {
        seq![self.head, self.chunk_type] + if is_bare_marker(self.chunk_type) || is_scan_marker(
            self.chunk_type,
        ) {
            self.data@
        } else {
            be16(self.length) + self.data@
        }
    }

    /// Build a segment for `chunk_type` carrying `data`, deriving the length
    /// field from the marker's class.
    pub fn new(chunk_type: u8, data: Vec<u8>) -> (c: Chunk)
        requires
            is_bare_marker(chunk_type) ==> data@.len() == 0,
            is_scan_marker(chunk_type) ==> scan_clean(data@) && (data@.len() > 0 ==> data@.last()
                != 0xff),
            !is_bare_marker(chunk_type) && !is_scan_marker(chunk_type) ==> data@.len() + 2
                <= u16::MAX,
        ensures
            c.wf(),
            c.chunk_type == chunk_type,
            c.data@ == data@,
            c.head == 0xff,
    {
        let length: u16;
        if chunk_type == 0xd8 || chunk_type == 0xd9 {
            length = 0;
        } else if chunk_type == 0xda {
            if data.len() >= 2 {
                length = crate::util::read_be16(&data, 0);
            } else {
                length = 0;
            }
        } else {
            length = (data.len() as u16) + 2;
        }
        Chunk { head: 0xff, chunk_type, length, data }
    }

    /// The stored length field.
    pub fn length(&self) -> (r: u16)
        ensures
            r == self.length,
    {
        self.length
    }

    /// The marker byte.
    pub fn chunk_type(&self) -> (r: &u8)
        ensures
            r == self.chunk_type,
    {
        &self.chunk_type
    }

    /// The payload bytes.
    pub fn data(&self) -> (r: &[u8])
        ensures
            r@ == self.data@,
    {
        self.data.as_slice()
    }

    /// Replace the payload of an ordinary segment, recomputing its length
    /// field.
    pub fn set_data(&mut self, data: Vec<u8>)
        requires
            !is_bare_marker(old(self).chunk_type),
            !is_scan_marker(old(self).chunk_type),
            data@.len() + 2 <= u16::MAX,
        ensures
            final (self).chunk_type == old(self).chunk_type,
            final (self).head == old(self).head,
            final (self).data@ == data@,
            final (self).length == data@.len() + 2,
            old(self).wf() ==> final (self).wf(),
    {
        self.length = (data.len() as u16) + 2;
        self.data = data;
    }

    /// The on-disk bytes of the segment.
    pub fn as_bytes(&self) -> (r: Vec<u8>)
        ensures
            r@ == self.ser(),
    {
        let mut out: Vec<u8> = Vec::new();
        out.push(self.head);
        out.push(self.chunk_type);
        let bare = self.chunk_type == 0xd8 || self.chunk_type == 0xd9;
        let scan = self.chunk_type == 0xda;
        if !bare && !scan {
            push_be16(&mut out, self.length);
        }
        append_bytes(&mut out, &self.data);
        proof {
            assert(out@ =~= self.ser());
        }
        out
    }
}

} // verus!
