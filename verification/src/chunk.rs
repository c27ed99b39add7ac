//! One PNG chunk: a length-prefixed, CRC-guarded unit of the container.
use vstd::prelude::*;

use crate::PngKeyError;
use crate::chunk_type::ChunkType;
use crate::crc32::{crc32, crc32_of};
use crate::util::{append_bytes, be32, bytes_to_string, copy_range, push_be32};

verus! {

/// A PNG chunk, as stored on disk: `{u32 BE length}{4-byte type}{data}{u32 BE
/// CRC over type and data}`.
#[derive(Debug, Clone, PartialEq, Eq)]
pub struct Chunk {
    pub length: u32,
    pub chunk_type: ChunkType,
    pub data: Vec<u8>,
    pub crc: u32,
}

impl Chunk {
    /// The bytes the chunk's CRC is computed over: the type code, then the
    /// data.
    pub open spec fn crc_input(self) -> Seq<u8> {
        self.chunk_type@ + self.data@
    }

    /// The chunk's fields agree: the length field counts the data bytes, the
    /// type code is four letters, and the stored CRC is the checksum of type
    /// and data.
    pub open spec fn wf(self) -> bool {
        &&& self.chunk_type.wf()
        &&& self.length == self.data@.len()
        &&& self.crc == crc32_of(self.crc_input())
    }

    /// The on-disk bytes of the chunk.
    pub open spec fn ser(self) -> Seq<u8> {
        be32(self.length) + self.chunk_type@ + self.data@ + be32(self.crc)
    }

    /// Build a chunk carrying `data` under `chunk_type`, computing its length
    /// field and CRC.
    pub fn new(chunk_type: ChunkType, data: Vec<u8>) -> (c: Chunk)
        requires
            chunk_type.wf(),
            data@.len() <= u32::MAX,
        ensures
            c.wf(),
            c.chunk_type == chunk_type,
            c.data@ == data@,
            c.length == data@.len(),
    {
        let length = data.len() as u32;
        let tb = chunk_type.bytes();
        let mut crc_content: Vec<u8> = Vec::new();
        crc_content.push(tb[0]);
        crc_content.push(tb[1]);
        crc_content.push(tb[2]);
        crc_content.push(tb[3]);
        proof {
            assert(crc_content@ =~= chunk_type@);
        }
        append_bytes(&mut crc_content, &data);
        let crc = crc32(&crc_content);
        Chunk { length, chunk_type, data, crc }
    }

    /// The number of data bytes, as stored in the length field.
    pub fn length(&self) -> (r: u32)
        ensures
            r == self.length,
    {
        self.length
    }

    /// The chunk's type code.
    pub fn chunk_type(&self) -> (r: &ChunkType)
        ensures
            r == self.chunk_type,
    {
        &self.chunk_type
    }

    /// The chunk's data bytes.
    pub fn data(&self) -> (r: &[u8])
        ensures
            r@ == self.data@,
    {
        self.data.as_slice()
    }

    /// The stored CRC.
    pub fn crc(&self) -> (r: u32)
        ensures
            r == self.crc,
    {
        self.crc
    }

    /// The data bytes decoded as UTF-8 text; fails when they are not valid
    /// UTF-8.
    pub fn data_as_string(&self) -> (r: Result<String, PngKeyError>)
        ensures
            r is Ok <==> vstd::utf8::valid_utf8(self.data@),
            r matches Ok(s) ==> s@ == vstd::utf8::decode_utf8(self.data@),
            r is Err ==> r == Err::<String, PngKeyError>(PngKeyError::InvalidPayloadEncoding),
    {
        let copy = copy_range(&self.data, 0, self.data.len());
        proof {
            assert(copy@ =~= self.data@);
        }
        match bytes_to_string(copy) {
            Some(s) => Ok(s),
            None => Err(PngKeyError::InvalidPayloadEncoding),
        }
    }

    /// The on-disk bytes of the chunk.
    pub fn as_bytes(&self) -> (r: Vec<u8>)
        ensures
            r@ == self.ser(),
    {
        let mut out: Vec<u8> = Vec::new();
        push_be32(&mut out, self.length);
        let tb = self.chunk_type.bytes();
        out.push(tb[0]);
        out.push(tb[1]);
        out.push(tb[2]);
        out.push(tb[3]);
        append_bytes(&mut out, &self.data);
        push_be32(&mut out, self.crc);
        proof {
            assert(out@ =~= self.ser());
        }
        out
    }
}

} // verus!
