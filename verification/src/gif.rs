//! The GIF container: header and logical screen descriptor, an optional
//! global color table, then image and extension blocks up to the trailer.
//! Hidden payloads live in Application Extension blocks tagged with a fixed
//! eight-byte identifier and a three-byte user key.
use vstd::prelude::*;
use vstd::string::StringSliceAdditionalSpecFns;

pub mod chunk;
pub mod command;

use crate::PngKeyError;
use crate::gif::chunk::{
    Chunk, ExtensionChunk, ImageChunk, ImageDescriptor, LogicalScreenDescriptor, chain_data,
    chain_end, chunk_ser, chunk_wf, color_table_len, color_table_size, gif_magic,
    lemma_chain_embed, lemma_chain_end_bounds, lemma_chain_of_pack, lemma_chain_restrict,
    pack_chain,
};
use crate::util::{
    copy_range, find_first, le16, lemma_find_first, lemma_find_first_is, lemma_find_first_none,
    lemma_le16_int_of_le16, lemma_le16_of_le16_int, read_le16,
};

verus! {

/// The serialization of a sequence of units, in order.
pub open spec fn chunks_ser(s: Seq<Chunk>) -> Seq<u8>
    decreases s.len(),
{
    if s.len() == 0 {
        Seq::empty()
    } else {
        chunk_ser(s[0]) + chunks_ser(s.drop_first())
    }
}

/// Appending a unit appends its bytes.
pub proof fn lemma_chunks_ser_push(s: Seq<Chunk>, c: Chunk)
    ensures
        chunks_ser(s.push(c)) == chunks_ser(s) + chunk_ser(c),
    decreases s.len(),
{
    let sp = s.push(c);
    if s.len() == 0 {
        assert(sp[0] == c);
        assert(sp.drop_first() =~= Seq::<Chunk>::empty());
        assert(chunks_ser(sp) == chunk_ser(c) + chunks_ser(Seq::<Chunk>::empty()));
        assert(chunk_ser(c) + Seq::<u8>::empty() =~= chunk_ser(c));
        assert(Seq::<u8>::empty() + chunk_ser(c) =~= chunk_ser(c));
    } else {
        assert(sp[0] == s[0]);
        assert(sp.drop_first() =~= s.drop_first().push(c));
        lemma_chunks_ser_push(s.drop_first(), c);
        assert(chunks_ser(sp) == chunk_ser(s[0]) + (chunks_ser(s.drop_first()) + chunk_ser(c)));
        assert(chunk_ser(s[0]) + (chunks_ser(s.drop_first()) + chunk_ser(c)) =~= (chunk_ser(s[0])
            + chunks_ser(s.drop_first())) + chunk_ser(c));
    }
}

/// The block region of `b` from offset `i` is a well-formed run of image
/// and extension blocks closed by a trailer at the very end of the buffer.
pub open spec fn gif_scan(b: Seq<u8>, i: int) -> bool
    decreases b.len() - i,
{
    if i < 0 || i >= b.len() {
        false
    } else if b[i] == 0x3b {
        i + 1 == b.len()
    } else if b[i] == 0x2c {
        if i + 10 > b.len() {
            false
        } else {
            let packed = b[i + 9];
            let lct = if packed & 0x80 != 0 {
                color_table_len(packed)
            } else {
                0
            };
            let j = i + 10 + lct;
            if j + 1 > b.len() {
                false
            } else {
                match chain_end(b, j + 1) {
                    Some(k) => if i < k <= b.len() {
                        gif_scan(b, k)
                    } else {
                        false
                    },
                    None => false,
                }
            }
        }
    } else if b[i] == 0x21 {
        if i + 2 > b.len() {
            false
        } else {
            match chain_end(b, i + 2) {
                Some(k) => if i < k <= b.len() {
                    gif_scan(b, k)
                } else {
                    false
                },
                None => false,
            }
        }
    } else {
        false
    }
}

/// The buffer is a well-formed GIF file.
pub open spec fn gif_bytes_ok(b: Seq<u8>) -> bool {
    &&& b.len() >= 13
    &&& b.subrange(0, 6) == gif_magic()
    &&& {
        let packed = b[10];
        let body = if packed & 0x80 != 0 {
            13 + color_table_len(packed)
        } else {
            13
        };
        body <= b.len() && gif_scan(b, body)
    }
}


/// The units stand in file order: header, logical screen descriptor, the
/// global color table its packed field announces, then images and
/// extensions, and one trailer at the very end.
pub open spec fn gif_seq_wf(s: Seq<Chunk>) -> bool {
    &&& s.len() >= 3
    &&& s[0] is Header
    &&& s[1] matches Chunk::LogicalScreenDescriptor(l) && {
        let bs: int = if l.packed_fields & 0x80 != 0 {
            3
        } else {
            2
        };
        &&& (l.packed_fields & 0x80 != 0 ==> s.len() >= 4 && (s[2] matches Chunk::GlobalColorTable(
            v,
        ) && v@.len() == color_table_len(l.packed_fields)))
        &&& s.last() is Trailer
        &&& forall|i: int|
            bs <= i < s.len() - 1 ==> ((#[trigger] s[i]) is Image || s[i] is Extension)
    }
}

/// The body and trailer of a file: images and extensions closed by one
/// trailer.
pub open spec fn gif_tail_wf(s: Seq<Chunk>) -> bool {
    &&& s.len() >= 1
    &&& s.last() is Trailer
    &&& forall|i: int| 0 <= i < s.len() - 1 ==> ((#[trigger] s[i]) is Image || s[i] is Extension)
}

/// Two units agree in every observable field.
pub open spec fn chunk_view_eq(a: Chunk, b: Chunk) -> bool {
    match (a, b) {
        (Chunk::Header(x), Chunk::Header(y)) => x@ == y@,
        (Chunk::LogicalScreenDescriptor(l1), Chunk::LogicalScreenDescriptor(l2)) => {
            &&& l1.width == l2.width
            &&& l1.height == l2.height
            &&& l1.packed_fields == l2.packed_fields
            &&& l1.background_color_index == l2.background_color_index
            &&& l1.pixel_aspect_ratio == l2.pixel_aspect_ratio
        },
        (Chunk::GlobalColorTable(v1), Chunk::GlobalColorTable(v2)) => v1@ == v2@,
        (Chunk::Image(i1), Chunk::Image(i2)) => {
            &&& i1.descriptor.left == i2.descriptor.left
            &&& i1.descriptor.top == i2.descriptor.top
            &&& i1.descriptor.width == i2.descriptor.width
            &&& i1.descriptor.height == i2.descriptor.height
            &&& i1.descriptor.packed_fields == i2.descriptor.packed_fields
            &&& match (i1.local_color_table, i2.local_color_table) {
                (Some(v1), Some(v2)) => v1@ == v2@,
                (None, None) => true,
                _ => false,
            }
            &&& i1.image_data@ == i2.image_data@
        },
        (Chunk::Extension(e1), Chunk::Extension(e2)) => e1.extension_type == e2.extension_type
            && e1.data@ == e2.data@,
        (Chunk::Trailer, Chunk::Trailer) => true,
        _ => false,
    }
}

/// The fixed eight-byte application identifier that tags this library's
/// hidden slots.
pub open spec fn slot_identifier() -> Seq<u8> {
    seq![0x20u8, 0x70u8, 0x6eu8, 0x67u8, 0x6bu8, 0x65u8, 0x79u8, 0x20u8]
}

/// The unit is an Application Extension carrying the fixed identifier and
/// the three-byte `key`.
pub open spec fn is_slot(c: Chunk, key: Seq<u8>) -> bool {
    &&& c matches Chunk::Extension(e)
    &&& e.extension_type == 0xff
    &&& e.data@.len() >= 12
    &&& e.data@.subrange(1, 9) == slot_identifier()
    &&& e.data@.subrange(9, 12) == key
}

/// The payload a slot unit carries: its sub-block chain after the eleven
/// header bytes, unpacked.
pub open spec fn slot_payload(c: Chunk) -> Seq<u8> {
    match c {
        Chunk::Extension(e) => chain_data(e.data@, 12),
        _ => Seq::empty(),
    }
}

/// The slot test for `key`, as a function value.
pub open spec fn slot_pred(key: Seq<u8>) -> spec_fn(Chunk) -> bool {
    |c: Chunk| is_slot(c, key)
}

/// The position of the first slot unit carrying `key`.
pub open spec fn slot_index(s: Seq<Chunk>, key: Seq<u8>) -> Option<int> {
    find_first(s, slot_pred(key))
}

/// The position of the last trailer unit, if any.
pub open spec fn last_trailer(s: Seq<Chunk>) -> Option<int>
    decreases s.len(),
{
    if s.len() == 0 {
        None
    } else if s.last() is Trailer {
        Some(s.len() - 1)
    } else {
        last_trailer(s.drop_last())
    }
}

/// The whole data field of a fresh slot unit: the eleven-byte Application
/// Extension header, the packed payload, and the chain terminator.
pub open spec fn app_ext_data(ident: Seq<u8>, code: Seq<u8>, m: Seq<u8>) -> Seq<u8> {
    seq![0x0bu8] + ident + code + pack_chain(m) + seq![0u8]
}

/// The unit holds exactly the library's slot layout for `key` and payload
/// `m`: the fixed identifier, the key, and the canonically packed chain.
pub open spec fn is_fresh_slot(c: Chunk, key: Seq<u8>, m: Seq<u8>) -> bool {
    c matches Chunk::Extension(e) && e.extension_type == 0xff && e.data@ == app_ext_data(
        slot_identifier(),
        key,
        m,
    )
}

/// `t` is `s` with the payload under `key` replaced in place, or, when the
/// key is absent, with one fresh slot unit inserted just before the last
/// trailer (at the end when there is none).  The slot unit's bytes are
/// pinned exactly: the fixed identifier, the key, the payload packed into
/// sub-blocks.
pub open spec fn upsert_rel(s: Seq<Chunk>, t: Seq<Chunk>, key: Seq<u8>, m: Seq<u8>) -> bool {
    match slot_index(s, key) {
        Some(i) => {
            &&& t.len() == s.len()
            &&& is_fresh_slot(t[i], key, m)
            &&& forall|j: int| 0 <= j < s.len() && j != i ==> t[j] == s[j]
        },
        None => {
            let pos = match last_trailer(s) {
                Some(p) => p,
                None => s.len() as int,
            };
            &&& t.len() == s.len() + 1
            &&& is_fresh_slot(t[pos], key, m)
            &&& forall|j: int| 0 <= j < pos ==> t[j] == s[j]
            &&& forall|j: int| pos <= j < s.len() ==> t[j + 1] == s[j]
        },
    }
}

/// A freshly built slot unit is a well-formed slot carrying exactly the
/// payload.
pub proof fn lemma_fresh_slot(c: Chunk, key: Seq<u8>, m: Seq<u8>)
    requires
        is_fresh_slot(c, key, m),
        key.len() == 3,
    ensures
        is_slot(c, key),
        slot_payload(c) == m,
        chunk_wf(c),
{
    lemma_app_ext_slot(slot_identifier(), key, m);
}

/// A GIF file held in memory: its units in file order, the header and
/// trailer among them.
#[derive(Debug)]
pub struct Gif {
    pub chunks: Vec<Chunk>,
}

impl Gif {
    /// Every unit is internally consistent.
    pub open spec fn wf(self) -> bool {
        forall|i: int| 0 <= i < self.chunks@.len() ==> chunk_wf(#[trigger] self.chunks@[i])
    }

    /// The on-disk bytes of the whole file.
    pub open spec fn ser(self) -> Seq<u8> {
        chunks_ser(self.chunks@)
    }

    /// Where the sub-block chain starting at `start` inside `bytes` ends, by
    /// a forward scan.
    fn read_chain_end(bytes: &Vec<u8>, start: usize) -> (r: Option<usize>)
        ensures
            match r {
                Some(k) => chain_end(bytes@, start as int) == Some(k as int) && start < k
                    <= bytes@.len(),
                None => chain_end(bytes@, start as int) is None,
            },
    {
        let len = bytes.len();
        let mut i = start;
        while i < len
            invariant
                start <= i,
                len == bytes@.len(),
                chain_end(bytes@, start as int) == chain_end(bytes@, i as int),
            decreases len - i,
        {
            let size = bytes[i];
            if size == 0 {
                proof {
                    lemma_chain_end_bounds(bytes@, start as int);
                }
                return Some(i + 1);
            }
            if len - i - 1 < size as usize {
                return None;
            }
            i = i + 1 + size as usize;
        }
        None
    }

    /// Parse a byte buffer as a GIF file.
    ///
    /// Succeeds exactly on well-formed input, and then re-serializes to the
    /// very same bytes.  Truncated tables or chains, an unknown block
    /// introducer, bytes after the trailer, or a missing trailer are all
    /// malformed.
    #[verifier::rlimit(100)]
    pub fn from_bytes(bytes: &Vec<u8>) -> (r: Result<Gif, PngKeyError>)
        ensures
            r is Ok <==> gif_bytes_ok(bytes@),
            r matches Ok(g) ==> g.wf() && gif_seq_wf(g.chunks@) && g.ser() == bytes@,
            r is Err ==> r == Err::<Gif, PngKeyError>(PngKeyError::MalformedContainer),
    {
        let len = bytes.len();
        if len < 13 {
            return Err(PngKeyError::MalformedContainer);
        }
        let sig_ok = bytes[0] == 0x47 && bytes[1] == 0x49 && bytes[2] == 0x46 && bytes[3] == 0x38
            && bytes[4] == 0x39 && bytes[5] == 0x61;
        proof {
            let s = bytes@.subrange(0, 6);
            assert(s[0] == bytes@[0] && s[1] == bytes@[1] && s[2] == bytes@[2] && s[3] == bytes@[3]
                && s[4] == bytes@[4] && s[5] == bytes@[5]);
            if sig_ok {
                assert(s =~= gif_magic());
            } else {
                assert(s != gif_magic());
            }
        }
        if !sig_ok {
            return Err(PngKeyError::MalformedContainer);
        }
        let header = [bytes[0], bytes[1], bytes[2], bytes[3], bytes[4], bytes[5]];
        let lsd = LogicalScreenDescriptor {
            width: read_le16(bytes, 6),
            height: read_le16(bytes, 8),
            packed_fields: bytes[10],
            background_color_index: bytes[11],
            pixel_aspect_ratio: bytes[12],
        };
        let mut chunks: Vec<Chunk> = Vec::new();
        chunks.push(Chunk::Header(header));
        let ghost c0 = chunks@;
        chunks.push(Chunk::LogicalScreenDescriptor(lsd));
        proof {
            assert(header@ =~= bytes@.subrange(0, 6));
            lemma_le16_of_le16_int(bytes@.subrange(6, 8));
            lemma_le16_of_le16_int(bytes@.subrange(8, 10));
            lemma_chunks_ser_push(c0, Chunk::LogicalScreenDescriptor(lsd));
            assert(chunks_ser(Seq::<Chunk>::empty()) == Seq::<u8>::empty());
            assert(c0.drop_first() =~= Seq::<Chunk>::empty());
            assert(chunks_ser(c0) == chunk_ser(c0[0]) + chunks_ser(c0.drop_first()));
            assert(chunks_ser(c0) =~= bytes@.subrange(0, 6));
            assert(chunk_ser(Chunk::LogicalScreenDescriptor(lsd)) =~= bytes@.subrange(6, 13));
            assert(chunks_ser(chunks@) =~= bytes@.subrange(0, 13));
        }
        let packed10 = bytes[10];
        proof {
            assert(packed10 & 0x80 != 0 <==> packed10 >= 0x80) by (bit_vector);
        }
        let mut body: usize = 13;
        if packed10 >= 0x80 {
            let size = color_table_size(bytes[10]);
            if len - 13 < size {
                return Err(PngKeyError::MalformedContainer);
            }
            body = 13 + size;
            let gct = copy_range(bytes, 13, body);
            proof {
                assert(color_table_len(packed10) == size);
            }
            let ghost c1 = chunks@;
            chunks.push(Chunk::GlobalColorTable(gct));
            proof {
                lemma_chunks_ser_push(c1, Chunk::GlobalColorTable(gct));
                assert(chunks_ser(chunks@) =~= bytes@.subrange(0, body as int));
            }
        }
        let ghost body0 = body as int;
        let ghost body_start: int = if packed10 & 0x80 != 0 {
            3
        } else {
            2
        };
        let mut index: usize = body;
        let mut done = false;
        while !done
            invariant
                body0 <= index <= len == bytes@.len(),
                gif_bytes_ok(bytes@) <==> (done || gif_scan(bytes@, index as int)),
                chunks_ser(chunks@) == bytes@.subrange(0, index as int),
                forall|i: int| 0 <= i < chunks@.len() ==> chunk_wf(#[trigger] chunks@[i]),
                done ==> index == len,
                body_start == if packed10 & 0x80 != 0 {
                    3int
                } else {
                    2int
                },
                chunks@.len() >= body_start,
                chunks@[0] is Header,
                chunks@[1] matches Chunk::LogicalScreenDescriptor(l) && l.packed_fields
                    == packed10,
                body_start == 3 ==> (chunks@[2] matches Chunk::GlobalColorTable(v) && v@.len()
                    == color_table_len(packed10)),
                !done ==> forall|i: int|
                    body_start <= i < chunks@.len() ==> ((#[trigger] chunks@[i]) is Image
                        || chunks@[i] is Extension),
                done ==> chunks@.last() is Trailer && (forall|i: int|
                    body_start <= i < chunks@.len() - 1 ==> ((#[trigger] chunks@[i]) is Image
                        || chunks@[i] is Extension)),
            decreases len - index + (if done {
                0int
            } else {
                1int
            }),
        {
            if index >= len {
                return Err(PngKeyError::MalformedContainer);
            }
            let introducer = bytes[index];
            if introducer == 0x3b {
                if index + 1 != len {
                    return Err(PngKeyError::MalformedContainer);
                }
                let ghost c2 = chunks@;
                chunks.push(Chunk::Trailer);
                proof {
                    lemma_chunks_ser_push(c2, Chunk::Trailer);
                    assert(chunk_ser(Chunk::Trailer) =~= bytes@.subrange(
                        index as int,
                        index + 1,
                    ));
                    assert(bytes@.subrange(0, index + 1) =~= bytes@.subrange(0, index as int)
                        + bytes@.subrange(index as int, index + 1));
                    assert(chunks_ser(chunks@) =~= bytes@.subrange(0, index + 1));
                }
                index = index + 1;
                done = true;
            } else if introducer == 0x2c {
                if len - index < 10 {
                    return Err(PngKeyError::MalformedContainer);
                }
                let descriptor = ImageDescriptor {
                    left: read_le16(bytes, index + 1),
                    top: read_le16(bytes, index + 3),
                    width: read_le16(bytes, index + 5),
                    height: read_le16(bytes, index + 7),
                    packed_fields: bytes[index + 9],
                };
                let packed = bytes[index + 9];
                let has_lct = packed >= 0x80;
                proof {
                    let p = packed;
                    assert(p & 0x80 != 0 <==> p >= 0x80) by (bit_vector);
                }
                let lct_size: usize = if has_lct {
                    color_table_size(packed)
                } else {
                    0
                };
                if len - index - 10 < lct_size {
                    return Err(PngKeyError::MalformedContainer);
                }
                let j = index + 10 + lct_size;
                let local_color_table: Option<Vec<u8>> = if has_lct {
                    Some(copy_range(bytes, index + 10, j))
                } else {
                    None
                };
                if j >= len {
                    return Err(PngKeyError::MalformedContainer);
                }
                let k = match Gif::read_chain_end(bytes, j + 1) {
                    Some(k) => k,
                    None => {
                        return Err(PngKeyError::MalformedContainer);
                    },
                };
                let image_data = copy_range(bytes, j, k);
                proof {
                    lemma_chain_restrict(bytes@, j as int, j + 1, k as int);
                }
                let im = ImageChunk { descriptor, local_color_table, image_data };
                let ghost c2 = chunks@;
                chunks.push(Chunk::Image(im));
                proof {
                    lemma_chunks_ser_push(c2, Chunk::Image(im));
                    lemma_le16_of_le16_int(bytes@.subrange(index + 1, index + 3));
                    lemma_le16_of_le16_int(bytes@.subrange(index + 3, index + 5));
                    lemma_le16_of_le16_int(bytes@.subrange(index + 5, index + 7));
                    lemma_le16_of_le16_int(bytes@.subrange(index + 7, index + 9));
                    assert(chunk_ser(Chunk::Image(im)) =~= bytes@.subrange(
                        index as int,
                        k as int,
                    ));
                    assert(bytes@.subrange(0, k as int) =~= bytes@.subrange(0, index as int)
                        + bytes@.subrange(index as int, k as int));
                    assert(chunks_ser(chunks@) =~= bytes@.subrange(0, k as int));
                }
                index = k;
            } else if introducer == 0x21 {
                if len - index < 2 {
                    return Err(PngKeyError::MalformedContainer);
                }
                let extension_type = bytes[index + 1];
                let k = match Gif::read_chain_end(bytes, index + 2) {
                    Some(k) => k,
                    None => {
                        return Err(PngKeyError::MalformedContainer);
                    },
                };
                let data = copy_range(bytes, index + 2, k);
                proof {
                    lemma_chain_restrict(bytes@, index + 2, index + 2, k as int);
                }
                let e = ExtensionChunk { extension_type, data };
                let ghost c2 = chunks@;
                chunks.push(Chunk::Extension(e));
                proof {
                    lemma_chunks_ser_push(c2, Chunk::Extension(e));
                    assert(chunk_ser(Chunk::Extension(e)) =~= bytes@.subrange(
                        index as int,
                        k as int,
                    ));
                    assert(bytes@.subrange(0, k as int) =~= bytes@.subrange(0, index as int)
                        + bytes@.subrange(index as int, k as int));
                    assert(chunks_ser(chunks@) =~= bytes@.subrange(0, k as int));
                }
                index = k;
            } else {
                return Err(PngKeyError::MalformedContainer);
            }
        }
        let g = Gif { chunks };
        proof {
            assert(bytes@.subrange(0, len as int) =~= bytes@);
            assert(gif_seq_wf(g.chunks@));
        }
        Ok(g)
    }

    /// Append an extension block at the end of the file.
    pub fn append_chunk(&mut self, chunk: ExtensionChunk)
        ensures
            final (self).chunks@ == old(self).chunks@.push(Chunk::Extension(chunk)),
    {
        self.chunks.push(Chunk::Extension(chunk));
    }


    /// The position of the first slot unit whose three-byte code is the
    /// key's bytes, if the key is three bytes long and present.
    pub fn chunk_by_type(&self, chunk_type: &str) -> (r: Option<usize>)
        ensures
            ({
                let kb = chunk_type.spec_bytes();
                match r {
                    Some(i) => kb.len() == 3 && i < self.chunks@.len() && is_slot(
                        self.chunks@[i as int],
                        kb,
                    ) && slot_index(self.chunks@, kb) == Some(i as int),
                    None => kb.len() != 3 || slot_index(self.chunks@, kb) is None,
                }
            }),
    {
        let kb = chunk_type.as_bytes();
        if kb.len() != 3 {
            return None;
        }
        let code = [kb[0], kb[1], kb[2]];
        proof {
            assert(code@ =~= chunk_type.spec_bytes());
        }
        self.position_of(&code)
    }

    /// The position of the first slot unit carrying `code`.
    fn position_of(&self, code: &[u8; 3]) -> (r: Option<usize>)
        ensures
            match r {
                Some(i) => i < self.chunks@.len() && is_slot(self.chunks@[i as int], code@)
                    && slot_index(self.chunks@, code@) == Some(i as int),
                None => slot_index(self.chunks@, code@) is None,
            },
    {
        let ghost p = slot_pred(code@);
        let n = self.chunks.len();
        let mut i: usize = 0;
        while i < n
            invariant
                i <= n == self.chunks@.len(),
                p == slot_pred(code@),
                forall|j: int| 0 <= j < i ==> !p(#[trigger] self.chunks@[j]),
            decreases n - i,
        {
            if Gif::matches_slot(&self.chunks[i], code) {
                proof {
                    assert(p(self.chunks@[i as int]));
                    lemma_find_first_is(self.chunks@, p, i as int);
                }
                return Some(i);
            }
            proof {
                assert(!p(self.chunks@[i as int]));
            }
            i = i + 1;
        }
        proof {
            lemma_find_first_none(self.chunks@, p);
        }
        None
    }

    /// The unit is an Application Extension tagged with the fixed identifier
    /// and `code`.
    fn matches_slot(c: &Chunk, code: &[u8; 3]) -> (r: bool)
        ensures
            r == is_slot(*c, code@),
    {
        match c {
            Chunk::Extension(e) => {
                if e.extension_type != 0xff || e.data.len() < 12 {
                    return false;
                }
                let id_ok = e.data[1] == 0x20 && e.data[2] == 0x70 && e.data[3] == 0x6e
                    && e.data[4] == 0x67 && e.data[5] == 0x6b && e.data[6] == 0x65 && e.data[7]
                    == 0x79 && e.data[8] == 0x20;
                let code_ok = e.data[9] == code[0] && e.data[10] == code[1] && e.data[11]
                    == code[2];
                proof {
                    let d = e.data@;
                    assert(d.subrange(1, 9)[0] == d[1] && d.subrange(1, 9)[1] == d[2]
                        && d.subrange(1, 9)[2] == d[3] && d.subrange(1, 9)[3] == d[4] && d.subrange(
                        1,
                        9,
                    )[4] == d[5] && d.subrange(1, 9)[5] == d[6] && d.subrange(1, 9)[6] == d[7]
                        && d.subrange(1, 9)[7] == d[8]);
                    assert(d.subrange(9, 12)[0] == d[9] && d.subrange(9, 12)[1] == d[10]
                        && d.subrange(9, 12)[2] == d[11]);
                    if id_ok {
                        assert(d.subrange(1, 9) =~= slot_identifier());
                    } else {
                        assert(d.subrange(1, 9) != slot_identifier());
                    }
                    if code_ok {
                        assert(d.subrange(9, 12) =~= code@);
                    } else {
                        assert(d.subrange(9, 12) != code@);
                    }
                }
                id_ok && code_ok
            },
            _ => false,
        }
    }

    /// Build the whole data field of a slot unit: header, packed payload,
    /// terminator.
    fn build_app_data(identifier: &[u8; 8], auth_code: &[u8; 3], data: &[u8]) -> (r: Vec<u8>)
        ensures
            r@ == app_ext_data(identifier@, auth_code@, data@),
    {
        let mut out: Vec<u8> = Vec::new();
        out.push(0x0b);
        out.push(identifier[0]);
        out.push(identifier[1]);
        out.push(identifier[2]);
        out.push(identifier[3]);
        out.push(identifier[4]);
        out.push(identifier[5]);
        out.push(identifier[6]);
        out.push(identifier[7]);
        out.push(auth_code[0]);
        out.push(auth_code[1]);
        out.push(auth_code[2]);
        let ghost hdr = out@;
        proof {
            assert(hdr =~= seq![0x0bu8] + identifier@ + auth_code@);
        }
        let len = data.len();
        let mut pos: usize = 0;
        let ghost packed = Seq::<u8>::empty();
        proof {
            assert(data@.skip(0) =~= data@);
            assert(Seq::<u8>::empty() + pack_chain(data@) =~= pack_chain(data@));
        }
        while pos < len
            invariant
                pos <= len == data@.len(),
                out@ == hdr + packed,
                packed + pack_chain(data@.skip(pos as int)) == pack_chain(data@),
            decreases len - pos,
        {
            let remaining = len - pos;
            let cnt: usize = if remaining > 254 {
                254
            } else {
                remaining
            };
            out.push(cnt as u8);
            let mut t: usize = 0;
            while t < cnt
                invariant
                    cnt <= 254,
                    t <= cnt <= remaining == len - pos,
                    pos + cnt <= len == data@.len(),
                    out@ == hdr + packed + seq![cnt as u8] + data@.subrange(
                        pos as int,
                        pos + t,
                    ),
                decreases cnt - t,
            {
                out.push(data[pos + t]);
                t = t + 1;
                proof {
                    assert(data@.subrange(pos as int, pos + t) =~= data@.subrange(
                        pos as int,
                        pos + t - 1,
                    ).push(data@[pos + t - 1]));
                    assert(out@ =~= hdr + packed + seq![cnt as u8] + data@.subrange(
                        pos as int,
                        pos + t,
                    ));
                }
            }
            proof {
                let rest = data@.skip(pos as int);
                let block = seq![cnt as u8] + data@.subrange(pos as int, pos + cnt);
                if remaining > 254 {
                    assert(rest.len() > 254);
                    assert(rest.take(254) =~= data@.subrange(pos as int, pos + 254));
                    assert(rest.skip(254) =~= data@.skip(pos + cnt));
                    assert(pack_chain(rest) == seq![254u8] + rest.take(254) + pack_chain(
                        rest.skip(254),
                    ));
                    assert(block =~= seq![254u8] + rest.take(254));
                } else {
                    assert(rest.len() == remaining);
                    assert(rest =~= data@.subrange(pos as int, pos + cnt));
                    assert(pack_chain(rest) == seq![rest.len() as u8] + rest);
                    assert(block =~= seq![rest.len() as u8] + rest);
                    assert(data@.skip(pos + cnt).len() == 0);
                    assert(data@.skip(pos + cnt) =~= Seq::<u8>::empty());
                }
                assert((packed + block) + pack_chain(data@.skip(pos + cnt)) =~= packed
                    + pack_chain(rest));
                assert((packed + block) + pack_chain(data@.skip(pos + cnt)) == pack_chain(
                    data@,
                ));
                assert(out@ =~= hdr + (packed + block));
            }
            proof {
                packed = packed + seq![cnt as u8] + data@.subrange(pos as int, pos + cnt);
                assert(out@ =~= hdr + packed);
                assert(packed + pack_chain(data@.skip(pos + cnt)) =~= pack_chain(data@));
            }
            pos = pos + cnt;
        }
        proof {
            assert(data@.skip(len as int) =~= Seq::<u8>::empty());
            assert(packed =~= pack_chain(data@));
        }
        out.push(0x00);
        proof {
            assert(out@ =~= app_ext_data(identifier@, auth_code@, data@));
        }
        out
    }

    /// The position of the last trailer unit, by a backward scan.
    fn trailer_position(&self) -> (r: Option<usize>)
        ensures
            match r {
                Some(t) => t < self.chunks@.len() && last_trailer(self.chunks@) == Some(t as int),
                None => last_trailer(self.chunks@) is None,
            },
    {
        let n = self.chunks.len();
        let mut i = n;
        proof {
            assert(self.chunks@.take(n as int) =~= self.chunks@);
        }
        while i > 0
            invariant
                i <= n == self.chunks@.len(),
                last_trailer(self.chunks@) == last_trailer(self.chunks@.take(i as int)),
            decreases i,
        {
            let is_trailer = match &self.chunks[i - 1] {
                Chunk::Trailer => true,
                _ => false,
            };
            proof {
                let t = self.chunks@.take(i as int);
                assert(t.last() == self.chunks@[i - 1]);
                assert(t.drop_last() =~= self.chunks@.take(i - 1));
            }
            if is_trailer {
                return Some(i - 1);
            }
            i = i - 1;
        }
        proof {
            assert(self.chunks@.take(0) =~= Seq::<Chunk>::empty());
        }
        None
    }

    /// Insert a fresh Application Extension carrying `data` under the given
    /// identifier and code, just before the trailer (at the end when no
    /// trailer exists).
    pub fn add_application_extension(
        &mut self,
        identifier: &[u8; 8],
        auth_code: &[u8; 3],
        data: &[u8],
    ) -> (r: Result<(), PngKeyError>)
        ensures
            r is Ok,
            ({
                let pos = match last_trailer(old(self).chunks@) {
                    Some(p) => p,
                    None => old(self).chunks@.len() as int,
                };
                &&& final (self).chunks@.len() == old(self).chunks@.len() + 1
                &&& (forall|j: int| 0 <= j < pos ==> final (self).chunks@[j] == old(self).chunks@[j])
                &&& (forall|j: int|
                    pos <= j < old(self).chunks@.len() ==> final (self).chunks@[j + 1] == old(
                        self,
                    ).chunks@[j])
                &&& final (self).chunks@[pos] matches Chunk::Extension(e) && e.extension_type
                    == 0xff && e.data@ == app_ext_data(identifier@, auth_code@, data@)
            }),
    {
        let ext_data = Gif::build_app_data(identifier, auth_code, data);
        let ext = ExtensionChunk { extension_type: 0xff, data: ext_data };
        match self.trailer_position() {
            Some(t) => {
                self.chunks.insert(t, Chunk::Extension(ext));
            },
            None => {
                self.chunks.push(Chunk::Extension(ext));
            },
        }
        Ok(())
    }

    /// Replace the payload of the slot unit at `index` in place, keeping its
    /// identifier and code.
    pub fn modify_chunk(&mut self, index: usize, data: Vec<u8>)
        requires
            index < old(self).chunks@.len(),
            old(self).chunks@[index as int] matches Chunk::Extension(e) && e.extension_type == 0xff
                && e.data@.len() >= 12,
        ensures
            final (self).chunks@.len() == old(self).chunks@.len(),
            forall|j: int|
                0 <= j < old(self).chunks@.len() && j != index ==> final (self).chunks@[j] == old(
                    self,
                ).chunks@[j],
            ({
                let old_data = old(self).chunks@[index as int]->Extension_0.data@;
                final (self).chunks@[index as int] matches Chunk::Extension(e) && e.extension_type
                    == 0xff && e.data@ == app_ext_data(
                    old_data.subrange(1, 9),
                    old_data.subrange(9, 12),
                    data@,
                )
            }),
    {
        let (identifier, auth_code) = match &self.chunks[index] {
            Chunk::Extension(e) => {
                let identifier = [
                    e.data[1],
                    e.data[2],
                    e.data[3],
                    e.data[4],
                    e.data[5],
                    e.data[6],
                    e.data[7],
                    e.data[8],
                ];
                let auth_code = [e.data[9], e.data[10], e.data[11]];
                proof {
                    assert(identifier@ =~= e.data@.subrange(1, 9));
                    assert(auth_code@ =~= e.data@.subrange(9, 12));
                }
                (identifier, auth_code)
            },
            _ => {
                proof {
                    assert(false);
                }
                ([0u8; 8], [0u8; 3])
            },
        };
        let ext_data = Gif::build_app_data(&identifier, &auth_code, data.as_slice());
        let ext = ExtensionChunk { extension_type: 0xff, data: ext_data };
        self.chunks[index] = Chunk::Extension(ext);
    }

    /// Remove the first slot unit under the key; fails when the key is not
    /// three bytes or no slot carries it.
    pub fn remove_chunk(&mut self, chunk_type: &str) -> (r: Result<Chunk, PngKeyError>)
        ensures
            ({
                let kb = chunk_type.spec_bytes();
                if kb.len() == 3 {
                    match slot_index(old(self).chunks@, kb) {
                        Some(i) => r matches Ok(c) && c == old(self).chunks@[i] && final (
                        self).chunks@ == old(self).chunks@.remove(i),
                        None => r == Err::<Chunk, PngKeyError>(PngKeyError::SlotNotFound) && final (
                        self).chunks@ == old(self).chunks@,
                    }
                } else {
                    r == Err::<Chunk, PngKeyError>(PngKeyError::SlotNotFound) && final (
                    self).chunks@ == old(self).chunks@
                }
            }),
    {
        match self.chunk_by_type(chunk_type) {
            Some(i) => Ok(self.chunks.remove(i)),
            None => Err(PngKeyError::SlotNotFound),
        }
    }

    /// Unpack the sub-block chain of `d` starting at `start`.
    fn unpack_chain(d: &Vec<u8>, start: usize) -> (r: Option<Vec<u8>>)
        ensures
            match r {
                Some(v) => chain_end(d@, start as int) is Some && v@ == chain_data(
                    d@,
                    start as int,
                ),
                None => chain_end(d@, start as int) is None,
            },
    {
        let len = d.len();
        let mut out: Vec<u8> = Vec::new();
        let mut pos = start;
        while pos < len
            invariant
                start <= pos,
                len == d@.len(),
                chain_end(d@, start as int) == chain_end(d@, pos as int),
                chain_data(d@, start as int) == out@ + chain_data(d@, pos as int),
            decreases len - pos,
        {
            let size = d[pos];
            if size == 0 {
                proof {
                    assert(chain_data(d@, pos as int) =~= Seq::<u8>::empty());
                    assert(out@ =~= out@ + chain_data(d@, pos as int));
                }
                return Some(out);
            }
            if len - pos - 1 < size as usize {
                return None;
            }
            let ghost pre = out@;
            let block = copy_range(d, pos + 1, pos + 1 + size as usize);
            crate::util::append_bytes(&mut out, &block);
            proof {
                assert(chain_data(d@, pos as int) == d@.subrange(
                    pos + 1,
                    pos + 1 + size as int,
                ) + chain_data(d@, pos + 1 + size as int));
                assert(out@ =~= pre + d@.subrange(pos + 1, pos + 1 + size as int));
                assert(out@ + chain_data(d@, pos + 1 + size as int) =~= pre + chain_data(
                    d@,
                    pos as int,
                ));
            }
            pos = pos + 1 + size as usize;
        }
        None
    }

    /// The payload hidden under the key, unpacked from its slot unit's
    /// sub-block chain; nothing when the key is absent or the chain after
    /// the eleven-byte header is broken.  A broken chain cannot come out of
    /// the parser or the slot writer, only out of a hand-built unit; it is
    /// reported as missing rather than returned in part.
    pub fn extract_application_extensions(&self, chunk_type: &str) -> (r: Option<Vec<u8>>)
        ensures
            ({
                let kb = chunk_type.spec_bytes();
                match r {
                    Some(v) => kb.len() == 3 && (slot_index(self.chunks@, kb) matches Some(i) && v@
                        == slot_payload(self.chunks@[i])),
                    None => kb.len() != 3 || slot_index(self.chunks@, kb) is None || (slot_index(
                        self.chunks@,
                        kb,
                    ) matches Some(i) && chain_end(
                        self.chunks@[i]->Extension_0.data@,
                        12,
                    ) is None),
                }
            }),
    {
        let i = match self.chunk_by_type(chunk_type) {
            Some(i) => i,
            None => {
                return None;
            },
        };
        match &self.chunks[i] {
            Chunk::Extension(e) => Gif::unpack_chain(&e.data, 12),
            _ => {
                proof {
                    assert(false);
                }
                None
            },
        }
    }

    /// Replace the payload under the three-byte `code` in place, or insert a
    /// fresh slot unit for it just before the trailer.
    pub fn upsert_chunk(&mut self, auth_code: &[u8; 3], data: &[u8])
        ensures
            upsert_rel(old(self).chunks@, final (self).chunks@, auth_code@, data@),
            old(self).wf() ==> final (self).wf(),
    {
        let identifier: [u8; 8] = [0x20, 0x70, 0x6e, 0x67, 0x6b, 0x65, 0x79, 0x20];
        proof {
            assert(identifier@ =~= slot_identifier());
        }
        let ghost pre = self.chunks@;
        match self.position_of(auth_code) {
            Some(i) => {
                self.modify_chunk(i, crate::util::copy_range_slice(data));
                proof {
                    let old_data = pre[i as int]->Extension_0.data@;
                    assert(old_data.subrange(1, 9) == slot_identifier());
                    assert(old_data.subrange(9, 12) == auth_code@);
                    assert(is_fresh_slot(self.chunks@[i as int], auth_code@, data@));
                    lemma_fresh_slot(self.chunks@[i as int], auth_code@, data@);
                    assert(forall|j: int|
                        0 <= j < pre.len() && j != i ==> self.chunks@[j] == pre[j]);
                    if old(self).wf() {
                        assert forall|j: int| 0 <= j < self.chunks@.len() implies chunk_wf(
                            #[trigger] self.chunks@[j],
                        ) by {
                            if j != i {
                                assert(self.chunks@[j] == pre[j]);
                            }
                        }
                    }
                }
            },
            None => {
                let _ = self.add_application_extension(&identifier, auth_code, data);
                proof {
                    let pos = match last_trailer(pre) {
                        Some(p) => p,
                        None => pre.len() as int,
                    };
                    lemma_last_trailer_bounds(pre);
                    assert(is_fresh_slot(self.chunks@[pos], auth_code@, data@));
                    lemma_fresh_slot(self.chunks@[pos], auth_code@, data@);
                    if old(self).wf() {
                        assert forall|j: int| 0 <= j < self.chunks@.len() implies chunk_wf(
                            #[trigger] self.chunks@[j],
                        ) by {
                            if j < pos {
                                assert(self.chunks@[j] == pre[j]);
                            } else if j > pos {
                                assert(self.chunks@[j] == pre[j - 1]);
                            }
                        }
                    }
                }
            },
        }
    }


    /// The on-disk bytes of one unit.
    fn chunk_bytes(c: &Chunk) -> (r: Vec<u8>)
        ensures
            r@ == chunk_ser(*c),
    {
        let mut out: Vec<u8> = Vec::new();
        match c {
            Chunk::Header(h) => {
                out.push(h[0]);
                out.push(h[1]);
                out.push(h[2]);
                out.push(h[3]);
                out.push(h[4]);
                out.push(h[5]);
                proof {
                    assert(out@ =~= h@);
                }
            },
            Chunk::LogicalScreenDescriptor(l) => {
                crate::util::push_le16(&mut out, l.width);
                crate::util::push_le16(&mut out, l.height);
                out.push(l.packed_fields);
                out.push(l.background_color_index);
                out.push(l.pixel_aspect_ratio);
                proof {
                    assert(out@ =~= chunk_ser(*c));
                }
            },
            Chunk::GlobalColorTable(v) => {
                crate::util::append_bytes(&mut out, v);
                proof {
                    assert(out@ =~= v@);
                }
            },
            Chunk::Image(im) => {
                out.push(0x2c);
                crate::util::push_le16(&mut out, im.descriptor.left);
                crate::util::push_le16(&mut out, im.descriptor.top);
                crate::util::push_le16(&mut out, im.descriptor.width);
                crate::util::push_le16(&mut out, im.descriptor.height);
                out.push(im.descriptor.packed_fields);
                match &im.local_color_table {
                    Some(v) => {
                        crate::util::append_bytes(&mut out, v);
                    },
                    None => {},
                }
                crate::util::append_bytes(&mut out, &im.image_data);
                proof {
                    assert(out@ =~= chunk_ser(*c));
                }
            },
            Chunk::Extension(e) => {
                out.push(0x21);
                out.push(e.extension_type);
                crate::util::append_bytes(&mut out, &e.data);
                proof {
                    assert(out@ =~= chunk_ser(*c));
                }
            },
            Chunk::Trailer => {
                out.push(0x3b);
                proof {
                    assert(out@ =~= chunk_ser(*c));
                }
            },
        }
        out
    }

    /// Serialize the file back to bytes.
    pub fn as_bytes(&self) -> (r: Vec<u8>)
        ensures
            r@ == self.ser(),
    {
        let mut out: Vec<u8> = Vec::new();
        let n = self.chunks.len();
        let mut k: usize = 0;
        proof {
            assert(self.chunks@.take(0) =~= Seq::<Chunk>::empty());
        }
        while k < n
            invariant
                k <= n == self.chunks@.len(),
                out@ == chunks_ser(self.chunks@.take(k as int)),
            decreases n - k,
        {
            let cb = Gif::chunk_bytes(&self.chunks[k]);
            crate::util::append_bytes(&mut out, &cb);
            proof {
                lemma_chunks_ser_push(self.chunks@.take(k as int), self.chunks@[k as int]);
                assert(self.chunks@.take(k as int).push(self.chunks@[k as int]) =~= self.chunks@
                    .take(k + 1));
                assert(out@ =~= chunks_ser(self.chunks@.take(k + 1)));
            }
            k = k + 1;
        }
        proof {
            assert(self.chunks@.take(n as int) =~= self.chunks@);
        }
        out
    }

    /// The units, in file order.
    pub fn chunks(&self) -> (r: &[Chunk])
        ensures
            r@ == self.chunks@,
    {
        self.chunks.as_slice()
    }
}



/// Two well-formed extension units whose serializations begin the same byte
/// sequence are equal, and are followed by the same remainder.
#[verifier::rlimit(100)]
proof fn lemma_gif_ext_prefix(e1: ExtensionChunk, e2: ExtensionChunk, r1: Seq<u8>, r2: Seq<u8>)
    requires
        chunk_wf(Chunk::Extension(e1)),
        chunk_wf(Chunk::Extension(e2)),
        chunk_ser(Chunk::Extension(e1)) + r1 == chunk_ser(Chunk::Extension(e2)) + r2,
    ensures
        chunk_view_eq(Chunk::Extension(e1), Chunk::Extension(e2)),
        r1 == r2,
{
    let w = chunk_ser(Chunk::Extension(e1)) + r1;
    let d1 = e1.data@;
    let d2 = e2.data@;
    assert(e1.extension_type == w[1] && e2.extension_type == w[1]);
    assert forall|k: int| 0 <= k < d1.len() implies #[trigger] d1[k] == w[2 + k] by {
        assert(chunk_ser(Chunk::Extension(e1))[2 + k] == d1[k]);
    }
    assert forall|k: int| 0 <= k < d2.len() implies #[trigger] d2[k] == w[2 + k] by {
        assert(chunk_ser(Chunk::Extension(e2))[2 + k] == d2[k]);
    }
    lemma_chain_embed(w, 2, d1, 0);
    lemma_chain_embed(w, 2, d2, 0);
    assert(d1.len() == d2.len());
    assert(d1 =~= d2);
    let la = chunk_ser(Chunk::Extension(e1)).len() as int;
    assert(la == chunk_ser(Chunk::Extension(e2)).len());
    assert(w.len() == la + r1.len());
    assert(w.len() == la + r2.len());
    assert(r1 =~= r2) by {
        assert(forall|k: int| 0 <= k < r1.len() ==> r1[k] == w[la + k] && r2[k] == w[la + k]);
    }
}

/// Two well-formed image units whose serializations begin the same byte
/// sequence are equal, and are followed by the same remainder.
#[verifier::rlimit(100)]
proof fn lemma_gif_image_prefix(i1: ImageChunk, i2: ImageChunk, r1: Seq<u8>, r2: Seq<u8>)
    requires
        chunk_wf(Chunk::Image(i1)),
        chunk_wf(Chunk::Image(i2)),
        chunk_ser(Chunk::Image(i1)) + r1 == chunk_ser(Chunk::Image(i2)) + r2,
    ensures
        chunk_view_eq(Chunk::Image(i1), Chunk::Image(i2)),
        r1 == r2,
{
    let w = chunk_ser(Chunk::Image(i1)) + r1;
    assert(le16(i1.descriptor.left) =~= le16(i2.descriptor.left)) by {
        assert(forall|k: int|
            0 <= k < 2 ==> le16(i1.descriptor.left)[k] == w[1 + k] && le16(i2.descriptor.left)[k]
                == w[1 + k]);
    }
    assert(le16(i1.descriptor.top) =~= le16(i2.descriptor.top)) by {
        assert(forall|k: int|
            0 <= k < 2 ==> le16(i1.descriptor.top)[k] == w[3 + k] && le16(i2.descriptor.top)[k]
                == w[3 + k]);
    }
    assert(le16(i1.descriptor.width) =~= le16(i2.descriptor.width)) by {
        assert(forall|k: int|
            0 <= k < 2 ==> le16(i1.descriptor.width)[k] == w[5 + k] && le16(i2.descriptor.width)[k]
                == w[5 + k]);
    }
    assert(le16(i1.descriptor.height) =~= le16(i2.descriptor.height)) by {
        assert(forall|k: int|
            0 <= k < 2 ==> le16(i1.descriptor.height)[k] == w[7 + k]
                && le16(i2.descriptor.height)[k] == w[7 + k]);
    }
    lemma_le16_int_of_le16(i1.descriptor.left);
    lemma_le16_int_of_le16(i2.descriptor.left);
    lemma_le16_int_of_le16(i1.descriptor.top);
    lemma_le16_int_of_le16(i2.descriptor.top);
    lemma_le16_int_of_le16(i1.descriptor.width);
    lemma_le16_int_of_le16(i2.descriptor.width);
    lemma_le16_int_of_le16(i1.descriptor.height);
    lemma_le16_int_of_le16(i2.descriptor.height);
    let p = i1.descriptor.packed_fields;
    assert(p == w[9] && i2.descriptor.packed_fields == w[9]);
    let lct_len: int = if p & 0x80 != 0 {
        color_table_len(p)
    } else {
        0
    };
    let lct1 = match i1.local_color_table {
        Some(v) => v@,
        None => Seq::<u8>::empty(),
    };
    let lct2 = match i2.local_color_table {
        Some(v) => v@,
        None => Seq::<u8>::empty(),
    };
    assert(lct1.len() == lct_len && lct2.len() == lct_len);
    assert(lct1 =~= lct2) by {
        assert(forall|k: int|
            0 <= k < lct_len ==> lct1[k] == w[10 + k] && lct2[k] == w[10 + k]);
    }
    let j = 10 + lct_len;
    let d1 = i1.image_data@;
    let d2 = i2.image_data@;
    assert forall|k: int| 0 <= k < d1.len() implies #[trigger] d1[k] == w[j + k] by {
        assert(chunk_ser(Chunk::Image(i1))[j + k] == d1[k]);
    }
    assert forall|k: int| 0 <= k < d2.len() implies #[trigger] d2[k] == w[j + k] by {
        assert(chunk_ser(Chunk::Image(i2))[j + k] == d2[k]);
    }
    lemma_chain_embed(w, j, d1, 1);
    lemma_chain_embed(w, j, d2, 1);
    assert(d1.len() == d2.len());
    assert(d1 =~= d2);
    let la = chunk_ser(Chunk::Image(i1)).len() as int;
    assert(la == chunk_ser(Chunk::Image(i2)).len());
    assert(w.len() == la + r1.len());
    assert(w.len() == la + r2.len());
    assert(r1 =~= r2) by {
        assert(forall|k: int| 0 <= k < r1.len() ==> r1[k] == w[la + k] && r2[k] == w[la + k]);
    }
}

/// A well-formed body-and-trailer run is determined by its serialization.
proof fn lemma_gif_tail_inj(s1: Seq<Chunk>, s2: Seq<Chunk>)
    requires
        forall|i: int| 0 <= i < s1.len() ==> chunk_wf(#[trigger] s1[i]),
        forall|i: int| 0 <= i < s2.len() ==> chunk_wf(#[trigger] s2[i]),
        gif_tail_wf(s1),
        gif_tail_wf(s2),
        chunks_ser(s1) == chunks_ser(s2),
    ensures
        s1.len() == s2.len(),
        forall|i: int| 0 <= i < s1.len() ==> chunk_view_eq(#[trigger] s1[i], s2[i]),
    decreases s1.len(), 1int,
{
    let w = chunks_ser(s1);
    let a = s1[0];
    let b = s2[0];
    assert(w == chunk_ser(a) + chunks_ser(s1.drop_first()));
    assert(w == chunk_ser(b) + chunks_ser(s2.drop_first()));
    assert(w[0] == chunk_ser(a)[0]);
    assert(w[0] == chunk_ser(b)[0]);
    if a is Trailer {
        assert(s1.len() == 1) by {
            if s1.len() > 1 {
                assert(s1[0] is Image || s1[0] is Extension);
            }
        }
        assert(w[0] == 0x3b);
        assert(b is Trailer) by {
            if s2.len() > 1 {
                assert(s2[0] is Image || s2[0] is Extension);
            }
        }
        assert(s2.len() == 1) by {
            if s2.len() > 1 {
                assert(s2[0] is Image || s2[0] is Extension);
            }
        }
    } else if a is Image {
        assert(w[0] == 0x2c);
        assert(s2.len() > 1 || s2[0] is Trailer);
        assert(b is Image) by {
            if s2.len() == 1 {
                assert(s2[0] is Trailer);
                assert(w[0] == 0x3b);
            } else {
                assert(s2[0] is Image || s2[0] is Extension);
                if s2[0] is Extension {
                    assert(w[0] == 0x21);
                }
            }
        }
        lemma_gif_image_prefix(
            a->Image_0,
            b->Image_0,
            chunks_ser(s1.drop_first()),
            chunks_ser(s2.drop_first()),
        );
        assert(s1.len() >= 2) by {
            assert(s1.last() is Trailer);
        }
        assert(s2.len() >= 2) by {
            assert(s2.last() is Trailer);
        }
        lemma_gif_tail_step(s1, s2);
    } else {
        assert(a is Extension);
        assert(w[0] == 0x21);
        assert(b is Extension) by {
            if s2.len() == 1 {
                assert(s2[0] is Trailer);
                assert(w[0] == 0x3b);
            } else {
                assert(s2[0] is Image || s2[0] is Extension);
                if s2[0] is Image {
                    assert(w[0] == 0x2c);
                }
            }
        }
        lemma_gif_ext_prefix(
            a->Extension_0,
            b->Extension_0,
            chunks_ser(s1.drop_first()),
            chunks_ser(s2.drop_first()),
        );
        assert(s1.len() >= 2) by {
            assert(s1.last() is Trailer);
        }
        assert(s2.len() >= 2) by {
            assert(s2.last() is Trailer);
        }
        lemma_gif_tail_step(s1, s2);
    }
}

/// The induction step shared by the image and extension cases: once the
/// heads agree and the remainders are equal, the tails agree too.
proof fn lemma_gif_tail_step(s1: Seq<Chunk>, s2: Seq<Chunk>)
    requires
        forall|i: int| 0 <= i < s1.len() ==> chunk_wf(#[trigger] s1[i]),
        forall|i: int| 0 <= i < s2.len() ==> chunk_wf(#[trigger] s2[i]),
        gif_tail_wf(s1),
        gif_tail_wf(s2),
        s1.len() >= 2,
        s2.len() >= 2,
        chunks_ser(s1.drop_first()) == chunks_ser(s2.drop_first()),
        chunk_view_eq(s1[0], s2[0]),
    ensures
        s1.len() == s2.len(),
        forall|i: int| 0 <= i < s1.len() ==> chunk_view_eq(#[trigger] s1[i], s2[i]),
    decreases s1.len(), 0int,
{
    assert(gif_tail_wf(s1.drop_first())) by {
        assert(s1.drop_first().last() == s1.last());
        assert(forall|j: int| 0 <= j < s1.len() - 1 ==> s1.drop_first()[j] == s1[j + 1]);
    }
    assert(gif_tail_wf(s2.drop_first())) by {
        assert(s2.drop_first().last() == s2.last());
        assert(forall|j: int| 0 <= j < s2.len() - 1 ==> s2.drop_first()[j] == s2[j + 1]);
    }
    lemma_gif_tail_inj(s1.drop_first(), s2.drop_first());
    assert forall|i: int| 0 <= i < s1.len() implies chunk_view_eq(#[trigger] s1[i], s2[i]) by {
        if i > 0 {
            assert(s1.drop_first()[i - 1] == s1[i]);
            assert(s2.drop_first()[i - 1] == s2[i]);
        }
    }
}


/// A well-formed GIF unit sequence in file order is determined by its
/// serialization: equal bytes mean equal units, field by field.
#[verifier::rlimit(100)]
pub proof fn lemma_gif_ser_injective(s1: Seq<Chunk>, s2: Seq<Chunk>)
    requires
        forall|i: int| 0 <= i < s1.len() ==> chunk_wf(#[trigger] s1[i]),
        forall|i: int| 0 <= i < s2.len() ==> chunk_wf(#[trigger] s2[i]),
        gif_seq_wf(s1),
        gif_seq_wf(s2),
        chunks_ser(s1) == chunks_ser(s2),
    ensures
        s1.len() == s2.len(),
        forall|i: int| 0 <= i < s1.len() ==> chunk_view_eq(#[trigger] s1[i], s2[i]),
{
    let w = chunks_ser(s1);
    assert(w == chunk_ser(s1[0]) + chunks_ser(s1.drop_first()));
    assert(chunks_ser(s1.drop_first()) == chunk_ser(s1.drop_first()[0]) + chunks_ser(
        s1.drop_first().drop_first(),
    ));
    assert(s1.drop_first()[0] == s1[1]);
    assert(w == chunk_ser(s2[0]) + chunks_ser(s2.drop_first()));
    assert(chunks_ser(s2.drop_first()) == chunk_ser(s2.drop_first()[0]) + chunks_ser(
        s2.drop_first().drop_first(),
    ));
    assert(s2.drop_first()[0] == s2[1]);
    assert(chunk_ser(s1[0]).len() == 6 && chunk_ser(s2[0]).len() == 6);
    assert(chunk_view_eq(s1[0], s2[0]));
    let l1 = s1[1]->LogicalScreenDescriptor_0;
    let l2 = s2[1]->LogicalScreenDescriptor_0;
    assert(chunk_ser(s1[1]).len() == 7 && chunk_ser(s2[1]).len() == 7);
    assert forall|k: int| 0 <= k < 7 implies chunk_ser(s1[1])[k] == w[6 + k] && chunk_ser(
        s2[1],
    )[k] == w[6 + k] by {
        assert(chunks_ser(s1.drop_first())[k] == w[6 + k]);
        assert(chunks_ser(s2.drop_first())[k] == w[6 + k]);
    }
    assert(le16(l1.width) =~= le16(l2.width)) by {
        assert(forall|k: int|
            0 <= k < 2 ==> le16(l1.width)[k] == chunk_ser(s1[1])[k] && le16(l2.width)[k]
                == chunk_ser(s2[1])[k]);
    }
    assert(le16(l1.height) =~= le16(l2.height)) by {
        assert(forall|k: int|
            0 <= k < 2 ==> le16(l1.height)[k] == chunk_ser(s1[1])[2 + k] && le16(l2.height)[k]
                == chunk_ser(s2[1])[2 + k]);
    }
    lemma_le16_int_of_le16(l1.width);
    lemma_le16_int_of_le16(l2.width);
    lemma_le16_int_of_le16(l1.height);
    lemma_le16_int_of_le16(l2.height);
    assert(l1.packed_fields == chunk_ser(s1[1])[4] && l2.packed_fields == chunk_ser(s2[1])[4]);
    assert(l1.background_color_index == chunk_ser(s1[1])[5] && l2.background_color_index
        == chunk_ser(s2[1])[5]);
    assert(l1.pixel_aspect_ratio == chunk_ser(s1[1])[6] && l2.pixel_aspect_ratio == chunk_ser(
        s2[1],
    )[6]);
    assert(chunk_view_eq(s1[1], s2[1]));
    let bs: int = if l1.packed_fields & 0x80 != 0 {
        3
    } else {
        2
    };
    let head_len: int = if bs == 3 {
        13 + color_table_len(l1.packed_fields)
    } else {
        13
    };
    if bs == 3 {
        let v1 = s1[2]->GlobalColorTable_0;
        let v2 = s2[2]->GlobalColorTable_0;
        let gl = color_table_len(l1.packed_fields);
        assert(s1.drop_first().drop_first()[0] == s1[2]);
        assert(s2.drop_first().drop_first()[0] == s2[2]);
        assert(chunks_ser(s1.drop_first().drop_first()) == chunk_ser(s1[2]) + chunks_ser(
            s1.drop_first().drop_first().drop_first(),
        ));
        assert(chunks_ser(s2.drop_first().drop_first()) == chunk_ser(s2[2]) + chunks_ser(
            s2.drop_first().drop_first().drop_first(),
        ));
        assert(v1@ =~= v2@) by {
            assert(forall|k: int|
                0 <= k < gl ==> v1@[k] == w[13 + k] && v2@[k] == w[13 + k]);
        }
        assert(chunk_view_eq(s1[2], s2[2]));
        assert(s1.drop_first().drop_first().drop_first() =~= s1.skip(3));
        assert(s2.drop_first().drop_first().drop_first() =~= s2.skip(3));
    } else {
        assert(s1.drop_first().drop_first() =~= s1.skip(2));
        assert(s2.drop_first().drop_first() =~= s2.skip(2));
    }
    let t1 = s1.skip(bs);
    let t2 = s2.skip(bs);
    assert(chunks_ser(t1) =~= chunks_ser(t2)) by {
        assert(w.len() == head_len + chunks_ser(t1).len());
        assert(w.len() == head_len + chunks_ser(t2).len());
        assert(forall|k: int|
            0 <= k < chunks_ser(t1).len() ==> chunks_ser(t1)[k] == w[head_len + k] && chunks_ser(
                t2,
            )[k] == w[head_len + k]);
    }
    assert(gif_tail_wf(t1)) by {
        assert(t1.last() == s1.last());
        assert(forall|j: int| 0 <= j < t1.len() ==> t1[j] == s1[j + bs]);
    }
    assert(gif_tail_wf(t2)) by {
        assert(t2.last() == s2.last());
        assert(forall|j: int| 0 <= j < t2.len() ==> t2[j] == s2[j + bs]);
    }
    assert(forall|j: int| 0 <= j < t1.len() ==> chunk_wf(#[trigger] t1[j]));
    assert(forall|j: int| 0 <= j < t2.len() ==> chunk_wf(#[trigger] t2[j]));
    lemma_gif_tail_inj(t1, t2);
    assert forall|i: int| 0 <= i < s1.len() implies chunk_view_eq(#[trigger] s1[i], s2[i]) by {
        if i >= bs {
            assert(t1[i - bs] == s1[i]);
            assert(t2[i - bs] == s2[i]);
        }
    }
}


/// A serialized run of well-formed images and extensions closed by one
/// trailer scans clean.
#[verifier::rlimit(100)]
proof fn lemma_wf_tail_scan(b: Seq<u8>, i: int, s: Seq<Chunk>)
    requires
        0 <= i <= b.len(),
        b.subrange(i, b.len() as int) == chunks_ser(s),
        forall|k: int| 0 <= k < s.len() ==> chunk_wf(#[trigger] s[k]),
        gif_tail_wf(s),
    ensures
        gif_scan(b, i),
    decreases s.len(),
{
    let suffix = b.subrange(i, b.len() as int);
    let c = s[0];
    assert(chunks_ser(s) == chunk_ser(c) + chunks_ser(s.drop_first()));
    let clen = chunk_ser(c).len() as int;
    assert forall|k: int| 0 <= k < clen implies b[i + k] == #[trigger] chunk_ser(c)[k] by {
        assert(suffix[k] == b[i + k]);
        assert(suffix[k] == chunk_ser(c)[k]);
    }
    if s.len() > 1 {
        assert(gif_tail_wf(s.drop_first())) by {
            assert(s.drop_first().last() == s.last());
            assert(forall|j: int| 0 <= j < s.len() - 1 ==> s.drop_first()[j] == s[j + 1]);
        }
        assert forall|k: int| 0 <= k < b.len() - i - clen implies b.subrange(
            i + clen,
            b.len() as int,
        )[k] == chunks_ser(s.drop_first())[k] by {
            assert(b.subrange(i + clen, b.len() as int)[k] == b[i + clen + k]);
            assert(b[i + clen + k] == suffix[clen + k]);
        }
        assert(b.subrange(i + clen, b.len() as int) =~= chunks_ser(s.drop_first()));
    }
    if s.len() == 1 {
        assert(c == s.last());
        assert(c is Trailer);
        assert(b[i] == chunk_ser(c)[0]);
        assert(b[i] == 0x3b);
        assert(suffix.len() == 1);
    } else {
        assert(c is Image || c is Extension);
        if c is Image {
            let im = c->Image_0;
            let d = im.image_data@;
            assert(b[i] == chunk_ser(c)[0]);
            assert(b[i] == 0x2c);
            let p = im.descriptor.packed_fields;
            assert(b[i + 9] == chunk_ser(c)[9]);
            assert(b[i + 9] == p);
            let lct_len: int = if p & 0x80 != 0 {
                color_table_len(p)
            } else {
                0
            };
            let j = i + 10 + lct_len;
            assert(clen == 10 + lct_len + d.len());
            lemma_chain_end_bounds(d, 1);
            assert forall|k: int| 0 <= k < d.len() implies #[trigger] d[k] == b[j + k] by {
                assert(chunk_ser(c)[10 + lct_len + k] == d[k]);
                assert(b[i + 10 + lct_len + k] == chunk_ser(c)[10 + lct_len + k]);
            }
            lemma_chain_embed(b, j, d, 1);
            assert(chain_end(b, j + 1) == Some(i + clen));
            lemma_wf_tail_scan(b, i + clen, s.drop_first());
        } else {
            let e = c->Extension_0;
            let d = e.data@;
            assert(b[i] == chunk_ser(c)[0]);
            assert(b[i] == 0x21);
            lemma_chain_end_bounds(d, 0);
            assert(clen == 2 + d.len());
            assert forall|k: int| 0 <= k < d.len() implies #[trigger] d[k] == b[i + 2 + k] by {
                assert(chunk_ser(c)[2 + k] == d[k]);
                assert(b[i + 2 + k] == chunk_ser(c)[2 + k]);
            }
            lemma_chain_embed(b, i + 2, d, 0);
            assert(chain_end(b, i + 2) == Some(i + clen));
            lemma_wf_tail_scan(b, i + clen, s.drop_first());
        }
    }
}

/// Serialization of well-formed units in file order is a well-formed file:
/// whatever this library writes, its parser accepts.
#[verifier::rlimit(100)]
pub proof fn lemma_wf_ser_parses(s: Seq<Chunk>, bytes: Seq<u8>)
    requires
        chunks_ser(s) == bytes,
        forall|k: int| 0 <= k < s.len() ==> chunk_wf(#[trigger] s[k]),
        gif_seq_wf(s),
    ensures
        gif_bytes_ok(bytes),
{
    assert(bytes == chunk_ser(s[0]) + chunks_ser(s.drop_first()));
    assert(chunks_ser(s.drop_first()) == chunk_ser(s.drop_first()[0]) + chunks_ser(
        s.drop_first().drop_first(),
    ));
    assert(s.drop_first()[0] == s[1]);
    assert(chunk_ser(s[0]).len() == 6);
    assert(chunk_ser(s[1]).len() == 7);
    assert(bytes.subrange(0, 6) =~= gif_magic()) by {
        assert(forall|k: int|
            0 <= k < 6 ==> bytes[k] == chunk_ser(s[0])[k] && chunk_ser(s[0])[k]
                == #[trigger] gif_magic()[k]);
    }
    let l = s[1]->LogicalScreenDescriptor_0;
    assert forall|k: int| 0 <= k < 7 implies bytes[6 + k] == #[trigger] chunk_ser(s[1])[k] by {
        assert(chunks_ser(s.drop_first())[k] == chunk_ser(s[1])[k]);
        assert(bytes[6 + k] == chunks_ser(s.drop_first())[k]);
    }
    assert(bytes[10] == l.packed_fields);
    let bs: int = if l.packed_fields & 0x80 != 0 {
        3
    } else {
        2
    };
    let head_len: int = if bs == 3 {
        13 + color_table_len(l.packed_fields)
    } else {
        13
    };
    if bs == 3 {
        let v = s[2]->GlobalColorTable_0;
        assert(s.drop_first().drop_first()[0] == s[2]);
        assert(chunks_ser(s.drop_first().drop_first()) == chunk_ser(s[2]) + chunks_ser(
            s.drop_first().drop_first().drop_first(),
        ));
        assert(s.drop_first().drop_first().drop_first() =~= s.skip(3));
    } else {
        assert(s.drop_first().drop_first() =~= s.skip(2));
    }
    let t = s.skip(bs);
    assert(gif_tail_wf(t)) by {
        assert(t.last() == s.last());
        assert(forall|j: int| 0 <= j < t.len() ==> t[j] == s[j + bs]);
    }
    assert(forall|j: int| 0 <= j < t.len() ==> chunk_wf(#[trigger] t[j]));
    assert(bytes.len() == head_len + chunks_ser(t).len());
    assert(chunks_ser(t).len() >= 1) by {
        assert(chunks_ser(t) == chunk_ser(t[0]) + chunks_ser(t.drop_first()));
        assert(chunk_ser(t[0]).len() >= 1);
    }
    assert forall|k: int| 0 <= k < bytes.len() - head_len implies bytes.subrange(
        head_len,
        bytes.len() as int,
    )[k] == chunks_ser(t)[k] by {
        assert(bytes.subrange(head_len, bytes.len() as int)[k] == bytes[head_len + k]);
    }
    assert(bytes.subrange(head_len, bytes.len() as int) =~= chunks_ser(t));
    lemma_wf_tail_scan(bytes, head_len, t);
}

/// Unit sequences equal field by field find the same slots.
pub proof fn lemma_view_eq_slots(s: Seq<Chunk>, t: Seq<Chunk>, key: Seq<u8>)
    requires
        s.len() == t.len(),
        forall|i: int| 0 <= i < s.len() ==> chunk_view_eq(#[trigger] s[i], t[i]),
    ensures
        slot_index(s, key) == slot_index(t, key),
{
    let p = slot_pred(key);
    lemma_find_first(s, p);
    match find_first(s, p) {
        Some(i) => {
            assert(chunk_view_eq(s[i], t[i]));
            assert(is_slot(t[i], key));
            assert forall|j: int| 0 <= j < i implies !p(#[trigger] t[j]) by {
                assert(chunk_view_eq(s[j], t[j]));
            }
            lemma_find_first_is(t, p, i);
        },
        None => {
            assert forall|j: int| 0 <= j < t.len() implies !p(#[trigger] t[j]) by {
                assert(chunk_view_eq(s[j], t[j]));
            }
            lemma_find_first_none(t, p);
        },
    }
}

/// Two well-formed, file-ordered unit sequences serialized into the same
/// file carry the same slots with the same payload.
pub proof fn lemma_same_file_same_slots(t: Seq<Chunk>, u: Seq<Chunk>, key: Seq<u8>)
    requires
        forall|i: int| 0 <= i < t.len() ==> chunk_wf(#[trigger] t[i]),
        forall|i: int| 0 <= i < u.len() ==> chunk_wf(#[trigger] u[i]),
        gif_seq_wf(t),
        gif_seq_wf(u),
        chunks_ser(t) == chunks_ser(u),
    ensures
        slot_index(t, key) == slot_index(u, key),
        slot_index(t, key) matches Some(i) ==> t[i] is Extension && u[i] is Extension
            && t[i]->Extension_0.data@ == u[i]->Extension_0.data@ && slot_payload(t[i])
            == slot_payload(u[i]),
{
    lemma_gif_ser_injective(t, u);
    lemma_view_eq_slots(t, u, key);
    lemma_find_first(t, slot_pred(key));
    match slot_index(t, key) {
        Some(i) => {
            assert(is_slot(t[i], key));
            assert(chunk_view_eq(t[i], u[i]));
        },
        None => {},
    }
}

/// An upsert keeps the units well-formed and in file order.
pub proof fn lemma_upsert_seq_wf(s: Seq<Chunk>, t: Seq<Chunk>, key: Seq<u8>, m: Seq<u8>)
    requires
        upsert_rel(s, t, key, m),
        key.len() == 3,
        forall|i: int| 0 <= i < s.len() ==> chunk_wf(#[trigger] s[i]),
        gif_seq_wf(s),
    ensures
        forall|i: int| 0 <= i < t.len() ==> chunk_wf(#[trigger] t[i]),
        gif_seq_wf(t),
{
    let l = s[1]->LogicalScreenDescriptor_0;
    let bs: int = if l.packed_fields & 0x80 != 0 {
        3
    } else {
        2
    };
    lemma_find_first(s, slot_pred(key));
    match slot_index(s, key) {
        Some(q) => {
            lemma_fresh_slot(t[q], key, m);
            assert(s[q] is Extension);
            assert(bs <= q < s.len() - 1) by {
                assert(!(s[0] is Extension));
                assert(!(s[1] is Extension));
                if bs == 3 {
                    assert(!(s[2] is Extension));
                }
                assert(!(s.last() is Extension));
            }
            assert forall|x: int| 0 <= x < t.len() implies chunk_wf(#[trigger] t[x]) by {
                if x != q {
                    assert(t[x] == s[x]);
                }
            }
            assert(t[0] == s[0] && t[1] == s[1] && t.last() == s.last());
            if bs == 3 {
                assert(t[2] == s[2]);
            }
            assert forall|i: int|
                bs <= i < t.len() - 1 implies ((#[trigger] t[i]) is Image || t[i]
                is Extension) by {
                if i != q {
                    assert(t[i] == s[i]);
                }
            }
        },
        None => {
            assert(s.last() is Trailer);
            assert(last_trailer(s) == Some(s.len() - 1));
            let pos = s.len() - 1;
            lemma_fresh_slot(t[pos], key, m);
            assert(bs <= pos) by {
                if bs == 3 {
                    assert(s.len() >= 4);
                }
            }
            assert forall|x: int| 0 <= x < t.len() implies chunk_wf(#[trigger] t[x]) by {
                if x < pos {
                    assert(t[x] == s[x]);
                } else if x > pos {
                    assert(t[x] == s[x - 1]);
                }
            }
            assert(t[0] == s[0] && t[1] == s[1]);
            if bs == 3 {
                assert(t[2] == s[2]);
            }
            assert(t.last() == s[pos]);
            assert forall|i: int|
                bs <= i < t.len() - 1 implies ((#[trigger] t[i]) is Image || t[i]
                is Extension) by {
                if i < pos {
                    assert(t[i] == s[i]);
                } else {
                    assert(i == pos);
                    assert(is_slot(t[pos], key));
                }
            }
        },
    }
}

/// The six-byte magic prefix test.
pub fn is_gif(bytes: &Vec<u8>) -> (r: bool)
    ensures
        r == (bytes@.len() >= 6 && bytes@.subrange(0, 6) == gif_magic()),
{
    let r = bytes.len() >= 6 && bytes[0] == 0x47 && bytes[1] == 0x49 && bytes[2] == 0x46
        && bytes[3] == 0x38 && bytes[4] == 0x39 && bytes[5] == 0x61;
    proof {
        if bytes@.len() >= 6 {
            let s = bytes@.subrange(0, 6);
            assert(s[0] == bytes@[0] && s[1] == bytes@[1] && s[2] == bytes@[2] && s[3] == bytes@[3]
                && s[4] == bytes@[4] && s[5] == bytes@[5]);
            if r {
                assert(s =~= gif_magic());
            } else {
                assert(s != gif_magic());
            }
        }
    }
    r
}

/// The data field a fresh slot unit is built with carries the identifier,
/// the code, and exactly the packed payload.
pub proof fn lemma_app_ext_slot(ident: Seq<u8>, code: Seq<u8>, m: Seq<u8>)
    requires
        ident.len() == 8,
        code.len() == 3,
    ensures
        ({
            let d = app_ext_data(ident, code, m);
            &&& d.len() >= 13
            &&& d[0] == 0x0b
            &&& d.subrange(1, 9) == ident
            &&& d.subrange(9, 12) == code
            &&& chain_end(d, 0) == Some(d.len() as int)
            &&& chain_end(d, 12) == Some(d.len() as int)
            &&& chain_data(d, 12) == m
        }),
{
    let d = app_ext_data(ident, code, m);
    assert(d.subrange(1, 9) =~= ident);
    assert(d.subrange(9, 12) =~= code);
    assert(d.subrange(12, d.len() as int) =~= pack_chain(m) + seq![0u8]);
    lemma_chain_of_pack(d, 12, m);
    assert(chain_end(d, 0) == chain_end(d, 12));
}

// --- laws of the slot operations -------------------------------------------

/// After an upsert, the payload read back under the key is exactly what was
/// written.
pub proof fn lemma_upsert_extract(s: Seq<Chunk>, t: Seq<Chunk>, key: Seq<u8>, m: Seq<u8>)
    requires
        upsert_rel(s, t, key, m),
        key.len() == 3,
    ensures
        slot_index(t, key) matches Some(i) && slot_payload(t[i]) == m && is_fresh_slot(
            t[i],
            key,
            m,
        ),
{
    let p = slot_pred(key);
    lemma_find_first(s, p);
    match slot_index(s, key) {
        Some(i) => {
            lemma_fresh_slot(t[i], key, m);
            lemma_find_first_is(t, p, i);
        },
        None => {
            let pos = match last_trailer(s) {
                Some(q) => q,
                None => s.len() as int,
            };
            lemma_last_trailer_bounds(s);
            lemma_fresh_slot(t[pos], key, m);
            lemma_find_first_is(t, p, pos);
        },
    }
}

/// Where `last_trailer` answers, it answers inside the sequence.
pub proof fn lemma_last_trailer_bounds(s: Seq<Chunk>)
    ensures
        last_trailer(s) matches Some(t) ==> 0 <= t < s.len(),
    decreases s.len(),
{
    if s.len() > 0 && !(s.last() is Trailer) {
        lemma_last_trailer_bounds(s.drop_last());
    }
}


/// How many units carry `key` as their slot code.
pub open spec fn count_slots(s: Seq<Chunk>, key: Seq<u8>) -> int
    decreases s.len(),
{
    if s.len() == 0 {
        0
    } else {
        count_slots(s.drop_first(), key) + if is_slot(s[0], key) {
            1int
        } else {
            0int
        }
    }
}

/// The count of matching units is never negative.
proof fn lemma_count_nonneg(s: Seq<Chunk>, key: Seq<u8>)
    ensures
        count_slots(s, key) >= 0,
    decreases s.len(),
{
    if s.len() > 0 {
        lemma_count_nonneg(s.drop_first(), key);
    }
}

/// The count is zero exactly when nothing matches.
proof fn lemma_count_zero(s: Seq<Chunk>, key: Seq<u8>)
    ensures
        count_slots(s, key) == 0 <==> (forall|j: int| 0 <= j < s.len() ==> !is_slot(
            #[trigger] s[j],
            key,
        )),
    decreases s.len(),
{
    lemma_count_nonneg(s, key);
    if s.len() > 0 {
        lemma_count_nonneg(s.drop_first(), key);
        lemma_count_zero(s.drop_first(), key);
        assert(forall|j: int| 0 < j < s.len() ==> s[j] == s.drop_first()[j - 1]);
    }
}

/// Sequences that match pointwise count the same.
proof fn lemma_count_pointwise(s: Seq<Chunk>, t: Seq<Chunk>, key: Seq<u8>)
    requires
        s.len() == t.len(),
        forall|j: int| 0 <= j < s.len() ==> is_slot(#[trigger] s[j], key) == is_slot(t[j], key),
    ensures
        count_slots(s, key) == count_slots(t, key),
    decreases s.len(),
{
    if s.len() > 0 {
        lemma_count_pointwise(s.drop_first(), t.drop_first(), key);
        assert(forall|j: int| 0 < j < s.len() ==> s[j] == s.drop_first()[j - 1]);
        assert(forall|j: int| 0 < j < t.len() ==> t[j] == t.drop_first()[j - 1]);
    }
}

/// Inserting one element adds its match to the count.
proof fn lemma_count_insert(s: Seq<Chunk>, pos: int, c: Chunk, key: Seq<u8>)
    requires
        0 <= pos <= s.len(),
    ensures
        count_slots(s.insert(pos, c), key) == count_slots(s, key) + if is_slot(c, key) {
            1int
        } else {
            0int
        },
    decreases s.len(),
{
    let si = s.insert(pos, c);
    if pos == 0 {
        assert(si[0] == c);
        assert(si.drop_first() =~= s);
    } else {
        assert(si[0] == s[0]);
        assert(si.drop_first() =~= s.drop_first().insert(pos - 1, c));
        lemma_count_insert(s.drop_first(), pos - 1, c, key);
    }
}

/// After an upsert the key occurs exactly once where it was fresh, and its
/// number of occurrences is unchanged where it already occurred.
pub proof fn lemma_upsert_count(s: Seq<Chunk>, t: Seq<Chunk>, key: Seq<u8>, m: Seq<u8>)
    requires
        upsert_rel(s, t, key, m),
        key.len() == 3,
    ensures
        count_slots(s, key) == 0 ==> count_slots(t, key) == 1,
        count_slots(s, key) > 0 ==> count_slots(t, key) == count_slots(s, key),
{
    let p = slot_pred(key);
    lemma_find_first(s, p);
    lemma_count_zero(s, key);
    lemma_count_nonneg(s, key);
    match slot_index(s, key) {
        Some(i) => {
            lemma_fresh_slot(t[i], key, m);
            lemma_count_pointwise(s, t, key);
        },
        None => {
            let pos = match last_trailer(s) {
                Some(q) => q,
                None => s.len() as int,
            };
            lemma_last_trailer_bounds(s);
            lemma_fresh_slot(t[pos], key, m);
            assert(t =~= s.insert(pos, t[pos])) by {
                assert(forall|j: int| 0 <= j < pos ==> t[j] == s.insert(pos, t[pos])[j]);
                assert(forall|j: int|
                    pos < j < t.len() ==> t[j] == s[j - 1] && s.insert(pos, t[pos])[j] == s[j
                        - 1]);
            }
            lemma_count_insert(s, pos, t[pos], key);
        },
    }
}

/// Writing twice under one key is the same as writing the second payload
/// once: the slot is replaced in place, never accumulated.
pub proof fn lemma_upsert_idempotent(
    s1: Seq<Chunk>,
    s2: Seq<Chunk>,
    s3: Seq<Chunk>,
    key: Seq<u8>,
    d1: Seq<u8>,
    d2: Seq<u8>,
)
    requires
        upsert_rel(s1, s2, key, d1),
        upsert_rel(s2, s3, key, d2),
        key.len() == 3,
    ensures
        upsert_rel(s1, s3, key, d2),
{
    let p = slot_pred(key);
    lemma_find_first(s1, p);
    match slot_index(s1, key) {
        Some(i) => {
            lemma_fresh_slot(s2[i], key, d1);
            lemma_find_first_is(s2, p, i);
        },
        None => {
            let pos = match last_trailer(s1) {
                Some(q) => q,
                None => s1.len() as int,
            };
            lemma_last_trailer_bounds(s1);
            lemma_fresh_slot(s2[pos], key, d1);
            lemma_find_first_is(s2, p, pos);
        },
    }
}

} // verus!
