//! The PNG container: the fixed eight-byte signature followed by a sequence
//! of CRC-guarded chunks.
use vstd::prelude::*;
use vstd::string::StringSliceAdditionalSpecFns;

use crate::PngKeyError;
use crate::chunk::Chunk;
use crate::chunk_type::{ChunkType, all_ascii_letters};
use crate::crc32::crc32_of;
use crate::util::{
    be32, be32_int, copy_range, find_first, lemma_be32_int_of_be32, lemma_be32_of_be32_int,
    lemma_find_first, lemma_find_first_is, lemma_find_first_none, read_be32,
};

verus! {

/// The fixed eight-byte PNG signature.
pub open spec fn png_signature() -> Seq<u8> {
    seq![137u8, 80u8, 78u8, 71u8, 13u8, 10u8, 26u8, 10u8]
}

/// The serialization of a sequence of chunks, in order.
pub open spec fn chunks_ser(s: Seq<Chunk>) -> Seq<u8>
    decreases s.len(),
{
    if s.len() == 0 {
        Seq::empty()
    } else {
        s[0].ser() + chunks_ser(s.drop_first())
    }
}

/// Appending a chunk appends its bytes.
pub proof fn lemma_chunks_ser_push(s: Seq<Chunk>, c: Chunk)
    ensures
        chunks_ser(s.push(c)) == chunks_ser(s) + c.ser(),
    decreases s.len(),
{
    let sp = s.push(c);
    if s.len() == 0 {
        assert(sp[0] == c);
        assert(sp.drop_first() =~= Seq::<Chunk>::empty());
        assert(chunks_ser(sp) == c.ser() + chunks_ser(Seq::<Chunk>::empty()));
        assert(c.ser() + Seq::<u8>::empty() =~= c.ser());
        assert(Seq::<u8>::empty() + c.ser() =~= c.ser());
    } else {
        assert(sp[0] == s[0]);
        assert(sp.drop_first() =~= s.drop_first().push(c));
        lemma_chunks_ser_push(s.drop_first(), c);
        assert(chunks_ser(sp) == s[0].ser() + (chunks_ser(s.drop_first()) + c.ser()));
        assert(s[0].ser() + (chunks_ser(s.drop_first()) + c.ser()) =~= (s[0].ser() + chunks_ser(
            s.drop_first(),
        )) + c.ser());
    }
}

/// Structural verdict on the chunk region of a PNG buffer, scanned from
/// offset `i`: either every chunk is well-formed to the end of the buffer, or
/// the first offence is a grammar violation, or it is a CRC mismatch.
pub enum PngScan {
    Good,
    BadStructure,
    BadCrc,
}

/// Scan the chunk region of `b` from offset `i`.
pub open spec fn scan_chunks(b: Seq<u8>, i: int) -> PngScan
    decreases b.len() - i,
{
    if i == b.len() {
        PngScan::Good
    } else if i + 12 > b.len() {
        PngScan::BadStructure
    } else {
        let len = be32_int(b.subrange(i, i + 4));
        let end = i + 12 + len;
        if end > b.len() {
            PngScan::BadStructure
        } else if !all_ascii_letters(b.subrange(i + 4, i + 8)) {
            PngScan::BadStructure
        } else if be32_int(b.subrange(end - 4, end)) != crc32_of(b.subrange(i + 4, end - 4)) {
            PngScan::BadCrc
        } else {
            scan_chunks(b, end)
        }
    }
}

/// The buffer begins with the PNG signature.
pub open spec fn png_header_ok(b: Seq<u8>) -> bool {
    b.len() >= 8 && b.subrange(0, 8) == png_signature()
}

/// The buffer is a well-formed PNG file.
pub open spec fn png_bytes_ok(b: Seq<u8>) -> bool {
    png_header_ok(b) && scan_chunks(b, 8) == PngScan::Good
}

/// The chunk carries the slot key as its type code.
pub open spec fn is_slot(c: Chunk, key: Seq<u8>) -> bool {
    c.chunk_type@ == key
}

/// The slot test for `key`, as a function value.
pub open spec fn slot_pred(key: Seq<u8>) -> spec_fn(Chunk) -> bool {
    |c: Chunk| is_slot(c, key)
}

/// The position of the first chunk whose type code is `key`.
pub open spec fn slot_index(s: Seq<Chunk>, key: Seq<u8>) -> Option<int> {
    find_first(s, slot_pred(key))
}

/// How many chunks carry `key`.
pub open spec fn count_slots(s: Seq<Chunk>, key: Seq<u8>) -> int
    decreases s.len(),
{
    if s.len() == 0 {
        0
    } else {
        count_slots(s.drop_first(), key) + if is_slot(s[0], key) {
            1int
        } else {
            0int
        }
    }
}

/// `t` is `s` with the payload under `key` replaced in place, or, when `key`
/// is absent, with one fresh chunk for it appended.
pub open spec fn upsert_rel(s: Seq<Chunk>, t: Seq<Chunk>, key: Seq<u8>, data: Seq<u8>) -> bool {
    match slot_index(s, key) {
        Some(i) => {
            &&& t.len() == s.len()
            &&& is_slot(t[i], key)
            &&& t[i].data@ == data
            &&& t[i].wf()
            &&& forall|j: int| 0 <= j < s.len() && j != i ==> t[j] == s[j]
        },
        None => {
            &&& t.len() == s.len() + 1
            &&& is_slot(t[s.len() as int], key)
            &&& t[s.len() as int].data@ == data
            &&& t[s.len() as int].wf()
            &&& forall|j: int| 0 <= j < s.len() ==> t[j] == s[j]
        },
    }
}

/// A PNG file held in memory: its signature bytes and its chunks, in file
/// order.
#[derive(Debug, PartialEq, Eq)]
pub struct Png {
    pub header: [u8; 8],
    pub chunks: Vec<Chunk>,
}

impl Png {
    /// The header is the PNG signature and every chunk is internally
    /// consistent.
    pub open spec fn wf(self) -> bool {
        &&& self.header@ == png_signature()
        &&& forall|i: int| 0 <= i < self.chunks@.len() ==> (#[trigger] self.chunks@[i]).wf()
    }

    /// The on-disk bytes of the whole file.
    pub open spec fn ser(self) -> Seq<u8> {
        self.header@ + chunks_ser(self.chunks@)
    }

    /// Assemble a PNG from chunks, under the standard signature.
    pub fn from_chunks(chunks: Vec<Chunk>) -> (p: Png)
        ensures
            p.chunks@ == chunks@,
            p.header@ == png_signature(),
    {
        let header = [137u8, 80u8, 78u8, 71u8, 13u8, 10u8, 26u8, 10u8];
        proof {
            assert(header@ =~= png_signature());
        }
        Png { header, chunks }
    }

    /// Parse a byte buffer as a PNG file.
    ///
    /// Succeeds exactly on well-formed input, and then re-serializes to the
    /// very same bytes; a chunk whose stored CRC disagrees with the checksum
    /// of its contents is an integrity failure, any other offence a
    /// malformed container.
    #[verifier::rlimit(100)]
    pub fn from_bytes(bytes: &Vec<u8>) -> (r: Result<Png, PngKeyError>)
        ensures
            r is Ok <==> png_bytes_ok(bytes@),
            r matches Ok(p) ==> p.wf() && p.ser() == bytes@,
            r == Err::<Png, PngKeyError>(PngKeyError::IntegrityError) <==> png_header_ok(bytes@)
                && scan_chunks(bytes@, 8) == PngScan::BadCrc,
            r == Err::<Png, PngKeyError>(PngKeyError::MalformedContainer) <==> !png_header_ok(
                bytes@,
            ) || scan_chunks(bytes@, 8) == PngScan::BadStructure,
    {
        let len = bytes.len();
        if len < 8 {
            return Err(PngKeyError::MalformedContainer);
        }
        let sig_ok = bytes[0] == 137 && bytes[1] == 80 && bytes[2] == 78 && bytes[3] == 71
            && bytes[4] == 13 && bytes[5] == 10 && bytes[6] == 26 && bytes[7] == 10;
        proof {
            let s = bytes@.subrange(0, 8);
            assert(s[0] == bytes@[0] && s[1] == bytes@[1] && s[2] == bytes@[2] && s[3] == bytes@[3]
                && s[4] == bytes@[4] && s[5] == bytes@[5] && s[6] == bytes@[6] && s[7] == bytes@[7]);
            if sig_ok {
                assert(s =~= png_signature());
            } else {
                assert(s != png_signature());
            }
        }
        if !sig_ok {
            return Err(PngKeyError::MalformedContainer);
        }
        let mut chunks: Vec<Chunk> = Vec::new();
        let mut index: usize = 8;
        while index < len
            invariant
                8 <= index <= len == bytes@.len(),
                png_header_ok(bytes@),
                scan_chunks(bytes@, 8) == scan_chunks(bytes@, index as int),
                chunks_ser(chunks@) == bytes@.subrange(8, index as int),
                forall|i: int| 0 <= i < chunks@.len() ==> (#[trigger] chunks@[i]).wf(),
            decreases len - index,
        {
            if len - index < 12 {
                return Err(PngKeyError::MalformedContainer);
            }
            let length_u32 = read_be32(bytes, index);
            if (length_u32 as u64) > ((len - index - 12) as u64) {
                return Err(PngKeyError::MalformedContainer);
            }
            let length = length_u32 as usize;
            let end = index + 12 + length;
            let type_arr = [bytes[index + 4], bytes[index + 5], bytes[index + 6], bytes[index + 7]];
            proof {
                assert(type_arr@ =~= bytes@.subrange(index + 4, index + 8));
            }
            let ct = match ChunkType::from_bytes(type_arr) {
                Ok(ct) => ct,
                Err(_) => {
                    return Err(PngKeyError::MalformedContainer);
                },
            };
            let data = copy_range(bytes, index + 8, end - 4);
            let chunk = Chunk::new(ct, data);
            let stored = read_be32(bytes, end - 4);
            proof {
                assert(chunk.crc_input() =~= bytes@.subrange(index + 4, end - 4));
            }
            if chunk.crc() != stored {
                return Err(PngKeyError::IntegrityError);
            }
            let ghost pre = chunks@;
            chunks.push(chunk);
            proof {
                lemma_chunks_ser_push(pre, chunk);
                lemma_be32_of_be32_int(bytes@.subrange(index as int, index + 4));
                lemma_be32_of_be32_int(bytes@.subrange(end - 4, end as int));
                assert(chunk.ser() =~= bytes@.subrange(index as int, end as int));
                assert(bytes@.subrange(8, end as int) =~= bytes@.subrange(8, index as int)
                    + bytes@.subrange(index as int, end as int));
                assert(chunks_ser(chunks@) =~= bytes@.subrange(8, end as int));
            }
            index = end;
        }
        proof {
            assert(bytes@.subrange(8, len as int) =~= bytes@.subrange(8, bytes@.len() as int));
        }
        let p = Png::from_chunks(chunks);
        proof {
            assert(p.ser() =~= bytes@);
        }
        Ok(p)
    }

    /// Append a chunk at the end of the file.
    pub fn append_chunk(&mut self, chunk: Chunk)
        ensures
            final (self).chunks@ == old(self).chunks@.push(chunk),
            final (self).header == old(self).header,
    {
        self.chunks.push(chunk);
    }

    /// The position of the first chunk whose type code spells `chunk_type`,
    /// if any.
    fn position_of(&self, chunk_type: &str) -> (r: Option<usize>)
        ensures
            match r {
                Some(i) => i < self.chunks@.len() && slot_index(
                    self.chunks@,
                    chunk_type.spec_bytes(),
                ) == Some(i as int),
                None => slot_index(self.chunks@, chunk_type.spec_bytes()) is None,
            },
    {
        let ghost key = chunk_type.spec_bytes();
        let ghost p = slot_pred(key);
        let kb = chunk_type.as_bytes();
        if kb.len() != 4 {
            proof {
                assert(forall|j: int|
                    0 <= j < self.chunks@.len() ==> (#[trigger] self.chunks@[j]).chunk_type@.len()
                        == 4);
                lemma_find_first_none(self.chunks@, p);
            }
            return None;
        }
        let n = self.chunks.len();
        let mut i: usize = 0;
        while i < n
            invariant
                i <= n == self.chunks@.len(),
                key == chunk_type.spec_bytes(),
                kb@ == key,
                kb@.len() == 4,
                p == slot_pred(key),
                forall|j: int| 0 <= j < i ==> !p(#[trigger] self.chunks@[j]),
            decreases n - i,
        {
            let tb = self.chunks[i].chunk_type().bytes();
            if tb[0] == kb[0] && tb[1] == kb[1] && tb[2] == kb[2] && tb[3] == kb[3] {
                proof {
                    assert(tb@ =~= key);
                    assert(p(self.chunks@[i as int]));
                    lemma_find_first_is(self.chunks@, p, i as int);
                    assert(find_first(self.chunks@, p) == Some(i as int));
                    assert(p == slot_pred(chunk_type.spec_bytes()));
                    assert(slot_index(self.chunks@, chunk_type.spec_bytes()) == Some(i as int));
                }
                return Some(i);
            }
            proof {
                assert(tb@ == self.chunks@[i as int].chunk_type@);
                assert(tb@[0] == tb[0] && tb@[1] == tb[1] && tb@[2] == tb[2] && tb@[3] == tb[3]);
                assert(kb@[0] == kb[0] && kb@[1] == kb[1] && kb@[2] == kb[2] && kb@[3] == kb[3]);
                assert(!p(self.chunks@[i as int]));
            }
            i = i + 1;
        }
        proof {
            lemma_find_first_none(self.chunks@, p);
        }
        None
    }

    /// Remove the first chunk whose type code spells `chunk_type`; fails when
    /// no chunk carries it.
    pub fn remove_chunk(&mut self, chunk_type: &str) -> (r: Result<Chunk, PngKeyError>)
        ensures
            match slot_index(old(self).chunks@, chunk_type.spec_bytes()) {
                Some(i) => r matches Ok(c) && c == old(self).chunks@[i] && final (self).chunks@
                    == old(self).chunks@.remove(i) && final (self).header == old(self).header,
                None => r == Err::<Chunk, PngKeyError>(PngKeyError::SlotNotFound) && final (
                self).chunks@ == old(self).chunks@ && final (self).header == old(self).header,
            },
    {
        match self.position_of(chunk_type) {
            Some(i) => Ok(self.chunks.remove(i)),
            None => Err(PngKeyError::SlotNotFound),
        }
    }

    /// The stored signature bytes.
    pub fn header(&self) -> (r: &[u8; 8])
        ensures
            r == self.header,
    {
        &self.header
    }

    /// The chunks, in file order.
    pub fn chunks(&self) -> (r: &[Chunk])
        ensures
            r@ == self.chunks@,
    {
        self.chunks.as_slice()
    }

    /// The first chunk whose type code spells `chunk_type`, if any.
    pub fn chunk_by_type(&self, chunk_type: &str) -> (r: Option<&Chunk>)
        ensures
            match r {
                Some(c) => slot_index(self.chunks@, chunk_type.spec_bytes()) matches Some(i) && c
                    == self.chunks@[i],
                None => slot_index(self.chunks@, chunk_type.spec_bytes()) is None,
            },
    {
        match self.position_of(chunk_type) {
            Some(i) => Some(&self.chunks[i]),
            None => None,
        }
    }

    /// Replace the payload under `chunk_type` in place, or append a fresh
    /// chunk for it at the end of the file.
    pub fn upsert_chunk(&mut self, chunk_type: &str, data: Vec<u8>)
        requires
            chunk_type.spec_bytes().len() == 4,
            all_ascii_letters(chunk_type.spec_bytes()),
            data@.len() <= u32::MAX,
        ensures
            upsert_rel(old(self).chunks@, final (self).chunks@, chunk_type.spec_bytes(), data@),
            final (self).header == old(self).header,
            old(self).wf() ==> final (self).wf(),
    {
        let ct = match ChunkType::from_key(chunk_type) {
            Ok(ct) => ct,
            Err(_) => {
                proof {
                    assert(false);
                }
                return ;
            },
        };
        let chunk = Chunk::new(ct, data);
        let ghost key = chunk_type.spec_bytes();
        let ghost pre = self.chunks@;
        match self.position_of(chunk_type) {
            Some(i) => {
                self.chunks[i] = chunk;
                proof {
                    assert(self.chunks@ == pre.update(i as int, chunk));
                    assert(is_slot(chunk, key));
                    assert(forall|j: int|
                        0 <= j < pre.len() && j != i ==> self.chunks@[j] == pre[j]);
                }
            },
            None => {
                self.chunks.push(chunk);
                proof {
                    assert(is_slot(chunk, key));
                    assert(forall|j: int| 0 <= j < pre.len() ==> self.chunks@[j] == pre[j]);
                }
            },
        }
    }

    /// Serialize the file back to bytes.
    pub fn as_bytes(&self) -> (r: Vec<u8>)
        ensures
            r@ == self.ser(),
    {
        let mut out: Vec<u8> = Vec::new();
        out.push(self.header[0]);
        out.push(self.header[1]);
        out.push(self.header[2]);
        out.push(self.header[3]);
        out.push(self.header[4]);
        out.push(self.header[5]);
        out.push(self.header[6]);
        out.push(self.header[7]);
        proof {
            assert(out@ =~= self.header@);
        }
        let n = self.chunks.len();
        let mut k: usize = 0;
        while k < n
            invariant
                k <= n == self.chunks@.len(),
                out@ == self.header@ + chunks_ser(self.chunks@.take(k as int)),
            decreases n - k,
        {
            let cb = self.chunks[k].as_bytes();
            let mut j: usize = 0;
            let m = cb.len();
            while j < m
                invariant
                    j <= m == cb@.len(),
                    out@ == self.header@ + chunks_ser(self.chunks@.take(k as int)) + cb@.subrange(
                        0,
                        j as int,
                    ),
                decreases m - j,
            {
                out.push(cb[j]);
                j = j + 1;
                proof {
                    assert(cb@.subrange(0, j as int) =~= cb@.subrange(0, j - 1).push(cb@[j - 1]));
                    assert(out@ =~= self.header@ + chunks_ser(self.chunks@.take(k as int))
                        + cb@.subrange(0, j as int));
                }
            }
            proof {
                assert(cb@.subrange(0, m as int) =~= cb@);
                lemma_chunks_ser_push(self.chunks@.take(k as int), self.chunks@[k as int]);
                assert(self.chunks@.take(k as int).push(self.chunks@[k as int]) =~= self.chunks@
                    .take(k + 1));
                assert(out@ =~= self.header@ + chunks_ser(self.chunks@.take(k + 1)));
            }
            k = k + 1;
        }
        proof {
            assert(self.chunks@.take(n as int) =~= self.chunks@);
        }
        out
    }
}

// --- laws of the slot operations -------------------------------------------

/// After an upsert, the payload read back under the key is exactly what was
/// written.
pub proof fn lemma_upsert_extract(s: Seq<Chunk>, t: Seq<Chunk>, key: Seq<u8>, data: Seq<u8>)
    requires
        upsert_rel(s, t, key, data),
    ensures
        slot_index(t, key) matches Some(i) && t[i].data@ == data,
{
    let p = slot_pred(key);
    lemma_find_first(s, p);
    match slot_index(s, key) {
        Some(i) => {
            lemma_find_first_is(t, p, i);
        },
        None => {
            lemma_find_first_is(t, p, s.len() as int);
        },
    }
}

/// Writing twice under one key is the same as writing the second payload
/// once: the slot is replaced in place, never accumulated.
pub proof fn lemma_upsert_idempotent(
    s1: Seq<Chunk>,
    s2: Seq<Chunk>,
    s3: Seq<Chunk>,
    key: Seq<u8>,
    d1: Seq<u8>,
    d2: Seq<u8>,
)
    requires
        upsert_rel(s1, s2, key, d1),
        upsert_rel(s2, s3, key, d2),
    ensures
        upsert_rel(s1, s3, key, d2),
{
    let p = slot_pred(key);
    lemma_find_first(s1, p);
    match slot_index(s1, key) {
        Some(i) => {
            lemma_find_first_is(s2, p, i);
        },
        None => {
            lemma_find_first_is(s2, p, s1.len() as int);
        },
    }
}

/// A chunk that matches somewhere means a positive count.
proof fn lemma_count_nonneg(s: Seq<Chunk>, key: Seq<u8>)
    ensures
        count_slots(s, key) >= 0,
    decreases s.len(),
{
    if s.len() > 0 {
        lemma_count_nonneg(s.drop_first(), key);
    }
}

/// The count is zero exactly when nothing matches.
proof fn lemma_count_zero(s: Seq<Chunk>, key: Seq<u8>)
    ensures
        count_slots(s, key) == 0 <==> (forall|j: int| 0 <= j < s.len() ==> !is_slot(
            #[trigger] s[j],
            key,
        )),
    decreases s.len(),
{
    lemma_count_nonneg(s, key);
    if s.len() > 0 {
        lemma_count_nonneg(s.drop_first(), key);
        lemma_count_zero(s.drop_first(), key);
        assert(forall|j: int| 0 < j < s.len() ==> s[j] == s.drop_first()[j - 1]);
    }
}

/// Replacing one matching element with a matching one keeps the count;
/// counting distributes over the split at `i`.
proof fn lemma_count_pointwise(s: Seq<Chunk>, t: Seq<Chunk>, key: Seq<u8>)
    requires
        s.len() == t.len(),
        forall|j: int| 0 <= j < s.len() ==> is_slot(#[trigger] s[j], key) == is_slot(t[j], key),
    ensures
        count_slots(s, key) == count_slots(t, key),
    decreases s.len(),
{
    if s.len() > 0 {
        lemma_count_pointwise(s.drop_first(), t.drop_first(), key);
        assert(forall|j: int| 0 < j < s.len() ==> s[j] == s.drop_first()[j - 1]);
        assert(forall|j: int| 0 < j < t.len() ==> t[j] == t.drop_first()[j - 1]);
    }
}

/// Appending one element adds its match to the count.
proof fn lemma_count_push(s: Seq<Chunk>, c: Chunk, key: Seq<u8>)
    ensures
        count_slots(s.push(c), key) == count_slots(s, key) + if is_slot(c, key) {
            1int
        } else {
            0int
        },
    decreases s.len(),
{
    let sp = s.push(c);
    if s.len() == 0 {
        assert(sp[0] == c);
        assert(sp.drop_first() =~= Seq::<Chunk>::empty());
        assert(count_slots(sp, key) == count_slots(Seq::<Chunk>::empty(), key) + if is_slot(
            c,
            key,
        ) {
            1int
        } else {
            0int
        });
    } else {
        assert(sp[0] == s[0]);
        assert(sp.drop_first() =~= s.drop_first().push(c));
        lemma_count_push(s.drop_first(), c, key);
    }
}

/// After an upsert the key occurs exactly once where it was fresh, and its
/// number of occurrences is unchanged where it already occurred.
pub proof fn lemma_upsert_count(s: Seq<Chunk>, t: Seq<Chunk>, key: Seq<u8>, data: Seq<u8>)
    requires
        upsert_rel(s, t, key, data),
    ensures
        count_slots(s, key) == 0 ==> count_slots(t, key) == 1,
        count_slots(s, key) > 0 ==> count_slots(t, key) == count_slots(s, key),
{
    let p = slot_pred(key);
    lemma_find_first(s, p);
    lemma_count_zero(s, key);
    lemma_count_nonneg(s, key);
    match slot_index(s, key) {
        Some(i) => {
            lemma_count_pointwise(s, t, key);
        },
        None => {
            assert(t =~= t.take(s.len() as int).push(t[s.len() as int]));
            lemma_count_push(t.take(s.len() as int), t[s.len() as int], key);
            lemma_count_pointwise(s, t.take(s.len() as int), key);
        },
    }
}


/// The chunk region serialized from well-formed chunks scans clean: every
/// length field, type code and CRC satisfies the parser.
#[verifier::rlimit(100)]
proof fn lemma_wf_chunks_scan(b: Seq<u8>, i: int, s: Seq<Chunk>)
    requires
        0 <= i <= b.len(),
        b.subrange(i, b.len() as int) == chunks_ser(s),
        forall|k: int| 0 <= k < s.len() ==> (#[trigger] s[k]).wf(),
    ensures
        scan_chunks(b, i) == PngScan::Good,
    decreases s.len(),
{
    let suffix = b.subrange(i, b.len() as int);
    if s.len() == 0 {
        assert(suffix.len() == 0);
    } else {
        let c = s[0];
        lemma_chunk_ser_len(c);
        assert(chunks_ser(s) == c.ser() + chunks_ser(s.drop_first()));
        let clen = 12 + c.data@.len() as int;
        let end = i + clen;
        assert(end <= b.len());
        assert forall|k: int| 0 <= k < clen implies b[i + k] == #[trigger] c.ser()[k] by {
            assert(suffix[k] == b[i + k]);
            assert(suffix[k] == c.ser()[k]);
        }
        assert(b.subrange(i, i + 4) =~= be32(c.length)) by {
            assert(forall|k: int| 0 <= k < 4 ==> b[i + k] == c.ser()[k] && #[trigger] be32(
                c.length,
            )[k] == c.ser()[k]);
        }
        lemma_be32_int_of_be32(c.length);
        assert(be32_int(b.subrange(i, i + 4)) == c.data@.len());
        assert(b.subrange(i + 4, i + 8) =~= c.chunk_type@) by {
            assert(forall|k: int| 0 <= k < 4 ==> b[i + 4 + k] == c.ser()[4 + k]
                && #[trigger] c.chunk_type@[k] == c.ser()[4 + k]);
        }
        assert(b.subrange(i + 4, end - 4) =~= c.crc_input()) by {
            assert(forall|k: int| 0 <= k < 4 + c.data@.len() ==> b[i + 4 + k] == c.ser()[4 + k]
                && #[trigger] c.crc_input()[k] == c.ser()[4 + k]);
        }
        assert(b.subrange(end - 4, end) =~= be32(c.crc)) by {
            assert(forall|k: int| 0 <= k < 4 ==> b[end - 4 + k] == c.ser()[clen - 4 + k]
                && #[trigger] be32(c.crc)[k] == c.ser()[clen - 4 + k]);
        }
        lemma_be32_int_of_be32(c.crc);
        assert(be32_int(b.subrange(end - 4, end)) == crc32_of(b.subrange(i + 4, end - 4)));
        assert(b.subrange(end, b.len() as int) =~= chunks_ser(s.drop_first())) by {
            assert(forall|k: int|
                0 <= k < b.len() - end ==> b.subrange(end, b.len() as int)[k] == suffix[clen + k]);
        }
        assert(forall|k: int| 0 <= k < s.len() - 1 ==> s.drop_first()[k] == s[k + 1]);
        lemma_wf_chunks_scan(b, end, s.drop_first());
        assert(scan_chunks(b, i) == scan_chunks(b, end));
    }
}

/// Serialization of well-formed chunks under the signature is a well-formed
/// file: whatever this library writes, its parser accepts.
pub proof fn lemma_wf_ser_parses(s: Seq<Chunk>, bytes: Seq<u8>)
    requires
        png_signature() + chunks_ser(s) == bytes,
        forall|k: int| 0 <= k < s.len() ==> (#[trigger] s[k]).wf(),
    ensures
        png_bytes_ok(bytes),
{
    assert(bytes.subrange(0, 8) =~= png_signature()) by {
        assert(forall|k: int|
            0 <= k < 8 ==> bytes[k] == (png_signature() + chunks_ser(s))[k] && (png_signature()
                + chunks_ser(s))[k] == png_signature()[k]);
    }
    assert(bytes.subrange(8, bytes.len() as int) =~= chunks_ser(s)) by {
        assert(forall|k: int|
            0 <= k < bytes.len() - 8 ==> bytes.subrange(8, bytes.len() as int)[k] == bytes[8 + k]
                && bytes[8 + k] == (png_signature() + chunks_ser(s))[8 + k]);
    }
    lemma_wf_chunks_scan(bytes, 8, s);
}

/// Two chunks agree in every observable field.
pub open spec fn chunk_view_eq(a: Chunk, b: Chunk) -> bool {
    &&& a.length == b.length
    &&& a.chunk_type@ == b.chunk_type@
    &&& a.data@ == b.data@
    &&& a.crc == b.crc
}

/// A chunk's bytes are at least the twelve fixed ones.
proof fn lemma_chunk_ser_len(c: Chunk)
    ensures
        c.ser().len() == 12 + c.data@.len(),
{
}

/// Serializations that begin the same bytes begin with the same length
/// field.
proof fn lemma_ser_same_length(a: Chunk, b: Chunk, r1: Seq<u8>, r2: Seq<u8>)
    requires
        a.ser() + r1 == b.ser() + r2,
    ensures
        a.length == b.length,
{
    let w = a.ser() + r1;
    assert(w[0] == be32(a.length)[0] && w[1] == be32(a.length)[1] && w[2] == be32(a.length)[2]
        && w[3] == be32(a.length)[3]);
    assert(w[0] == be32(b.length)[0] && w[1] == be32(b.length)[1] && w[2] == be32(b.length)[2]
        && w[3] == be32(b.length)[3]);
    assert(be32(a.length) =~= be32(b.length));
    lemma_be32_int_of_be32(a.length);
    lemma_be32_int_of_be32(b.length);
}

/// Equal serializations of well-formed chunks mean equal fields.
proof fn lemma_equal_ser_fields(a: Chunk, b: Chunk)
    requires
        a.wf(),
        b.wf(),
        a.ser() == b.ser(),
    ensures
        chunk_view_eq(a, b),
{
    lemma_ser_same_length(a, b, Seq::empty(), Seq::empty()) ;
    let w = a.ser();
    let la = w.len() as int;
    assert(a.chunk_type@ =~= b.chunk_type@) by {
        assert(forall|k: int|
            0 <= k < 4 ==> a.chunk_type@[k] == w[k + 4] && b.chunk_type@[k] == w[k + 4]);
    }
    assert(a.data@ =~= b.data@) by {
        assert(forall|k: int|
            0 <= k < a.data@.len() ==> a.data@[k] == w[k + 8] && b.data@[k] == w[k + 8]);
    }
    assert(be32(a.crc) =~= be32(b.crc)) by {
        assert(forall|k: int|
            0 <= k < 4 ==> be32(a.crc)[k] == w[la - 4 + k] && be32(b.crc)[k] == w[la - 4 + k]);
    }
    lemma_be32_int_of_be32(a.crc);
    lemma_be32_int_of_be32(b.crc);
}

/// Two well-formed chunks whose serializations begin the same byte sequence
/// are equal field by field, and are followed by the same remainder.
proof fn lemma_chunk_ser_prefix(a: Chunk, b: Chunk, r1: Seq<u8>, r2: Seq<u8>)
    requires
        a.wf(),
        b.wf(),
        a.ser() + r1 == b.ser() + r2,
    ensures
        chunk_view_eq(a, b),
        r1 == r2,
{
    let w = a.ser() + r1;
    lemma_ser_same_length(a, b, r1, r2);
    lemma_chunk_ser_len(a);
    lemma_chunk_ser_len(b);
    let la = a.ser().len() as int;
    assert(la == b.ser().len());
    assert forall|k: int| 0 <= k < la implies a.ser()[k] == b.ser()[k] by {
        assert(a.ser()[k] == w[k]);
        assert(b.ser()[k] == w[k]);
    }
    assert(a.ser() =~= b.ser());
    lemma_equal_ser_fields(a, b);
    assert(w.len() == la + r1.len());
    assert(w.len() == la + r2.len());
    assert(r1 =~= r2) by {
        assert(forall|k: int|
            0 <= k < r1.len() ==> r1[k] == w[la + k] && r2[k] == w[la + k]);
    }
}

/// A well-formed chunk sequence is determined by its serialization: equal
/// bytes mean equal chunks, field by field.  Together with the parser's
/// contract this makes parsing the exact inverse of serialization.
pub proof fn lemma_chunks_ser_injective(s1: Seq<Chunk>, s2: Seq<Chunk>)
    requires
        forall|i: int| 0 <= i < s1.len() ==> (#[trigger] s1[i]).wf(),
        forall|i: int| 0 <= i < s2.len() ==> (#[trigger] s2[i]).wf(),
        chunks_ser(s1) == chunks_ser(s2),
    ensures
        s1.len() == s2.len(),
        forall|i: int| 0 <= i < s1.len() ==> chunk_view_eq(#[trigger] s1[i], s2[i]),
    decreases s1.len(),
{
    if s1.len() == 0 && s2.len() == 0 {
    } else if s1.len() == 0 {
        lemma_chunk_ser_len(s2[0]);
        assert(chunks_ser(s2).len() >= 12);
    } else if s2.len() == 0 {
        lemma_chunk_ser_len(s1[0]);
        assert(chunks_ser(s1).len() >= 12);
    } else {
        lemma_chunk_ser_prefix(
            s1[0],
            s2[0],
            chunks_ser(s1.drop_first()),
            chunks_ser(s2.drop_first()),
        );
        lemma_chunks_ser_injective(s1.drop_first(), s2.drop_first());
        assert forall|i: int| 0 <= i < s1.len() implies chunk_view_eq(#[trigger] s1[i], s2[i]) by {
            if i > 0 {
                assert(s1.drop_first()[i - 1] == s1[i]);
                assert(s2.drop_first()[i - 1] == s2[i]);
            }
        }
    }
}

/// Chunk sequences equal field by field find the same slots with the same
/// stored data.
pub proof fn lemma_view_eq_slots(s: Seq<Chunk>, t: Seq<Chunk>, key: Seq<u8>)
    requires
        s.len() == t.len(),
        forall|i: int| 0 <= i < s.len() ==> chunk_view_eq(#[trigger] s[i], t[i]),
    ensures
        slot_index(s, key) == slot_index(t, key),
{
    let p = slot_pred(key);
    lemma_find_first(s, p);
    match find_first(s, p) {
        Some(i) => {
            assert(chunk_view_eq(s[i], t[i]));
            assert(is_slot(t[i], key));
            assert forall|j: int| 0 <= j < i implies !p(#[trigger] t[j]) by {
                assert(chunk_view_eq(s[j], t[j]));
            }
            lemma_find_first_is(t, p, i);
        },
        None => {
            assert forall|j: int| 0 <= j < t.len() implies !p(#[trigger] t[j]) by {
                assert(chunk_view_eq(s[j], t[j]));
            }
            lemma_find_first_none(t, p);
        },
    }
}

/// An upsert on a well-formed chunk sequence leaves every chunk
/// well-formed.
pub proof fn lemma_upsert_wf(s: Seq<Chunk>, t: Seq<Chunk>, key: Seq<u8>, data: Seq<u8>)
    requires
        upsert_rel(s, t, key, data),
        forall|i: int| 0 <= i < s.len() ==> (#[trigger] s[i]).wf(),
    ensures
        forall|i: int| 0 <= i < t.len() ==> (#[trigger] t[i]).wf(),
{
    lemma_find_first(s, slot_pred(key));
    assert forall|x: int| 0 <= x < t.len() implies (#[trigger] t[x]).wf() by {
        match slot_index(s, key) {
            Some(q) => {
                if x != q {
                    assert(t[x] == s[x]);
                }
            },
            None => {
                if x < s.len() {
                    assert(t[x] == s[x]);
                }
            },
        }
    }
}

/// Two well-formed chunk sequences serialized into the same file carry the
/// same slots with the same stored data.
pub proof fn lemma_same_file_same_slots(t: Seq<Chunk>, u: Seq<Chunk>, key: Seq<u8>)
    requires
        forall|i: int| 0 <= i < t.len() ==> (#[trigger] t[i]).wf(),
        forall|i: int| 0 <= i < u.len() ==> (#[trigger] u[i]).wf(),
        png_signature() + chunks_ser(t) == png_signature() + chunks_ser(u),
    ensures
        slot_index(t, key) == slot_index(u, key),
        slot_index(t, key) matches Some(i) ==> t[i].data@ == u[i].data@,
{
    let w1 = png_signature() + chunks_ser(t);
    let w2 = png_signature() + chunks_ser(u);
    assert(w1.len() == 8 + chunks_ser(t).len());
    assert(w2.len() == 8 + chunks_ser(u).len());
    assert(chunks_ser(t).len() == chunks_ser(u).len());
    assert forall|k: int| 0 <= k < chunks_ser(t).len() implies chunks_ser(t)[k] == chunks_ser(
        u,
    )[k] by {
        assert(chunks_ser(t)[k] == w1[k + 8]);
        assert(k < chunks_ser(u).len());
        assert(chunks_ser(u)[k] == w2[k + 8]);
    }
    assert(chunks_ser(t) =~= chunks_ser(u));
    lemma_chunks_ser_injective(t, u);
    lemma_view_eq_slots(t, u, key);
    lemma_find_first(t, slot_pred(key));
    match slot_index(t, key) {
        Some(i) => {
            assert(chunk_view_eq(t[i], u[i]));
        },
        None => {},
    }
}

/// A well-formed PNG file is determined by its bytes: chunks and header
/// alike.
pub proof fn lemma_png_ser_injective(p1: Png, p2: Png)
    requires
        p1.wf(),
        p2.wf(),
        p1.ser() == p2.ser(),
    ensures
        p1.chunks@.len() == p2.chunks@.len(),
        forall|i: int|
            0 <= i < p1.chunks@.len() ==> chunk_view_eq(#[trigger] p1.chunks@[i], p2.chunks@[i]),
{
    assert(chunks_ser(p1.chunks@) =~= chunks_ser(p2.chunks@)) by {
        assert(chunks_ser(p1.chunks@) =~= p1.ser().subrange(8, p1.ser().len() as int));
        assert(chunks_ser(p2.chunks@) =~= p2.ser().subrange(8, p2.ser().len() as int));
    }
    lemma_chunks_ser_injective(p1.chunks@, p2.chunks@);
}

} // verus!
