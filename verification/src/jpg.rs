//! The JPEG container: the two-byte start-of-image marker followed by a
//! sequence of marker segments, with one raw entropy-coded scan region per
//! `SOS` marker.
use vstd::prelude::*;
use vstd::string::StringSliceAdditionalSpecFns;

pub mod chunk;
pub mod chunk_type;
pub mod command;

use crate::PngKeyError;
use crate::jpg::chunk::{Chunk, is_bare_marker, is_scan_marker};
use crate::jpg::chunk_type::{all_digits, dec_val, parse_dec_u8};
use crate::util::{
    be16, be16_int, copy_range, find_first, lemma_be16_int_of_be16, lemma_be16_of_be16_int,
    lemma_find_first, lemma_find_first_is, lemma_find_first_none, read_be16,
};

verus! {

/// The two-byte start-of-image marker.
pub open spec fn jpg_magic() -> Seq<u8> {
    seq![0xffu8, 0xd8u8]
}

/// The serialization of a sequence of segments, in order.
pub open spec fn chunks_ser(s: Seq<Chunk>) -> Seq<u8>
    decreases s.len(),
{
    if s.len() == 0 {
        Seq::empty()
    } else {
        s[0].ser() + chunks_ser(s.drop_first())
    }
}

/// Appending a segment appends its bytes.
pub proof fn lemma_chunks_ser_push(s: Seq<Chunk>, c: Chunk)
    ensures
        chunks_ser(s.push(c)) == chunks_ser(s) + c.ser(),
    decreases s.len(),
{
    let sp = s.push(c);
    if s.len() == 0 {
        assert(sp[0] == c);
        assert(sp.drop_first() =~= Seq::<Chunk>::empty());
        assert(chunks_ser(sp) == c.ser() + chunks_ser(Seq::<Chunk>::empty()));
        assert(c.ser() + Seq::<u8>::empty() =~= c.ser());
        assert(Seq::<u8>::empty() + c.ser() =~= c.ser());
    } else {
        assert(sp[0] == s[0]);
        assert(sp.drop_first() =~= s.drop_first().push(c));
        lemma_chunks_ser_push(s.drop_first(), c);
        assert(chunks_ser(sp) == s[0].ser() + (chunks_ser(s.drop_first()) + c.ser()));
        assert(s[0].ser() + (chunks_ser(s.drop_first()) + c.ser()) =~= (s[0].ser() + chunks_ser(
            s.drop_first(),
        )) + c.ser());
    }
}

/// The first position at or after `j` holding a marker: an `FF` byte whose
/// successor is neither `00` (byte stuffing) nor absent.
pub open spec fn next_marker(b: Seq<u8>, j: int) -> Option<int>
    decreases b.len() - j,
{
    if j + 2 > b.len() {
        None
    } else if b[j] == 0xff && b[j + 1] != 0x00 {
        Some(j)
    } else {
        next_marker(b, j + 1)
    }
}

/// The segment region of `b` from offset `i` is a well-formed chain of
/// marker segments running exactly to the end of the buffer.
pub open spec fn jpg_scan(b: Seq<u8>, i: int) -> bool
    decreases b.len() - i,
{
    if i == b.len() {
        true
    } else if i + 2 > b.len() {
        false
    } else if b[i] != 0xff {
        false
    } else {
        let m = b[i + 1];
        if m == 0xd8 || m == 0xd9 {
            jpg_scan(b, i + 2)
        } else if m == 0xda {
            match next_marker(b, i + 2) {
                Some(k) => if i < k <= b.len() {
                    jpg_scan(b, k)
                } else {
                    false
                },
                None => false,
            }
        } else {
            if i + 4 > b.len() {
                false
            } else {
                let l = be16_int(b.subrange(i + 2, i + 4));
                if l < 2 || i + 2 + l > b.len() {
                    false
                } else {
                    jpg_scan(b, i + 2 + l)
                }
            }
        }
    }
}

/// The buffer is a well-formed JPEG file.
pub open spec fn jpg_bytes_ok(b: Seq<u8>) -> bool {
    b.len() >= 2 && b.subrange(0, 2) == jpg_magic() && jpg_scan(b, 2)
}

/// The segments stand in parseable order: every scan segment is followed by
/// a further segment whose marker is not the stuffing byte, so the scan's
/// end can be found again.
pub open spec fn jpg_seq_wf(s: Seq<Chunk>) -> bool {
    forall|i: int|
        0 <= i < s.len() && is_scan_marker((#[trigger] s[i]).chunk_type) ==> i + 1 < s.len()
            && s[i + 1].chunk_type != 0x00
}

/// Two segments agree in every observable field.
pub open spec fn chunk_view_eq(a: Chunk, b: Chunk) -> bool {
    &&& a.head == b.head
    &&& a.chunk_type == b.chunk_type
    &&& a.length == b.length
    &&& a.data@ == b.data@
}

/// The segment carries `marker` as its type.
pub open spec fn is_slot(c: Chunk, marker: u8) -> bool {
    c.chunk_type == marker
}

/// The slot test for `marker`, as a function value.
pub open spec fn slot_pred(marker: u8) -> spec_fn(Chunk) -> bool {
    |c: Chunk| is_slot(c, marker)
}

/// The position of the first segment whose marker is `marker`.
pub open spec fn slot_index(s: Seq<Chunk>, marker: u8) -> Option<int> {
    find_first(s, slot_pred(marker))
}

/// How many segments carry `marker`.
pub open spec fn count_slots(s: Seq<Chunk>, marker: u8) -> int
    decreases s.len(),
{
    if s.len() == 0 {
        0
    } else {
        count_slots(s.drop_first(), marker) + if is_slot(s[0], marker) {
            1int
        } else {
            0int
        }
    }
}

/// `t` is `s` with the payload under `marker` replaced in place, or, when
/// the marker is absent, with one fresh segment for it appended.
pub open spec fn upsert_rel(s: Seq<Chunk>, t: Seq<Chunk>, marker: u8, data: Seq<u8>) -> bool {
    match slot_index(s, marker) {
        Some(i) => {
            &&& t.len() == s.len()
            &&& is_slot(t[i], marker)
            &&& t[i].data@ == data
            &&& t[i].wf()
            &&& forall|j: int| 0 <= j < s.len() && j != i ==> t[j] == s[j]
        },
        None => {
            &&& t.len() == s.len() + 1
            &&& is_slot(t[s.len() as int], marker)
            &&& t[s.len() as int].data@ == data
            &&& t[s.len() as int].wf()
            &&& forall|j: int| 0 <= j < s.len() ==> t[j] == s[j]
        },
    }
}

/// A JPEG file held in memory: the start-of-image bytes and the segments, in
/// file order.
#[derive(Debug, PartialEq, Eq)]
pub struct Jpg {
    pub header: [u8; 2],
    pub chunks: Vec<Chunk>,
}

impl Jpg {
    /// The header is the start-of-image marker and every segment is
    /// internally consistent.
    pub open spec fn wf(self) -> bool {
        &&& self.header@ == jpg_magic()
        &&& forall|i: int| 0 <= i < self.chunks@.len() ==> (#[trigger] self.chunks@[i]).wf()
    }

    /// The on-disk bytes of the whole file.
    pub open spec fn ser(self) -> Seq<u8> {
        self.header@ + chunks_ser(self.chunks@)
    }

    /// The first marker position at or after `start`, by a forward scan.
    fn find_marker_from(bytes: &Vec<u8>, start: usize) -> (r: Option<usize>)
        requires
            start <= bytes@.len(),
        ensures
            match r {
                Some(k) => next_marker(bytes@, start as int) == Some(k as int) && start <= k && k
                    + 2 <= bytes@.len() && bytes@[k as int] == 0xff && bytes@[k + 1] != 0x00
                    && forall|j: int|
                    start <= j < k ==> !(#[trigger] bytes@[j] == 0xff && bytes@[j + 1] != 0x00),
                None => next_marker(bytes@, start as int) is None,
            },
    {
        let len = bytes.len();
        let mut i = start;
        while len - i >= 2
            invariant
                start <= i <= len == bytes@.len(),
                next_marker(bytes@, start as int) == next_marker(bytes@, i as int),
                forall|j: int|
                    start <= j < i ==> !(#[trigger] bytes@[j] == 0xff && bytes@[j + 1] != 0x00),
            decreases len - i,
        {
            if bytes[i] == 0xff && bytes[i + 1] != 0x00 {
                return Some(i);
            }
            i = i + 1;
        }
        None
    }

    /// Parse a byte buffer as a JPEG file.
    ///
    /// Succeeds exactly on well-formed input, and then re-serializes to the
    /// very same bytes.  A scan region that reaches the end of the buffer
    /// without a further marker is rejected as malformed.
    #[verifier::rlimit(100)]
    pub fn from_bytes(bytes: &Vec<u8>) -> (r: Result<Jpg, PngKeyError>)
        ensures
            r is Ok <==> jpg_bytes_ok(bytes@),
            r matches Ok(j) ==> j.wf() && jpg_seq_wf(j.chunks@) && j.ser() == bytes@,
            r is Err ==> r == Err::<Jpg, PngKeyError>(PngKeyError::MalformedContainer),
    {
        let len = bytes.len();
        if len < 2 {
            return Err(PngKeyError::MalformedContainer);
        }
        let sig_ok = bytes[0] == 0xff && bytes[1] == 0xd8;
        proof {
            let s = bytes@.subrange(0, 2);
            assert(s[0] == bytes@[0] && s[1] == bytes@[1]);
            if sig_ok {
                assert(s =~= jpg_magic());
            } else {
                assert(s != jpg_magic());
            }
        }
        if !sig_ok {
            return Err(PngKeyError::MalformedContainer);
        }
        let mut chunks: Vec<Chunk> = Vec::new();
        let mut index: usize = 2;
        while index < len
            invariant
                2 <= index <= len == bytes@.len(),
                bytes@.subrange(0, 2) == jpg_magic(),
                jpg_scan(bytes@, 2) == jpg_scan(bytes@, index as int),
                chunks_ser(chunks@) == bytes@.subrange(2, index as int),
                forall|i: int| 0 <= i < chunks@.len() ==> (#[trigger] chunks@[i]).wf(),
                forall|i: int|
                    0 <= i < chunks@.len() - 1 && is_scan_marker(
                        (#[trigger] chunks@[i]).chunk_type,
                    ) ==> chunks@[i + 1].chunk_type != 0x00,
                chunks@.len() > 0 && is_scan_marker(chunks@.last().chunk_type) ==> index + 2 <= len
                    && bytes@[index as int] == 0xff && bytes@[index + 1] != 0x00,
            decreases len - index,
        {
            if len - index < 2 {
                return Err(PngKeyError::MalformedContainer);
            }
            if bytes[index] != 0xff {
                return Err(PngKeyError::MalformedContainer);
            }
            let m = bytes[index + 1];
            let end: usize;
            let chunk: Chunk;
            if m == 0xd8 || m == 0xd9 {
                chunk = Chunk::new(m, Vec::new());
                end = index + 2;
            } else if m == 0xda {
                let k = match Jpg::find_marker_from(bytes, index + 2) {
                    Some(k) => k,
                    None => {
                        return Err(PngKeyError::MalformedContainer);
                    },
                };
                let data = copy_range(bytes, index + 2, k);
                proof {
                    let d = data@;
                    assert forall|t: int| 0 <= t < d.len() - 1 implies !(#[trigger] d[t] == 0xff
                        && d[t + 1] != 0x00) by {
                        assert(d[t] == bytes@[index + 2 + t] && d[t + 1] == bytes@[index + 2 + t
                            + 1]);
                    }
                    if d.len() > 0 {
                        assert(d.last() == bytes@[k - 1]);
                        if d.last() == 0xff {
                            assert(bytes@[k - 1] == 0xff && bytes@[k - 1 + 1] != 0x00);
                        }
                    }
                }
                chunk = Chunk::new(m, data);
                end = k;
            } else {
                if len - index < 4 {
                    return Err(PngKeyError::MalformedContainer);
                }
                let l = read_be16(bytes, index + 2);
                if l < 2 || (l as usize) > len - index - 2 {
                    return Err(PngKeyError::MalformedContainer);
                }
                end = index + 2 + (l as usize);
                let data = copy_range(bytes, index + 4, end);
                chunk = Chunk::new(m, data);
                proof {
                    lemma_be16_of_be16_int(bytes@.subrange(index + 2, index + 4));
                }
            }
            let ghost pre = chunks@;
            chunks.push(chunk);
            proof {
                lemma_chunks_ser_push(pre, chunk);
                assert(chunk.ser() =~= bytes@.subrange(index as int, end as int));
                assert(bytes@.subrange(2, end as int) =~= bytes@.subrange(2, index as int)
                    + bytes@.subrange(index as int, end as int));
                assert(chunks_ser(chunks@) =~= bytes@.subrange(2, end as int));
                assert(forall|i: int|
                    0 <= i < pre.len() ==> chunks@[i] == pre[i] && chunks@.len() == pre.len() + 1);
                assert(chunks@.last() == chunk && chunk.chunk_type == m);
            }
            index = end;
        }
        proof {
            assert(jpg_seq_wf(chunks@));
        }
        proof {
            assert(bytes@.subrange(2, len as int) =~= bytes@.subrange(2, bytes@.len() as int));
        }
        let header = [0xffu8, 0xd8u8];
        proof {
            assert(header@ =~= jpg_magic());
        }
        let j = Jpg { header, chunks };
        proof {
            assert(j.ser() =~= bytes@);
        }
        Ok(j)
    }

    /// Append a segment at the end of the file.
    pub fn append_chunk(&mut self, chunk: Chunk)
        ensures
            final (self).chunks@ == old(self).chunks@.push(chunk),
            final (self).header == old(self).header,
    {
        self.chunks.push(chunk);
    }

    /// The position of the first segment whose marker the decimal key names,
    /// if the key parses and the marker occurs.
    pub fn chunk_by_type(&self, chunk_type: &str) -> (r: Option<usize>)
        ensures
            ({
                let kb = chunk_type.spec_bytes();
                let valid = 1 <= kb.len() <= 3 && all_digits(kb) && dec_val(kb) <= 255;
                match r {
                    Some(i) => valid && i < self.chunks@.len() && slot_index(
                        self.chunks@,
                        dec_val(kb) as u8,
                    ) == Some(i as int),
                    None => !valid || slot_index(self.chunks@, dec_val(kb) as u8) is None,
                }
            }),
    {
        let m = match parse_dec_u8(chunk_type) {
            Some(m) => m,
            None => {
                return None;
            },
        };
        self.position_of(m)
    }

    /// The position of the first segment carrying `marker`.
    fn position_of(&self, marker: u8) -> (r: Option<usize>)
        ensures
            match r {
                Some(i) => i < self.chunks@.len() && is_slot(self.chunks@[i as int], marker)
                    && slot_index(self.chunks@, marker) == Some(i as int),
                None => slot_index(self.chunks@, marker) is None,
            },
    {
        let ghost p = slot_pred(marker);
        let n = self.chunks.len();
        let mut i: usize = 0;
        while i < n
            invariant
                i <= n == self.chunks@.len(),
                p == slot_pred(marker),
                forall|j: int| 0 <= j < i ==> !p(#[trigger] self.chunks@[j]),
            decreases n - i,
        {
            if *self.chunks[i].chunk_type() == marker {
                proof {
                    assert(p(self.chunks@[i as int]));
                    lemma_find_first_is(self.chunks@, p, i as int);
                }
                return Some(i);
            }
            proof {
                assert(!p(self.chunks@[i as int]));
            }
            i = i + 1;
        }
        proof {
            lemma_find_first_none(self.chunks@, p);
        }
        None
    }

    /// Remove the first segment whose marker the decimal key names; fails
    /// when the key is unparseable or the marker absent.
    pub fn remove_chunk(&mut self, chunk_type: &str) -> (r: Result<Chunk, PngKeyError>)
        ensures
            ({
                let kb = chunk_type.spec_bytes();
                let valid = 1 <= kb.len() <= 3 && all_digits(kb) && dec_val(kb) <= 255;
                if valid {
                    match slot_index(old(self).chunks@, dec_val(kb) as u8) {
                        Some(i) => r matches Ok(c) && c == old(self).chunks@[i] && final (
                        self).chunks@ == old(self).chunks@.remove(i) && final (self).header == old(
                            self,
                        ).header,
                        None => r == Err::<Chunk, PngKeyError>(PngKeyError::SlotNotFound) && final (
                        self).chunks@ == old(self).chunks@ && final (self).header == old(
                            self,
                        ).header,
                    }
                } else {
                    r == Err::<Chunk, PngKeyError>(PngKeyError::SlotNotFound) && final (
                    self).chunks@ == old(self).chunks@ && final (self).header == old(self).header
                }
            }),
    {
        match self.chunk_by_type(chunk_type) {
            Some(i) => Ok(self.chunks.remove(i)),
            None => Err(PngKeyError::SlotNotFound),
        }
    }

    /// Replace the payload of the segment at `index`, keeping its marker and
    /// position.
    pub fn modify_chunk(&mut self, index: usize, data: Vec<u8>)
        requires
            index < old(self).chunks@.len(),
            !is_bare_marker(old(self).chunks@[index as int].chunk_type),
            !is_scan_marker(old(self).chunks@[index as int].chunk_type),
            data@.len() + 2 <= u16::MAX,
        ensures
            final (self).header == old(self).header,
            final (self).chunks@.len() == old(self).chunks@.len(),
            final (self).chunks@[index as int].chunk_type == old(
                self,
            ).chunks@[index as int].chunk_type,
            final (self).chunks@[index as int].head == old(self).chunks@[index as int].head,
            final (self).chunks@[index as int].data@ == data@,
            final (self).chunks@[index as int].length == data@.len() + 2,
            old(self).chunks@[index as int].wf() ==> final (self).chunks@[index as int].wf(),
            forall|j: int|
                0 <= j < old(self).chunks@.len() && j != index ==> final (self).chunks@[j] == old(
                    self,
                ).chunks@[j],
    {
        let c = &mut self.chunks[index];
        c.set_data(data);
    }

    /// The segments, in file order.
    pub fn chunks(&self) -> (r: &[Chunk])
        ensures
            r@ == self.chunks@,
    {
        self.chunks.as_slice()
    }

    /// Replace the payload under `marker` in place, or append a fresh
    /// segment for it at the end of the file.
    pub fn upsert_chunk(&mut self, marker: u8, data: Vec<u8>)
        requires
            old(self).wf(),
            1 <= marker <= 0xbf,
            data@.len() + 2 <= u16::MAX,
        ensures
            upsert_rel(old(self).chunks@, final (self).chunks@, marker, data@),
            final (self).header == old(self).header,
            final (self).wf(),
    {
        let ghost pre = self.chunks@;
        match self.position_of(marker) {
            Some(i) => {
                self.modify_chunk(i, data);
                proof {
                    assert(is_slot(self.chunks@[i as int], marker));
                    assert(forall|j: int|
                        0 <= j < pre.len() && j != i ==> self.chunks@[j] == pre[j]);
                }
            },
            None => {
                let chunk = Chunk::new(marker, data);
                self.chunks.push(chunk);
                proof {
                    assert(is_slot(chunk, marker));
                    assert(forall|j: int| 0 <= j < pre.len() ==> self.chunks@[j] == pre[j]);
                }
            },
        }
    }

    /// Serialize the file back to bytes.
    pub fn as_bytes(&self) -> (r: Vec<u8>)
        ensures
            r@ == self.ser(),
    {
        let mut out: Vec<u8> = Vec::new();
        out.push(self.header[0]);
        out.push(self.header[1]);
        proof {
            assert(out@ =~= self.header@);
        }
        let n = self.chunks.len();
        let mut k: usize = 0;
        while k < n
            invariant
                k <= n == self.chunks@.len(),
                out@ == self.header@ + chunks_ser(self.chunks@.take(k as int)),
            decreases n - k,
        {
            let cb = self.chunks[k].as_bytes();
            crate::util::append_bytes(&mut out, &cb);
            proof {
                lemma_chunks_ser_push(self.chunks@.take(k as int), self.chunks@[k as int]);
                assert(self.chunks@.take(k as int).push(self.chunks@[k as int]) =~= self.chunks@
                    .take(k + 1));
                assert(out@ =~= self.header@ + chunks_ser(self.chunks@.take(k + 1)));
            }
            k = k + 1;
        }
        proof {
            assert(self.chunks@.take(n as int) =~= self.chunks@);
        }
        out
    }
}

/// The buffer starts with the three-byte JPEG magic prefix.
pub fn is_jpg(bytes: &Vec<u8>) -> (r: bool)
    ensures
        r == (bytes@.len() >= 3 && bytes@[0] == 0xff && bytes@[1] == 0xd8 && bytes@[2] == 0xff),
{
    bytes.len() >= 3 && bytes[0] == 0xff && bytes[1] == 0xd8 && bytes[2] == 0xff
}

// --- laws of the slot operations -------------------------------------------

/// After an upsert, the payload read back under the marker is exactly what
/// was written.
pub proof fn lemma_upsert_extract(s: Seq<Chunk>, t: Seq<Chunk>, marker: u8, data: Seq<u8>)
    requires
        upsert_rel(s, t, marker, data),
    ensures
        slot_index(t, marker) matches Some(i) && t[i].data@ == data,
{
    let p = slot_pred(marker);
    lemma_find_first(s, p);
    match slot_index(s, marker) {
        Some(i) => {
            lemma_find_first_is(t, p, i);
        },
        None => {
            lemma_find_first_is(t, p, s.len() as int);
        },
    }
}

/// Writing twice under one marker is the same as writing the second payload
/// once.
pub proof fn lemma_upsert_idempotent(
    s1: Seq<Chunk>,
    s2: Seq<Chunk>,
    s3: Seq<Chunk>,
    marker: u8,
    d1: Seq<u8>,
    d2: Seq<u8>,
)
    requires
        upsert_rel(s1, s2, marker, d1),
        upsert_rel(s2, s3, marker, d2),
    ensures
        upsert_rel(s1, s3, marker, d2),
{
    let p = slot_pred(marker);
    lemma_find_first(s1, p);
    match slot_index(s1, marker) {
        Some(i) => {
            lemma_find_first_is(s2, p, i);
        },
        None => {
            lemma_find_first_is(s2, p, s1.len() as int);
        },
    }
}



/// A segment's bytes start with its head byte and marker.
proof fn lemma_chunk_ser_head(c: Chunk)
    ensures
        c.ser().len() >= 2,
        c.ser()[0] == c.head,
        c.ser()[1] == c.chunk_type,
        c.ser().len() == 2 + if is_bare_marker(c.chunk_type) || is_scan_marker(c.chunk_type) {
            c.data@.len() as int
        } else {
            2 + c.data@.len() as int
        },
{
}

/// Two well-formed segments in parseable order whose serializations begin
/// the same byte sequence are equal field by field, and are followed by the
/// same remainder.  The remainders must look like further segments (or be
/// empty) for the scan case, where the data's end is found by the next
/// marker.
#[verifier::rlimit(100)]
proof fn lemma_jpg_chunk_ser_prefix(a: Chunk, b: Chunk, r1: Seq<u8>, r2: Seq<u8>)
    requires
        a.wf(),
        b.wf(),
        a.ser() + r1 == b.ser() + r2,
        is_scan_marker(a.chunk_type) ==> r1.len() >= 2 && r1[0] == 0xff && r1[1] != 0x00,
        is_scan_marker(b.chunk_type) ==> r2.len() >= 2 && r2[0] == 0xff && r2[1] != 0x00,
    ensures
        chunk_view_eq(a, b),
        r1 == r2,
{
    let w = a.ser() + r1;
    lemma_chunk_ser_head(a);
    lemma_chunk_ser_head(b);
    assert(a.head == w[0] && b.head == w[0]);
    assert(a.chunk_type == w[1] && b.chunk_type == w[1]);
    let m = a.chunk_type;
    if is_bare_marker(m) {
        assert(a.data@ =~= b.data@);
    } else if is_scan_marker(m) {
        let d1 = a.data@;
        let d2 = b.data@;
        if d1.len() < d2.len() {
            let p = 2 + d1.len() as int;
            assert(w[p] == r1[0] && w[p + 1] == r1[1]);
            assert(w[p] == d2[p - 2]);
            if p - 2 < d2.len() - 1 {
                assert(w[p + 1] == d2[p - 1]);
                assert(d2[p - 2] == 0xff && d2[p - 2 + 1] != 0x00);
                assert(false);
            } else {
                assert(d2.last() == 0xff);
                assert(false);
            }
        }
        if d2.len() < d1.len() {
            let p = 2 + d2.len() as int;
            assert(w[p] == r2[0] && w[p + 1] == r2[1]);
            assert(w[p] == d1[p - 2]);
            if p - 2 < d1.len() - 1 {
                assert(w[p + 1] == d1[p - 1]);
                assert(d1[p - 2] == 0xff && d1[p - 2 + 1] != 0x00);
                assert(false);
            } else {
                assert(d1.last() == 0xff);
                assert(false);
            }
        }
        assert(d1 =~= d2) by {
            assert(forall|k: int| 0 <= k < d1.len() ==> d1[k] == w[2 + k] && d2[k] == w[2 + k]);
        }
        assert(a.length == b.length);
    } else {
        assert(be16(a.length) =~= be16(b.length)) by {
            assert(forall|k: int|
                0 <= k < 2 ==> be16(a.length)[k] == w[2 + k] && be16(b.length)[k] == w[2 + k]);
        }
        lemma_be16_int_of_be16(a.length);
        lemma_be16_int_of_be16(b.length);
        assert(a.length == b.length);
        assert(a.data@ =~= b.data@) by {
            assert(forall|k: int|
                0 <= k < a.data@.len() ==> a.data@[k] == w[4 + k] && b.data@[k] == w[4 + k]);
        }
    }
    let la = a.ser().len() as int;
    assert(la == b.ser().len());
    assert(w.len() == la + r1.len());
    assert(w.len() == la + r2.len());
    assert(r1 =~= r2) by {
        assert(forall|k: int|
            0 <= k < r1.len() ==> r1[k] == w[la + k] && r2[k] == w[la + k]);
    }
}

/// A well-formed segment sequence in parseable order is determined by its
/// serialization: equal bytes mean equal segments, field by field.
pub proof fn lemma_chunks_ser_injective(s1: Seq<Chunk>, s2: Seq<Chunk>)
    requires
        forall|i: int| 0 <= i < s1.len() ==> (#[trigger] s1[i]).wf(),
        forall|i: int| 0 <= i < s2.len() ==> (#[trigger] s2[i]).wf(),
        jpg_seq_wf(s1),
        jpg_seq_wf(s2),
        chunks_ser(s1) == chunks_ser(s2),
    ensures
        s1.len() == s2.len(),
        forall|i: int| 0 <= i < s1.len() ==> chunk_view_eq(#[trigger] s1[i], s2[i]),
    decreases s1.len(),
{
    let bytes = chunks_ser(s1);
    if s1.len() == 0 && s2.len() == 0 {
    } else if s1.len() == 0 {
        lemma_chunk_ser_head(s2[0]);
        assert(bytes.len() >= 2);
    } else if s2.len() == 0 {
        lemma_chunk_ser_head(s1[0]);
        assert(bytes.len() >= 2);
    } else {
        let r1 = chunks_ser(s1.drop_first());
        let r2 = chunks_ser(s2.drop_first());
        if is_scan_marker(s1[0].chunk_type) {
            assert(s1.len() > 1 && s1[1].chunk_type != 0x00);
            assert(s1.drop_first()[0] == s1[1]);
            lemma_chunk_ser_head(s1[1]);
            assert(r1 == s1[1].ser() + chunks_ser(s1.drop_first().drop_first()));
            assert(r1.len() >= 2 && r1[0] == s1[1].head && r1[1] == s1[1].chunk_type);
        }
        if is_scan_marker(s2[0].chunk_type) {
            assert(s2.len() > 1 && s2[1].chunk_type != 0x00);
            assert(s2.drop_first()[0] == s2[1]);
            lemma_chunk_ser_head(s2[1]);
            assert(r2 == s2[1].ser() + chunks_ser(s2.drop_first().drop_first()));
            assert(r2.len() >= 2 && r2[0] == s2[1].head && r2[1] == s2[1].chunk_type);
        }
        lemma_jpg_chunk_ser_prefix(s1[0], s2[0], r1, r2);
        assert(jpg_seq_wf(s1.drop_first())) by {
            assert(forall|j: int|
                0 <= j < s1.len() - 1 ==> s1.drop_first()[j] == s1[j + 1]);
        }
        assert(jpg_seq_wf(s2.drop_first())) by {
            assert(forall|j: int|
                0 <= j < s2.len() - 1 ==> s2.drop_first()[j] == s2[j + 1]);
        }
        lemma_chunks_ser_injective(s1.drop_first(), s2.drop_first());
        assert forall|i: int| 0 <= i < s1.len() implies chunk_view_eq(#[trigger] s1[i], s2[i]) by {
            if i > 0 {
                assert(s1.drop_first()[i - 1] == s1[i]);
                assert(s2.drop_first()[i - 1] == s2[i]);
            }
        }
    }
}


/// A marker pair at `k`, with none earlier, fixes `next_marker`.
proof fn lemma_next_marker_is(b: Seq<u8>, from: int, k: int)
    requires
        0 <= from <= k,
        k + 2 <= b.len(),
        b[k] == 0xff && b[k + 1] != 0x00,
        forall|j: int| from <= j < k ==> !(#[trigger] b[j] == 0xff && b[j + 1] != 0x00),
    ensures
        next_marker(b, from) == Some(k),
    decreases k - from,
{
    if from < k {
        lemma_next_marker_is(b, from + 1, k);
    }
}

/// The segment region serialized from well-formed segments in parseable
/// order scans clean: every marker, length field and scan boundary
/// satisfies the parser.
#[verifier::rlimit(100)]
proof fn lemma_wf_chunks_scan(b: Seq<u8>, i: int, s: Seq<Chunk>)
    requires
        0 <= i <= b.len(),
        b.subrange(i, b.len() as int) == chunks_ser(s),
        forall|k: int| 0 <= k < s.len() ==> (#[trigger] s[k]).wf(),
        jpg_seq_wf(s),
    ensures
        jpg_scan(b, i),
    decreases s.len(),
{
    let suffix = b.subrange(i, b.len() as int);
    if s.len() == 0 {
        assert(suffix.len() == 0);
    } else {
        let c = s[0];
        lemma_chunk_ser_head(c);
        assert(chunks_ser(s) == c.ser() + chunks_ser(s.drop_first()));
        let clen = c.ser().len() as int;
        assert forall|k: int| 0 <= k < clen implies b[i + k] == #[trigger] c.ser()[k] by {
            assert(suffix[k] == b[i + k]);
            assert(suffix[k] == c.ser()[k]);
        }
        assert(b[i] == 0xff);
        assert(b[i + 1] == c.chunk_type);
        assert(jpg_seq_wf(s.drop_first())) by {
            assert(forall|j: int| 0 <= j < s.len() - 1 ==> s.drop_first()[j] == s[j + 1]);
        }
        assert forall|k: int| 0 <= k < b.len() - i - clen implies b.subrange(
            i + clen,
            b.len() as int,
        )[k] == chunks_ser(s.drop_first())[k] by {
            assert(b.subrange(i + clen, b.len() as int)[k] == b[i + clen + k]);
            assert(b[i + clen + k] == suffix[clen + k]);
        }
        assert(b.subrange(i + clen, b.len() as int) =~= chunks_ser(s.drop_first()));
        if is_bare_marker(c.chunk_type) {
            lemma_wf_chunks_scan(b, i + 2, s.drop_first());
        } else if is_scan_marker(c.chunk_type) {
            let d = c.data@;
            let k = i + 2 + d.len() as int;
            assert(s.len() > 1 && s[1].chunk_type != 0x00);
            assert(s.drop_first()[0] == s[1]);
            lemma_chunk_ser_head(s[1]);
            let rest = chunks_ser(s.drop_first());
            assert(rest == s[1].ser() + chunks_ser(s.drop_first().drop_first()));
            assert(rest.len() >= 2 && rest[0] == s[1].head && rest[1] == s[1].chunk_type);
            assert(b[k] == rest[0] && b[k + 1] == rest[1]) by {
                assert(b.subrange(i + clen, b.len() as int)[0] == b[k]);
                assert(b.subrange(i + clen, b.len() as int)[1] == b[k + 1]);
            }
            assert(b[k] == 0xff && b[k + 1] != 0x00);
            assert forall|j: int| i + 2 <= j < k implies !(#[trigger] b[j] == 0xff && b[j + 1]
                != 0x00) by {
                assert(b[j] == c.ser()[j - i]);
                assert(c.ser()[j - i] == d[j - i - 2]);
                if j < k - 1 {
                    assert(b[j + 1] == c.ser()[j + 1 - i]);
                    assert(c.ser()[j + 1 - i] == d[j + 1 - i - 2]);
                } else {
                    assert(d[j - i - 2] == d.last());
                }
            }
            lemma_next_marker_is(b, i + 2, k);
            lemma_wf_chunks_scan(b, k, s.drop_first());
        } else {
            assert(b.subrange(i + 2, i + 4) =~= be16(c.length)) by {
                assert(forall|k: int| 0 <= k < 2 ==> b[i + 2 + k] == c.ser()[2 + k]
                    && #[trigger] be16(c.length)[k] == c.ser()[2 + k]);
            }
            lemma_be16_int_of_be16(c.length);
            assert(be16_int(b.subrange(i + 2, i + 4)) == c.data@.len() + 2);
            lemma_wf_chunks_scan(b, i + clen, s.drop_first());
        }
    }
}

/// Serialization of well-formed segments in parseable order under the
/// start-of-image bytes is a well-formed file: whatever this library
/// writes, its parser accepts.
pub proof fn lemma_wf_ser_parses(s: Seq<Chunk>, bytes: Seq<u8>)
    requires
        jpg_magic() + chunks_ser(s) == bytes,
        forall|k: int| 0 <= k < s.len() ==> (#[trigger] s[k]).wf(),
        jpg_seq_wf(s),
    ensures
        jpg_bytes_ok(bytes),
{
    assert(bytes.subrange(0, 2) =~= jpg_magic()) by {
        assert(forall|k: int|
            0 <= k < 2 ==> bytes[k] == (jpg_magic() + chunks_ser(s))[k] && (jpg_magic()
                + chunks_ser(s))[k] == jpg_magic()[k]);
    }
    assert(bytes.subrange(2, bytes.len() as int) =~= chunks_ser(s)) by {
        assert(forall|k: int|
            0 <= k < bytes.len() - 2 ==> bytes.subrange(2, bytes.len() as int)[k] == bytes[2 + k]
                && bytes[2 + k] == (jpg_magic() + chunks_ser(s))[2 + k]);
    }
    lemma_wf_chunks_scan(bytes, 2, s);
}

/// Segment sequences equal field by field find the same slots.
pub proof fn lemma_view_eq_slots(s: Seq<Chunk>, t: Seq<Chunk>, marker: u8)
    requires
        s.len() == t.len(),
        forall|i: int| 0 <= i < s.len() ==> chunk_view_eq(#[trigger] s[i], t[i]),
    ensures
        slot_index(s, marker) == slot_index(t, marker),
{
    let p = slot_pred(marker);
    lemma_find_first(s, p);
    match find_first(s, p) {
        Some(i) => {
            assert(chunk_view_eq(s[i], t[i]));
            assert(is_slot(t[i], marker));
            assert forall|j: int| 0 <= j < i implies !p(#[trigger] t[j]) by {
                assert(chunk_view_eq(s[j], t[j]));
            }
            lemma_find_first_is(t, p, i);
        },
        None => {
            assert forall|j: int| 0 <= j < t.len() implies !p(#[trigger] t[j]) by {
                assert(chunk_view_eq(s[j], t[j]));
            }
            lemma_find_first_none(t, p);
        },
    }
}

/// Two well-formed, parseable segment sequences serialized into the same
/// file carry the same slots with the same stored data.
pub proof fn lemma_same_file_same_slots(t: Seq<Chunk>, u: Seq<Chunk>, marker: u8)
    requires
        forall|i: int| 0 <= i < t.len() ==> (#[trigger] t[i]).wf(),
        forall|i: int| 0 <= i < u.len() ==> (#[trigger] u[i]).wf(),
        jpg_seq_wf(t),
        jpg_seq_wf(u),
        jpg_magic() + chunks_ser(t) == jpg_magic() + chunks_ser(u),
    ensures
        slot_index(t, marker) == slot_index(u, marker),
        slot_index(t, marker) matches Some(i) ==> t[i].data@ == u[i].data@,
{
    let w1 = jpg_magic() + chunks_ser(t);
    let w2 = jpg_magic() + chunks_ser(u);
    assert(w1.len() == 2 + chunks_ser(t).len());
    assert(w2.len() == 2 + chunks_ser(u).len());
    assert(chunks_ser(t).len() == chunks_ser(u).len());
    assert forall|k: int| 0 <= k < chunks_ser(t).len() implies chunks_ser(t)[k] == chunks_ser(
        u,
    )[k] by {
        assert(chunks_ser(t)[k] == w1[k + 2]);
        assert(k < chunks_ser(u).len());
        assert(chunks_ser(u)[k] == w2[k + 2]);
    }
    assert(chunks_ser(t) =~= chunks_ser(u));
    lemma_chunks_ser_injective(t, u);
    lemma_view_eq_slots(t, u, marker);
    lemma_find_first(t, slot_pred(marker));
    match slot_index(t, marker) {
        Some(i) => {
            assert(chunk_view_eq(t[i], u[i]));
        },
        None => {},
    }
}

/// An upsert keeps the segments well-formed and in parseable order.
pub proof fn lemma_upsert_wf(s: Seq<Chunk>, t: Seq<Chunk>, marker: u8, data: Seq<u8>)
    requires
        upsert_rel(s, t, marker, data),
        1 <= marker <= 0xbf,
        forall|i: int| 0 <= i < s.len() ==> (#[trigger] s[i]).wf(),
        jpg_seq_wf(s),
    ensures
        forall|i: int| 0 <= i < t.len() ==> (#[trigger] t[i]).wf(),
        jpg_seq_wf(t),
{
    lemma_find_first(s, slot_pred(marker));
    match slot_index(s, marker) {
        Some(q) => {
            assert forall|x: int| 0 <= x < t.len() implies (#[trigger] t[x]).wf() by {
                if x != q {
                    assert(t[x] == s[x]);
                }
            }
            assert forall|x: int|
                0 <= x < t.len() && is_scan_marker((#[trigger] t[x]).chunk_type) implies x + 1
                < t.len() && t[x + 1].chunk_type != 0x00 by {
                assert(t[x] == s[x]);
                if x + 1 != q {
                    assert(t[x + 1] == s[x + 1]);
                } else {
                    assert(is_slot(t[q], marker));
                }
            }
        },
        None => {
            assert forall|x: int| 0 <= x < t.len() implies (#[trigger] t[x]).wf() by {
                if x < s.len() {
                    assert(t[x] == s[x]);
                }
            }
            assert forall|x: int|
                0 <= x < t.len() && is_scan_marker((#[trigger] t[x]).chunk_type) implies x + 1
                < t.len() && t[x + 1].chunk_type != 0x00 by {
                if x < s.len() {
                    assert(t[x] == s[x]);
                    assert(x + 1 < s.len());
                    assert(t[x + 1] == s[x + 1]);
                } else {
                    assert(is_slot(t[x], marker));
                }
            }
        },
    }
}

/// The count of matching segments is never negative.
proof fn lemma_count_nonneg(s: Seq<Chunk>, marker: u8)
    ensures
        count_slots(s, marker) >= 0,
    decreases s.len(),
{
    if s.len() > 0 {
        lemma_count_nonneg(s.drop_first(), marker);
    }
}

/// The count is zero exactly when nothing matches.
proof fn lemma_count_zero(s: Seq<Chunk>, marker: u8)
    ensures
        count_slots(s, marker) == 0 <==> (forall|j: int| 0 <= j < s.len() ==> !is_slot(
            #[trigger] s[j],
            marker,
        )),
    decreases s.len(),
{
    lemma_count_nonneg(s, marker);
    if s.len() > 0 {
        lemma_count_nonneg(s.drop_first(), marker);
        lemma_count_zero(s.drop_first(), marker);
        assert(forall|j: int| 0 < j < s.len() ==> s[j] == s.drop_first()[j - 1]);
    }
}

/// Sequences that match pointwise count the same.
proof fn lemma_count_pointwise(s: Seq<Chunk>, t: Seq<Chunk>, marker: u8)
    requires
        s.len() == t.len(),
        forall|j: int| 0 <= j < s.len() ==> is_slot(#[trigger] s[j], marker) == is_slot(
            t[j],
            marker,
        ),
    ensures
        count_slots(s, marker) == count_slots(t, marker),
    decreases s.len(),
{
    if s.len() > 0 {
        lemma_count_pointwise(s.drop_first(), t.drop_first(), marker);
        assert(forall|j: int| 0 < j < s.len() ==> s[j] == s.drop_first()[j - 1]);
        assert(forall|j: int| 0 < j < t.len() ==> t[j] == t.drop_first()[j - 1]);
    }
}

/// Appending one element adds its match to the count.
proof fn lemma_count_push(s: Seq<Chunk>, c: Chunk, marker: u8)
    ensures
        count_slots(s.push(c), marker) == count_slots(s, marker) + if is_slot(c, marker) {
            1int
        } else {
            0int
        },
    decreases s.len(),
{
    let sp = s.push(c);
    if s.len() == 0 {
        assert(sp[0] == c);
        assert(sp.drop_first() =~= Seq::<Chunk>::empty());
        assert(count_slots(sp, marker) == count_slots(Seq::<Chunk>::empty(), marker) + if is_slot(
            c,
            marker,
        ) {
            1int
        } else {
            0int
        });
    } else {
        assert(sp[0] == s[0]);
        assert(sp.drop_first() =~= s.drop_first().push(c));
        lemma_count_push(s.drop_first(), c, marker);
    }
}

/// After an upsert the marker occurs exactly once where it was fresh, and
/// its number of occurrences is unchanged where it already occurred.
pub proof fn lemma_upsert_count(s: Seq<Chunk>, t: Seq<Chunk>, marker: u8, data: Seq<u8>)
    requires
        upsert_rel(s, t, marker, data),
    ensures
        count_slots(s, marker) == 0 ==> count_slots(t, marker) == 1,
        count_slots(s, marker) > 0 ==> count_slots(t, marker) == count_slots(s, marker),
{
    let p = slot_pred(marker);
    lemma_find_first(s, p);
    lemma_count_zero(s, marker);
    lemma_count_nonneg(s, marker);
    match slot_index(s, marker) {
        Some(i) => {
            lemma_count_pointwise(s, t, marker);
        },
        None => {
            assert(t =~= t.take(s.len() as int).push(t[s.len() as int]));
            lemma_count_push(t.take(s.len() as int), t[s.len() as int], marker);
            lemma_count_pointwise(s, t.take(s.len() as int), marker);
        },
    }
}

} // verus!
