//! The structural units of a GIF file, and the sub-block chains that carry
//! variable-length data inside them.
use vstd::prelude::*;

use crate::util::le16;

verus! {

// --- sub-block chains -------------------------------------------------------

/// Where the sub-block chain starting at `i` ends: one past its zero-length
/// terminator block, or nothing when the chain overruns the buffer.
pub open spec fn chain_end(b: Seq<u8>, i: int) -> Option<int>
    decreases b.len() - i,
{
    if i < 0 || i >= b.len() {
        None
    } else if b[i] == 0 {
        Some(i + 1)
    } else if i + 1 + b[i] <= b.len() {
        chain_end(b, i + 1 + b[i])
    } else {
        None
    }
}

/// The payload bytes of the chain starting at `i`: the concatenation of its
/// sub-blocks' contents, sizes and terminator stripped.
pub open spec fn chain_data(b: Seq<u8>, i: int) -> Seq<u8>
    decreases b.len() - i,
{
    if i < 0 || i >= b.len() {
        Seq::empty()
    } else if b[i] == 0 {
        Seq::empty()
    } else if i + 1 + b[i] <= b.len() {
        b.subrange(i + 1, i + 1 + b[i]) + chain_data(b, i + 1 + b[i])
    } else {
        Seq::empty()
    }
}

/// A chain that ends does so past its start and within the buffer.
pub proof fn lemma_chain_end_bounds(b: Seq<u8>, i: int)
    requires
        chain_end(b, i) is Some,
    ensures
        i < chain_end(b, i).unwrap() <= b.len(),
    decreases b.len() - i,
{
    if !(i < 0 || i >= b.len()) && b[i] != 0 && i + 1 + b[i] <= b.len() {
        lemma_chain_end_bounds(b, i + 1 + b[i]);
    }
}

/// A chain seen through a window that starts at or before it and ends where
/// it ends is the same chain.
pub proof fn lemma_chain_restrict(b: Seq<u8>, off: int, s: int, e: int)
    requires
        0 <= off <= s <= e <= b.len(),
        chain_end(b, s) == Some(e),
    ensures
        chain_end(b.subrange(off, e), s - off) == Some(e - off),
        chain_data(b.subrange(off, e), s - off) == chain_data(b, s),
    decreases b.len() - s,
{
    let d = b.subrange(off, e);
    lemma_chain_end_bounds(b, s);
    assert(s < e);
    assert(d[s - off] == b[s]);
    if b[s] == 0 {
        assert(e == s + 1);
    } else {
        assert(s + 1 + b[s] <= b.len());
        let next = s + 1 + b[s];
        assert(chain_end(b, next) == Some(e));
        lemma_chain_end_bounds(b, next);
        lemma_chain_restrict(b, off, next, e);
        assert(d.subrange(s - off + 1, s - off + 1 + d[s - off]) =~= b.subrange(s + 1, next));
        assert(chain_data(d, s - off) == chain_data(b, s));
    }
}

/// A chain that fills a window placed inside a larger buffer is a chain
/// there too, ending where the window ends.
pub proof fn lemma_chain_embed(w: Seq<u8>, off: int, d: Seq<u8>, s: int)
    requires
        0 <= off,
        off + d.len() <= w.len(),
        forall|k: int| 0 <= k < d.len() ==> #[trigger] d[k] == w[off + k],
        0 <= s <= d.len(),
        chain_end(d, s) == Some(d.len() as int),
    ensures
        chain_end(w, off + s) == Some(off + d.len()),
    decreases d.len() - s,
{
    lemma_chain_end_bounds(d, s);
    assert(w[off + s] == d[s]);
    if d[s] == 0 {
        assert(d.len() == s + 1);
    } else {
        assert(s + 1 + d[s] <= d.len());
        lemma_chain_embed(w, off, d, s + 1 + d[s]);
    }
}

/// Split a payload into size-prefixed sub-blocks of at most 254 bytes each,
/// without the terminator.
pub open spec fn pack_chain(m: Seq<u8>) -> Seq<u8>
    decreases m.len(),
{
    if m.len() == 0 {
        Seq::empty()
    } else if m.len() <= 254 {
        seq![m.len() as u8] + m
    } else {
        seq![254u8] + m.take(254) + pack_chain(m.skip(254))
    }
}

/// A packed payload followed by the terminator reads back as a chain that
/// ends at the buffer's end and carries exactly the payload.
pub proof fn lemma_chain_of_pack(w: Seq<u8>, j: int, m: Seq<u8>)
    requires
        0 <= j <= w.len(),
        w.subrange(j, w.len() as int) == pack_chain(m) + seq![0u8],
    ensures
        chain_end(w, j) == Some(w.len() as int),
        chain_data(w, j) == m,
    decreases m.len(),
{
    let tail = w.subrange(j, w.len() as int);
    assert(tail.len() == pack_chain(m).len() + 1);
    if m.len() == 0 {
        assert(w[j] == tail[0]);
        assert(tail[0] == 0);
        assert(chain_data(w, j) =~= m);
    } else if m.len() <= 254 {
        assert(w[j] == tail[0]);
        assert(tail[0] == m.len() as u8);
        let next = j + 1 + m.len();
        assert(next + 1 == w.len());
        assert(w[next] == tail[tail.len() - 1]);
        assert(w[next] == 0);
        assert(chain_end(w, next) == Some(w.len() as int));
        assert(chain_end(w, j) == Some(w.len() as int));
        assert(w.subrange(j + 1, next) =~= m) by {
            assert(forall|k: int| 0 <= k < m.len() ==> w[j + 1 + k] == tail[1 + k] && tail[1 + k]
                == m[k]);
        }
        assert(chain_data(w, next) =~= Seq::<u8>::empty());
        assert(chain_data(w, j) =~= m);
    } else {
        assert(w[j] == tail[0]);
        assert(tail[0] == 254);
        let next = j + 255;
        assert(pack_chain(m).len() == 255 + pack_chain(m.skip(254)).len());
        assert(next <= w.len());
        assert forall|k: int| 0 <= k < w.len() - next implies w.subrange(next, w.len() as int)[k]
            == (pack_chain(m.skip(254)) + seq![0u8])[k] by {
            assert(w.subrange(next, w.len() as int)[k] == w[next + k]);
            assert(w[next + k] == tail[255 + k]);
            assert(tail[255 + k] == (seq![254u8] + m.take(254) + pack_chain(m.skip(254)) + seq![
                0u8,
            ])[255 + k]);
        }
        assert(w.subrange(next, w.len() as int) =~= pack_chain(m.skip(254)) + seq![0u8]);
        lemma_chain_of_pack(w, next, m.skip(254));
        assert(chain_end(w, j) == Some(w.len() as int));
        assert forall|k: int| 0 <= k < 254 implies w.subrange(j + 1, j + 1 + 254)[k] == m.take(
            254,
        )[k] by {
            assert(w[j + 1 + k] == tail[1 + k]);
            assert(tail[1 + k] == (seq![254u8] + m.take(254) + pack_chain(m.skip(254)))[1 + k]);
        }
        assert(w.subrange(j + 1, j + 1 + 254) =~= m.take(254));
        assert(chain_data(w, j) == m.take(254) + m.skip(254));
        assert(m.take(254) + m.skip(254) =~= m);
    }
}

// --- the unit types ---------------------------------------------------------

/// The seven-byte logical screen descriptor, all multi-byte fields
/// little-endian.
#[derive(Debug, Clone)]
pub struct LogicalScreenDescriptor {
    pub width: u16,
    pub height: u16,
    pub packed_fields: u8,
    pub background_color_index: u8,
    pub pixel_aspect_ratio: u8,
}

/// The image descriptor that follows a `2C` introducer.
#[derive(Debug, Clone)]
pub struct ImageDescriptor {
    pub left: u16,
    pub top: u16,
    pub width: u16,
    pub height: u16,
    pub packed_fields: u8,
}

/// One image: its descriptor, an optional local color table, and the LZW
/// data (minimum-code-size byte plus sub-block chain, terminator included).
#[derive(Debug, Clone)]
pub struct ImageChunk {
    pub descriptor: ImageDescriptor,
    pub local_color_table: Option<Vec<u8>>,
    pub image_data: Vec<u8>,
}

/// One extension block: its label byte and its whole sub-block chain, sizes
/// and terminator included.
#[derive(Debug, Clone)]
pub struct ExtensionChunk {
    pub extension_type: u8,
    pub data: Vec<u8>,
}

/// One structural unit of a GIF file.
#[derive(Debug, Clone)]
pub enum Chunk {
    Header([u8; 6]),
    LogicalScreenDescriptor(LogicalScreenDescriptor),
    GlobalColorTable(Vec<u8>),
    Image(ImageChunk),
    Extension(ExtensionChunk),
    Trailer,
}

/// The six fixed header bytes `GIF89a`.
pub open spec fn gif_magic() -> Seq<u8> {
    seq![0x47u8, 0x49u8, 0x46u8, 0x38u8, 0x39u8, 0x61u8]
}

/// Powers of two.
pub open spec fn pow2(n: nat) -> nat
    decreases n,
{
    if n == 0 {
        1
    } else {
        2 * pow2((n - 1) as nat)
    }
}

/// The byte length of a color table announced by a packed field: three bytes
/// per entry, two to the size bits plus one entries.
pub open spec fn color_table_len(packed: u8) -> int {
    3 * pow2(((packed & 7) + 1) as nat) as int
}

/// Compute the byte length of the color table a packed field announces.
pub fn color_table_size(packed: u8) -> (r: usize)
    ensures
        r == color_table_len(packed),
        6 <= r <= 768,
{
    proof {
        assert(packed & 7 <= 7) by (bit_vector);
        reveal_with_fuel(pow2, 9);
    }
    let f = (packed & 7) + 1;
    let entries: usize = if f == 1 {
        2
    } else if f == 2 {
        4
    } else if f == 3 {
        8
    } else if f == 4 {
        16
    } else if f == 5 {
        32
    } else if f == 6 {
        64
    } else if f == 7 {
        128
    } else {
        256
    };
    entries * 3
}

/// The on-disk bytes of one unit.
pub open spec fn chunk_ser(c: Chunk) -> Seq<u8> {
    match c {
        Chunk::Header(h) => h@,
        Chunk::LogicalScreenDescriptor(l) => le16(l.width) + le16(l.height) + seq![
            l.packed_fields,
            l.background_color_index,
            l.pixel_aspect_ratio,
        ],
        Chunk::GlobalColorTable(v) => v@,
        Chunk::Image(im) => seq![0x2cu8] + le16(im.descriptor.left) + le16(im.descriptor.top)
            + le16(im.descriptor.width) + le16(im.descriptor.height) + seq![
            im.descriptor.packed_fields,
        ] + (match im.local_color_table {
            Some(v) => v@,
            None => Seq::empty(),
        }) + im.image_data@,
        Chunk::Extension(e) => seq![0x21u8, e.extension_type] + e.data@,
        Chunk::Trailer => seq![0x3bu8],
    }
}

/// The unit is internally consistent: the header is the magic, a local color
/// table matches its announcement, and every sub-block chain is complete.
pub open spec fn chunk_wf(c: Chunk) -> bool {
    match c {
        Chunk::Header(h) => h@ == gif_magic(),
        Chunk::LogicalScreenDescriptor(_) => true,
        Chunk::GlobalColorTable(_) => true,
        Chunk::Image(im) => {
            &&& if im.descriptor.packed_fields & 0x80 != 0 {
                im.local_color_table matches Some(v) && v@.len() == color_table_len(
                    im.descriptor.packed_fields,
                )
            } else {
                im.local_color_table is None
            }
            &&& im.image_data@.len() >= 1
            &&& chain_end(im.image_data@, 1) == Some(im.image_data@.len() as int)
        },
        Chunk::Extension(e) => chain_end(e.data@, 0) == Some(e.data@.len() as int),
        Chunk::Trailer => true,
    }
}

} // verus!
