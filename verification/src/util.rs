//! Byte-level helpers shared by the format codecs: big- and little-endian
//! integer fields, buffer copies, and a generic first-match search.
use vstd::prelude::*;

verus! {

// --- 16- and 32-bit integer fields ---------------------------------------

/// The two big-endian bytes of `n`.
pub open spec fn be16(n: u16) -> Seq<u8> {
    seq![(n / 0x100) as u8, (n % 0x100) as u8]
}

/// The value of two big-endian bytes.
pub open spec fn be16_int(b: Seq<u8>) -> int
    recommends
        b.len() == 2,
{
    0x100 * (b[0] as int) + (b[1] as int)
}

/// The two little-endian bytes of `n`.
pub open spec fn le16(n: u16) -> Seq<u8> {
    seq![(n % 0x100) as u8, (n / 0x100) as u8]
}

/// The value of two little-endian bytes.
pub open spec fn le16_int(b: Seq<u8>) -> int
    recommends
        b.len() == 2,
{
    0x100 * (b[1] as int) + (b[0] as int)
}

/// The four big-endian bytes of `n`.
pub open spec fn be32(n: u32) -> Seq<u8> {
    seq![
        (n / 0x1000000) as u8,
        ((n / 0x10000) % 0x100) as u8,
        ((n / 0x100) % 0x100) as u8,
        (n % 0x100) as u8,
    ]
}

/// The value of four big-endian bytes.
pub open spec fn be32_int(b: Seq<u8>) -> int
    recommends
        b.len() == 4,
{
    0x1000000 * (b[0] as int) + 0x10000 * (b[1] as int) + 0x100 * (b[2] as int) + (b[3] as int)
}

/// Reading four big-endian bytes undoes writing them.
pub proof fn lemma_be32_int_of_be32(n: u32)
    ensures
        be32(n).len() == 4,
        be32_int(be32(n)) == n,
{
    assert((n / 0x1000000) * 0x1000000 + ((n / 0x10000) % 0x100) * 0x10000 + ((n / 0x100) % 0x100)
        * 0x100 + (n % 0x100) == n) by (bit_vector);
}

/// Writing the value of four big-endian bytes reproduces the bytes.
pub proof fn lemma_be32_of_be32_int(b: Seq<u8>)
    requires
        b.len() == 4,
    ensures
        0 <= be32_int(b) <= u32::MAX,
        be32(be32_int(b) as u32) == b,
{
    let b0 = b[0];
    let b1 = b[1];
    let b2 = b[2];
    let b3 = b[3];
    let n = (0x1000000 * (b0 as u32) + 0x10000 * (b1 as u32) + 0x100 * (b2 as u32) + (
    b3 as u32)) as u32;
    assert(n / 0x1000000 == (b0 as u32) && (n / 0x10000) % 0x100 == (b1 as u32) && (n / 0x100)
        % 0x100 == (b2 as u32) && n % 0x100 == (b3 as u32)) by (bit_vector)
        requires
            n == 0x1000000 * (b0 as u32) + 0x10000 * (b1 as u32) + 0x100 * (b2 as u32) + (
            b3 as u32),
            b0 < 0x100 && b1 < 0x100 && b2 < 0x100 && b3 < 0x100,
    ;
    assert(be32(n) =~= b);
}

/// Reading two big-endian bytes undoes writing them.
pub proof fn lemma_be16_int_of_be16(n: u16)
    ensures
        be16(n).len() == 2,
        be16_int(be16(n)) == n,
{
    assert((n / 0x100) * 0x100 + (n % 0x100) == n) by (bit_vector);
}

/// Writing the value of two big-endian bytes reproduces the bytes.
pub proof fn lemma_be16_of_be16_int(b: Seq<u8>)
    requires
        b.len() == 2,
    ensures
        0 <= be16_int(b) <= u16::MAX,
        be16(be16_int(b) as u16) == b,
{
    let b0 = b[0];
    let b1 = b[1];
    let n = (0x100 * (b0 as u16) + (b1 as u16)) as u16;
    assert(n / 0x100 == (b0 as u16) && n % 0x100 == (b1 as u16)) by (bit_vector)
        requires
            n == 0x100 * (b0 as u16) + (b1 as u16),
            b0 < 0x100 && b1 < 0x100,
    ;
    assert(be16(n) =~= b);
}

/// Reading two little-endian bytes undoes writing them.
pub proof fn lemma_le16_int_of_le16(n: u16)
    ensures
        le16(n).len() == 2,
        le16_int(le16(n)) == n,
{
    assert((n / 0x100) * 0x100 + (n % 0x100) == n) by (bit_vector);
}

/// Writing the value of two little-endian bytes reproduces the bytes.
pub proof fn lemma_le16_of_le16_int(b: Seq<u8>)
    requires
        b.len() == 2,
    ensures
        0 <= le16_int(b) <= u16::MAX,
        le16(le16_int(b) as u16) == b,
{
    let b0 = b[0];
    let b1 = b[1];
    let n = (0x100 * (b1 as u16) + (b0 as u16)) as u16;
    assert(n / 0x100 == (b1 as u16) && n % 0x100 == (b0 as u16)) by (bit_vector)
        requires
            n == 0x100 * (b1 as u16) + (b0 as u16),
            b0 < 0x100 && b1 < 0x100,
    ;
    assert(le16(n) =~= b);
}

/// Read the 32-bit big-endian field at `i`.
pub fn read_be32(b: &Vec<u8>, i: usize) -> (n: u32)
    requires
        i + 4 <= b@.len(),
    ensures
        n == be32_int(b@.subrange(i as int, i + 4)),
{
    // bind the length once so its machine-word bound is in scope for the
    // index arithmetic
    let _len = b.len();
    let n = (b[i] as u32) * 0x1000000 + (b[i + 1] as u32) * 0x10000 + (b[i + 2] as u32) * 0x100 + (
    b[i + 3] as u32);
    proof {
        let s = b@.subrange(i as int, i + 4);
        assert(s[0] == b@[i as int] && s[1] == b@[i + 1] && s[2] == b@[i + 2] && s[3] == b@[i + 3]);
    }
    n
}

/// Read the 16-bit big-endian field at `i`.
pub fn read_be16(b: &Vec<u8>, i: usize) -> (n: u16)
    requires
        i + 2 <= b@.len(),
    ensures
        n == be16_int(b@.subrange(i as int, i + 2)),
{
    // bind the length once so its machine-word bound is in scope for the
    // index arithmetic
    let _len = b.len();
    let n = (b[i] as u16) * 0x100 + (b[i + 1] as u16);
    proof {
        let s = b@.subrange(i as int, i + 2);
        assert(s[0] == b@[i as int] && s[1] == b@[i + 1]);
    }
    n
}

/// Read the 16-bit little-endian field at `i`.
pub fn read_le16(b: &Vec<u8>, i: usize) -> (n: u16)
    requires
        i + 2 <= b@.len(),
    ensures
        n == le16_int(b@.subrange(i as int, i + 2)),
{
    // bind the length once so its machine-word bound is in scope for the
    // index arithmetic
    let _len = b.len();
    let n = (b[i + 1] as u16) * 0x100 + (b[i] as u16);
    proof {
        let s = b@.subrange(i as int, i + 2);
        assert(s[0] == b@[i as int] && s[1] == b@[i + 1]);
    }
    n
}

/// Append the four big-endian bytes of `n` to `out`.
pub fn push_be32(out: &mut Vec<u8>, n: u32)
    ensures
        final(out)@ == old(out)@ + be32(n),
{
    out.push((n / 0x1000000) as u8);
    out.push(((n / 0x10000) % 0x100) as u8);
    out.push(((n / 0x100) % 0x100) as u8);
    out.push((n % 0x100) as u8);
    proof {
        assert(final(out)@ =~= old(out)@ + be32(n));
    }
}

/// Append the two big-endian bytes of `n` to `out`.
pub fn push_be16(out: &mut Vec<u8>, n: u16)
    ensures
        final(out)@ == old(out)@ + be16(n),
{
    out.push((n / 0x100) as u8);
    out.push((n % 0x100) as u8);
    proof {
        assert(final(out)@ =~= old(out)@ + be16(n));
    }
}

/// Append the two little-endian bytes of `n` to `out`.
pub fn push_le16(out: &mut Vec<u8>, n: u16)
    ensures
        final(out)@ == old(out)@ + le16(n),
{
    out.push((n % 0x100) as u8);
    out.push((n / 0x100) as u8);
    proof {
        assert(final(out)@ =~= old(out)@ + le16(n));
    }
}

// --- buffer copies --------------------------------------------------------

/// Copy `b[from..to]` into a fresh vector.
pub fn copy_range(b: &Vec<u8>, from: usize, to: usize) -> (r: Vec<u8>)
    requires
        from <= to <= b@.len(),
    ensures
        r@ == b@.subrange(from as int, to as int),
{
    let mut r: Vec<u8> = Vec::new();
    let mut i: usize = from;
    while i < to
        invariant
            from <= i <= to <= b@.len(),
            r@ == b@.subrange(from as int, i as int),
        decreases to - i,
    {
        r.push(b[i]);
        i = i + 1;
        proof {
            assert(b@.subrange(from as int, i as int) =~= b@.subrange(from as int, i - 1).push(
                b@[i - 1],
            ));
        }
    }
    r
}

/// Copy a byte slice into a fresh vector.
pub fn copy_range_slice(b: &[u8]) -> (r: Vec<u8>)
    ensures
        r@ == b@,
{
    let mut r: Vec<u8> = Vec::new();
    let mut i: usize = 0;
    while i < b.len()
        invariant
            i <= b@.len(),
            r@ == b@.subrange(0, i as int),
        decreases b@.len() - i,
    {
        r.push(b[i]);
        i = i + 1;
        proof {
            assert(b@.subrange(0, i as int) =~= b@.subrange(0, i - 1).push(b@[i - 1]));
        }
    }
    proof {
        assert(b@.subrange(0, b@.len() as int) =~= b@);
    }
    r
}

/// Append all of `src` to `out`.
pub fn append_bytes(out: &mut Vec<u8>, src: &Vec<u8>)
    ensures
        final(out)@ == old(out)@ + src@,
{
    let mut i: usize = 0;
    while i < src.len()
        invariant
            i <= src@.len(),
            out@ == old(out)@ + src@.subrange(0, i as int),
        decreases src@.len() - i,
    {
        out.push(src[i]);
        i = i + 1;
        proof {
            assert(src@.subrange(0, i as int) =~= src@.subrange(0, i - 1).push(src@[i - 1]));
        }
    }
    proof {
        assert(src@.subrange(0, src@.len() as int) =~= src@);
    }
}

/// Relies on std's `String::from_utf8`: it succeeds exactly on valid UTF-8
/// input, and the returned string holds the decoding of those bytes.
#[verifier::external_body]
pub fn bytes_to_string(bytes: Vec<u8>) -> (r: Option<String>)
    ensures
        r is Some <==> vstd::utf8::valid_utf8(bytes@),
        r matches Some(s) ==> s@ == vstd::utf8::decode_utf8(bytes@),
{
    match String::from_utf8(bytes) {
        Ok(s) => Some(s),
        Err(_) => None,
    }
}


// --- bounded, escaped text rendering ----------------------------------------

/// Every byte of the sequence is plain ASCII.
pub open spec fn ascii_seq(b: Seq<u8>) -> bool {
    forall|i: int| 0 <= i < b.len() ==> b[i] <= 0x7f
}

/// ASCII survives concatenation.
pub proof fn lemma_ascii_concat(a: Seq<u8>, b: Seq<u8>)
    requires
        ascii_seq(a),
        ascii_seq(b),
    ensures
        ascii_seq(a + b),
{
    assert forall|i: int| 0 <= i < (a + b).len() implies (a + b)[i] <= 0x7f by {
        if i < a.len() {
            assert((a + b)[i] == a[i]);
        } else {
            assert((a + b)[i] == b[i - a.len()]);
        }
    }
}

/// Plain ASCII bytes are valid UTF-8.
pub proof fn lemma_ascii_valid_utf8(b: Seq<u8>)
    requires
        ascii_seq(b),
    ensures
        vstd::utf8::valid_utf8(b),
{
    assert(b.subrange(0, 0) =~= Seq::<u8>::empty());
    assert(vstd::utf8::valid_utf8(Seq::<u8>::empty()));
    assert(vstd::utf8::partial_valid_utf8(b, 0));
    vstd::utf8::partial_valid_utf8_extend_ascii_block(b, 0, b.len() as int);
    assert(b.subrange(0, b.len() as int) =~= b);
}

/// One payload byte as printable text: itself when printable ASCII, a dot
/// otherwise.
pub open spec fn escape_byte(b: u8) -> u8 {
    if 0x20 <= b && b <= 0x7e {
        b
    } else {
        0x2e
    }
}

/// The escaped bytes, one for one.
pub open spec fn escape_bytes(d: Seq<u8>) -> Seq<u8> {
    Seq::new(d.len(), |i: int| escape_byte(d[i]))
}

/// A bounded, escaped view of a payload: at most 32 bytes of text, three
/// dots where it was cut.
pub open spec fn escaped_view(d: Seq<u8>) -> Seq<u8> {
    if d.len() <= 32 {
        escape_bytes(d)
    } else {
        escape_bytes(d.take(32)) + seq![0x2eu8, 0x2eu8, 0x2eu8]
    }
}

/// The bounded view is plain ASCII.
pub proof fn lemma_escaped_view_ascii(d: Seq<u8>)
    ensures
        ascii_seq(escaped_view(d)),
{
}

/// Append the bounded, escaped view of `d` to `out`.
pub fn push_escaped(out: &mut Vec<u8>, d: &Vec<u8>)
    ensures
        final(out)@ == old(out)@ + escaped_view(d@),
{
    let n = d.len();
    let limit: usize = if n <= 32 {
        n
    } else {
        32
    };
    let mut i: usize = 0;
    while i < limit
        invariant
            i <= limit <= n == d@.len(),
            limit == if n <= 32 {
                n as int
            } else {
                32int
            },
            out@ == old(out)@ + escape_bytes(d@.subrange(0, i as int)),
        decreases limit - i,
    {
        let b = d[i];
        out.push(
            if 0x20 <= b && b <= 0x7e {
                b
            } else {
                0x2e
            },
        );
        i = i + 1;
        proof {
            assert(escape_bytes(d@.subrange(0, i as int)) =~= escape_bytes(
                d@.subrange(0, i - 1),
            ).push(escape_byte(d@[i - 1])));
            assert(out@ =~= old(out)@ + escape_bytes(d@.subrange(0, i as int)));
        }
    }
    if n > 32 {
        out.push(0x2e);
        out.push(0x2e);
        out.push(0x2e);
        proof {
            assert(d@.subrange(0, 32) =~= d@.take(32));
            assert(out@ =~= old(out)@ + escaped_view(d@));
        }
    } else {
        proof {
            assert(d@.subrange(0, n as int) =~= d@);
            assert(out@ =~= old(out)@ + escaped_view(d@));
        }
    }
}

/// The two lowercase hex digits of one byte.
pub open spec fn hex_digit(v: u8) -> u8 {
    if v < 10 {
        (0x30 + v) as u8
    } else {
        (0x57 + v) as u8
    }
}

/// A byte written as two hex digits.
pub open spec fn hex_byte(b: u8) -> Seq<u8> {
    seq![hex_digit(b / 16), hex_digit(b % 16)]
}

/// Append the two hex digits of `b` to `out`.
pub fn push_hex_byte(out: &mut Vec<u8>, b: u8)
    ensures
        final(out)@ == old(out)@ + hex_byte(b),
{
    let hi = b / 16;
    let lo = b % 16;
    out.push(
        if hi < 10 {
            0x30 + hi
        } else {
            0x57 + hi
        },
    );
    out.push(
        if lo < 10 {
            0x30 + lo
        } else {
            0x57 + lo
        },
    );
    proof {
        assert(final(out)@ =~= old(out)@ + hex_byte(b));
    }
}

// --- first match in a sequence --------------------------------------------

/// The index of the first element of `s` satisfying `p`, if any.
pub open spec fn find_first<T>(s: Seq<T>, p: spec_fn(T) -> bool) -> Option<int>
    decreases s.len(),
{
    if s.len() == 0 {
        None
    } else if p(s[0]) {
        Some(0int)
    } else {
        match find_first(s.drop_first(), p) {
            Some(i) => Some(i + 1),
            None => None,
        }
    }
}

/// What `find_first` returns: the least matching index, or a guarantee that
/// nothing matches.
pub proof fn lemma_find_first<T>(s: Seq<T>, p: spec_fn(T) -> bool)
    ensures
        match find_first(s, p) {
            Some(i) => 0 <= i < s.len() && p(s[i]) && (forall|j: int| 0 <= j < i ==> !p(s[j])),
            None => forall|j: int| 0 <= j < s.len() ==> !p(s[j]),
        },
    decreases s.len(),
{
    if s.len() > 0 && !p(s[0]) {
        lemma_find_first(s.drop_first(), p);
        match find_first(s, p) {
            Some(i) => {
                assert(s.drop_first()[i - 1] == s[i]);
                assert(forall|j: int| 0 <= j < i ==> #[trigger] p(s[j]) == p(
                    if j == 0 {
                        s[0]
                    } else {
                        s.drop_first()[j - 1]
                    },
                ));
            },
            None => {
                assert forall|j: int| 0 <= j < s.len() implies !p(s[j]) by {
                    if j > 0 {
                        assert(s.drop_first()[j - 1] == s[j]);
                    }
                }
            },
        }
    }
}

/// A least matching index determines `find_first`.
pub proof fn lemma_find_first_is<T>(s: Seq<T>, p: spec_fn(T) -> bool, k: int)
    requires
        0 <= k < s.len(),
        p(s[k]),
        forall|j: int| 0 <= j < k ==> !p(s[j]),
    ensures
        find_first(s, p) == Some(k),
    decreases s.len(),
{
    if k > 0 {
        lemma_find_first_is(s.drop_first(), p, k - 1);
    }
}

/// When nothing in `s` matches, `find_first` says so.
pub proof fn lemma_find_first_none<T>(s: Seq<T>, p: spec_fn(T) -> bool)
    requires
        forall|j: int| 0 <= j < s.len() ==> !p(s[j]),
    ensures
        find_first(s, p) is None,
    decreases s.len(),
{
    if s.len() > 0 {
        lemma_find_first_none(s.drop_first(), p);
    }
}

} // verus!
