//! The JPEG command layer: validate a numeric marker key against the
//! standard markers, then embed, read or remove a payload in a parsed JPEG.
use vstd::prelude::*;
use vstd::string::StringSliceAdditionalSpecFns;

use crate::PngKeyError;
use crate::commands::{
    effective_password, make_payload, payload_len_spec, payload_rel, read_payload,
};
use crate::jpg::chunk::{Chunk, is_bare_marker, is_scan_marker};
use crate::util::bytes_to_string;
use crate::jpg::chunk_type::{all_digits, dec_val, parse_dec_u8};
use crate::jpg::{Jpg, chunks_ser, jpg_bytes_ok, jpg_magic, jpg_seq_wf, slot_index, upsert_rel};
use crate::key::decrypt_spec;

verus! {

/// The marker is one of the structural or standard codes the engine manages
/// itself, never a user slot.
pub open spec fn jpg_reserved(m: u8) -> bool {
    m == 0xd8 || m == 0xd9 || m == 0xc0 || m == 0xdb || m == 0xc4 || m == 0xda || m == 0xe2 || m
        == 0xdd || m == 0xfe || m == 0xc1
}

/// The key names a usable slot marker: a decimal byte between one and
/// `0xBF`, clear of the standard codes.
pub open spec fn valid_jpg_key(kb: Seq<u8>) -> bool {
    &&& 1 <= kb.len() <= 3
    &&& all_digits(kb)
    &&& dec_val(kb) <= 255
    &&& 1 <= dec_val(kb) <= 0xbf
    &&& !jpg_reserved(dec_val(kb) as u8)
}

/// The key parses and avoids the standard markers.
pub fn is_valid_chunk_type(chunk_type: &str) -> (r: bool)
    ensures
        r == valid_jpg_key(chunk_type.spec_bytes()),
{
    match parse_dec_u8(chunk_type) {
        Some(m) => 1 <= m && m <= 0xbf && !(m == 0xd8 || m == 0xd9 || m == 0xc0 || m == 0xdb || m
            == 0xc4 || m == 0xda || m == 0xe2 || m == 0xdd || m == 0xfe || m == 0xc1),
        None => false,
    }
}

/// What a finished JPEG embed guarantees; the shape matches the PNG
/// command's contract, with the one malformed-container error.
pub open spec fn encode_post(
    r: Result<Vec<u8>, PngKeyError>,
    bytes: Seq<u8>,
    chunk_type: &str,
    message: &str,
    password: Option<&str>,
) -> bool {
    let kb = chunk_type.spec_bytes();
    &&& (r == Err::<Vec<u8>, PngKeyError>(PngKeyError::InvalidIdentity) <==> !valid_jpg_key(kb))
    &&& (valid_jpg_key(kb) ==> (r == Err::<Vec<u8>, PngKeyError>(PngKeyError::MalformedContainer)
        <==> !jpg_bytes_ok(bytes)))
    &&& (valid_jpg_key(kb) && jpg_bytes_ok(bytes) && effective_password(password) is None ==> r
        is Ok)
    &&& (valid_jpg_key(kb) && jpg_bytes_ok(bytes) ==> (r is Ok || r == Err::<Vec<u8>, PngKeyError>(
        PngKeyError::DecryptError,
    )))
    &&& (r matches Ok(out) ==> valid_jpg_key(kb) && jpg_bytes_ok(bytes) && (exists|
        s: Seq<Chunk>,
        t: Seq<Chunk>,
        pl: Seq<u8>,
    |
        #![auto]
        {
            &&& jpg_magic() + chunks_ser(s) == bytes
            &&& (forall|i: int| 0 <= i < s.len() ==> (#[trigger] s[i]).wf())
            &&& jpg_seq_wf(s)
            &&& payload_rel(pl, message@, password)
            &&& upsert_rel(s, t, dec_val(kb) as u8, pl)
            &&& out@ == jpg_magic() + chunks_ser(t)
        }))
}

/// Embed `message` under the numeric marker key in a JPEG file, optionally
/// sealed with `password`.
pub fn encode(
    bytes: &Vec<u8>,
    chunk_type: &str,
    message: &str,
    password: Option<&str>,
) -> (r: Result<Vec<u8>, PngKeyError>)
    requires
        payload_len_spec(message, password) + 2 <= u16::MAX,
    ensures
        encode_post(r, bytes@, chunk_type, message, password),
{
    let marker = match parse_dec_u8(chunk_type) {
        Some(m) => m,
        None => {
            return Err(PngKeyError::InvalidIdentity);
        },
    };
    if !(1 <= marker && marker <= 0xbf) || marker == 0xd8 || marker == 0xd9 || marker == 0xc0
        || marker == 0xdb || marker == 0xc4 || marker == 0xda || marker == 0xe2 || marker == 0xdd
        || marker == 0xfe || marker == 0xc1 {
        return Err(PngKeyError::InvalidIdentity);
    }
    let mut jpg = match Jpg::from_bytes(bytes) {
        Ok(j) => j,
        Err(e) => {
            return Err(e);
        },
    };
    let payload = match make_payload(message, password) {
        Ok(v) => v,
        Err(e) => {
            return Err(e);
        },
    };
    let ghost s = jpg.chunks@;
    let ghost pl = payload@;
    jpg.upsert_chunk(marker, payload);
    let out = jpg.as_bytes();
    proof {
        let t = jpg.chunks@;
        assert(jpg_magic() + chunks_ser(s) == bytes@);
        assert(out@ == jpg_magic() + chunks_ser(t));
        assert(upsert_rel(s, t, marker, pl));
    }
    Ok(out)
}

/// A well-formed, parseable segment sequence that serializes to exactly
/// these bytes.
pub open spec fn jpg_decomposition(s: Seq<Chunk>, bytes: Seq<u8>) -> bool {
    &&& jpg_magic() + chunks_ser(s) == bytes
    &&& forall|j: int| 0 <= j < s.len() ==> (#[trigger] s[j]).wf()
    &&& jpg_seq_wf(s)
}

/// What a finished JPEG read guarantees: errors as in `encode_post`; the
/// missing slot reported as such, if and only if the file's decomposition
/// lacks it; success owed whenever the slot is there and plain reading
/// cannot fail; and a returned message that is exactly what the slot
/// stores.
pub open spec fn decode_post(
    r: Result<String, PngKeyError>,
    bytes: Seq<u8>,
    chunk_type: &str,
    password: Option<&str>,
) -> bool {
    let kb = chunk_type.spec_bytes();
    let marker = dec_val(kb) as u8;
    &&& (r == Err::<String, PngKeyError>(PngKeyError::InvalidIdentity) <==> !valid_jpg_key(kb))
    &&& (valid_jpg_key(kb) ==> (r == Err::<String, PngKeyError>(PngKeyError::MalformedContainer)
        <==> !jpg_bytes_ok(bytes)))
    &&& (r == Err::<String, PngKeyError>(PngKeyError::SlotNotFound) ==> exists|s: Seq<Chunk>|
        #![auto]
        jpg_decomposition(s, bytes) && slot_index(s, marker) is None)
    &&& (valid_jpg_key(kb) && jpg_bytes_ok(bytes) && (exists|s: Seq<Chunk>|
        #![auto]
        jpg_decomposition(s, bytes) && slot_index(s, marker) is None) ==> r == Err::<
        String,
        PngKeyError,
    >(PngKeyError::SlotNotFound))
    &&& (valid_jpg_key(kb) && jpg_bytes_ok(bytes) && effective_password(password) is None && (
    exists|s: Seq<Chunk>, i: int|
        #![auto]
        jpg_decomposition(s, bytes) && slot_index(s, marker) == Some(i) && vstd::utf8::valid_utf8(
            s[i].data@,
        )) ==> r is Ok)
    &&& (valid_jpg_key(kb) && jpg_bytes_ok(bytes) && effective_password(password) is None && (
    exists|s: Seq<Chunk>, i: int|
        #![auto]
        jpg_decomposition(s, bytes) && slot_index(s, marker) == Some(i) && !vstd::utf8::valid_utf8(
            s[i].data@,
        )) ==> r == Err::<String, PngKeyError>(PngKeyError::InvalidPayloadEncoding))
    &&& (valid_jpg_key(kb) && jpg_bytes_ok(bytes) && effective_password(password) is Some && (
    exists|s: Seq<Chunk>, i: int|
        #![auto]
        jpg_decomposition(s, bytes) && slot_index(s, marker) == Some(i)) ==> (r is Ok || r
        == Err::<String, PngKeyError>(PngKeyError::DecryptError)))
    &&& (r is Err ==> (r == Err::<String, PngKeyError>(PngKeyError::InvalidIdentity) || r == Err::<
        String,
        PngKeyError,
    >(PngKeyError::MalformedContainer) || r == Err::<String, PngKeyError>(
        PngKeyError::SlotNotFound,
    ) || r == Err::<String, PngKeyError>(PngKeyError::InvalidPayloadEncoding) || r == Err::<
        String,
        PngKeyError,
    >(PngKeyError::DecryptError)))
    &&& (r matches Ok(m) ==> exists|s: Seq<Chunk>, i: int|
        #![auto]
        {
            &&& jpg_decomposition(s, bytes)
            &&& slot_index(s, marker) == Some(i)
            &&& match effective_password(password) {
                None => vstd::utf8::valid_utf8(s[i].data@) && m@ == vstd::utf8::decode_utf8(
                    s[i].data@,
                ),
                Some(pw) => decrypt_spec(s[i].data@, pw) == Some(vstd::utf8::encode_utf8(m@)),
            }
        })
}

/// Read the message stored under the numeric marker key in a JPEG file,
/// decrypting it when a non-empty password is given.
pub fn decode(bytes: &Vec<u8>, chunk_type: &str, password: Option<&str>) -> (r: Result<
    String,
    PngKeyError,
>)
    ensures
        decode_post(r, bytes@, chunk_type, password),
{
    if !is_valid_chunk_type(chunk_type) {
        return Err(PngKeyError::InvalidIdentity);
    }
    let jpg = match Jpg::from_bytes(bytes) {
        Ok(j) => j,
        Err(e) => {
            return Err(e);
        },
    };
    let ghost s0 = jpg.chunks@;
    let ghost marker = dec_val(chunk_type.spec_bytes()) as u8;
    let i = match jpg.chunk_by_type(chunk_type) {
        Some(i) => i,
        None => {
            proof {
                assert(jpg_decomposition(s0, bytes@) && slot_index(s0, marker) is None);
                assert forall|s: Seq<Chunk>| jpg_decomposition(s, bytes@) implies slot_index(
                    s,
                    marker,
                ) is None by {
                    crate::jpg::lemma_same_file_same_slots(s, s0, marker);
                }
            }
            return Err(PngKeyError::SlotNotFound);
        },
    };
    let data = crate::util::copy_range_slice(jpg.chunks()[i].data());
    proof {
        assert(slot_index(s0, marker) == Some(i as int));
        assert(data@ == s0[i as int].data@);
        assert forall|s: Seq<Chunk>| jpg_decomposition(s, bytes@) implies slot_index(s, marker)
            == Some(i as int) && s[i as int].data@ == data@ by {
            crate::jpg::lemma_same_file_same_slots(s, s0, marker);
        }
    }
    read_payload(data, password)
}

/// Reading back what an embed wrote returns the original message, for any
/// output the embed produced and any message the read then returned,
/// plaintext and encrypted alike.
pub proof fn lemma_embed_then_extract(
    bytes: Seq<u8>,
    chunk_type: &str,
    message: &str,
    password: Option<&str>,
    out: Vec<u8>,
    got: String,
)
    requires
        encode_post(Ok(out), bytes, chunk_type, message, password),
        decode_post(Ok(got), out@, chunk_type, password),
    ensures
        got@ == message@,
{
    let kb = chunk_type.spec_bytes();
    let marker = dec_val(kb) as u8;
    let (s, t, pl): (Seq<Chunk>, Seq<Chunk>, Seq<u8>) = choose|
        s: Seq<Chunk>,
        t: Seq<Chunk>,
        pl: Seq<u8>,
    |
        #![auto]
        {
            &&& jpg_magic() + chunks_ser(s) == bytes
            &&& (forall|i: int| 0 <= i < s.len() ==> (#[trigger] s[i]).wf())
            &&& jpg_seq_wf(s)
            &&& payload_rel(pl, message@, password)
            &&& upsert_rel(s, t, marker, pl)
            &&& out@ == jpg_magic() + chunks_ser(t)
        };
    let (s2, i): (Seq<Chunk>, int) = choose|s2: Seq<Chunk>, i: int|
        #![auto]
        {
            &&& jpg_magic() + chunks_ser(s2) == out@
            &&& (forall|j: int| 0 <= j < s2.len() ==> (#[trigger] s2[j]).wf())
            &&& jpg_seq_wf(s2)
            &&& slot_index(s2, marker) == Some(i)
            &&& match effective_password(password) {
                None => vstd::utf8::valid_utf8(s2[i].data@) && got@ == vstd::utf8::decode_utf8(
                    s2[i].data@,
                ),
                Some(pw) => decrypt_spec(s2[i].data@, pw) == Some(vstd::utf8::encode_utf8(got@)),
            }
        };
    crate::jpg::lemma_upsert_extract(s, t, marker, pl);
    crate::jpg::lemma_upsert_wf(s, t, marker, pl);
    crate::jpg::lemma_same_file_same_slots(t, s2, marker);
    assert(s2[i].data@ == pl);
    crate::commands::lemma_same_payload_same_message(pl, message@, got@, password);
}

/// What the embed wrote, the read is owed: the embed's output is a
/// well-formed file whose slot holds the stored payload, so `decode_post`
/// obliges the read with no effective password to succeed outright, and
/// with a password to fail only as the one cryptographic error.
pub proof fn lemma_embed_output_readable(
    bytes: Seq<u8>,
    chunk_type: &str,
    message: &str,
    password: Option<&str>,
    out: Vec<u8>,
)
    requires
        encode_post(Ok(out), bytes, chunk_type, message, password),
    ensures
        valid_jpg_key(chunk_type.spec_bytes()),
        jpg_bytes_ok(out@),
        exists|s: Seq<Chunk>, i: int|
            #![auto]
            jpg_decomposition(s, out@) && slot_index(s, dec_val(chunk_type.spec_bytes()) as u8)
                == Some(i),
        effective_password(password) is None ==> exists|s: Seq<Chunk>, i: int|
            #![auto]
            jpg_decomposition(s, out@) && slot_index(s, dec_val(chunk_type.spec_bytes()) as u8)
                == Some(i) && vstd::utf8::valid_utf8(s[i].data@),
{
    broadcast use vstd::utf8::encode_utf8_valid_utf8;

    let kb = chunk_type.spec_bytes();
    let marker = dec_val(kb) as u8;
    let (s, t, pl): (Seq<Chunk>, Seq<Chunk>, Seq<u8>) = choose|
        s: Seq<Chunk>,
        t: Seq<Chunk>,
        pl: Seq<u8>,
    |
        #![auto]
        {
            &&& jpg_magic() + chunks_ser(s) == bytes
            &&& (forall|i: int| 0 <= i < s.len() ==> (#[trigger] s[i]).wf())
            &&& jpg_seq_wf(s)
            &&& payload_rel(pl, message@, password)
            &&& upsert_rel(s, t, marker, pl)
            &&& out@ == jpg_magic() + chunks_ser(t)
        };
    crate::jpg::lemma_upsert_wf(s, t, marker, pl);
    crate::jpg::lemma_wf_ser_parses(t, out@);
    crate::jpg::lemma_upsert_extract(s, t, marker, pl);
    let j = slot_index(t, marker)->0;
    assert(jpg_decomposition(t, out@) && slot_index(t, marker) == Some(j));
    if effective_password(password) is None {
        assert(t[j].data@ == vstd::utf8::encode_utf8(message@));
        assert(vstd::utf8::valid_utf8(t[j].data@));
    }
}

/// What a finished JPEG removal guarantees.
pub open spec fn remove_post(
    r: Result<Vec<u8>, PngKeyError>,
    bytes: Seq<u8>,
    chunk_type: &str,
) -> bool {
    let kb = chunk_type.spec_bytes();
    &&& (r == Err::<Vec<u8>, PngKeyError>(PngKeyError::MalformedContainer) <==> !jpg_bytes_ok(
        bytes,
    ))
    &&& (r is Err ==> (r == Err::<Vec<u8>, PngKeyError>(PngKeyError::MalformedContainer) || r
        == Err::<Vec<u8>, PngKeyError>(PngKeyError::SlotNotFound)))
    &&& (r == Err::<Vec<u8>, PngKeyError>(PngKeyError::SlotNotFound) && 1 <= kb.len() <= 3
        && all_digits(kb) && dec_val(kb) <= 255 ==> exists|s: Seq<Chunk>|
        #![auto]
        jpg_decomposition(s, bytes) && slot_index(s, dec_val(kb) as u8) is None)
    &&& (jpg_bytes_ok(bytes) && 1 <= kb.len() <= 3 && all_digits(kb) && dec_val(kb) <= 255 && (
    exists|s: Seq<Chunk>|
        #![auto]
        jpg_decomposition(s, bytes) && slot_index(s, dec_val(kb) as u8) is None) ==> r == Err::<
        Vec<u8>,
        PngKeyError,
    >(PngKeyError::SlotNotFound))
    &&& (jpg_bytes_ok(bytes) && 1 <= kb.len() <= 3 && all_digits(kb) && dec_val(kb) <= 255 && (
    exists|s: Seq<Chunk>, i: int|
        #![auto]
        jpg_decomposition(s, bytes) && slot_index(s, dec_val(kb) as u8) == Some(i)) ==> r is Ok)
    &&& (r matches Ok(out) ==> exists|s: Seq<Chunk>, i: int|
        #![auto]
        {
            &&& jpg_magic() + chunks_ser(s) == bytes
            &&& slot_index(s, dec_val(kb) as u8) == Some(i)
            &&& out@ == jpg_magic() + chunks_ser(s.remove(i))
        })
}

/// Remove the segment stored under the numeric marker key from a JPEG file
/// and re-serialize the rest unchanged.
pub fn remove(bytes: &Vec<u8>, chunk_type: &str) -> (r: Result<Vec<u8>, PngKeyError>)
    ensures
        remove_post(r, bytes@, chunk_type),
{
    let mut jpg = match Jpg::from_bytes(bytes) {
        Ok(j) => j,
        Err(e) => {
            return Err(e);
        },
    };
    let ghost s = jpg.chunks@;
    let ghost kbs = chunk_type.spec_bytes();
    match jpg.remove_chunk(chunk_type) {
        Ok(_) => {},
        Err(_) => {
            proof {
                if 1 <= kbs.len() <= 3 && all_digits(kbs) && dec_val(kbs) <= 255 {
                    let marker = dec_val(kbs) as u8;
                    assert(jpg_decomposition(s, bytes@) && slot_index(s, marker) is None);
                    assert forall|u: Seq<Chunk>| jpg_decomposition(u, bytes@) implies slot_index(
                        u,
                        marker,
                    ) is None by {
                        crate::jpg::lemma_same_file_same_slots(u, s, marker);
                    }
                }
            }
            return Err(PngKeyError::SlotNotFound);
        },
    }
    proof {
        let marker = dec_val(kbs) as u8;
        assert forall|u: Seq<Chunk>| jpg_decomposition(u, bytes@) implies slot_index(u, marker)
            == slot_index(s, marker) by {
            crate::jpg::lemma_same_file_same_slots(u, s, marker);
        }
    }
    let out = jpg.as_bytes();
    Ok(out)
}

/// One line of text for a segment: its marker in hex and, for an ordinary
/// segment, a bounded, escaped view of its payload; bare markers stand
/// alone and the entropy-coded scan region is summarized, not dumped.
pub open spec fn chunk_line(c: Chunk) -> Seq<u8> {
    seq![0x73u8, 0x65u8, 0x67u8, 0x6du8, 0x65u8, 0x6eu8, 0x74u8, 0x20u8] + crate::util::hex_byte(c.chunk_type) + if is_bare_marker(c.chunk_type) {
        seq![0x0au8]
    } else if is_scan_marker(c.chunk_type) {
        seq![0x20u8, 0x3cu8, 0x73u8, 0x63u8, 0x61u8, 0x6eu8, 0x20u8, 0x64u8, 0x61u8, 0x74u8, 0x61u8, 0x3eu8] + seq![0x0au8]
    } else {
        seq![0x20u8, 0x22u8] + crate::util::escaped_view(c.data@) + seq![0x22u8] + seq![0x0au8]
    }
}

/// The listing of a whole file: one line per segment, in file order.
pub open spec fn render(s: Seq<Chunk>) -> Seq<u8>
    decreases s.len(),
{
    if s.len() == 0 {
        Seq::empty()
    } else {
        chunk_line(s[0]) + render(s.drop_first())
    }
}

/// Appending a segment appends its line.
proof fn lemma_render_push(s: Seq<Chunk>, c: Chunk)
    ensures
        render(s.push(c)) == render(s) + chunk_line(c),
    decreases s.len(),
{
    let sp = s.push(c);
    if s.len() == 0 {
        assert(sp[0] == c);
        assert(sp.drop_first() =~= Seq::<Chunk>::empty());
        assert(render(sp) == chunk_line(c) + render(Seq::<Chunk>::empty()));
        assert(chunk_line(c) + Seq::<u8>::empty() =~= chunk_line(c));
        assert(Seq::<u8>::empty() + chunk_line(c) =~= chunk_line(c));
    } else {
        assert(sp[0] == s[0]);
        assert(sp.drop_first() =~= s.drop_first().push(c));
        lemma_render_push(s.drop_first(), c);
        assert(render(sp) == chunk_line(s[0]) + (render(s.drop_first()) + chunk_line(c)));
        assert(chunk_line(s[0]) + (render(s.drop_first()) + chunk_line(c)) =~= (chunk_line(s[0])
            + render(s.drop_first())) + chunk_line(c));
    }
}

/// Every line is plain ASCII.
proof fn lemma_chunk_line_ascii(c: Chunk)
    ensures
        crate::util::ascii_seq(chunk_line(c)),
{
    crate::util::lemma_escaped_view_ascii(c.data@);
    assert forall|i: int| 0 <= i < chunk_line(c).len() implies chunk_line(c)[i] <= 0x7f by {
        crate::util::lemma_escaped_view_ascii(c.data@);
    }
}

/// The whole listing is plain ASCII.
proof fn lemma_render_ascii(s: Seq<Chunk>)
    ensures
        crate::util::ascii_seq(render(s)),
    decreases s.len(),
{
    if s.len() > 0 {
        lemma_chunk_line_ascii(s[0]);
        lemma_render_ascii(s.drop_first());
        crate::util::lemma_ascii_concat(chunk_line(s[0]), render(s.drop_first()));
    }
}

/// Build the text line of one segment.
fn chunk_line_bytes(c: &Chunk) -> (r: Vec<u8>)
    ensures
        r@ == chunk_line(*c),
{
    let mut out: Vec<u8> = Vec::new();
    out.push(0x73);
    out.push(0x65);
    out.push(0x67);
    out.push(0x6d);
    out.push(0x65);
    out.push(0x6e);
    out.push(0x74);
    out.push(0x20);
    let m = *c.chunk_type();
    crate::util::push_hex_byte(&mut out, m);
    if m == 0xd8 || m == 0xd9 {
        out.push(0x0a);
    } else if m == 0xda {
    out.push(0x20);
    out.push(0x3c);
    out.push(0x73);
    out.push(0x63);
    out.push(0x61);
    out.push(0x6e);
    out.push(0x20);
    out.push(0x64);
    out.push(0x61);
    out.push(0x74);
    out.push(0x61);
    out.push(0x3e);
        out.push(0x0a);
    } else {
    out.push(0x20);
    out.push(0x22);
        crate::util::push_escaped(&mut out, &c.data);
    out.push(0x22);
        out.push(0x0a);
    }
    proof {
        assert(out@ =~= chunk_line(*c));
    }
    out
}

/// What a finished JPEG listing guarantees: the container error as in the
/// parser; with no key, the text renders every segment, one line each, in
/// file order; with a parseable key, the text renders exactly the slot's
/// segment, owed whenever the slot is there and refused as missing exactly
/// when it is not.
pub open spec fn print_post(
    r: Result<String, PngKeyError>,
    bytes: Seq<u8>,
    chunk_type: Option<&str>,
) -> bool {
    &&& (r == Err::<String, PngKeyError>(PngKeyError::MalformedContainer) <==> !jpg_bytes_ok(
        bytes,
    ))
    &&& match chunk_type {
        None => {
            &&& (jpg_bytes_ok(bytes) ==> r is Ok)
            &&& (r matches Ok(text) ==> exists|s: Seq<Chunk>|
                #![auto]
                jpg_decomposition(s, bytes) && vstd::utf8::encode_utf8(text@) == render(s))
        },
        Some(key) => {
            let kb = key.spec_bytes();
            let parsed = 1 <= kb.len() <= 3 && all_digits(kb) && dec_val(kb) <= 255;
            let marker = dec_val(kb) as u8;
            &&& (!parsed && jpg_bytes_ok(bytes) ==> r == Err::<String, PngKeyError>(
                PngKeyError::SlotNotFound,
            ))
            &&& (parsed && r == Err::<String, PngKeyError>(PngKeyError::SlotNotFound) ==> exists|
                s: Seq<Chunk>,
            |
                #![auto]
                jpg_decomposition(s, bytes) && slot_index(s, marker) is None)
            &&& (parsed && jpg_bytes_ok(bytes) && (exists|s: Seq<Chunk>|
                #![auto]
                jpg_decomposition(s, bytes) && slot_index(s, marker) is None) ==> r == Err::<
                String,
                PngKeyError,
            >(PngKeyError::SlotNotFound))
            &&& (parsed && jpg_bytes_ok(bytes) && (exists|s: Seq<Chunk>, i: int|
                #![auto]
                jpg_decomposition(s, bytes) && slot_index(s, marker) == Some(i)) ==> r is Ok)
            &&& (r matches Ok(text) ==> parsed && exists|s: Seq<Chunk>, i: int|
                #![auto]
                jpg_decomposition(s, bytes) && slot_index(s, marker) == Some(i)
                    && vstd::utf8::encode_utf8(text@) == chunk_line(s[i]))
            &&& (r is Err ==> (r == Err::<String, PngKeyError>(PngKeyError::MalformedContainer) || r
                == Err::<String, PngKeyError>(PngKeyError::SlotNotFound)))
        },
    }
}

/// Render the segments of a JPEG file as one line of text each; with a key,
/// only that slot's segment, failing when it is absent.
pub fn print(bytes: &Vec<u8>, chunk_type: Option<&str>) -> (r: Result<String, PngKeyError>)
    ensures
        print_post(r, bytes@, chunk_type),
{
    let jpg = match Jpg::from_bytes(bytes) {
        Ok(j) => j,
        Err(e) => {
            return Err(e);
        },
    };
    let ghost s0 = jpg.chunks@;
    match chunk_type {
        Some(key) => {
            let ghost marker = dec_val(key.spec_bytes()) as u8;
            match jpg.chunk_by_type(key) {
                Some(i) => {
                    let line = chunk_line_bytes(&jpg.chunks()[i]);
                    proof {
                        assert(line@ == chunk_line(s0[i as int]));
                        lemma_chunk_line_ascii(s0[i as int]);
                        crate::util::lemma_ascii_valid_utf8(line@);
                        assert forall|s: Seq<Chunk>| jpg_decomposition(s, bytes@) implies
                            slot_index(s, marker) == Some(i as int) by {
                            crate::jpg::lemma_same_file_same_slots(s, s0, marker);
                        }
                    }
                    match bytes_to_string(line) {
                        Some(text) => {
                            proof {
                                broadcast use vstd::utf8::decode_utf8_encode_utf8;

                            }
                            Ok(text)
                        },
                        None => {
                            proof {
                                assert(false);
                            }
                            Err(PngKeyError::SlotNotFound)
                        },
                    }
                },
                None => {
                    proof {
                        assert(jpg_decomposition(s0, bytes@));
                        assert forall|s: Seq<Chunk>| jpg_decomposition(s, bytes@) implies
                            slot_index(s, marker) == slot_index(s0, marker) by {
                            crate::jpg::lemma_same_file_same_slots(s, s0, marker);
                        }
                    }
                    Err(PngKeyError::SlotNotFound)
                },
            }
        },
        None => {
            let mut out: Vec<u8> = Vec::new();
            let cs = jpg.chunks();
            let n = cs.len();
            let mut i: usize = 0;
            proof {
                assert(s0.take(0) =~= Seq::<Chunk>::empty());
            }
            while i < n
                invariant
                    i <= n == s0.len(),
                    cs@ == s0,
                    out@ == render(s0.take(i as int)),
                decreases n - i,
            {
                let line = chunk_line_bytes(&cs[i]);
                crate::util::append_bytes(&mut out, &line);
                proof {
                    lemma_render_push(s0.take(i as int), s0[i as int]);
                    assert(s0.take(i as int).push(s0[i as int]) =~= s0.take(i + 1));
                    assert(out@ =~= render(s0.take(i + 1)));
                }
                i = i + 1;
            }
            proof {
                assert(s0.take(n as int) =~= s0);
                lemma_render_ascii(s0);
                crate::util::lemma_ascii_valid_utf8(out@);
            }
            match bytes_to_string(out) {
                Some(text) => {
                    proof {
                        broadcast use vstd::utf8::decode_utf8_encode_utf8;

                    }
                    Ok(text)
                },
                None => {
                    proof {
                        assert(false);
                    }
                    Err(PngKeyError::MalformedContainer)
                },
            }
        },
    }
}

} // verus!
