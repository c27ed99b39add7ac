//! The GIF command layer: validate a three-byte key, then embed, read or
//! remove a payload in a parsed GIF's Application Extension slots.
use vstd::prelude::*;
use vstd::string::StringSliceAdditionalSpecFns;

use crate::PngKeyError;
use crate::commands::{
    effective_password, make_payload, payload_rel, read_payload,
};
use crate::gif::chunk::{Chunk, chain_end};
use crate::gif::{
    Gif, chunks_ser, gif_bytes_ok, gif_seq_wf, slot_index, slot_payload, upsert_rel,
};
use crate::gif::chunk::chunk_wf;
use crate::util::bytes_to_string;
use crate::key::decrypt_spec;

verus! {

/// The key is usable as a GIF slot code: exactly three bytes, of any value.
pub open spec fn valid_gif_key(kb: Seq<u8>) -> bool {
    kb.len() == 3
}

/// The key is exactly three bytes long.
pub fn is_valid_chunk_type(chunk_type: &str) -> (r: bool)
    ensures
        r == valid_gif_key(chunk_type.spec_bytes()),
{
    chunk_type.as_bytes().len() == 3
}

/// What a finished GIF embed guarantees; the shape matches the PNG
/// command's contract, with the one malformed-container error.
pub open spec fn encode_post(
    r: Result<Vec<u8>, PngKeyError>,
    bytes: Seq<u8>,
    chunk_type: &str,
    message: &str,
    password: Option<&str>,
) -> bool {
    let kb = chunk_type.spec_bytes();
    &&& (r == Err::<Vec<u8>, PngKeyError>(PngKeyError::InvalidIdentity) <==> !valid_gif_key(kb))
    &&& (valid_gif_key(kb) ==> (r == Err::<Vec<u8>, PngKeyError>(PngKeyError::MalformedContainer)
        <==> !gif_bytes_ok(bytes)))
    &&& (valid_gif_key(kb) && gif_bytes_ok(bytes) && effective_password(password) is None ==> r
        is Ok)
    &&& (valid_gif_key(kb) && gif_bytes_ok(bytes) ==> (r is Ok || r == Err::<Vec<u8>, PngKeyError>(
        PngKeyError::DecryptError,
    )))
    &&& (r matches Ok(out) ==> valid_gif_key(kb) && gif_bytes_ok(bytes) && (exists|
        s: Seq<Chunk>,
        t: Seq<Chunk>,
        pl: Seq<u8>,
    |
        #![auto]
        {
            &&& chunks_ser(s) == bytes
            &&& (forall|i: int| 0 <= i < s.len() ==> chunk_wf(#[trigger] s[i]))
            &&& gif_seq_wf(s)
            &&& payload_rel(pl, message@, password)
            &&& upsert_rel(s, t, kb, pl)
            &&& out@ == chunks_ser(t)
        }))
}

/// Embed `message` under the three-byte key in a GIF file, optionally
/// sealed with `password`; the slot unit sits just before the trailer.
pub fn encode(
    bytes: &Vec<u8>,
    chunk_type: &str,
    message: &str,
    password: Option<&str>,
) -> (r: Result<Vec<u8>, PngKeyError>)
    ensures
        encode_post(r, bytes@, chunk_type, message, password),
{
    let kb = chunk_type.as_bytes();
    if kb.len() != 3 {
        return Err(PngKeyError::InvalidIdentity);
    }
    let code = [kb[0], kb[1], kb[2]];
    proof {
        assert(code@ =~= chunk_type.spec_bytes());
    }
    let mut gif = match Gif::from_bytes(bytes) {
        Ok(g) => g,
        Err(e) => {
            return Err(e);
        },
    };
    let payload = match make_payload(message, password) {
        Ok(v) => v,
        Err(e) => {
            return Err(e);
        },
    };
    let ghost s = gif.chunks@;
    let ghost pl = payload@;
    gif.upsert_chunk(&code, payload.as_slice());
    let out = gif.as_bytes();
    proof {
        let t = gif.chunks@;
        assert(chunks_ser(s) == bytes@);
        assert(out@ == chunks_ser(t));
        assert(upsert_rel(s, t, chunk_type.spec_bytes(), pl));
    }
    Ok(out)
}

/// A well-formed, file-ordered unit sequence that serializes to exactly
/// these bytes.
pub open spec fn gif_decomposition(s: Seq<Chunk>, bytes: Seq<u8>) -> bool {
    &&& chunks_ser(s) == bytes
    &&& forall|j: int| 0 <= j < s.len() ==> chunk_wf(#[trigger] s[j])
    &&& gif_seq_wf(s)
}

/// The slot unit at `i` can be read back: its sub-block chain resumes at the
/// twelfth byte, as every unit this library writes does.
pub open spec fn slot_readable(s: Seq<Chunk>, i: int) -> bool {
    chain_end(s[i]->Extension_0.data@, 12) is Some
}

/// What a finished GIF read guarantees: errors as in `encode_post`; the
/// missing slot reported as such, if and only if the file's decomposition
/// lacks it or its chain cannot be read back; success owed whenever the
/// slot is there, readable, and plain reading cannot fail; and a returned
/// message that is exactly the slot's unpacked payload.
pub open spec fn decode_post(
    r: Result<String, PngKeyError>,
    bytes: Seq<u8>,
    chunk_type: &str,
    password: Option<&str>,
) -> bool {
    let kb = chunk_type.spec_bytes();
    &&& (r == Err::<String, PngKeyError>(PngKeyError::InvalidIdentity) <==> !valid_gif_key(kb))
    &&& (valid_gif_key(kb) ==> (r == Err::<String, PngKeyError>(PngKeyError::MalformedContainer)
        <==> !gif_bytes_ok(bytes)))
    &&& (r == Err::<String, PngKeyError>(PngKeyError::SlotNotFound) ==> exists|s: Seq<Chunk>|
        #![auto]
        gif_decomposition(s, bytes) && (slot_index(s, kb) is None || (slot_index(s, kb)
            matches Some(i) && !slot_readable(s, i))))
    &&& (valid_gif_key(kb) && gif_bytes_ok(bytes) && (exists|s: Seq<Chunk>|
        #![auto]
        gif_decomposition(s, bytes) && slot_index(s, kb) is None) ==> r == Err::<
        String,
        PngKeyError,
    >(PngKeyError::SlotNotFound))
    &&& (valid_gif_key(kb) && gif_bytes_ok(bytes) && effective_password(password) is None && (
    exists|s: Seq<Chunk>, i: int|
        #![auto]
        gif_decomposition(s, bytes) && slot_index(s, kb) == Some(i) && slot_readable(s, i)
            && vstd::utf8::valid_utf8(slot_payload(s[i]))) ==> r is Ok)
    &&& (valid_gif_key(kb) && gif_bytes_ok(bytes) && effective_password(password) is None && (
    exists|s: Seq<Chunk>, i: int|
        #![auto]
        gif_decomposition(s, bytes) && slot_index(s, kb) == Some(i) && slot_readable(s, i)
            && !vstd::utf8::valid_utf8(slot_payload(s[i]))) ==> r == Err::<String, PngKeyError>(
        PngKeyError::InvalidPayloadEncoding,
    ))
    &&& (valid_gif_key(kb) && gif_bytes_ok(bytes) && effective_password(password) is Some && (
    exists|s: Seq<Chunk>, i: int|
        #![auto]
        gif_decomposition(s, bytes) && slot_index(s, kb) == Some(i) && slot_readable(s, i)) ==> (r
        is Ok || r == Err::<String, PngKeyError>(PngKeyError::DecryptError)))
    &&& (r is Err ==> (r == Err::<String, PngKeyError>(PngKeyError::InvalidIdentity) || r == Err::<
        String,
        PngKeyError,
    >(PngKeyError::MalformedContainer) || r == Err::<String, PngKeyError>(
        PngKeyError::SlotNotFound,
    ) || r == Err::<String, PngKeyError>(PngKeyError::InvalidPayloadEncoding) || r == Err::<
        String,
        PngKeyError,
    >(PngKeyError::DecryptError)))
    &&& (r matches Ok(m) ==> exists|s: Seq<Chunk>, i: int|
        #![auto]
        {
            &&& gif_decomposition(s, bytes)
            &&& slot_index(s, kb) == Some(i)
            &&& match effective_password(password) {
                None => vstd::utf8::valid_utf8(slot_payload(s[i])) && m@
                    == vstd::utf8::decode_utf8(slot_payload(s[i])),
                Some(pw) => decrypt_spec(slot_payload(s[i]), pw) == Some(
                    vstd::utf8::encode_utf8(m@),
                ),
            }
        })
}

/// Read the message stored under the three-byte key in a GIF file,
/// decrypting it when a non-empty password is given.
pub fn decode(bytes: &Vec<u8>, chunk_type: &str, password: Option<&str>) -> (r: Result<
    String,
    PngKeyError,
>)
    ensures
        decode_post(r, bytes@, chunk_type, password),
{
    if !is_valid_chunk_type(chunk_type) {
        return Err(PngKeyError::InvalidIdentity);
    }
    let gif = match Gif::from_bytes(bytes) {
        Ok(g) => g,
        Err(e) => {
            return Err(e);
        },
    };
    let ghost s0 = gif.chunks@;
    let ghost kbs = chunk_type.spec_bytes();
    let data = match gif.extract_application_extensions(chunk_type) {
        Some(v) => v,
        None => {
            proof {
                assert(gif_decomposition(s0, bytes@));
                match slot_index(s0, kbs) {
                    None => {
                        assert forall|s: Seq<Chunk>| gif_decomposition(s, bytes@) implies
                            slot_index(s, kbs) is None by {
                            crate::gif::lemma_same_file_same_slots(s, s0, kbs);
                        }
                    },
                    Some(i0) => {
                        assert(!slot_readable(s0, i0));
                        assert forall|s: Seq<Chunk>| gif_decomposition(s, bytes@) implies
                            slot_index(s, kbs) == Some(i0) && !slot_readable(s, i0) by {
                            crate::gif::lemma_same_file_same_slots(s, s0, kbs);
                        }
                    },
                }
            }
            return Err(PngKeyError::SlotNotFound);
        },
    };
    let ghost i0 = slot_index(s0, kbs)->0;
    proof {
        assert(data@ == slot_payload(s0[i0]));
        assert forall|s: Seq<Chunk>| gif_decomposition(s, bytes@) implies slot_index(s, kbs)
            == Some(i0) && slot_payload(s[i0]) == data@ by {
            crate::gif::lemma_same_file_same_slots(s, s0, kbs);
        }
    }
    read_payload(data, password)
}

/// Reading back what an embed wrote returns the original message, for any
/// output the embed produced and any message the read then returned,
/// plaintext and encrypted alike.
pub proof fn lemma_embed_then_extract(
    bytes: Seq<u8>,
    chunk_type: &str,
    message: &str,
    password: Option<&str>,
    out: Vec<u8>,
    got: String,
)
    requires
        encode_post(Ok(out), bytes, chunk_type, message, password),
        decode_post(Ok(got), out@, chunk_type, password),
    ensures
        got@ == message@,
{
    let kb = chunk_type.spec_bytes();
    let (s, t, pl): (Seq<Chunk>, Seq<Chunk>, Seq<u8>) = choose|
        s: Seq<Chunk>,
        t: Seq<Chunk>,
        pl: Seq<u8>,
    |
        #![auto]
        {
            &&& chunks_ser(s) == bytes
            &&& (forall|i: int| 0 <= i < s.len() ==> chunk_wf(#[trigger] s[i]))
            &&& gif_seq_wf(s)
            &&& payload_rel(pl, message@, password)
            &&& upsert_rel(s, t, kb, pl)
            &&& out@ == chunks_ser(t)
        };
    let (s2, i): (Seq<Chunk>, int) = choose|s2: Seq<Chunk>, i: int|
        #![auto]
        {
            &&& chunks_ser(s2) == out@
            &&& (forall|j: int| 0 <= j < s2.len() ==> chunk_wf(#[trigger] s2[j]))
            &&& gif_seq_wf(s2)
            &&& slot_index(s2, kb) == Some(i)
            &&& match effective_password(password) {
                None => vstd::utf8::valid_utf8(slot_payload(s2[i])) && got@
                    == vstd::utf8::decode_utf8(slot_payload(s2[i])),
                Some(pw) => decrypt_spec(slot_payload(s2[i]), pw) == Some(
                    vstd::utf8::encode_utf8(got@),
                ),
            }
        };
    assert(kb.len() == 3);
    crate::gif::lemma_upsert_extract(s, t, kb, pl);
    crate::gif::lemma_upsert_seq_wf(s, t, kb, pl);
    crate::gif::lemma_same_file_same_slots(t, s2, kb);
    assert(slot_payload(s2[i]) == pl);
    crate::commands::lemma_same_payload_same_message(pl, message@, got@, password);
}

/// What the embed wrote, the read is owed: the embed's output is a
/// well-formed file whose slot holds the stored payload with a readable
/// chain, so `decode_post` obliges the read with no effective password to
/// succeed outright, and with a password to fail only as the one
/// cryptographic error.
pub proof fn lemma_embed_output_readable(
    bytes: Seq<u8>,
    chunk_type: &str,
    message: &str,
    password: Option<&str>,
    out: Vec<u8>,
)
    requires
        encode_post(Ok(out), bytes, chunk_type, message, password),
    ensures
        valid_gif_key(chunk_type.spec_bytes()),
        gif_bytes_ok(out@),
        exists|s: Seq<Chunk>, i: int|
            #![auto]
            gif_decomposition(s, out@) && slot_index(s, chunk_type.spec_bytes()) == Some(i)
                && slot_readable(s, i),
        effective_password(password) is None ==> exists|s: Seq<Chunk>, i: int|
            #![auto]
            gif_decomposition(s, out@) && slot_index(s, chunk_type.spec_bytes()) == Some(i)
                && slot_readable(s, i) && vstd::utf8::valid_utf8(slot_payload(s[i])),
{
    broadcast use vstd::utf8::encode_utf8_valid_utf8;

    let kb = chunk_type.spec_bytes();
    let (s, t, pl): (Seq<Chunk>, Seq<Chunk>, Seq<u8>) = choose|
        s: Seq<Chunk>,
        t: Seq<Chunk>,
        pl: Seq<u8>,
    |
        #![auto]
        {
            &&& chunks_ser(s) == bytes
            &&& (forall|i: int| 0 <= i < s.len() ==> chunk_wf(#[trigger] s[i]))
            &&& gif_seq_wf(s)
            &&& payload_rel(pl, message@, password)
            &&& upsert_rel(s, t, kb, pl)
            &&& out@ == chunks_ser(t)
        };
    crate::gif::lemma_upsert_seq_wf(s, t, kb, pl);
    crate::gif::lemma_wf_ser_parses(t, out@);
    crate::gif::lemma_upsert_extract(s, t, kb, pl);
    let j = slot_index(t, kb)->0;
    assert(crate::gif::is_fresh_slot(t[j], kb, pl));
    crate::gif::lemma_app_ext_slot(crate::gif::slot_identifier(), kb, pl);
    assert(slot_readable(t, j));
    assert(gif_decomposition(t, out@) && slot_index(t, kb) == Some(j));
    if effective_password(password) is None {
        assert(slot_payload(t[j]) == vstd::utf8::encode_utf8(message@));
        assert(vstd::utf8::valid_utf8(slot_payload(t[j])));
    }
}

/// What a finished GIF removal guarantees.
pub open spec fn remove_post(
    r: Result<Vec<u8>, PngKeyError>,
    bytes: Seq<u8>,
    chunk_type: &str,
) -> bool {
    let kb = chunk_type.spec_bytes();
    &&& (r == Err::<Vec<u8>, PngKeyError>(PngKeyError::MalformedContainer) <==> !gif_bytes_ok(
        bytes,
    ))
    &&& (r is Err ==> (r == Err::<Vec<u8>, PngKeyError>(PngKeyError::MalformedContainer) || r
        == Err::<Vec<u8>, PngKeyError>(PngKeyError::SlotNotFound)))
    &&& (r == Err::<Vec<u8>, PngKeyError>(PngKeyError::SlotNotFound) && valid_gif_key(kb) ==>
        exists|s: Seq<Chunk>|
        #![auto]
        gif_decomposition(s, bytes) && slot_index(s, kb) is None)
    &&& (gif_bytes_ok(bytes) && valid_gif_key(kb) && (exists|s: Seq<Chunk>|
        #![auto]
        gif_decomposition(s, bytes) && slot_index(s, kb) is None) ==> r == Err::<
        Vec<u8>,
        PngKeyError,
    >(PngKeyError::SlotNotFound))
    &&& (gif_bytes_ok(bytes) && valid_gif_key(kb) && (exists|s: Seq<Chunk>, i: int|
        #![auto]
        gif_decomposition(s, bytes) && slot_index(s, kb) == Some(i)) ==> r is Ok)
    &&& (r matches Ok(out) ==> exists|s: Seq<Chunk>, i: int|
        #![auto]
        {
            &&& chunks_ser(s) == bytes
            &&& slot_index(s, kb) == Some(i)
            &&& out@ == chunks_ser(s.remove(i))
        })
}

/// Remove the slot unit stored under the three-byte key from a GIF file and
/// re-serialize the rest unchanged.
pub fn remove(bytes: &Vec<u8>, chunk_type: &str) -> (r: Result<Vec<u8>, PngKeyError>)
    ensures
        remove_post(r, bytes@, chunk_type),
{
    let mut gif = match Gif::from_bytes(bytes) {
        Ok(g) => g,
        Err(e) => {
            return Err(e);
        },
    };
    let ghost s = gif.chunks@;
    let ghost kbs = chunk_type.spec_bytes();
    match gif.remove_chunk(chunk_type) {
        Ok(_) => {},
        Err(_) => {
            proof {
                if valid_gif_key(kbs) {
                    assert(gif_decomposition(s, bytes@) && slot_index(s, kbs) is None);
                    assert forall|u: Seq<Chunk>| gif_decomposition(u, bytes@) implies slot_index(
                        u,
                        kbs,
                    ) is None by {
                        crate::gif::lemma_same_file_same_slots(u, s, kbs);
                    }
                }
            }
            return Err(PngKeyError::SlotNotFound);
        },
    }
    proof {
        assert forall|u: Seq<Chunk>| gif_decomposition(u, bytes@) implies slot_index(u, kbs)
            == slot_index(s, kbs) by {
            crate::gif::lemma_same_file_same_slots(u, s, kbs);
        }
    }
    let out = gif.as_bytes();
    Ok(out)
}

/// One line of text for a unit: its kind, and for the header and extension
/// blocks a bounded, escaped view of their bytes; color tables and image
/// data are summarized, not dumped.
pub open spec fn chunk_line(c: Chunk) -> Seq<u8> {
    match c {
        Chunk::Header(h) => seq![0x68u8, 0x65u8, 0x61u8, 0x64u8, 0x65u8, 0x72u8, 0x20u8, 0x22u8] + crate::util::escaped_view(h@) + seq![0x22u8]
            + seq![0x0au8],
        Chunk::LogicalScreenDescriptor(_) => seq![0x6cu8, 0x6fu8, 0x67u8, 0x69u8, 0x63u8, 0x61u8, 0x6cu8, 0x20u8, 0x73u8, 0x63u8, 0x72u8, 0x65u8, 0x65u8, 0x6eu8, 0x20u8, 0x64u8, 0x65u8, 0x73u8, 0x63u8, 0x72u8, 0x69u8, 0x70u8, 0x74u8, 0x6fu8, 0x72u8] + seq![0x0au8],
        Chunk::GlobalColorTable(_) => seq![0x67u8, 0x6cu8, 0x6fu8, 0x62u8, 0x61u8, 0x6cu8, 0x20u8, 0x63u8, 0x6fu8, 0x6cu8, 0x6fu8, 0x72u8, 0x20u8, 0x74u8, 0x61u8, 0x62u8, 0x6cu8, 0x65u8, 0x20u8, 0x3cu8, 0x63u8, 0x6fu8, 0x6cu8, 0x6fu8, 0x72u8, 0x20u8, 0x64u8, 0x61u8, 0x74u8, 0x61u8, 0x3eu8] + seq![0x0au8],
        Chunk::Image(_) => seq![0x69u8, 0x6du8, 0x61u8, 0x67u8, 0x65u8, 0x20u8, 0x3cu8, 0x69u8, 0x6du8, 0x61u8, 0x67u8, 0x65u8, 0x20u8, 0x64u8, 0x61u8, 0x74u8, 0x61u8, 0x3eu8] + seq![0x0au8],
        Chunk::Extension(e) => seq![0x65u8, 0x78u8, 0x74u8, 0x65u8, 0x6eu8, 0x73u8, 0x69u8, 0x6fu8, 0x6eu8, 0x20u8] + crate::util::hex_byte(e.extension_type)
            + seq![0x20u8, 0x22u8] + crate::util::escaped_view(e.data@) + seq![0x22u8] + seq![0x0au8],
        Chunk::Trailer => seq![0x74u8, 0x72u8, 0x61u8, 0x69u8, 0x6cu8, 0x65u8, 0x72u8] + seq![0x0au8],
    }
}

/// The listing of a whole file: one line per unit, in file order.
pub open spec fn render(s: Seq<Chunk>) -> Seq<u8>
    decreases s.len(),
{
    if s.len() == 0 {
        Seq::empty()
    } else {
        chunk_line(s[0]) + render(s.drop_first())
    }
}

/// Appending a unit appends its line.
proof fn lemma_render_push(s: Seq<Chunk>, c: Chunk)
    ensures
        render(s.push(c)) == render(s) + chunk_line(c),
    decreases s.len(),
{
    let sp = s.push(c);
    if s.len() == 0 {
        assert(sp[0] == c);
        assert(sp.drop_first() =~= Seq::<Chunk>::empty());
        assert(render(sp) == chunk_line(c) + render(Seq::<Chunk>::empty()));
        assert(chunk_line(c) + Seq::<u8>::empty() =~= chunk_line(c));
        assert(Seq::<u8>::empty() + chunk_line(c) =~= chunk_line(c));
    } else {
        assert(sp[0] == s[0]);
        assert(sp.drop_first() =~= s.drop_first().push(c));
        lemma_render_push(s.drop_first(), c);
        assert(render(sp) == chunk_line(s[0]) + (render(s.drop_first()) + chunk_line(c)));
        assert(chunk_line(s[0]) + (render(s.drop_first()) + chunk_line(c)) =~= (chunk_line(s[0])
            + render(s.drop_first())) + chunk_line(c));
    }
}

/// Every line is plain ASCII.
proof fn lemma_chunk_line_ascii(c: Chunk)
    ensures
        crate::util::ascii_seq(chunk_line(c)),
{
    match c {
        Chunk::Header(h) => {
            crate::util::lemma_escaped_view_ascii(h@);
            assert forall|i: int| 0 <= i < chunk_line(c).len() implies chunk_line(c)[i]
                <= 0x7f by {
                crate::util::lemma_escaped_view_ascii(h@);
            }
        },
        Chunk::Extension(e) => {
            crate::util::lemma_escaped_view_ascii(e.data@);
            assert forall|i: int| 0 <= i < chunk_line(c).len() implies chunk_line(c)[i]
                <= 0x7f by {
                crate::util::lemma_escaped_view_ascii(e.data@);
            }
        },
        _ => {},
    }
}

/// The whole listing is plain ASCII.
proof fn lemma_render_ascii(s: Seq<Chunk>)
    ensures
        crate::util::ascii_seq(render(s)),
    decreases s.len(),
{
    if s.len() > 0 {
        lemma_chunk_line_ascii(s[0]);
        lemma_render_ascii(s.drop_first());
        crate::util::lemma_ascii_concat(chunk_line(s[0]), render(s.drop_first()));
    }
}

/// Build the text line of one unit.
fn chunk_line_bytes(c: &Chunk) -> (r: Vec<u8>)
    ensures
        r@ == chunk_line(*c),
{
    let mut out: Vec<u8> = Vec::new();
    match c {
        Chunk::Header(h) => {
            out.push(0x68);
            out.push(0x65);
            out.push(0x61);
            out.push(0x64);
            out.push(0x65);
            out.push(0x72);
            out.push(0x20);
            out.push(0x22);
            let mut hv: Vec<u8> = Vec::new();
            hv.push(h[0]);
            hv.push(h[1]);
            hv.push(h[2]);
            hv.push(h[3]);
            hv.push(h[4]);
            hv.push(h[5]);
            proof {
                assert(hv@ =~= h@);
            }
            crate::util::push_escaped(&mut out, &hv);
            out.push(0x22);
            out.push(0x0a);
        },
        Chunk::LogicalScreenDescriptor(_) => {
            out.push(0x6c);
            out.push(0x6f);
            out.push(0x67);
            out.push(0x69);
            out.push(0x63);
            out.push(0x61);
            out.push(0x6c);
            out.push(0x20);
            out.push(0x73);
            out.push(0x63);
            out.push(0x72);
            out.push(0x65);
            out.push(0x65);
            out.push(0x6e);
            out.push(0x20);
            out.push(0x64);
            out.push(0x65);
            out.push(0x73);
            out.push(0x63);
            out.push(0x72);
            out.push(0x69);
            out.push(0x70);
            out.push(0x74);
            out.push(0x6f);
            out.push(0x72);
            out.push(0x0a);
        },
        Chunk::GlobalColorTable(_) => {
            out.push(0x67);
            out.push(0x6c);
            out.push(0x6f);
            out.push(0x62);
            out.push(0x61);
            out.push(0x6c);
            out.push(0x20);
            out.push(0x63);
            out.push(0x6f);
            out.push(0x6c);
            out.push(0x6f);
            out.push(0x72);
            out.push(0x20);
            out.push(0x74);
            out.push(0x61);
            out.push(0x62);
            out.push(0x6c);
            out.push(0x65);
            out.push(0x20);
            out.push(0x3c);
            out.push(0x63);
            out.push(0x6f);
            out.push(0x6c);
            out.push(0x6f);
            out.push(0x72);
            out.push(0x20);
            out.push(0x64);
            out.push(0x61);
            out.push(0x74);
            out.push(0x61);
            out.push(0x3e);
            out.push(0x0a);
        },
        Chunk::Image(_) => {
            out.push(0x69);
            out.push(0x6d);
            out.push(0x61);
            out.push(0x67);
            out.push(0x65);
            out.push(0x20);
            out.push(0x3c);
            out.push(0x69);
            out.push(0x6d);
            out.push(0x61);
            out.push(0x67);
            out.push(0x65);
            out.push(0x20);
            out.push(0x64);
            out.push(0x61);
            out.push(0x74);
            out.push(0x61);
            out.push(0x3e);
            out.push(0x0a);
        },
        Chunk::Extension(e) => {
            out.push(0x65);
            out.push(0x78);
            out.push(0x74);
            out.push(0x65);
            out.push(0x6e);
            out.push(0x73);
            out.push(0x69);
            out.push(0x6f);
            out.push(0x6e);
            out.push(0x20);
            crate::util::push_hex_byte(&mut out, e.extension_type);
            out.push(0x20);
            out.push(0x22);
            crate::util::push_escaped(&mut out, &e.data);
            out.push(0x22);
            out.push(0x0a);
        },
        Chunk::Trailer => {
            out.push(0x74);
            out.push(0x72);
            out.push(0x61);
            out.push(0x69);
            out.push(0x6c);
            out.push(0x65);
            out.push(0x72);
            out.push(0x0a);
        },
    }
    proof {
        assert(out@ =~= chunk_line(*c));
    }
    out
}

/// What a finished GIF listing guarantees: the container error as in the
/// parser; with no key, the text renders every unit, one line each, in file
/// order; with a three-byte key, the text renders exactly the slot's unit,
/// owed whenever the slot is there and refused as missing exactly when it
/// is not.
pub open spec fn print_post(
    r: Result<String, PngKeyError>,
    bytes: Seq<u8>,
    chunk_type: Option<&str>,
) -> bool {
    &&& (r == Err::<String, PngKeyError>(PngKeyError::MalformedContainer) <==> !gif_bytes_ok(
        bytes,
    ))
    &&& match chunk_type {
        None => {
            &&& (gif_bytes_ok(bytes) ==> r is Ok)
            &&& (r matches Ok(text) ==> exists|s: Seq<Chunk>|
                #![auto]
                gif_decomposition(s, bytes) && vstd::utf8::encode_utf8(text@) == render(s))
        },
        Some(key) => {
            let kb = key.spec_bytes();
            &&& (!valid_gif_key(kb) && gif_bytes_ok(bytes) ==> r == Err::<String, PngKeyError>(
                PngKeyError::SlotNotFound,
            ))
            &&& (valid_gif_key(kb) && r == Err::<String, PngKeyError>(PngKeyError::SlotNotFound)
                ==> exists|s: Seq<Chunk>|
                #![auto]
                gif_decomposition(s, bytes) && slot_index(s, kb) is None)
            &&& (valid_gif_key(kb) && gif_bytes_ok(bytes) && (exists|s: Seq<Chunk>|
                #![auto]
                gif_decomposition(s, bytes) && slot_index(s, kb) is None) ==> r == Err::<
                String,
                PngKeyError,
            >(PngKeyError::SlotNotFound))
            &&& (valid_gif_key(kb) && gif_bytes_ok(bytes) && (exists|s: Seq<Chunk>, i: int|
                #![auto]
                gif_decomposition(s, bytes) && slot_index(s, kb) == Some(i)) ==> r is Ok)
            &&& (r matches Ok(text) ==> valid_gif_key(kb) && exists|s: Seq<Chunk>, i: int|
                #![auto]
                gif_decomposition(s, bytes) && slot_index(s, kb) == Some(i)
                    && vstd::utf8::encode_utf8(text@) == chunk_line(s[i]))
            &&& (r is Err ==> (r == Err::<String, PngKeyError>(PngKeyError::MalformedContainer) || r
                == Err::<String, PngKeyError>(PngKeyError::SlotNotFound)))
        },
    }
}

/// Render the units of a GIF file as one line of text each; with a key,
/// only that slot's unit, failing when it is absent.
pub fn print(bytes: &Vec<u8>, chunk_type: Option<&str>) -> (r: Result<String, PngKeyError>)
    ensures
        print_post(r, bytes@, chunk_type),
{
    let gif = match Gif::from_bytes(bytes) {
        Ok(g) => g,
        Err(e) => {
            return Err(e);
        },
    };
    let ghost s0 = gif.chunks@;
    match chunk_type {
        Some(key) => {
            let ghost kbs = key.spec_bytes();
            match gif.chunk_by_type(key) {
                Some(i) => {
                    let line = chunk_line_bytes(&gif.chunks()[i]);
                    proof {
                        assert(line@ == chunk_line(s0[i as int]));
                        lemma_chunk_line_ascii(s0[i as int]);
                        crate::util::lemma_ascii_valid_utf8(line@);
                        assert forall|s: Seq<Chunk>| gif_decomposition(s, bytes@) implies
                            slot_index(s, kbs) == Some(i as int) by {
                            crate::gif::lemma_same_file_same_slots(s, s0, kbs);
                        }
                    }
                    match bytes_to_string(line) {
                        Some(text) => {
                            proof {
                                broadcast use vstd::utf8::decode_utf8_encode_utf8;

                            }
                            Ok(text)
                        },
                        None => {
                            proof {
                                assert(false);
                            }
                            Err(PngKeyError::SlotNotFound)
                        },
                    }
                },
                None => {
                    proof {
                        assert(gif_decomposition(s0, bytes@));
                        assert forall|s: Seq<Chunk>| gif_decomposition(s, bytes@) implies
                            slot_index(s, kbs) == slot_index(s0, kbs) by {
                            crate::gif::lemma_same_file_same_slots(s, s0, kbs);
                        }
                    }
                    Err(PngKeyError::SlotNotFound)
                },
            }
        },
        None => {
            let mut out: Vec<u8> = Vec::new();
            let cs = gif.chunks();
            let n = cs.len();
            let mut i: usize = 0;
            proof {
                assert(s0.take(0) =~= Seq::<Chunk>::empty());
            }
            while i < n
                invariant
                    i <= n == s0.len(),
                    cs@ == s0,
                    out@ == render(s0.take(i as int)),
                decreases n - i,
            {
                let line = chunk_line_bytes(&cs[i]);
                crate::util::append_bytes(&mut out, &line);
                proof {
                    lemma_render_push(s0.take(i as int), s0[i as int]);
                    assert(s0.take(i as int).push(s0[i as int]) =~= s0.take(i + 1));
                    assert(out@ =~= render(s0.take(i + 1)));
                }
                i = i + 1;
            }
            proof {
                assert(s0.take(n as int) =~= s0);
                lemma_render_ascii(s0);
                crate::util::lemma_ascii_valid_utf8(out@);
            }
            match bytes_to_string(out) {
                Some(text) => {
                    proof {
                        broadcast use vstd::utf8::decode_utf8_encode_utf8;

                    }
                    Ok(text)
                },
                None => {
                    proof {
                        assert(false);
                    }
                    Err(PngKeyError::MalformedContainer)
                },
            }
        },
    }
}

} // verus!
