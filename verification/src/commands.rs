//! The PNG command layer: validate a slot key against the reserved type
//! codes, then embed, read or remove a payload in a parsed PNG, through the
//! optional password envelope.
use vstd::prelude::*;
use vstd::string::StringSliceAdditionalSpecFns;

use crate::PngKeyError;
use crate::chunk::Chunk;
use crate::chunk_type::all_ascii_letters;
use crate::key::{decrypt_spec, envelope_len};
use crate::png::{
    Png, PngScan, chunks_ser, lemma_same_file_same_slots, png_bytes_ok, png_header_ok,
    png_signature, scan_chunks, slot_index, upsert_rel,
};
use crate::util::bytes_to_string;

verus! {

// --- the optional password envelope, shared by every format -----------------

/// The password that is actually in force: none when absent or empty.
pub open spec fn effective_password(password: Option<&str>) -> Option<Seq<u8>> {
    match password {
        None => None,
        Some(p) => if p@.len() == 0 {
            None
        } else {
            Some(p.spec_bytes())
        },
    }
}

/// A string of characters is empty exactly when its UTF-8 bytes are.
pub proof fn lemma_encode_utf8_empty(chars: Seq<char>)
    ensures
        chars.len() == 0 <==> vstd::utf8::encode_utf8(chars).len() == 0,
{
    if chars.len() != 0 {
        assert(vstd::utf8::encode_utf8(chars) == vstd::utf8::encode_scalar(chars[0] as u32)
            + vstd::utf8::encode_utf8(chars.drop_first()));
        assert(vstd::utf8::encode_scalar(chars[0] as u32).len() >= 1);
    }
}

/// What the stored payload must be for a message under an optional
/// password: the message's UTF-8 bytes verbatim, or an envelope that
/// decrypts to them under the password.
pub open spec fn payload_rel(payload: Seq<u8>, message: Seq<char>, password: Option<&str>) -> bool {
    match effective_password(password) {
        None => payload == vstd::utf8::encode_utf8(message),
        Some(pw) => decrypt_spec(payload, pw) == Some(vstd::utf8::encode_utf8(message)),
    }
}

/// The byte length the stored payload will have.
pub open spec fn payload_len_spec(message: &str, password: Option<&str>) -> int {
    match effective_password(password) {
        None => message.spec_bytes().len() as int,
        Some(_) => envelope_len(message.spec_bytes().len() as int),
    }
}

/// Turn a message into the bytes to store: verbatim without an effective
/// password, else a fresh envelope.
pub fn make_payload(message: &str, password: Option<&str>) -> (r: Result<Vec<u8>, PngKeyError>)
    ensures
        r matches Ok(v) ==> payload_rel(v@, message@, password) && v@.len() == payload_len_spec(
            message,
            password,
        ),
        r is Err ==> r == Err::<Vec<u8>, PngKeyError>(PngKeyError::DecryptError)
            && effective_password(password) is Some,
        effective_password(password) is None ==> r is Ok,
{
    match password {
        None => Ok(message.as_bytes_vec()),
        Some(p) => {
            if p.unicode_len() == 0 {
                Ok(message.as_bytes_vec())
            } else {
                proof {
                    lemma_encode_utf8_empty(p@);
                }
                match crate::key::encrypt(message, p) {
                    Ok(env) => {
                        let v = env.as_str().as_bytes_vec();
                        proof {
                            assert(v@ == vstd::utf8::encode_utf8(env@));
                            assert(message.spec_bytes() == vstd::utf8::encode_utf8(message@));
                        }
                        Ok(v)
                    },
                    Err(e) => Err(e),
                }
            }
        },
    }
}

/// Read a slot's stored bytes back as the message: decoded as UTF-8 without
/// an effective password, else decrypted and then decoded.
pub fn read_payload(data: Vec<u8>, password: Option<&str>) -> (r: Result<String, PngKeyError>)
    ensures
        r matches Ok(m) ==> match effective_password(password) {
            None => vstd::utf8::valid_utf8(data@) && m@ == vstd::utf8::decode_utf8(data@),
            Some(pw) => decrypt_spec(data@, pw) == Some(vstd::utf8::encode_utf8(m@)),
        },
        effective_password(password) is None ==> (r is Err <==> !vstd::utf8::valid_utf8(data@))
            && (r is Err ==> r == Err::<String, PngKeyError>(PngKeyError::InvalidPayloadEncoding)),
        effective_password(password) is Some ==> (r is Err ==> r == Err::<String, PngKeyError>(
            PngKeyError::DecryptError,
        )),
{
    let use_password = match password {
        None => false,
        Some(p) => p.unicode_len() != 0,
    };
    if !use_password {
        match bytes_to_string(data) {
            Some(m) => Ok(m),
            None => Err(PngKeyError::InvalidPayloadEncoding),
        }
    } else {
        let text = match bytes_to_string(data) {
            Some(t) => t,
            None => {
                return Err(PngKeyError::DecryptError);
            },
        };
        let p = match password {
            Some(p) => p,
            None => {
                proof {
                    assert(false);
                }
                return Err(PngKeyError::DecryptError);
            },
        };
        let env = text.as_str();
        proof {
            assert(env.spec_bytes() == data@) by {
                broadcast use vstd::utf8::decode_utf8_encode_utf8;

            }
        }
        let r = crate::key::decrypt(env, p);
        match r {
            Ok(m) => Ok(m),
            Err(e) => Err(e),
        }
    }
}

// --- the PNG reserved type codes --------------------------------------------

/// The four bytes of `k` spell exactly these four values.
pub open spec fn is4(k: Seq<u8>, a: u8, b: u8, c: u8, d: u8) -> bool {
    k.len() == 4 && k[0] == a && k[1] == b && k[2] == c && k[3] == d
}

/// The key collides with a standard or reserved PNG chunk type, which the
/// engine manages itself and never lends out as a slot.
pub open spec fn is_reserved_png_key(k: Seq<u8>) -> bool {
    ||| is4(k, 0x49, 0x48, 0x44, 0x52)  // IHDR
    ||| is4(k, 0x50, 0x4c, 0x54, 0x45)  // PLTE
    ||| is4(k, 0x49, 0x44, 0x41, 0x54)  // IDAT
    ||| is4(k, 0x49, 0x45, 0x4e, 0x44)  // IEND
    ||| is4(k, 0x61, 0x63, 0x54, 0x4c)  // acTL
    ||| is4(k, 0x63, 0x48, 0x52, 0x4d)  // cHRM
    ||| is4(k, 0x63, 0x49, 0x43, 0x50)  // cICP
    ||| is4(k, 0x67, 0x41, 0x4d, 0x41)  // gAMA
    ||| is4(k, 0x69, 0x43, 0x43, 0x50)  // iCCP
    ||| is4(k, 0x6d, 0x44, 0x43, 0x56)  // mDCV
    ||| is4(k, 0x63, 0x4c, 0x4c, 0x49)  // cLLI
    ||| is4(k, 0x73, 0x42, 0x49, 0x54)  // sBIT
    ||| is4(k, 0x73, 0x52, 0x47, 0x42)  // sRGB
    ||| is4(k, 0x62, 0x6b, 0x47, 0x44)  // bkGD
    ||| is4(k, 0x68, 0x49, 0x53, 0x54)  // hIST
    ||| is4(k, 0x74, 0x52, 0x4e, 0x53)  // tRNS
    ||| is4(k, 0x65, 0x58, 0x49, 0x66)  // eXIf
    ||| is4(k, 0x66, 0x63, 0x54, 0x4c)  // fcTL
    ||| is4(k, 0x66, 0x64, 0x41, 0x54)  // fdAT
    ||| is4(k, 0x74, 0x49, 0x4d, 0x45)  // tIME
    ||| is4(k, 0x7a, 0x54, 0x58, 0x74)  // zTXt
    ||| is4(k, 0x69, 0x54, 0x58, 0x74)  // iTXt
    ||| is4(k, 0x74, 0x45, 0x58, 0x74)  // tEXt
}

/// The key is usable as a PNG slot: four ASCII letters, not a reserved
/// code.
pub open spec fn valid_png_key(k: Seq<u8>) -> bool {
    k.len() == 4 && all_ascii_letters(k) && !is_reserved_png_key(k)
}

/// The key does not collide with the reserved PNG chunk types.
pub fn is_valid_chunk_type(chunk_type: &str) -> (r: bool)
    ensures
        r == !is_reserved_png_key(chunk_type.spec_bytes()),
{
    let kb = chunk_type.as_bytes();
    if kb.len() != 4 {
        return true;
    }
    let b0 = kb[0];
    let b1 = kb[1];
    let b2 = kb[2];
    let b3 = kb[3];
    proof {
        assert(chunk_type.spec_bytes()[0] == b0 && chunk_type.spec_bytes()[1] == b1
            && chunk_type.spec_bytes()[2] == b2 && chunk_type.spec_bytes()[3] == b3);
    }
    let reserved = (b0 == 0x49 && b1 == 0x48 && b2 == 0x44 && b3 == 0x52) || (b0 == 0x50 && b1
        == 0x4c && b2 == 0x54 && b3 == 0x45) || (b0 == 0x49 && b1 == 0x44 && b2 == 0x41 && b3
        == 0x54) || (b0 == 0x49 && b1 == 0x45 && b2 == 0x4e && b3 == 0x44) || (b0 == 0x61 && b1
        == 0x63 && b2 == 0x54 && b3 == 0x4c) || (b0 == 0x63 && b1 == 0x48 && b2 == 0x52 && b3
        == 0x4d) || (b0 == 0x63 && b1 == 0x49 && b2 == 0x43 && b3 == 0x50) || (b0 == 0x67 && b1
        == 0x41 && b2 == 0x4d && b3 == 0x41) || (b0 == 0x69 && b1 == 0x43 && b2 == 0x43 && b3
        == 0x50) || (b0 == 0x6d && b1 == 0x44 && b2 == 0x43 && b3 == 0x56) || (b0 == 0x63 && b1
        == 0x4c && b2 == 0x4c && b3 == 0x49) || (b0 == 0x73 && b1 == 0x42 && b2 == 0x49 && b3
        == 0x54) || (b0 == 0x73 && b1 == 0x52 && b2 == 0x47 && b3 == 0x42) || (b0 == 0x62 && b1
        == 0x6b && b2 == 0x47 && b3 == 0x44) || (b0 == 0x68 && b1 == 0x49 && b2 == 0x53 && b3
        == 0x54) || (b0 == 0x74 && b1 == 0x52 && b2 == 0x4e && b3 == 0x53) || (b0 == 0x65 && b1
        == 0x58 && b2 == 0x49 && b3 == 0x66) || (b0 == 0x66 && b1 == 0x63 && b2 == 0x54 && b3
        == 0x4c) || (b0 == 0x66 && b1 == 0x64 && b2 == 0x41 && b3 == 0x54) || (b0 == 0x74 && b1
        == 0x49 && b2 == 0x4d && b3 == 0x45) || (b0 == 0x7a && b1 == 0x54 && b2 == 0x58 && b3
        == 0x74) || (b0 == 0x69 && b1 == 0x54 && b2 == 0x58 && b3 == 0x74) || (b0 == 0x74 && b1
        == 0x45 && b2 == 0x58 && b3 == 0x74);
    !reserved
}

// --- the PNG commands --------------------------------------------------------

/// What a finished PNG embed guarantees.
///
/// The key is rejected exactly when it is not a usable slot key; the
/// container errors mirror the parser's verdict; with no effective password
/// success is certain on a well-formed file; and a produced file is the
/// parsed one with only the slot payload upserted.
pub open spec fn encode_post(
    r: Result<Vec<u8>, PngKeyError>,
    bytes: Seq<u8>,
    chunk_type: &str,
    message: &str,
    password: Option<&str>,
) -> bool {
    let kb = chunk_type.spec_bytes();
    &&& (r == Err::<Vec<u8>, PngKeyError>(PngKeyError::InvalidIdentity) <==> !valid_png_key(kb))
    &&& (valid_png_key(kb) ==> (r == Err::<Vec<u8>, PngKeyError>(PngKeyError::MalformedContainer)
        <==> (!png_header_ok(bytes) || scan_chunks(bytes, 8) == PngScan::BadStructure)))
    &&& (valid_png_key(kb) ==> (r == Err::<Vec<u8>, PngKeyError>(PngKeyError::IntegrityError)
        <==> (png_header_ok(bytes) && scan_chunks(bytes, 8) == PngScan::BadCrc)))
    &&& (valid_png_key(kb) && png_bytes_ok(bytes) && effective_password(password) is None ==> r
        is Ok)
    &&& (valid_png_key(kb) && png_bytes_ok(bytes) ==> (r is Ok || r == Err::<
        Vec<u8>,
        PngKeyError,
    >(PngKeyError::DecryptError)))
    &&& (r matches Ok(out) ==> valid_png_key(kb) && png_bytes_ok(bytes) && (exists|
        s: Seq<Chunk>,
        t: Seq<Chunk>,
        pl: Seq<u8>,
    |
        #![auto]
        {
            &&& png_signature() + chunks_ser(s) == bytes
            &&& (forall|i: int| 0 <= i < s.len() ==> (#[trigger] s[i]).wf())
            &&& payload_rel(pl, message@, password)
            &&& upsert_rel(s, t, kb, pl)
            &&& out@ == png_signature() + chunks_ser(t)
        }))
}

/// Embed `message` under `chunk_type` in a PNG file, optionally sealed with
/// `password`; the whole file is re-serialized around the one upserted
/// chunk.
pub fn encode(
    bytes: &Vec<u8>,
    chunk_type: &str,
    message: &str,
    password: Option<&str>,
) -> (r: Result<Vec<u8>, PngKeyError>)
    requires
        payload_len_spec(message, password) <= u32::MAX,
    ensures
        encode_post(r, bytes@, chunk_type, message, password),
{
    let kb = chunk_type.as_bytes();
    if kb.len() != 4 {
        return Err(PngKeyError::InvalidIdentity);
    }
    if !crate::chunk_type::is_all_alphabetic(&[kb[0], kb[1], kb[2], kb[3]]) {
        proof {
            assert([kb[0], kb[1], kb[2], kb[3]]@ =~= chunk_type.spec_bytes());
        }
        return Err(PngKeyError::InvalidIdentity);
    }
    proof {
        assert([kb[0], kb[1], kb[2], kb[3]]@ =~= chunk_type.spec_bytes());
    }
    if !is_valid_chunk_type(chunk_type) {
        return Err(PngKeyError::InvalidIdentity);
    }
    let mut png = match Png::from_bytes(bytes) {
        Ok(p) => p,
        Err(e) => {
            return Err(e);
        },
    };
    let payload = match make_payload(message, password) {
        Ok(v) => v,
        Err(e) => {
            return Err(e);
        },
    };
    let ghost s = png.chunks@;
    let ghost pl = payload@;
    png.upsert_chunk(chunk_type, payload);
    let out = png.as_bytes();
    proof {
        let t = png.chunks@;
        assert(png_signature() + chunks_ser(s) == bytes@);
        assert(out@ == png_signature() + chunks_ser(t));
        assert(upsert_rel(s, t, chunk_type.spec_bytes(), pl));
    }
    Ok(out)
}

/// A well-formed chunk sequence that serializes to exactly these bytes.
pub open spec fn png_decomposition(s: Seq<Chunk>, bytes: Seq<u8>) -> bool {
    &&& png_signature() + chunks_ser(s) == bytes
    &&& forall|j: int| 0 <= j < s.len() ==> (#[trigger] s[j]).wf()
}

/// What a finished PNG read guarantees: errors as in `encode_post`; the
/// missing slot reported as such, if and only if the file's decomposition
/// lacks it; success owed whenever the slot is there and plain reading
/// cannot fail; and a returned message that is exactly what the slot
/// stores, decrypted when a password is in force.
pub open spec fn decode_post(
    r: Result<String, PngKeyError>,
    bytes: Seq<u8>,
    chunk_type: &str,
    password: Option<&str>,
) -> bool {
    let kb = chunk_type.spec_bytes();
    &&& (r == Err::<String, PngKeyError>(PngKeyError::InvalidIdentity) <==> !valid_png_key(kb))
    &&& (valid_png_key(kb) ==> (r == Err::<String, PngKeyError>(PngKeyError::MalformedContainer)
        <==> (!png_header_ok(bytes) || scan_chunks(bytes, 8) == PngScan::BadStructure)))
    &&& (valid_png_key(kb) ==> (r == Err::<String, PngKeyError>(PngKeyError::IntegrityError) <==> (
    png_header_ok(bytes) && scan_chunks(bytes, 8) == PngScan::BadCrc)))
    &&& (r == Err::<String, PngKeyError>(PngKeyError::SlotNotFound) ==> exists|s: Seq<Chunk>|
        #![auto]
        png_decomposition(s, bytes) && slot_index(s, kb) is None)
    &&& (valid_png_key(kb) && png_bytes_ok(bytes) && (exists|s: Seq<Chunk>|
        #![auto]
        png_decomposition(s, bytes) && slot_index(s, kb) is None) ==> r == Err::<
        String,
        PngKeyError,
    >(PngKeyError::SlotNotFound))
    &&& (valid_png_key(kb) && png_bytes_ok(bytes) && effective_password(password) is None && (
    exists|s: Seq<Chunk>, i: int|
        #![auto]
        png_decomposition(s, bytes) && slot_index(s, kb) == Some(i) && vstd::utf8::valid_utf8(
            s[i].data@,
        )) ==> r is Ok)
    &&& (valid_png_key(kb) && png_bytes_ok(bytes) && effective_password(password) is None && (
    exists|s: Seq<Chunk>, i: int|
        #![auto]
        png_decomposition(s, bytes) && slot_index(s, kb) == Some(i) && !vstd::utf8::valid_utf8(
            s[i].data@,
        )) ==> r == Err::<String, PngKeyError>(PngKeyError::InvalidPayloadEncoding))
    &&& (valid_png_key(kb) && png_bytes_ok(bytes) && effective_password(password) is Some && (
    exists|s: Seq<Chunk>, i: int|
        #![auto]
        png_decomposition(s, bytes) && slot_index(s, kb) == Some(i)) ==> (r is Ok || r == Err::<
        String,
        PngKeyError,
    >(PngKeyError::DecryptError)))
    &&& (r is Err ==> (r == Err::<String, PngKeyError>(PngKeyError::InvalidIdentity) || r == Err::<
        String,
        PngKeyError,
    >(PngKeyError::MalformedContainer) || r == Err::<String, PngKeyError>(
        PngKeyError::IntegrityError,
    ) || r == Err::<String, PngKeyError>(PngKeyError::SlotNotFound) || r == Err::<
        String,
        PngKeyError,
    >(PngKeyError::InvalidPayloadEncoding) || r == Err::<String, PngKeyError>(
        PngKeyError::DecryptError,
    )))
    &&& (r matches Ok(m) ==> exists|s: Seq<Chunk>, i: int|
        #![auto]
        {
            &&& png_decomposition(s, bytes)
            &&& slot_index(s, kb) == Some(i)
            &&& match effective_password(password) {
                None => vstd::utf8::valid_utf8(s[i].data@) && m@ == vstd::utf8::decode_utf8(
                    s[i].data@,
                ),
                Some(pw) => decrypt_spec(s[i].data@, pw) == Some(vstd::utf8::encode_utf8(m@)),
            }
        })
}

/// Read the message stored under `chunk_type` in a PNG file, decrypting it
/// when a non-empty password is given.
pub fn decode(bytes: &Vec<u8>, chunk_type: &str, password: Option<&str>) -> (r: Result<
    String,
    PngKeyError,
>)
    ensures
        decode_post(r, bytes@, chunk_type, password),
{
    let kb = chunk_type.as_bytes();
    if kb.len() != 4 {
        return Err(PngKeyError::InvalidIdentity);
    }
    if !crate::chunk_type::is_all_alphabetic(&[kb[0], kb[1], kb[2], kb[3]]) {
        proof {
            assert([kb[0], kb[1], kb[2], kb[3]]@ =~= chunk_type.spec_bytes());
        }
        return Err(PngKeyError::InvalidIdentity);
    }
    proof {
        assert([kb[0], kb[1], kb[2], kb[3]]@ =~= chunk_type.spec_bytes());
    }
    if !is_valid_chunk_type(chunk_type) {
        return Err(PngKeyError::InvalidIdentity);
    }
    let png = match Png::from_bytes(bytes) {
        Ok(p) => p,
        Err(e) => {
            return Err(e);
        },
    };
    let ghost s0 = png.chunks@;
    let ghost kbs = chunk_type.spec_bytes();
    let data = match png.chunk_by_type(chunk_type) {
        Some(c) => crate::util::copy_range_slice(c.data()),
        None => {
            proof {
                assert(png_decomposition(s0, bytes@) && slot_index(s0, kbs) is None);
                assert forall|s: Seq<Chunk>| png_decomposition(s, bytes@) implies slot_index(
                    s,
                    kbs,
                ) is None by {
                    lemma_same_file_same_slots(s, s0, kbs);
                }
            }
            return Err(PngKeyError::SlotNotFound);
        },
    };
    let ghost i0 = slot_index(s0, kbs)->0;
    proof {
        crate::util::lemma_find_first(s0, crate::png::slot_pred(kbs));
        assert(data@ == s0[i0].data@);
        assert forall|s: Seq<Chunk>| png_decomposition(s, bytes@) implies slot_index(s, kbs)
            == Some(i0) && s[i0].data@ == data@ by {
            lemma_same_file_same_slots(s, s0, kbs);
        }
    }
    read_payload(data, password)
}

/// What a finished PNG removal guarantees: container errors as in the
/// parser, a missing slot reported as such, and output that is the parsed
/// file with exactly the slot's chunk taken out.
pub open spec fn remove_post(
    r: Result<Vec<u8>, PngKeyError>,
    bytes: Seq<u8>,
    chunk_type: &str,
) -> bool {
    let kb = chunk_type.spec_bytes();
    &&& (r == Err::<Vec<u8>, PngKeyError>(PngKeyError::MalformedContainer) <==> (!png_header_ok(
        bytes,
    ) || scan_chunks(bytes, 8) == PngScan::BadStructure))
    &&& (r == Err::<Vec<u8>, PngKeyError>(PngKeyError::IntegrityError) <==> (png_header_ok(bytes)
        && scan_chunks(bytes, 8) == PngScan::BadCrc))
    &&& (r == Err::<Vec<u8>, PngKeyError>(PngKeyError::SlotNotFound) ==> exists|s: Seq<Chunk>|
        #![auto]
        png_decomposition(s, bytes) && slot_index(s, kb) is None)
    &&& (png_bytes_ok(bytes) && (exists|s: Seq<Chunk>|
        #![auto]
        png_decomposition(s, bytes) && slot_index(s, kb) is None) ==> r == Err::<
        Vec<u8>,
        PngKeyError,
    >(PngKeyError::SlotNotFound))
    &&& (png_bytes_ok(bytes) && (exists|s: Seq<Chunk>, i: int|
        #![auto]
        png_decomposition(s, bytes) && slot_index(s, kb) == Some(i)) ==> r is Ok)
    &&& (png_bytes_ok(bytes) ==> r is Ok || r == Err::<Vec<u8>, PngKeyError>(
        PngKeyError::SlotNotFound,
    ))
    &&& (r is Err ==> (r == Err::<Vec<u8>, PngKeyError>(PngKeyError::MalformedContainer) || r
        == Err::<Vec<u8>, PngKeyError>(PngKeyError::IntegrityError) || r == Err::<
        Vec<u8>,
        PngKeyError,
    >(PngKeyError::SlotNotFound)))
    &&& (r matches Ok(out) ==> exists|s: Seq<Chunk>, i: int|
        #![auto]
        {
            &&& png_signature() + chunks_ser(s) == bytes
            &&& slot_index(s, kb) == Some(i)
            &&& out@ == png_signature() + chunks_ser(s.remove(i))
        })
}

/// Remove the chunk stored under `chunk_type` from a PNG file and
/// re-serialize the rest unchanged.
pub fn remove(bytes: &Vec<u8>, chunk_type: &str) -> (r: Result<Vec<u8>, PngKeyError>)
    ensures
        remove_post(r, bytes@, chunk_type),
{
    let mut png = match Png::from_bytes(bytes) {
        Ok(p) => p,
        Err(e) => {
            return Err(e);
        },
    };
    let ghost s = png.chunks@;
    let ghost kbs = chunk_type.spec_bytes();
    match png.remove_chunk(chunk_type) {
        Ok(_) => {},
        Err(e) => {
            proof {
                assert(png_decomposition(s, bytes@) && slot_index(s, kbs) is None);
                assert forall|u: Seq<Chunk>| png_decomposition(u, bytes@) implies slot_index(
                    u,
                    kbs,
                ) is None by {
                    lemma_same_file_same_slots(u, s, kbs);
                }
            }
            return Err(PngKeyError::SlotNotFound);
        },
    }
    proof {
        crate::util::lemma_find_first(s, crate::png::slot_pred(kbs));
        assert forall|u: Seq<Chunk>| png_decomposition(u, bytes@) implies slot_index(u, kbs)
            == slot_index(s, kbs) by {
            lemma_same_file_same_slots(u, s, kbs);
        }
    }
    let out = png.as_bytes();
    Ok(out)
}

/// One line of text for a chunk: its four type letters and a bounded,
/// escaped view of its data.
pub open spec fn chunk_line(c: Chunk) -> Seq<u8> {
    seq![0x63u8, 0x68u8, 0x75u8, 0x6eu8, 0x6bu8, 0x20u8] + crate::util::escape_bytes(c.chunk_type@) + seq![0x20u8, 0x22u8]
        + crate::util::escaped_view(c.data@) + seq![0x22u8] + seq![0x0au8]
}

/// The listing of a whole file: one line per chunk, in file order.
pub open spec fn render(s: Seq<Chunk>) -> Seq<u8>
    decreases s.len(),
{
    if s.len() == 0 {
        Seq::empty()
    } else {
        chunk_line(s[0]) + render(s.drop_first())
    }
}

/// Appending a chunk appends its line.
proof fn lemma_render_push(s: Seq<Chunk>, c: Chunk)
    ensures
        render(s.push(c)) == render(s) + chunk_line(c),
    decreases s.len(),
{
    let sp = s.push(c);
    if s.len() == 0 {
        assert(sp[0] == c);
        assert(sp.drop_first() =~= Seq::<Chunk>::empty());
        assert(render(sp) == chunk_line(c) + render(Seq::<Chunk>::empty()));
        assert(chunk_line(c) + Seq::<u8>::empty() =~= chunk_line(c));
        assert(Seq::<u8>::empty() + chunk_line(c) =~= chunk_line(c));
    } else {
        assert(sp[0] == s[0]);
        assert(sp.drop_first() =~= s.drop_first().push(c));
        lemma_render_push(s.drop_first(), c);
        assert(render(sp) == chunk_line(s[0]) + (render(s.drop_first()) + chunk_line(c)));
        assert(chunk_line(s[0]) + (render(s.drop_first()) + chunk_line(c)) =~= (chunk_line(s[0])
            + render(s.drop_first())) + chunk_line(c));
    }
}

/// Every line is plain ASCII.
proof fn lemma_chunk_line_ascii(c: Chunk)
    ensures
        crate::util::ascii_seq(chunk_line(c)),
{
    crate::util::lemma_escaped_view_ascii(c.data@);
    assert forall|i: int| 0 <= i < chunk_line(c).len() implies chunk_line(c)[i] <= 0x7f by {
        crate::util::lemma_escaped_view_ascii(c.data@);
    }
}

/// The whole listing is plain ASCII.
proof fn lemma_render_ascii(s: Seq<Chunk>)
    ensures
        crate::util::ascii_seq(render(s)),
    decreases s.len(),
{
    if s.len() > 0 {
        lemma_chunk_line_ascii(s[0]);
        lemma_render_ascii(s.drop_first());
        crate::util::lemma_ascii_concat(chunk_line(s[0]), render(s.drop_first()));
    }
}

/// Build the text line of one chunk.
fn chunk_line_bytes(c: &Chunk) -> (r: Vec<u8>)
    ensures
        r@ == chunk_line(*c),
{
    let mut out: Vec<u8> = Vec::new();
    out.push(0x63);
    out.push(0x68);
    out.push(0x75);
    out.push(0x6e);
    out.push(0x6b);
    out.push(0x20);
    let tb = c.chunk_type().bytes();
    let mut k: usize = 0;
    while k < 4
        invariant
            k <= 4,
            tb@ == c.chunk_type@,
            out@ == seq![0x63u8, 0x68u8, 0x75u8, 0x6eu8, 0x6bu8, 0x20u8] + crate::util::escape_bytes(c.chunk_type@.subrange(
                0,
                k as int,
            )),
        decreases 4 - k,
    {
        let b = tb[k];
        out.push(
            if 0x20 <= b && b <= 0x7e {
                b
            } else {
                0x2e
            },
        );
        k = k + 1;
        proof {
            assert(crate::util::escape_bytes(c.chunk_type@.subrange(0, k as int))
                =~= crate::util::escape_bytes(c.chunk_type@.subrange(0, k - 1)).push(
                crate::util::escape_byte(c.chunk_type@[k - 1]),
            ));
            assert(out@ =~= seq![0x63u8, 0x68u8, 0x75u8, 0x6eu8, 0x6bu8, 0x20u8] + crate::util::escape_bytes(
                c.chunk_type@.subrange(0, k as int),
            ));
        }
    }
    proof {
        assert(c.chunk_type@.subrange(0, 4) =~= c.chunk_type@);
    }
    out.push(0x20);
    out.push(0x22);
    crate::util::push_escaped(&mut out, &c.data);
    out.push(0x22);
    out.push(0x0a);
    proof {
        assert(out@ =~= chunk_line(*c));
    }
    out
}

/// What a finished PNG listing guarantees: container errors as in the
/// parser; with no key, the text renders every chunk, one line each, in
/// file order; with a key, the text renders exactly the slot's chunk, owed
/// whenever the slot is there and refused as missing exactly when it is
/// not.
pub open spec fn print_post(
    r: Result<String, PngKeyError>,
    bytes: Seq<u8>,
    chunk_type: Option<&str>,
) -> bool {
    &&& (r == Err::<String, PngKeyError>(PngKeyError::MalformedContainer) <==> (!png_header_ok(
        bytes,
    ) || scan_chunks(bytes, 8) == PngScan::BadStructure))
    &&& (r == Err::<String, PngKeyError>(PngKeyError::IntegrityError) <==> (png_header_ok(bytes)
        && scan_chunks(bytes, 8) == PngScan::BadCrc))
    &&& match chunk_type {
        None => {
            &&& (png_bytes_ok(bytes) ==> r is Ok)
            &&& (r matches Ok(text) ==> exists|s: Seq<Chunk>|
                #![auto]
                png_decomposition(s, bytes) && vstd::utf8::encode_utf8(text@) == render(s))
        },
        Some(key) => {
            let kb = key.spec_bytes();
            &&& (r == Err::<String, PngKeyError>(PngKeyError::SlotNotFound) ==> exists|
                s: Seq<Chunk>,
            |
                #![auto]
                png_decomposition(s, bytes) && slot_index(s, kb) is None)
            &&& (png_bytes_ok(bytes) && (exists|s: Seq<Chunk>|
                #![auto]
                png_decomposition(s, bytes) && slot_index(s, kb) is None) ==> r == Err::<
                String,
                PngKeyError,
            >(PngKeyError::SlotNotFound))
            &&& (png_bytes_ok(bytes) && (exists|s: Seq<Chunk>, i: int|
                #![auto]
                png_decomposition(s, bytes) && slot_index(s, kb) == Some(i)) ==> r is Ok)
            &&& (r matches Ok(text) ==> exists|s: Seq<Chunk>, i: int|
                #![auto]
                png_decomposition(s, bytes) && slot_index(s, kb) == Some(i)
                    && vstd::utf8::encode_utf8(text@) == chunk_line(s[i]))
            &&& (r is Err ==> (r == Err::<String, PngKeyError>(PngKeyError::MalformedContainer) || r
                == Err::<String, PngKeyError>(PngKeyError::IntegrityError) || r == Err::<
                String,
                PngKeyError,
            >(PngKeyError::SlotNotFound)))
        },
    }
}

/// Render the chunks of a PNG file as one line of text each; with a key,
/// only that slot's chunk, failing when it is absent.
pub fn print(bytes: &Vec<u8>, chunk_type: Option<&str>) -> (r: Result<String, PngKeyError>)
    ensures
        print_post(r, bytes@, chunk_type),
{
    let png = match Png::from_bytes(bytes) {
        Ok(p) => p,
        Err(e) => {
            return Err(e);
        },
    };
    let ghost s0 = png.chunks@;
    match chunk_type {
        Some(key) => {
            let ghost kbs = key.spec_bytes();
            match png.chunk_by_type(key) {
                Some(c) => {
                    let ghost i0 = slot_index(s0, kbs)->0;
                    let line = chunk_line_bytes(c);
                    proof {
                        assert(line@ == chunk_line(s0[i0]));
                        lemma_chunk_line_ascii(s0[i0]);
                        crate::util::lemma_ascii_valid_utf8(line@);
                        assert forall|s: Seq<Chunk>| png_decomposition(s, bytes@) implies
                            slot_index(s, kbs) == Some(i0) by {
                            lemma_same_file_same_slots(s, s0, kbs);
                        }
                    }
                    match bytes_to_string(line) {
                        Some(text) => {
                            proof {
                                broadcast use vstd::utf8::decode_utf8_encode_utf8;

                            }
                            Ok(text)
                        },
                        None => {
                            proof {
                                assert(false);
                            }
                            Err(PngKeyError::SlotNotFound)
                        },
                    }
                },
                None => {
                    proof {
                        assert(png_decomposition(s0, bytes@) && slot_index(s0, kbs) is None);
                        assert forall|s: Seq<Chunk>| png_decomposition(s, bytes@) implies
                            slot_index(s, kbs) is None by {
                            lemma_same_file_same_slots(s, s0, kbs);
                        }
                    }
                    Err(PngKeyError::SlotNotFound)
                },
            }
        },
        None => {
            let mut out: Vec<u8> = Vec::new();
            let n = png.chunks.len();
            let mut i: usize = 0;
            proof {
                assert(s0.take(0) =~= Seq::<Chunk>::empty());
            }
            while i < n
                invariant
                    i <= n == s0.len(),
                    s0 == png.chunks@,
                    out@ == render(s0.take(i as int)),
                decreases n - i,
            {
                let line = chunk_line_bytes(&png.chunks[i]);
                crate::util::append_bytes(&mut out, &line);
                proof {
                    lemma_render_push(s0.take(i as int), s0[i as int]);
                    assert(s0.take(i as int).push(s0[i as int]) =~= s0.take(i + 1));
                    assert(out@ =~= render(s0.take(i + 1)));
                }
                i = i + 1;
            }
            proof {
                assert(s0.take(n as int) =~= s0);
                lemma_render_ascii(s0);
                crate::util::lemma_ascii_valid_utf8(out@);
            }
            match bytes_to_string(out) {
                Some(text) => {
                    proof {
                        broadcast use vstd::utf8::decode_utf8_encode_utf8;

                    }
                    Ok(text)
                },
                None => {
                    proof {
                        assert(false);
                    }
                    Err(PngKeyError::MalformedContainer)
                },
            }
        },
    }
}

/// Reading back what an embed wrote returns the original message, for any
/// output the embed produced and any message the read then returned,
/// plaintext and encrypted alike.
pub proof fn lemma_embed_then_extract(
    bytes: Seq<u8>,
    chunk_type: &str,
    message: &str,
    password: Option<&str>,
    out: Vec<u8>,
    got: String,
)
    requires
        encode_post(Ok(out), bytes, chunk_type, message, password),
        decode_post(Ok(got), out@, chunk_type, password),
    ensures
        got@ == message@,
{
    let kb = chunk_type.spec_bytes();
    let (s, t, pl): (Seq<Chunk>, Seq<Chunk>, Seq<u8>) = choose|
        s: Seq<Chunk>,
        t: Seq<Chunk>,
        pl: Seq<u8>,
    |
        #![auto]
        {
            &&& png_signature() + chunks_ser(s) == bytes
            &&& (forall|i: int| 0 <= i < s.len() ==> (#[trigger] s[i]).wf())
            &&& payload_rel(pl, message@, password)
            &&& upsert_rel(s, t, kb, pl)
            &&& out@ == png_signature() + chunks_ser(t)
        };
    let (s2, i): (Seq<Chunk>, int) = choose|s2: Seq<Chunk>, i: int|
        #![auto]
        {
            &&& png_signature() + chunks_ser(s2) == out@
            &&& (forall|j: int| 0 <= j < s2.len() ==> (#[trigger] s2[j]).wf())
            &&& slot_index(s2, kb) == Some(i)
            &&& match effective_password(password) {
                None => vstd::utf8::valid_utf8(s2[i].data@) && got@ == vstd::utf8::decode_utf8(
                    s2[i].data@,
                ),
                Some(pw) => decrypt_spec(s2[i].data@, pw) == Some(vstd::utf8::encode_utf8(got@)),
            }
        };
    crate::png::lemma_upsert_extract(s, t, kb, pl);
    crate::png::lemma_upsert_wf(s, t, kb, pl);
    crate::png::lemma_same_file_same_slots(t, s2, kb);
    assert(s2[i].data@ == pl);
    lemma_same_payload_same_message(pl, message@, got@, password);
}

/// What the embed wrote, the read is owed: the embed's output is a
/// well-formed file whose slot holds the stored payload, so `decode_post`
/// obliges the read with no effective password to succeed outright, and
/// with a password to fail only as the one cryptographic error.
pub proof fn lemma_embed_output_readable(
    bytes: Seq<u8>,
    chunk_type: &str,
    message: &str,
    password: Option<&str>,
    out: Vec<u8>,
)
    requires
        encode_post(Ok(out), bytes, chunk_type, message, password),
    ensures
        valid_png_key(chunk_type.spec_bytes()),
        png_bytes_ok(out@),
        exists|s: Seq<Chunk>, i: int|
            #![auto]
            png_decomposition(s, out@) && slot_index(s, chunk_type.spec_bytes()) == Some(i),
        effective_password(password) is None ==> exists|s: Seq<Chunk>, i: int|
            #![auto]
            png_decomposition(s, out@) && slot_index(s, chunk_type.spec_bytes()) == Some(i)
                && vstd::utf8::valid_utf8(s[i].data@),
{
    broadcast use vstd::utf8::encode_utf8_valid_utf8;

    let kb = chunk_type.spec_bytes();
    let (s, t, pl): (Seq<Chunk>, Seq<Chunk>, Seq<u8>) = choose|
        s: Seq<Chunk>,
        t: Seq<Chunk>,
        pl: Seq<u8>,
    |
        #![auto]
        {
            &&& png_signature() + chunks_ser(s) == bytes
            &&& (forall|i: int| 0 <= i < s.len() ==> (#[trigger] s[i]).wf())
            &&& payload_rel(pl, message@, password)
            &&& upsert_rel(s, t, kb, pl)
            &&& out@ == png_signature() + chunks_ser(t)
        };
    crate::png::lemma_upsert_wf(s, t, kb, pl);
    crate::png::lemma_wf_ser_parses(t, out@);
    crate::png::lemma_upsert_extract(s, t, kb, pl);
    let j = slot_index(t, kb)->0;
    assert(png_decomposition(t, out@) && slot_index(t, kb) == Some(j));
    if effective_password(password) is None {
        assert(t[j].data@ == vstd::utf8::encode_utf8(message@));
        assert(vstd::utf8::valid_utf8(t[j].data@));
    }
}

/// One stored payload reads back as one message: what `payload_rel` wrote
/// and what the read conditions accepted must agree.
pub(crate) proof fn lemma_same_payload_same_message(
    pl: Seq<u8>,
    message: Seq<char>,
    got: Seq<char>,
    password: Option<&str>,
)
    requires
        payload_rel(pl, message, password),
        match effective_password(password) {
            None => vstd::utf8::valid_utf8(pl) && got == vstd::utf8::decode_utf8(pl),
            Some(pw) => decrypt_spec(pl, pw) == Some(vstd::utf8::encode_utf8(got)),
        },
    ensures
        got == message,
{
    broadcast use vstd::utf8::encode_utf8_decode_utf8;

    match effective_password(password) {
        None => {
            assert(got == vstd::utf8::decode_utf8(vstd::utf8::encode_utf8(message)));
        },
        Some(pw) => {
            assert(vstd::utf8::encode_utf8(got) == vstd::utf8::encode_utf8(message));
            assert(vstd::utf8::decode_utf8(vstd::utf8::encode_utf8(got))
                == vstd::utf8::decode_utf8(vstd::utf8::encode_utf8(message)));
        },
    }
}

} // verus!
