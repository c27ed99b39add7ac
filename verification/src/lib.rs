//! Hide, read and remove short text messages inside the ancillary structures
//! of PNG, JPEG and GIF files.
//!
//! Each image format is decomposed into an ordered sequence of structural
//! units; a message lives in one unit chosen by a short key, and the file is
//! re-serialized byte-exactly around it.  A message may be protected by
//! password-based authenticated encryption before it is placed in the file.
use vstd::prelude::*;

pub mod chunk;
pub mod chunk_type;
pub mod commands;
pub mod crc32;
pub mod gif;
pub mod jpg;
pub mod key;
pub mod png;
pub mod util;

verus! {

/// Why an operation on an image failed.
///
/// Every failure of the library is one of these; none carries a payload, so
/// callers can branch on the kind directly.
#[derive(Clone, Copy, Debug, PartialEq, Eq, Structural)]
pub enum PngKeyError {
    /// The byte buffer is not a structurally valid container of its format:
    /// bad signature, truncated data, a declared length that overruns the
    /// buffer, an unterminated sub-block chain, or an unknown block type.
    MalformedContainer,
    /// A PNG chunk's stored CRC does not match the checksum of its contents.
    IntegrityError,
    /// A user-supplied slot key fails the format's syntax, or collides with a
    /// reserved or standard code.
    InvalidIdentity,
    /// The requested slot key is absent from the container.
    SlotNotFound,
    /// The slot's bytes are not valid UTF-8 where text was expected.
    InvalidPayloadEncoding,
    /// The encrypted envelope is malformed, the password is wrong or missing,
    /// or a cryptographic step could not run; the cases are deliberately not
    /// distinguished.
    DecryptError,
    /// The byte buffer matches no known image magic prefix.
    UnsupportedFormat,
}

/// The image container formats the library understands.
#[derive(Clone, Copy, Debug, PartialEq, Eq, Structural)]
pub enum ImageFormat {
    Png,
    Jpeg,
    Gif,
}

/// The three-byte JPEG magic prefix.
pub open spec fn jpg_prefix(b: Seq<u8>) -> bool {
    b.len() >= 3 && b[0] == 0xff && b[1] == 0xd8 && b[2] == 0xff
}

/// The six-byte GIF magic prefix.
pub open spec fn gif_prefix(b: Seq<u8>) -> bool {
    b.len() >= 6 && b.subrange(0, 6) == gif::chunk::gif_magic()
}

/// Classify a byte buffer by its magic prefix, trying PNG, then JPEG, then
/// GIF, in that fixed order.
pub fn classify(bytes: &Vec<u8>) -> (r: Result<ImageFormat, PngKeyError>)
    ensures
        r == Ok::<ImageFormat, PngKeyError>(ImageFormat::Png) <==> png::png_header_ok(bytes@),
        r == Ok::<ImageFormat, PngKeyError>(ImageFormat::Jpeg) <==> !png::png_header_ok(bytes@)
            && jpg_prefix(bytes@),
        r == Ok::<ImageFormat, PngKeyError>(ImageFormat::Gif) <==> !png::png_header_ok(bytes@)
            && !jpg_prefix(bytes@) && gif_prefix(bytes@),
        r == Err::<ImageFormat, PngKeyError>(PngKeyError::UnsupportedFormat) <==> !png::png_header_ok(
            bytes@,
        ) && !jpg_prefix(bytes@) && !gif_prefix(bytes@),
{
    let is_png = bytes.len() >= 8 && bytes[0] == 137 && bytes[1] == 80 && bytes[2] == 78
        && bytes[3] == 71 && bytes[4] == 13 && bytes[5] == 10 && bytes[6] == 26 && bytes[7] == 10;
    proof {
        if bytes@.len() >= 8 {
            let s = bytes@.subrange(0, 8);
            assert(s[0] == bytes@[0] && s[1] == bytes@[1] && s[2] == bytes@[2] && s[3] == bytes@[3]
                && s[4] == bytes@[4] && s[5] == bytes@[5] && s[6] == bytes@[6] && s[7] == bytes@[7]);
            if is_png {
                assert(s =~= png::png_signature());
            } else {
                assert(s != png::png_signature());
            }
        }
    }
    if is_png {
        Ok(ImageFormat::Png)
    } else if jpg::is_jpg(bytes) {
        Ok(ImageFormat::Jpeg)
    } else if gif::is_gif(bytes) {
        Ok(ImageFormat::Gif)
    } else {
        Err(PngKeyError::UnsupportedFormat)
    }
}

/// Embed `message` under `chunk_key` in an image of any supported format,
/// optionally sealed with `password`, and return the rewritten file.
pub fn encode(
    bytes: &Vec<u8>,
    chunk_key: &str,
    message: &str,
    password: Option<&str>,
) -> (r: Result<Vec<u8>, PngKeyError>)
    requires
        png::png_header_ok(bytes@) ==> commands::payload_len_spec(message, password) <= u32::MAX,
        !png::png_header_ok(bytes@) && jpg_prefix(bytes@) ==> commands::payload_len_spec(
            message,
            password,
        ) + 2 <= u16::MAX,
    ensures
        r == Err::<Vec<u8>, PngKeyError>(PngKeyError::UnsupportedFormat) <==> !png::png_header_ok(
            bytes@,
        ) && !jpg_prefix(bytes@) && !gif_prefix(bytes@),
        png::png_header_ok(bytes@) ==> commands::encode_post(
            r,
            bytes@,
            chunk_key,
            message,
            password,
        ),
        !png::png_header_ok(bytes@) && jpg_prefix(bytes@) ==> jpg::command::encode_post(
            r,
            bytes@,
            chunk_key,
            message,
            password,
        ),
        !png::png_header_ok(bytes@) && !jpg_prefix(bytes@) && gif_prefix(bytes@)
            ==> gif::command::encode_post(r, bytes@, chunk_key, message, password),
{
    match classify(bytes) {
        Ok(ImageFormat::Png) => commands::encode(bytes, chunk_key, message, password),
        Ok(ImageFormat::Jpeg) => jpg::command::encode(bytes, chunk_key, message, password),
        Ok(ImageFormat::Gif) => gif::command::encode(bytes, chunk_key, message, password),
        Err(e) => Err(e),
    }
}

/// Read the message stored under `chunk_key` in an image of any supported
/// format, decrypting it when a non-empty password is given.
pub fn decode(bytes: &Vec<u8>, chunk_key: &str, password: Option<&str>) -> (r: Result<
    String,
    PngKeyError,
>)
    ensures
        r == Err::<String, PngKeyError>(PngKeyError::UnsupportedFormat) <==> !png::png_header_ok(
            bytes@,
        ) && !jpg_prefix(bytes@) && !gif_prefix(bytes@),
        png::png_header_ok(bytes@) ==> commands::decode_post(r, bytes@, chunk_key, password),
        !png::png_header_ok(bytes@) && jpg_prefix(bytes@) ==> jpg::command::decode_post(
            r,
            bytes@,
            chunk_key,
            password,
        ),
        !png::png_header_ok(bytes@) && !jpg_prefix(bytes@) && gif_prefix(bytes@)
            ==> gif::command::decode_post(r, bytes@, chunk_key, password),
{
    match classify(bytes) {
        Ok(ImageFormat::Png) => commands::decode(bytes, chunk_key, password),
        Ok(ImageFormat::Jpeg) => jpg::command::decode(bytes, chunk_key, password),
        Ok(ImageFormat::Gif) => gif::command::decode(bytes, chunk_key, password),
        Err(e) => Err(e),
    }
}

/// Remove the slot stored under `chunk_key` from an image of any supported
/// format and return the rewritten file.
pub fn remove(bytes: &Vec<u8>, chunk_key: &str) -> (r: Result<Vec<u8>, PngKeyError>)
    ensures
        r == Err::<Vec<u8>, PngKeyError>(PngKeyError::UnsupportedFormat) <==> !png::png_header_ok(
            bytes@,
        ) && !jpg_prefix(bytes@) && !gif_prefix(bytes@),
        png::png_header_ok(bytes@) ==> commands::remove_post(r, bytes@, chunk_key),
        !png::png_header_ok(bytes@) && jpg_prefix(bytes@) ==> jpg::command::remove_post(
            r,
            bytes@,
            chunk_key,
        ),
        !png::png_header_ok(bytes@) && !jpg_prefix(bytes@) && gif_prefix(bytes@)
            ==> gif::command::remove_post(r, bytes@, chunk_key),
{
    match classify(bytes) {
        Ok(ImageFormat::Png) => commands::remove(bytes, chunk_key),
        Ok(ImageFormat::Jpeg) => jpg::command::remove(bytes, chunk_key),
        Ok(ImageFormat::Gif) => gif::command::remove(bytes, chunk_key),
        Err(e) => Err(e),
    }
}

/// Render the structural units of an image of any supported format as
/// text, one line per unit; with a key, only that slot's unit.
pub fn print(bytes: &Vec<u8>, chunk_key: Option<&str>) -> (r: Result<String, PngKeyError>)
    ensures
        r == Err::<String, PngKeyError>(PngKeyError::UnsupportedFormat) <==> !png::png_header_ok(
            bytes@,
        ) && !jpg_prefix(bytes@) && !gif_prefix(bytes@),
        png::png_header_ok(bytes@) ==> commands::print_post(r, bytes@, chunk_key),
        !png::png_header_ok(bytes@) && jpg_prefix(bytes@) ==> jpg::command::print_post(
            r,
            bytes@,
            chunk_key,
        ),
        !png::png_header_ok(bytes@) && !jpg_prefix(bytes@) && gif_prefix(bytes@)
            ==> gif::command::print_post(r, bytes@, chunk_key),
{
    match classify(bytes) {
        Ok(ImageFormat::Png) => commands::print(bytes, chunk_key),
        Ok(ImageFormat::Jpeg) => jpg::command::print(bytes, chunk_key),
        Ok(ImageFormat::Gif) => gif::command::print(bytes, chunk_key),
        Err(e) => Err(e),
    }
}

} // verus!
