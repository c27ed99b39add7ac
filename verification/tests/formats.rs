use pngkey::chunk::Chunk;
use pngkey::chunk_type::ChunkType;
use pngkey::png::Png;
use pngkey::{PngKeyError, classify, decode, encode, print, remove, ImageFormat};

fn minimal_png() -> Vec<u8> {
    let ihdr = ChunkType::from_key("IHDR").unwrap();
    let idat = ChunkType::from_key("IDAT").unwrap();
    let iend = ChunkType::from_key("IEND").unwrap();
    let chunks = vec![
        Chunk::new(ihdr, vec![0, 0, 0, 1, 0, 0, 0, 1, 8, 0, 0, 0, 0]),
        Chunk::new(idat, vec![0x78, 0x9c, 0x62, 0x00, 0x00]),
        Chunk::new(iend, vec![]),
    ];
    Png::from_chunks(chunks).as_bytes()
}

fn minimal_gif() -> Vec<u8> {
    let mut b: Vec<u8> = Vec::new();
    b.extend_from_slice(b"GIF89a");
    // logical screen descriptor: 1x1, no global color table
    b.extend_from_slice(&[1, 0, 1, 0, 0x00, 0, 0]);
    b.push(0x3b);
    b
}

fn minimal_jpg() -> Vec<u8> {
    // SOI, one APP0-style segment so the sniffer sees FF D8 FF, then EOI
    vec![0xff, 0xd8, 0xff, 0xe0, 0x00, 0x04, 0x01, 0x02, 0xff, 0xd9]
}

#[test]
fn classify_by_magic() {
    assert_eq!(classify(&minimal_png()).unwrap(), ImageFormat::Png);
    assert_eq!(classify(&minimal_jpg()).unwrap(), ImageFormat::Jpeg);
    assert_eq!(classify(&minimal_gif()).unwrap(), ImageFormat::Gif);
    assert_eq!(
        classify(&b"junk data".to_vec()),
        Err(PngKeyError::UnsupportedFormat)
    );
}

#[test]
fn png_round_trip_identity() {
    let bytes = minimal_png();
    let png = Png::from_bytes(&bytes).unwrap();
    assert_eq!(png.as_bytes(), bytes);
}

#[test]
fn jpg_round_trip_identity() {
    let bytes = minimal_jpg();
    let jpg = pngkey::jpg::Jpg::from_bytes(&bytes).unwrap();
    assert_eq!(jpg.as_bytes(), bytes);
}

#[test]
fn gif_round_trip_identity() {
    let bytes = minimal_gif();
    let gif = pngkey::gif::Gif::from_bytes(&bytes).unwrap();
    assert_eq!(gif.as_bytes(), bytes);
}

#[test]
fn png_embed_extract_plaintext() {
    let bytes = minimal_png();
    let out = encode(&bytes, "teXt", "hello", None).unwrap();
    assert_eq!(decode(&out, "teXt", None).unwrap(), "hello");
}

#[test]
fn jpg_embed_extract_plaintext() {
    let bytes = minimal_jpg();
    let out = encode(&bytes, "100", "hidden words", None).unwrap();
    assert_eq!(decode(&out, "100", None).unwrap(), "hidden words");
}

#[test]
fn gif_embed_extract_plaintext() {
    let bytes = minimal_gif();
    let out = encode(&bytes, "abc", "hidden words", None).unwrap();
    assert_eq!(decode(&out, "abc", None).unwrap(), "hidden words");
}

#[test]
fn idempotent_replace_png() {
    let bytes = minimal_png();
    let once = encode(&bytes, "teXt", "first message", None).unwrap();
    let twice = encode(&once, "teXt", "second", None).unwrap();
    let direct = encode(&bytes, "teXt", "second", None).unwrap();
    assert_eq!(twice, direct);
    assert_eq!(decode(&twice, "teXt", None).unwrap(), "second");
    let png = Png::from_bytes(&twice).unwrap();
    let count = png
        .chunks()
        .iter()
        .filter(|c| c.chunk_type().bytes() == *b"teXt")
        .count();
    assert_eq!(count, 1);
}

#[test]
fn idempotent_replace_gif() {
    let bytes = minimal_gif();
    let once = encode(&bytes, "xyz", "first message", None).unwrap();
    let twice = encode(&once, "xyz", "second", None).unwrap();
    let direct = encode(&bytes, "xyz", "second", None).unwrap();
    assert_eq!(twice, direct);
    assert_eq!(decode(&twice, "xyz", None).unwrap(), "second");
}

#[test]
fn png_crc_enforcement() {
    let bytes = minimal_png();
    // flip one bit inside the IHDR chunk's data (offset 8 is the length
    // field; data starts at offset 16)
    let mut bad = bytes.clone();
    bad[16] ^= 0x01;
    assert_eq!(Png::from_bytes(&bad), Err(PngKeyError::IntegrityError));
    assert_eq!(
        decode(&bad, "teXt", None),
        Err(PngKeyError::IntegrityError)
    );
}

#[test]
fn reserved_key_rejection() {
    let png = minimal_png();
    assert_eq!(
        encode(&png, "IDAT", "x", None),
        Err(PngKeyError::InvalidIdentity)
    );
    assert_eq!(
        encode(&png, "tEXt", "x", None),
        Err(PngKeyError::InvalidIdentity)
    );
    let jpg = minimal_jpg();
    // 216 is 0xD8, the SOI marker
    assert_eq!(
        encode(&jpg, "216", "x", None),
        Err(PngKeyError::InvalidIdentity)
    );
    // markers above 0xBF are never user slots
    assert_eq!(
        encode(&jpg, "192", "x", None),
        Err(PngKeyError::InvalidIdentity)
    );
    let gif = minimal_gif();
    assert_eq!(
        encode(&gif, "toolong", "x", None),
        Err(PngKeyError::InvalidIdentity)
    );
}

#[test]
fn not_found_behavior() {
    let png = minimal_png();
    assert_eq!(decode(&png, "zzZz", None), Err(PngKeyError::SlotNotFound));
    assert_eq!(remove(&png, "zzZz"), Err(PngKeyError::SlotNotFound));
    let gif = minimal_gif();
    assert_eq!(decode(&gif, "abc", None), Err(PngKeyError::SlotNotFound));
    assert_eq!(remove(&gif, "abc"), Err(PngKeyError::SlotNotFound));
    let jpg = minimal_jpg();
    assert_eq!(decode(&jpg, "100", None), Err(PngKeyError::SlotNotFound));
    assert_eq!(remove(&jpg, "100"), Err(PngKeyError::SlotNotFound));
}

#[test]
fn remove_round_trip() {
    let bytes = minimal_png();
    let with_slot = encode(&bytes, "teXt", "hello", None).unwrap();
    let removed = remove(&with_slot, "teXt").unwrap();
    assert_eq!(removed, bytes);
    let gif = minimal_gif();
    let with_slot = encode(&gif, "abc", "hello", None).unwrap();
    let removed = remove(&with_slot, "abc").unwrap();
    assert_eq!(removed, gif);
    let jpg = minimal_jpg();
    let with_slot = encode(&jpg, "100", "hello", None).unwrap();
    let removed = remove(&with_slot, "100").unwrap();
    assert_eq!(removed, jpg);
}

#[test]
fn png_concrete_scenario() {
    let bytes = minimal_png();
    let out = encode(&bytes, "teXt", "hello", None).unwrap();
    let png = Png::from_bytes(&out).unwrap();
    assert_eq!(png.chunks().len(), 4);
    let added = &png.chunks()[3];
    assert_eq!(added.chunk_type().bytes(), *b"teXt");
    assert_eq!(added.data(), b"hello");
    assert_eq!(added.length(), 5);
    assert_eq!(decode(&out, "teXt", None).unwrap(), "hello");
}

#[test]
fn gif_concrete_scenario() {
    let bytes = minimal_gif();
    let listing_before = print(&bytes, None).unwrap();
    assert_eq!(listing_before.lines().count(), 3);
    let out = encode(&bytes, "abc", "secret", None).unwrap();
    let gif = pngkey::gif::Gif::from_bytes(&out).unwrap();
    assert_eq!(gif.chunks().len(), 4);
    match &gif.chunks()[2] {
        pngkey::gif::chunk::Chunk::Extension(e) => {
            assert_eq!(e.extension_type, 0xff);
            assert_eq!(e.data[0], 0x0b);
            assert_eq!(&e.data[1..9], b" pngkey ");
            assert_eq!(&e.data[9..12], b"abc");
        }
        other => panic!("expected an extension block, found {:?}", other),
    }
    assert!(matches!(&gif.chunks()[3], pngkey::gif::chunk::Chunk::Trailer));
    assert_eq!(decode(&out, "abc", None).unwrap(), "secret");
    let listing_after = print(&out, None).unwrap();
    assert_eq!(listing_after.lines().count(), 4);
}

#[test]
fn gif_foreign_application_extension_untouched() {
    // a NETSCAPE2.0 looping extension is not a slot and must survive
    let mut bytes = minimal_gif();
    let netscape: &[u8] = &[
        0x21, 0xff, 0x0b, b'N', b'E', b'T', b'S', b'C', b'A', b'P', b'E', b'2', b'.', b'0', 0x03,
        0x01, 0x00, 0x00, 0x00,
    ];
    let trailer = bytes.pop().unwrap();
    bytes.extend_from_slice(netscape);
    bytes.push(trailer);
    let out = encode(&bytes, "abc", "secret", None).unwrap();
    assert_eq!(decode(&out, "abc", None).unwrap(), "secret");
    // the foreign extension's bytes are still present, unmodified
    assert!(out
        .windows(netscape.len())
        .any(|w| w == netscape));
    // and it is not found under any three-byte key of its own
    assert_eq!(decode(&bytes, "2.0", None), Err(PngKeyError::SlotNotFound));
}

#[test]
fn long_message_spans_sub_blocks() {
    // more than 254 payload bytes forces several GIF sub-blocks
    let gif = minimal_gif();
    let message: String = "abcdefgh".repeat(80);
    let out = encode(&gif, "abc", &message, None).unwrap();
    assert_eq!(decode(&out, "abc", None).unwrap(), message);
}

#[test]
fn empty_message_round_trip() {
    let png = minimal_png();
    let out = encode(&png, "teXt", "", None).unwrap();
    assert_eq!(decode(&out, "teXt", None).unwrap(), "");
    let gif = minimal_gif();
    let out = encode(&gif, "abc", "", None).unwrap();
    assert_eq!(decode(&out, "abc", None).unwrap(), "");
}

#[test]
fn malformed_containers_rejected() {
    // truncated PNG: signature then a partial chunk header
    let mut bad = Vec::new();
    bad.extend_from_slice(&[137, 80, 78, 71, 13, 10, 26, 10, 0, 0]);
    assert_eq!(Png::from_bytes(&bad), Err(PngKeyError::MalformedContainer));
    // PNG chunk whose declared length overruns the buffer
    let mut overrun = minimal_png();
    overrun[8] = 0x7f;
    assert_eq!(
        Png::from_bytes(&overrun),
        Err(PngKeyError::MalformedContainer)
    );
    // GIF without a trailer
    let mut gif = minimal_gif();
    gif.pop();
    assert!(pngkey::gif::Gif::from_bytes(&gif).is_err());
    // GIF with bytes after the trailer
    let mut gif2 = minimal_gif();
    gif2.push(0x00);
    assert!(pngkey::gif::Gif::from_bytes(&gif2).is_err());
    // JPEG whose scan region reaches the end without another marker
    let jpg = vec![0xff, 0xd8, 0xff, 0xda, 0x01, 0x02, 0x03];
    assert_eq!(
        pngkey::jpg::Jpg::from_bytes(&jpg),
        Err(PngKeyError::MalformedContainer)
    );
}

#[test]
fn invalid_payload_encoding_detected() {
    // place raw non-UTF-8 bytes in a slot by hand
    let ct = ChunkType::from_key("teXt").unwrap();
    let chunk = Chunk::new(ct, vec![0xff, 0xfe, 0xfd]);
    let bytes = minimal_png();
    let mut png = Png::from_bytes(&bytes).unwrap();
    png.append_chunk(chunk);
    let out = png.as_bytes();
    assert_eq!(
        decode(&out, "teXt", None),
        Err(PngKeyError::InvalidPayloadEncoding)
    );
}

#[test]
fn known_crc_value() {
    // the standard IEND chunk has the well-known checksum AE 42 60 82
    let iend = ChunkType::from_key("IEND").unwrap();
    let chunk = Chunk::new(iend, vec![]);
    assert_eq!(chunk.crc(), 0xae426082);
}

#[test]
fn chunk_as_bytes_layout() {
    let ct = ChunkType::from_key("teXt").unwrap();
    let chunk = Chunk::new(ct, b"hi".to_vec());
    let b = chunk.as_bytes();
    assert_eq!(&b[0..4], &[0, 0, 0, 2]);
    assert_eq!(&b[4..8], b"teXt");
    assert_eq!(&b[8..10], b"hi");
    assert_eq!(b.len(), 12 + 2);
}

#[test]
fn jpg_segment_layout() {
    let bytes = minimal_jpg();
    let out = encode(&bytes, "100", "hi", None).unwrap();
    // appended segment: FF 64, length 4 big-endian, then the payload
    let n = out.len();
    assert_eq!(&out[n - 6..], &[0xff, 100, 0x00, 0x04, b'h', b'i']);
}

#[test]
fn print_single_slot() {
    let png = minimal_png();
    let out = encode(&png, "teXt", "hello", None).unwrap();
    let line = print(&out, Some("teXt")).unwrap();
    assert_eq!(line, "chunk teXt \"hello\"\n");
    assert_eq!(
        print(&png, Some("zzZz")),
        Err(PngKeyError::SlotNotFound)
    );
}

#[test]
fn print_listings_exact() {
    // every unit appears as one line, with type and a bounded, escaped view
    // of its payload; binary data is summarized
    let gif = minimal_gif();
    assert_eq!(
        print(&gif, None).unwrap(),
        "header \"GIF89a\"\nlogical screen descriptor\ntrailer\n"
    );
    let jpg = minimal_jpg();
    assert_eq!(
        print(&jpg, None).unwrap(),
        "segment e0 \"..\"\nsegment d9\n"
    );
    let png = minimal_png();
    let listing = print(&png, None).unwrap();
    assert_eq!(listing.lines().count(), 3);
    assert!(listing.starts_with("chunk IHDR \""));
}

#[test]
fn print_bounded_payload_view() {
    // a long payload is cut to 32 text bytes and three dots
    let png = minimal_png();
    let message = "x".repeat(40);
    let out = encode(&png, "teXt", &message, None).unwrap();
    let line = print(&out, Some("teXt")).unwrap();
    let expected = format!("chunk teXt \"{}...\"\n", "x".repeat(32));
    assert_eq!(line, expected);
}

#[test]
fn idempotent_replace_jpg() {
    let bytes = minimal_jpg();
    let once = encode(&bytes, "100", "first message", None).unwrap();
    let twice = encode(&once, "100", "second", None).unwrap();
    let direct = encode(&bytes, "100", "second", None).unwrap();
    assert_eq!(twice, direct);
    assert_eq!(decode(&twice, "100", None).unwrap(), "second");
    let jpg = pngkey::jpg::Jpg::from_bytes(&twice).unwrap();
    let count = jpg
        .chunks()
        .iter()
        .filter(|c| *c.chunk_type() == 100)
        .count();
    assert_eq!(count, 1);
}

#[test]
fn jpg_scan_region_preserved() {
    // a JPEG with a scan region (FF DA ... with byte stuffing) round-trips
    let bytes = vec![
        0xff, 0xd8, // SOI header
        0xff, 0xda, 0x00, 0x04, 0x01, 0x02, // SOS header segment inside scan
        0x11, 0xff, 0x00, 0x22, // entropy data with a stuffed FF
        0xff, 0xd9, // EOI
    ];
    let jpg = pngkey::jpg::Jpg::from_bytes(&bytes).unwrap();
    assert_eq!(jpg.as_bytes(), bytes);
    let out = encode(&bytes, "100", "msg", None).unwrap();
    assert_eq!(decode(&out, "100", None).unwrap(), "msg");
    // the original bytes are still a prefix: the slot was appended at the end
    assert_eq!(&out[..bytes.len()], &bytes[..]);
}

#[test]
fn print_single_slot_jpg_and_gif() {
    let jpg = minimal_jpg();
    let out = encode(&jpg, "100", "hi", None).unwrap();
    assert_eq!(print(&out, Some("100")).unwrap(), "segment 64 \"hi\"\n");
    let gif = minimal_gif();
    let out = encode(&gif, "abc", "secret", None).unwrap();
    // the slot unit's bytes, escaped: header length, identifier, key,
    // sub-block size, payload, terminator
    assert_eq!(
        print(&out, Some("abc")).unwrap(),
        "extension ff \". pngkey abc.secret.\"\n"
    );
    assert_eq!(print(&gif, Some("abc")), Err(PngKeyError::SlotNotFound));
}
