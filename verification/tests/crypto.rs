use pngkey::chunk::Chunk;
use pngkey::chunk_type::ChunkType;
use pngkey::key::{decrypt, encrypt};
use pngkey::png::Png;
use pngkey::{PngKeyError, decode, encode};

fn minimal_png() -> Vec<u8> {
    let ihdr = ChunkType::from_key("IHDR").unwrap();
    let iend = ChunkType::from_key("IEND").unwrap();
    let chunks = vec![
        Chunk::new(ihdr, vec![0, 0, 0, 1, 0, 0, 0, 1, 8, 0, 0, 0, 0]),
        Chunk::new(iend, vec![]),
    ];
    Png::from_chunks(chunks).as_bytes()
}

fn minimal_gif() -> Vec<u8> {
    let mut b: Vec<u8> = Vec::new();
    b.extend_from_slice(b"GIF89a");
    b.extend_from_slice(&[1, 0, 1, 0, 0x00, 0, 0]);
    b.push(0x3b);
    b
}

#[test]
fn envelope_round_trip() {
    let env = encrypt("attack at dawn", "hunter2").unwrap();
    assert_eq!(decrypt(&env, "hunter2").unwrap(), "attack at dawn");
}

#[test]
fn envelope_wire_format() {
    let env = encrypt("msg", "pw").unwrap();
    let parts: Vec<&str> = env.split("::").collect();
    assert_eq!(parts.len(), 3);
    for part in parts {
        assert!(!part.is_empty());
        assert!(part
            .bytes()
            .all(|b| b.is_ascii_alphanumeric() || b == b'+' || b == b'/' || b == b'='));
    }
}

#[test]
fn envelope_fresh_salt_and_nonce() {
    // two encryptions of one message differ: salt and nonce are fresh
    let a = encrypt("same message", "pw").unwrap();
    let b = encrypt("same message", "pw").unwrap();
    assert_ne!(a, b);
    assert_eq!(decrypt(&a, "pw").unwrap(), "same message");
    assert_eq!(decrypt(&b, "pw").unwrap(), "same message");
}

#[test]
fn decrypt_failures() {
    let env = encrypt("secret", "right").unwrap();
    assert_eq!(decrypt(&env, "wrong"), Err(PngKeyError::DecryptError));
    assert_eq!(decrypt(&env, ""), Err(PngKeyError::DecryptError));
    assert_eq!(decrypt("not an envelope", "pw"), Err(PngKeyError::DecryptError));
    assert_eq!(decrypt("a::b::c", "pw"), Err(PngKeyError::DecryptError));
    assert_eq!(decrypt("a::b::c::d", "pw"), Err(PngKeyError::DecryptError));
    // valid base64 fields but a nonce of the wrong length
    assert_eq!(decrypt("YWJjZGVmZ2g=::YWJj::YWJj", "pw"), Err(PngKeyError::DecryptError));
}

#[test]
fn embed_extract_encrypted_png() {
    let bytes = minimal_png();
    let out = encode(&bytes, "teXt", "top secret", Some("pw")).unwrap();
    assert_eq!(decode(&out, "teXt", Some("pw")).unwrap(), "top secret");
    assert_eq!(
        decode(&out, "teXt", Some("other")),
        Err(PngKeyError::DecryptError)
    );
    // without a password the raw envelope comes back, not the message
    let raw = decode(&out, "teXt", None).unwrap();
    assert_ne!(raw, "top secret");
    assert_eq!(raw.split("::").count(), 3);
    // the raw envelope still decrypts by hand
    assert_eq!(decrypt(&raw, "pw").unwrap(), "top secret");
}

#[test]
fn embed_extract_encrypted_gif() {
    let bytes = minimal_gif();
    let out = encode(&bytes, "abc", "top secret", Some("pw")).unwrap();
    assert_eq!(decode(&out, "abc", Some("pw")).unwrap(), "top secret");
    assert_eq!(
        decode(&out, "abc", Some("other")),
        Err(PngKeyError::DecryptError)
    );
}

#[test]
fn empty_password_means_plaintext() {
    let bytes = minimal_png();
    let out = encode(&bytes, "teXt", "plain", Some("")).unwrap();
    // an empty password stores the message verbatim
    assert_eq!(decode(&out, "teXt", None).unwrap(), "plain");
    assert_eq!(decode(&out, "teXt", Some("")).unwrap(), "plain");
}

#[test]
fn wrong_password_on_plaintext_slot_fails() {
    let bytes = minimal_png();
    let out = encode(&bytes, "teXt", "plain", None).unwrap();
    assert_eq!(
        decode(&out, "teXt", Some("pw")),
        Err(PngKeyError::DecryptError)
    );
}

#[test]
fn embed_extract_encrypted_jpg() {
    let bytes = vec![0xff, 0xd8, 0xff, 0xe0, 0x00, 0x04, 0x01, 0x02, 0xff, 0xd9];
    let out = encode(&bytes, "100", "top secret", Some("pw")).unwrap();
    assert_eq!(decode(&out, "100", Some("pw")).unwrap(), "top secret");
    assert_eq!(
        decode(&out, "100", Some("other")),
        Err(PngKeyError::DecryptError)
    );
}
