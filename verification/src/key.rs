//! The password envelope: Argon2id key derivation and ChaCha20-Poly1305
//! authenticated encryption, carried as the ASCII string
//! `base64(salt)::base64(nonce)::base64(ciphertext)`.
use vstd::prelude::*;
use vstd::string::StringSliceAdditionalSpecFns;

use base64::Engine;
use chacha20poly1305::aead::{Aead, Generate};
use chacha20poly1305::{ChaCha20Poly1305, KeyInit};

use crate::PngKeyError;
use crate::util::{bytes_to_string, copy_range};

verus! {

// --- named results of the outside crates -----------------------------------

/// The 32-byte Argon2id hash of a password under a salt, with the default
/// parameters.  A fixed function of password and salt alone.
pub uninterp spec fn kdf_of(password: Seq<u8>, salt: Seq<u8>) -> Seq<u8>;

/// What ChaCha20-Poly1305 decryption returns for a key, nonce and ciphertext:
/// the plaintext when the authentication tag verifies, nothing otherwise.  A
/// fixed function of its three arguments.
pub uninterp spec fn aead_dec_of(key: Seq<u8>, nonce: Seq<u8>, ciphertext: Seq<u8>) -> Option<
    Seq<u8>,
>;

/// The standard base64 encoding (RFC 4648, with padding) of a byte sequence.
pub uninterp spec fn b64_of(bytes: Seq<u8>) -> Seq<u8>;

/// What standard base64 decoding returns: the bytes, or nothing for input
/// that is not a valid encoding.
pub uninterp spec fn b64_dec_of(text: Seq<u8>) -> Option<Seq<u8>>;

// --- trusted wrappers -------------------------------------------------------

/// Relies on argon2's `Argon2::hash_password_into` with the default
/// parameters and a 32-byte output: the hash depends on the password and the
/// salt alone.  Fails only when the salt is shorter than eight bytes, the
/// password is absurdly long, or the working memory cannot be allocated.
#[verifier::external_body]
fn derive_key(password: &Vec<u8>, salt: &Vec<u8>) -> (r: Option<Vec<u8>>)
    ensures
        r matches Some(k) ==> k@ == kdf_of(password@, salt@) && k@.len() == 32,
{
    let mut out = [0u8; 32];
    match argon2::Argon2::default().hash_password_into(password.as_slice(), salt.as_slice(), &mut out) {
        Ok(()) => Some(out.to_vec()),
        Err(_) => None,
    }
}

/// Relies on chacha20poly1305's `Aead::encrypt` and the AEAD round-trip
/// guarantee: decrypting the produced ciphertext under the same key and
/// nonce verifies and yields the plaintext; the ciphertext is the message
/// plus the sixteen-byte authentication tag.
#[verifier::external_body]
fn aead_encrypt(key: &Vec<u8>, nonce: &Vec<u8>, msg: &Vec<u8>) -> (r: Option<Vec<u8>>)
    requires
        key@.len() == 32,
        nonce@.len() == 12,
    ensures
        r matches Some(ct) ==> aead_dec_of(key@, nonce@, ct@) == Some(msg@) && ct@.len()
            == msg@.len() + 16,
{
    let cipher = match ChaCha20Poly1305::new_from_slice(key.as_slice()) {
        Ok(c) => c,
        Err(_) => return None,
    };
    let nonce_arr = chacha20poly1305::Nonce::try_from(nonce.as_slice()).ok()?;
    cipher.encrypt(&nonce_arr, msg.as_slice()).ok()
}

/// Relies on chacha20poly1305's `Aead::decrypt`: a fixed function of key,
/// nonce and ciphertext that returns the plaintext exactly when the
/// authentication tag verifies.
#[verifier::external_body]
fn aead_decrypt(key: &Vec<u8>, nonce: &Vec<u8>, ciphertext: &Vec<u8>) -> (r: Option<Vec<u8>>)
    requires
        key@.len() == 32,
        nonce@.len() == 12,
    ensures
        match r {
            Some(m) => aead_dec_of(key@, nonce@, ciphertext@) == Some(m@),
            None => aead_dec_of(key@, nonce@, ciphertext@) is None,
        },
{
    let cipher = match ChaCha20Poly1305::new_from_slice(key.as_slice()) {
        Ok(c) => c,
        Err(_) => return None,
    };
    let nonce_arr = chacha20poly1305::Nonce::try_from(nonce.as_slice()).ok()?;
    cipher.decrypt(&nonce_arr, ciphertext.as_slice()).ok()
}

/// Relies on base64's `Engine::encode` with the standard alphabet: four
/// output characters per three input bytes, drawn from `A-Z a-z 0-9 + / =`,
/// so never a colon; decoding the output gives the input back.
#[verifier::external_body]
fn b64_encode(bytes: &Vec<u8>) -> (r: Vec<u8>)
    ensures
        r@ == b64_of(bytes@),
        r@.len() == 4 * ((bytes@.len() + 2) / 3),
        forall|i: int| 0 <= i < r@.len() ==> r@[i] != 0x3a,
        b64_dec_of(r@) == Some(bytes@),
{
    base64::engine::general_purpose::STANDARD.encode(bytes.as_slice()).into_bytes()
}

/// Relies on base64's `Engine::decode` with the standard alphabet: a fixed
/// function of the input that fails exactly on text that is not a valid
/// encoding.
#[verifier::external_body]
fn b64_decode(text: &Vec<u8>) -> (r: Option<Vec<u8>>)
    ensures
        match r {
            Some(v) => b64_dec_of(text@) == Some(v@),
            None => b64_dec_of(text@) is None,
        },
{
    base64::engine::general_purpose::STANDARD.decode(text.as_slice()).ok()
}

/// Relies on the system's cryptographically secure random generator through
/// chacha20poly1305's `aead::Generate`: sixteen fresh salt bytes.
#[verifier::external_body]
fn gen_salt() -> (r: Option<Vec<u8>>)
    ensures
        r matches Some(v) ==> v@.len() == 16,
{
    let a: [u8; 16] = match <[u8; 16]>::try_generate() {
        Ok(a) => a,
        Err(_) => return None,
    };
    Some(a.to_vec())
}

/// Relies on the system's cryptographically secure random generator through
/// chacha20poly1305's `aead::Generate`: a fresh twelve-byte nonce.
#[verifier::external_body]
fn gen_nonce() -> (r: Option<Vec<u8>>)
    ensures
        r matches Some(v) ==> v@.len() == 12,
{
    let a: [u8; 12] = match <[u8; 12]>::try_generate() {
        Ok(a) => a,
        Err(_) => return None,
    };
    Some(a.to_vec())
}

// --- the envelope wire format ----------------------------------------------

/// The byte length of the envelope that encrypting an `n`-byte message
/// yields: two base64 fields of fixed size for salt and nonce, one for the
/// ciphertext and its tag, and the two separators.
pub open spec fn envelope_len(n: int) -> int {
    24 + 2 + 16 + 2 + 4 * ((n + 16 + 2) / 3)
}

/// The two-byte field separator `::`.
pub open spec fn env_sep() -> Seq<u8> {
    seq![0x3au8, 0x3au8]
}

/// The first position at or after `from` where the separator `::` occurs.
pub open spec fn find_sep(b: Seq<u8>, from: int) -> Option<int>
    decreases b.len() - from,
{
    if from + 2 > b.len() {
        None
    } else if b[from] == 0x3a && b[from + 1] == 0x3a {
        Some(from)
    } else {
        find_sep(b, from + 1)
    }
}

/// The three `::`-separated fields of an envelope, when it has exactly
/// three.
pub open spec fn split3(b: Seq<u8>) -> Option<(Seq<u8>, Seq<u8>, Seq<u8>)> {
    match find_sep(b, 0) {
        None => None,
        Some(i) => match find_sep(b, i + 2) {
            None => None,
            Some(j) => if find_sep(b, j + 2) is Some {
                None
            } else {
                Some((b.subrange(0, i), b.subrange(i + 2, j), b.subrange(j + 2, b.len() as int)))
            },
        },
    }
}

/// A separator at `k`, with none earlier, fixes `find_sep`.
proof fn lemma_find_sep_is(b: Seq<u8>, from: int, k: int)
    requires
        0 <= from <= k,
        k + 2 <= b.len(),
        b[k] == 0x3a && b[k + 1] == 0x3a,
        forall|j: int| from <= j < k ==> !(#[trigger] b[j] == 0x3a && b[j + 1] == 0x3a),
    ensures
        find_sep(b, from) == Some(k),
    decreases k - from,
{
    if from < k {
        lemma_find_sep_is(b, from + 1, k);
    }
}

/// No separator pair from `from` on means `find_sep` finds nothing.
proof fn lemma_find_sep_none(b: Seq<u8>, from: int)
    requires
        from >= 0,
        forall|j: int| from <= j && j + 2 <= b.len() ==> !(#[trigger] b[j] == 0x3a && b[j + 1] == 0x3a),
    ensures
        find_sep(b, from) is None,
    decreases b.len() - from,
{
    if from + 2 <= b.len() {
        lemma_find_sep_none(b, from + 1);
    }
}

/// A sequence has no colon byte at all.
pub open spec fn colon_free(s: Seq<u8>) -> bool {
    forall|i: int| 0 <= i < s.len() ==> s[i] != 0x3a
}

/// Splitting the joined envelope recovers its three colon-free fields.
proof fn lemma_split3_join(a: Seq<u8>, b: Seq<u8>, c: Seq<u8>)
    requires
        colon_free(a),
        colon_free(b),
        colon_free(c),
    ensures
        split3(a + env_sep() + b + env_sep() + c) == Some((a, b, c)),
{
    let w = a + env_sep() + b + env_sep() + c;
    let i = a.len() as int;
    let j = i + 2 + b.len();
    assert(w.len() == a.len() + 2 + b.len() + 2 + c.len());
    assert(w[i] == 0x3a && w[i + 1] == 0x3a);
    assert(w[j] == 0x3a && w[j + 1] == 0x3a);
    assert forall|k: int| 0 <= k < i implies !(#[trigger] w[k] == 0x3a && w[k + 1] == 0x3a) by {
        assert(w[k] == a[k]);
    }
    lemma_find_sep_is(w, 0, i);
    assert forall|k: int| i + 2 <= k < j implies !(#[trigger] w[k] == 0x3a && w[k + 1] == 0x3a) by {
        assert(w[k] == b[k - i - 2]);
    }
    lemma_find_sep_is(w, i + 2, j);
    assert forall|k: int| j + 2 <= k && k + 2 <= w.len() implies !(#[trigger] w[k] == 0x3a && w[k
        + 1] == 0x3a) by {
        assert(w[k] == c[k - j - 2]);
    }
    lemma_find_sep_none(w, j + 2);
    assert(w.subrange(0, i) =~= a);
    assert(w.subrange(i + 2, j) =~= b);
    assert(w.subrange(j + 2, w.len() as int) =~= c);
}

/// What decryption of an envelope under a password must yield: split the
/// three fields, decode each from base64, insist on a twelve-byte nonce,
/// derive the key from the password and salt, and let the cipher verify.
/// Nothing is yielded for an empty password.
pub open spec fn decrypt_spec(env: Seq<u8>, password: Seq<u8>) -> Option<Seq<u8>> {
    if password.len() == 0 {
        None
    } else {
        match split3(env) {
            None => None,
            Some(parts) => match (b64_dec_of(parts.0), b64_dec_of(parts.1), b64_dec_of(parts.2)) {
                (Some(salt), Some(nonce), Some(ct)) => if nonce.len() != 12 {
                    None
                } else {
                    aead_dec_of(kdf_of(password, salt), nonce, ct)
                },
                _ => None,
            },
        }
    }
}

/// The first separator position at or after `from`, by a forward scan.
fn find_sep_at(b: &Vec<u8>, from: usize) -> (r: Option<usize>)
    requires
        from <= b@.len(),
    ensures
        match r {
            Some(i) => find_sep(b@, from as int) == Some(i as int) && from <= i && i + 2
                <= b@.len(),
            None => find_sep(b@, from as int) is None,
        },
{
    let len = b.len();
    let mut i = from;
    while len - i >= 2
        invariant
            from <= i <= len == b@.len(),
            find_sep(b@, from as int) == find_sep(b@, i as int),
        decreases len - i,
    {
        if b[i] == 0x3a && b[i + 1] == 0x3a {
            return Some(i);
        }
        i = i + 1;
    }
    None
}

/// Encrypt `plaintext` under a non-empty `password` into a fresh envelope.
///
/// On success the envelope decrypts, under the same password, to exactly the
/// plaintext; a failure (the system's random source or the cipher's working
/// memory giving out) is reported as `DecryptError` and writes nothing.
pub fn encrypt(plaintext: &str, password: &str) -> (r: Result<String, PngKeyError>)
    requires
        password.spec_bytes().len() != 0,
    ensures
        r matches Ok(env) ==> decrypt_spec(
            vstd::utf8::encode_utf8(env@),
            password.spec_bytes(),
        ) == Some(plaintext.spec_bytes()) && vstd::utf8::encode_utf8(env@).len() == envelope_len(
            plaintext.spec_bytes().len() as int,
        ),
        r matches Ok(env) ==> (split3(vstd::utf8::encode_utf8(env@)) matches Some(parts) && (
        b64_dec_of(parts.0) matches Some(salt) && salt.len() == 16)),
        r is Err ==> r == Err::<String, PngKeyError>(PngKeyError::DecryptError),
{
    let msg = plaintext.as_bytes_vec();
    let pw = password.as_bytes_vec();
    let salt = match gen_salt() {
        Some(v) => v,
        None => {
            return Err(PngKeyError::DecryptError);
        },
    };
    let nonce = match gen_nonce() {
        Some(v) => v,
        None => {
            return Err(PngKeyError::DecryptError);
        },
    };
    let key = match derive_key(&pw, &salt) {
        Some(k) => k,
        None => {
            return Err(PngKeyError::DecryptError);
        },
    };
    let ct = match aead_encrypt(&key, &nonce, &msg) {
        Some(c) => c,
        None => {
            return Err(PngKeyError::DecryptError);
        },
    };
    let salt_b64 = b64_encode(&salt);
    let nonce_b64 = b64_encode(&nonce);
    let ct_b64 = b64_encode(&ct);
    let mut env: Vec<u8> = Vec::new();
    crate::util::append_bytes(&mut env, &salt_b64);
    env.push(0x3a);
    env.push(0x3a);
    crate::util::append_bytes(&mut env, &nonce_b64);
    env.push(0x3a);
    env.push(0x3a);
    crate::util::append_bytes(&mut env, &ct_b64);
    proof {
        assert(env@ =~= salt_b64@ + env_sep() + nonce_b64@ + env_sep() + ct_b64@);
        lemma_split3_join(salt_b64@, nonce_b64@, ct_b64@);
        assert(decrypt_spec(env@, pw@) == Some(msg@));
    }
    match bytes_to_string(env) {
        Some(s) => {
            proof {
                broadcast use vstd::utf8::decode_utf8_encode_utf8;

            }
            Ok(s)
        },
        None => Err(PngKeyError::DecryptError),
    }
}

/// Decrypt an envelope under a password.
///
/// Success yields the plaintext whose encryption the envelope is, under this
/// password; an empty password, a malformed envelope, a failed
/// authentication, or plaintext that is not UTF-8 all yield the one
/// undifferentiated `DecryptError`.
pub fn decrypt(encrypted: &str, password: &str) -> (r: Result<String, PngKeyError>)
    ensures
        r matches Ok(m) ==> decrypt_spec(encrypted.spec_bytes(), password.spec_bytes()) == Some(
            vstd::utf8::encode_utf8(m@),
        ),
        r is Err ==> r == Err::<String, PngKeyError>(PngKeyError::DecryptError),
        password.spec_bytes().len() == 0 ==> r is Err,
{
    let env = encrypted.as_bytes_vec();
    let pw = password.as_bytes_vec();
    // bind the length once so its machine-word bound is in scope for the
    // separator arithmetic
    let _env_len = env.len();
    if pw.len() == 0 {
        return Err(PngKeyError::DecryptError);
    }
    let i = match find_sep_at(&env, 0) {
        Some(i) => i,
        None => {
            return Err(PngKeyError::DecryptError);
        },
    };
    let j = match find_sep_at(&env, i + 2) {
        Some(j) => j,
        None => {
            return Err(PngKeyError::DecryptError);
        },
    };
    if let Some(_) = find_sep_at(&env, j + 2) {
        return Err(PngKeyError::DecryptError);
    }
    let part0 = copy_range(&env, 0, i);
    let part1 = copy_range(&env, i + 2, j);
    let part2 = copy_range(&env, j + 2, env.len());
    let salt = match b64_decode(&part0) {
        Some(v) => v,
        None => {
            return Err(PngKeyError::DecryptError);
        },
    };
    let nonce = match b64_decode(&part1) {
        Some(v) => v,
        None => {
            return Err(PngKeyError::DecryptError);
        },
    };
    let ct = match b64_decode(&part2) {
        Some(v) => v,
        None => {
            return Err(PngKeyError::DecryptError);
        },
    };
    if nonce.len() != 12 {
        return Err(PngKeyError::DecryptError);
    }
    let key = match derive_key(&pw, &salt) {
        Some(k) => k,
        None => {
            return Err(PngKeyError::DecryptError);
        },
    };
    let pt = match aead_decrypt(&key, &nonce, &ct) {
        Some(m) => m,
        None => {
            return Err(PngKeyError::DecryptError);
        },
    };
    match bytes_to_string(pt) {
        Some(m) => {
            proof {
                broadcast use vstd::utf8::decode_utf8_encode_utf8;

                assert(decrypt_spec(env@, pw@) == Some(vstd::utf8::encode_utf8(m@)));
            }
            Ok(m)
        },
        None => Err(PngKeyError::DecryptError),
    }
}

} // verus!
