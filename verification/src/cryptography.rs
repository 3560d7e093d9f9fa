//! The hybrid post-quantum encryption envelope.
//!
//! `kyber_encrypt` encapsulates a fresh shared secret against a recipient's
//! Kyber public key, derives an AES key from it with PBKDF2, encrypts the
//! payload with AES-256-CBC under a fresh IV, and assembles the wire string
//! `base64(encapsulation) | base64(salt) | base64(iv);base64(ciphertext)`.
//! `hash` pseudonymizes an identifying code as `base64(sha256(code))`.

use vstd::prelude::*;
use vstd::string::StrSliceExecFns;
use vstd::string::StringExecFns;
use vstd::utf8::{encode_utf8, decode_utf8, valid_utf8};
use crate::encoding::{b64_of, b64_decode_of, b64_seg, b64_encode, b64_decode, bytes_to_string};
use crate::encoding::{first_idx, lemma_first_idx_at, find_char, count_char};
use crate::primitives::{kdf_of, sha256_of, aes_cbc_enc, aes_cbc_dec, kyber_decap_of,
    kyber_valid_pair, KYBER_PUBLIC_KEY_BYTES, KYBER_SECRET_KEY_BYTES, KYBER_CIPHERTEXT_BYTES};
use crate::primitives::{random_bytes_16, pbkdf2_sha512, sha256, aes256_cbc_encrypt,
    aes256_cbc_decrypt, kyber_encapsulate, kyber_decapsulate};

verus! {

/// The errors the envelope surfaces to its callers. Entropy exhaustion is
/// deliberately absent: a failing secure random source is a fatal
/// process-level condition, not a recoverable error.
#[derive(Debug, Clone, Copy, PartialEq, Eq, Structural)]
pub enum CryptoError {
    /// A caller-supplied value that had to be valid base64 (or decrypt to
    /// valid UTF-8, or form a well-shaped blob) was malformed.
    Encoding,
    /// A symmetric key did not decode to exactly 32 bytes.
    KeyLength,
    /// The KEM refused the public key (wrong length for its parameter set).
    Kem,
}

/// PBKDF2 round count. Deliberately low: the password input is itself
/// high-entropy keying material (a KEM shared secret or a derived key), so
/// the KDF only performs domain separation and length fitting here. Do not
/// reuse this constant for human passwords.
pub const KDF_ROUNDS: u32 = 1000;

/// The spec-level symmetric key derived from a secret and a salt, both given
/// as the UTF-8 bytes of the strings handed to [`generate_basic_key`].
pub open spec fn derived_key(secret: Seq<u8>, salt: Seq<u8>) -> Seq<u8> {
    kdf_of(secret, salt, KDF_ROUNDS)
}

/// Produces 16 bytes from the secure random source, base64-encoded.
///
/// Nothing can be promised of the random values themselves; every result is
/// the 24-character standard base64 encoding of some 16 bytes.
pub fn generate_salt() -> (r: String)
    ensures
        exists|raw: Seq<u8>| raw.len() == 16 && r@ == b64_of(raw),
        r@.len() == 24,
        crate::encoding::b64_seg(r@),
{
    let raw = random_bytes_16();
    let encoded = b64_encode(raw.as_slice());
    encoded
}

/// Stretches `data` and `salt` into a 256-bit key with PBKDF2-HMAC-SHA512 at
/// [`KDF_ROUNDS`] rounds; the key is returned base64-encoded.
pub fn generate_basic_key(data: &str, salt: &str) -> (r: String)
    ensures
        r@ == b64_of(derived_key(encode_utf8(data@), encode_utf8(salt@))),
        b64_decode_of(r@) == Some(derived_key(encode_utf8(data@), encode_utf8(salt@))),
        derived_key(encode_utf8(data@), encode_utf8(salt@)).len() == 32,
        r@.len() == 44,
{
    let key = pbkdf2_sha512(data.as_bytes(), salt.as_bytes(), KDF_ROUNDS);
    b64_encode(key.as_slice())
}

/// `blob` is the cipher blob that encrypting plaintext bytes `p` under
/// `key` with initialization vector `iv` produces:
/// `base64(iv) ";" base64(ciphertext)`, both segments in the base64
/// alphabet (which excludes the separators) and decodable back to their
/// bytes.
pub open spec fn cipher_blob_for(blob: Seq<char>, key: Seq<u8>, iv: Seq<u8>, p: Seq<u8>) -> bool {
    &&& iv.len() == 16
    &&& blob == b64_of(iv) + seq![';'] + b64_of(aes_cbc_enc(key, iv, p))
    &&& b64_seg(b64_of(iv))
    &&& b64_seg(b64_of(aes_cbc_enc(key, iv, p)))
    &&& b64_decode_of(b64_of(iv)) == Some(iv)
    &&& b64_decode_of(b64_of(aes_cbc_enc(key, iv, p))) == Some(aes_cbc_enc(key, iv, p))
}

/// The plaintext bytes that decrypting `blob` under `key` yields: split at
/// the first `';'`, base64-decode both parts, require a 16-byte IV, and
/// CBC-decrypt.
pub open spec fn blob_plain(blob: Seq<char>, key: Seq<u8>) -> Option<Seq<u8>> {
    let i = first_idx(blob, ';');
    if i < 0 {
        None::<Seq<u8>>
    } else {
        let ivp = b64_decode_of(blob.take(i));
        let ctp = b64_decode_of(blob.skip(i + 1));
        if ivp is Some && ctp is Some && ivp.unwrap().len() == 16 {
            Some(aes_cbc_dec(key, ivp.unwrap(), ctp.unwrap()))
        } else {
            None::<Seq<u8>>
        }
    }
}

/// `blob` is a cipher blob that encrypting plaintext bytes `p` under the
/// base64-encoded `key` could have produced, for some 16-byte IV.
pub open spec fn encrypts_to(blob: Seq<char>, key_b64: Seq<char>, p: Seq<u8>) -> bool {
    exists|iv: Seq<u8>| cipher_blob_for(blob, b64_decode_of(key_b64).unwrap(), iv, p)
}

/// Encrypts `data` with AES-256-CBC under the base64-encoded 256-bit `key`,
/// with a fresh random 16-byte IV, producing `base64(iv) ";" base64(ct)`.
///
/// A key that does not decode to exactly 32 bytes is rejected, never
/// truncated or padded.
pub fn aes_encrypt(data: &str, key: String) -> (r: Result<String, CryptoError>)
    ensures
        r is Ok <==> (b64_decode_of(key@) is Some && b64_decode_of(key@).unwrap().len() == 32),
        r is Ok ==> encrypts_to(r.unwrap()@, key@, encode_utf8(data@)),
        b64_decode_of(key@) is None ==> r == Err::<String, CryptoError>(CryptoError::Encoding),
        (b64_decode_of(key@) is Some && b64_decode_of(key@).unwrap().len() != 32) ==> r
            == Err::<String, CryptoError>(CryptoError::KeyLength),
{
    let key_bytes = match b64_decode(key.as_str()) {
        Some(v) => v,
        None => {
            return Err(CryptoError::Encoding);
        },
    };
    if key_bytes.len() != 32 {
        return Err(CryptoError::KeyLength);
    }
    let iv = random_bytes_16();
    let ciphertext = aes256_cbc_encrypt(key_bytes.as_slice(), iv.as_slice(), data.as_bytes());
    let mut blob = b64_encode(iv.as_slice());
    let ct_b64 = b64_encode(ciphertext.as_slice());
    blob.append(";");
    blob.append(ct_b64.as_str());
    proof {
        reveal_strlit(";");
        assert(";"@ =~= seq![';']);
        assert(key_bytes@ == b64_decode_of(key@).unwrap());
        assert(cipher_blob_for(blob@, b64_decode_of(key@).unwrap(), iv@, encode_utf8(data@)));
        assert(encrypts_to(blob@, key@, encode_utf8(data@)));
    }
    Ok(blob)
}

/// The decrypt counterpart of [`aes_encrypt`]: splits the blob at the first
/// `';'`, base64-decodes IV and ciphertext, CBC-decrypts under the decoded
/// key and decodes the plaintext as UTF-8.
///
/// Decrypting what [`aes_encrypt`] produced under the same key restores the
/// plaintext exactly.
pub fn aes_decrypt(blob: &str, key: &str) -> (r: Result<String, CryptoError>)
    ensures
        match r {
            Ok(p) => {
                &&& b64_decode_of(key@) is Some
                &&& b64_decode_of(key@).unwrap().len() == 32
                &&& blob_plain(blob@, b64_decode_of(key@).unwrap()) is Some
                &&& valid_utf8(blob_plain(blob@, b64_decode_of(key@).unwrap()).unwrap())
                &&& p@ == decode_utf8(blob_plain(blob@, b64_decode_of(key@).unwrap()).unwrap())
            },
            Err(CryptoError::Encoding) => b64_decode_of(key@) is None || (b64_decode_of(key@)
                is Some && b64_decode_of(key@).unwrap().len() == 32 && (blob_plain(
                blob@,
                b64_decode_of(key@).unwrap(),
            ) is None || !valid_utf8(blob_plain(blob@, b64_decode_of(key@).unwrap()).unwrap()))),
            Err(CryptoError::KeyLength) => b64_decode_of(key@) is Some && b64_decode_of(
                key@,
            ).unwrap().len() != 32,
            Err(CryptoError::Kem) => false,
        },
        forall|kb: Seq<u8>, iv: Seq<u8>, p: Seq<u8>|
            (b64_decode_of(key@) == Some(kb) && kb.len() == 32 && #[trigger] cipher_blob_for(
                blob@,
                kb,
                iv,
                p,
            ) && valid_utf8(p)) ==> (r is Ok && r.unwrap()@ == decode_utf8(p)),
{
    let key_bytes = match b64_decode(key) {
        Some(v) => v,
        None => {
            return Err(CryptoError::Encoding);
        },
    };
    if key_bytes.len() != 32 {
        return Err(CryptoError::KeyLength);
    }
    let n = blob.unicode_len();
    let sep = match find_char(blob, ';') {
        Some(i) => i,
        None => {
            proof {
                assert forall|kb: Seq<u8>, iv: Seq<u8>, p: Seq<u8>|
                    !(b64_decode_of(key@) == Some(kb) && kb.len() == 32 && #[trigger]
                    cipher_blob_for(blob@, kb, iv, p) && valid_utf8(p)) by {
                    if cipher_blob_for(blob@, kb, iv, p) {
                        assert(blob@[b64_of(iv).len() as int] == ';');
                    }
                }
            }
            return Err(CryptoError::Encoding);
        },
    };
    let iv_part = blob.substring_char(0, sep);
    let ct_part = blob.substring_char(sep + 1, n);
    proof {
        assert(iv_part@ =~= blob@.take(sep as int));
        assert(ct_part@ =~= blob@.skip(sep + 1));
        assert forall|kb: Seq<u8>, iv: Seq<u8>, p: Seq<u8>|
            #[trigger] cipher_blob_for(blob@, kb, iv, p) implies blob@.take(sep as int) == b64_of(
            iv,
        ) && blob@.skip(sep + 1) == b64_of(aes_cbc_enc(kb, iv, p)) by {
            let ivb = b64_of(iv);
            let ctb = b64_of(aes_cbc_enc(kb, iv, p));
            assert forall|j: int| 0 <= j < ivb.len() implies blob@[j] != ';' by {
                assert(crate::encoding::is_b64_char(ivb[j]));
            }
            assert(blob@[ivb.len() as int] == ';');
            lemma_first_idx_at(blob@, ';', ivb.len() as int);
            assert(blob@.take(sep as int) =~= ivb);
            assert(blob@.skip(sep + 1) =~= ctb);
        }
    }
    let iv_bytes = match b64_decode(iv_part) {
        Some(v) => v,
        None => {
            return Err(CryptoError::Encoding);
        },
    };
    if iv_bytes.len() != 16 {
        return Err(CryptoError::Encoding);
    }
    let ct_bytes = match b64_decode(ct_part) {
        Some(v) => v,
        None => {
            return Err(CryptoError::Encoding);
        },
    };
    let plain_bytes = aes256_cbc_decrypt(key_bytes.as_slice(), iv_bytes.as_slice(),
        ct_bytes.as_slice());
    match bytes_to_string(plain_bytes) {
        Some(s) => Ok(s),
        None => Err(CryptoError::Encoding),
    }
}

/// `env` is shaped like the wire envelope
/// `base64(encapsulation) "|" salt_b64 "|" blob`: both base64 segments stay
/// inside the base64 alphabet (so the separators cannot occur in them), the
/// first decodes back to a well-sized KEM encapsulation, and the cipher blob
/// is free of `'|'`.
pub open spec fn envelope_for(
    env: Seq<char>,
    encap: Seq<u8>,
    salt_b64: Seq<char>,
    blob: Seq<char>,
) -> bool {
    &&& env == b64_of(encap) + seq!['|'] + salt_b64 + seq!['|'] + blob
    &&& b64_seg(b64_of(encap))
    &&& b64_seg(salt_b64)
    &&& crate::encoding::lacks(blob, '|')
    &&& b64_decode_of(b64_of(encap)) == Some(encap)
    &&& encap.len() == KYBER_CIPHERTEXT_BYTES
}

/// The symmetric key the envelope implies for a holder of `sk`: the KDF
/// applied to the base64 of the decapsulated shared secret and to the salt,
/// both as UTF-8 bytes.
pub open spec fn envelope_key(sk: Seq<u8>, encap: Seq<u8>, salt_b64: Seq<char>) -> Seq<u8> {
    derived_key(encode_utf8(b64_of(kyber_decap_of(sk, encap))), encode_utf8(salt_b64))
}

/// `env` is an envelope that protects plaintext bytes `p` for the holder of
/// the KEM secret key `sk`: a well-shaped envelope whose cipher blob
/// encrypts `p` under the key the envelope implies for `sk`.
pub open spec fn envelope_encrypts(env: Seq<char>, p: Seq<u8>, sk: Seq<u8>) -> bool {
    exists|encap: Seq<u8>, salt_b64: Seq<char>, blob: Seq<char>, iv: Seq<u8>|
        #![trigger envelope_for(env, encap, salt_b64, blob), cipher_blob_for(
            blob,
            envelope_key(sk, encap, salt_b64),
            iv,
            p,
        )]
        envelope_for(env, encap, salt_b64, blob) && cipher_blob_for(
            blob,
            envelope_key(sk, encap, salt_b64),
            iv,
            p,
        )
}

/// Encapsulates a fresh shared secret against the base64-encoded Kyber
/// public key, derives a symmetric key from it with a fresh salt, encrypts
/// `data` with AES-256-CBC, and assembles the wire envelope
/// `base64(encapsulation) "|" base64(salt) "|" base64(iv) ";" base64(ct)`.
///
/// Every produced envelope decrypts back to `data` under any secret key
/// forming a valid pair with the supplied public key, and carries exactly
/// two `'|'` and one `';'`.
pub fn kyber_encrypt(data: &str, public_key: String) -> (r: Result<String, CryptoError>)
    ensures
        r is Ok <==> (b64_decode_of(public_key@) is Some && b64_decode_of(public_key@).unwrap().len()
            == KYBER_PUBLIC_KEY_BYTES),
        b64_decode_of(public_key@) is None ==> r == Err::<String, CryptoError>(
            CryptoError::Encoding,
        ),
        (b64_decode_of(public_key@) is Some && b64_decode_of(public_key@).unwrap().len()
            != KYBER_PUBLIC_KEY_BYTES) ==> r == Err::<String, CryptoError>(CryptoError::Kem),
        r is Ok ==> forall|sk: Seq<u8>|
            kyber_valid_pair(b64_decode_of(public_key@).unwrap(), sk) ==> envelope_encrypts(
                r.unwrap()@,
                encode_utf8(data@),
                sk,
            ),
        r is Ok ==> count_char(r.unwrap()@, '|') == 2 && count_char(r.unwrap()@, ';') == 1,
{
    let pk_bytes = match b64_decode(public_key.as_str()) {
        Some(v) => v,
        None => {
            return Err(CryptoError::Encoding);
        },
    };
    let (encap, shared_secret) = match kyber_encapsulate(pk_bytes.as_slice()) {
        Some(pair) => pair,
        None => {
            return Err(CryptoError::Kem);
        },
    };
    let salt = generate_salt();
    let secret_b64 = b64_encode(shared_secret.as_slice());
    let encryption_key = generate_basic_key(secret_b64.as_str(), salt.as_str());
    let ghost key_view = encryption_key@;
    let blob = match aes_encrypt(data, encryption_key) {
        Ok(b) => b,
        Err(_) => {
            proof {
                assert(false);
            }
            return Err(CryptoError::Encoding);
        },
    };
    let mut env = b64_encode(encap.as_slice());
    env.append("|");
    env.append(salt.as_str());
    env.append("|");
    env.append(blob.as_str());
    proof {
        reveal_strlit("|");
        assert("|"@ =~= seq!['|']);
        let encap_b64 = b64_of(encap@);
        let p = encode_utf8(data@);
        assert(env@ =~= encap_b64 + seq!['|'] + salt@ + seq!['|'] + blob@);
        // the blob is a base64 segment, ';', and a base64 segment: no '|' in it
        let kb = b64_decode_of(key_view).unwrap();
        let iv = choose|iv: Seq<u8>| cipher_blob_for(blob@, kb, iv, p);
        assert(cipher_blob_for(blob@, kb, iv, p));
        crate::encoding::lemma_b64_seg_lacks(b64_of(iv), '|');
        crate::encoding::lemma_b64_seg_lacks(b64_of(aes_cbc_enc(kb, iv, p)), '|');
        assert(crate::encoding::lacks(blob@, '|'));
        assert(envelope_for(env@, encap@, salt@, blob@));
        assert forall|sk: Seq<u8>|
            kyber_valid_pair(b64_decode_of(public_key@).unwrap(), sk) implies envelope_encrypts(
            env@,
            p,
            sk,
        ) by {
            assert(kyber_decap_of(sk, encap@) == shared_secret@);
            assert(envelope_key(sk, encap@, salt@) == kb);
            assert(cipher_blob_for(blob@, envelope_key(sk, encap@, salt@), iv, p));
        }
        lemma_envelope_counts(env@, encap_b64, salt@, b64_of(iv), b64_of(aes_cbc_enc(kb, iv, p)));
    }
    Ok(env)
}

/// An envelope made of two base64 segments, a cipher blob of two base64
/// segments, and the separators carries exactly two `'|'` and one `';'`.
proof fn lemma_envelope_counts(
    env: Seq<char>,
    encap_b64: Seq<char>,
    salt_b64: Seq<char>,
    iv_b64: Seq<char>,
    ct_b64: Seq<char>,
)
    requires
        env == encap_b64 + seq!['|'] + salt_b64 + seq!['|'] + (iv_b64 + seq![';'] + ct_b64),
        b64_seg(encap_b64),
        b64_seg(salt_b64),
        b64_seg(iv_b64),
        b64_seg(ct_b64),
    ensures
        count_char(env, '|') == 2,
        count_char(env, ';') == 1,
{
    let blob = iv_b64 + seq![';'] + ct_b64;
    lemma_count_piece(encap_b64);
    lemma_count_piece(salt_b64);
    lemma_count_piece(iv_b64);
    lemma_count_piece(ct_b64);
    crate::encoding::lemma_count_char_one('|', '|');
    crate::encoding::lemma_count_char_one(';', ';');
    crate::encoding::lemma_count_char_one('|', ';');
    crate::encoding::lemma_count_char_one(';', '|');
    crate::encoding::lemma_count_char_concat(iv_b64, seq![';'], '|');
    crate::encoding::lemma_count_char_concat(iv_b64 + seq![';'], ct_b64, '|');
    crate::encoding::lemma_count_char_concat(iv_b64, seq![';'], ';');
    crate::encoding::lemma_count_char_concat(iv_b64 + seq![';'], ct_b64, ';');
    crate::encoding::lemma_count_char_concat(encap_b64, seq!['|'], '|');
    crate::encoding::lemma_count_char_concat(encap_b64 + seq!['|'], salt_b64, '|');
    crate::encoding::lemma_count_char_concat(encap_b64 + seq!['|'] + salt_b64, seq!['|'], '|');
    crate::encoding::lemma_count_char_concat(
        encap_b64 + seq!['|'] + salt_b64 + seq!['|'],
        blob,
        '|',
    );
    crate::encoding::lemma_count_char_concat(encap_b64, seq!['|'], ';');
    crate::encoding::lemma_count_char_concat(encap_b64 + seq!['|'], salt_b64, ';');
    crate::encoding::lemma_count_char_concat(encap_b64 + seq!['|'] + salt_b64, seq!['|'], ';');
    crate::encoding::lemma_count_char_concat(
        encap_b64 + seq!['|'] + salt_b64 + seq!['|'],
        blob,
        ';',
    );
}

/// A base64 segment holds neither separator.
proof fn lemma_count_piece(s: Seq<char>)
    requires
        b64_seg(s),
    ensures
        count_char(s, '|') == 0,
        count_char(s, ';') == 0,
{
    crate::encoding::lemma_b64_seg_lacks(s, '|');
    crate::encoding::lemma_b64_seg_lacks(s, ';');
    crate::encoding::lemma_count_char_lacks(s, '|');
    crate::encoding::lemma_count_char_lacks(s, ';');
}

/// A well-shaped envelope parses deterministically: the first `'|'` ends the
/// encapsulation segment, the next `'|'` ends the salt, and the remainder is
/// the cipher blob.
pub proof fn lemma_envelope_structure(
    env: Seq<char>,
    encap: Seq<u8>,
    salt_b64: Seq<char>,
    blob: Seq<char>,
)
    requires
        envelope_for(env, encap, salt_b64, blob),
    ensures
        first_idx(env, '|') == b64_of(encap).len(),
        env.take(b64_of(encap).len() as int) == b64_of(encap),
        first_idx(env.skip(b64_of(encap).len() as int + 1), '|') == salt_b64.len(),
        env.skip(b64_of(encap).len() as int + 1).take(salt_b64.len() as int) == salt_b64,
        env.skip(b64_of(encap).len() as int + 1).skip(salt_b64.len() as int + 1) == blob,
{
    let a = b64_of(encap);
    crate::encoding::lemma_b64_seg_lacks(a, '|');
    crate::encoding::lemma_b64_seg_lacks(salt_b64, '|');
    assert(env[a.len() as int] == '|');
    assert forall|j: int| 0 <= j < a.len() implies env[j] != '|' by {
        assert(env[j] == a[j]);
    }
    lemma_first_idx_at(env, '|', a.len() as int);
    assert(env.take(a.len() as int) =~= a);
    let rest = env.skip(a.len() as int + 1);
    assert(rest =~= salt_b64 + seq!['|'] + blob);
    assert(rest[salt_b64.len() as int] == '|');
    assert forall|j: int| 0 <= j < salt_b64.len() implies rest[j] != '|' by {
        assert(rest[j] == salt_b64[j]);
    }
    lemma_first_idx_at(rest, '|', salt_b64.len() as int);
    assert(rest.take(salt_b64.len() as int) =~= salt_b64);
    assert(rest.skip(salt_b64.len() as int + 1) =~= blob);
}

/// The plaintext bytes that decrypting envelope `env` with Kyber secret key
/// `sk` yields: split at the first two `'|'`, base64-decode the
/// encapsulation, decapsulate the shared secret, re-derive the symmetric
/// key from its base64 and the transmitted salt, and decrypt the blob.
pub open spec fn envelope_plain(env: Seq<char>, sk: Seq<u8>) -> Option<Seq<u8>> {
    let i1 = first_idx(env, '|');
    if i1 < 0 {
        None::<Seq<u8>>
    } else {
        let rest = env.skip(i1 + 1);
        let i2 = first_idx(rest, '|');
        if i2 < 0 {
            None::<Seq<u8>>
        } else {
            let encp = b64_decode_of(env.take(i1));
            if encp is Some && encp.unwrap().len() == KYBER_CIPHERTEXT_BYTES && sk.len()
                == KYBER_SECRET_KEY_BYTES {
                blob_plain(
                    rest.skip(i2 + 1),
                    derived_key(
                        encode_utf8(b64_of(kyber_decap_of(sk, encp.unwrap()))),
                        encode_utf8(rest.take(i2)),
                    ),
                )
            } else {
                None::<Seq<u8>>
            }
        }
    }
}

/// The decrypt counterpart of [`kyber_encrypt`]: splits the envelope at its
/// two `'|'` separators, decapsulates the shared secret with the Kyber
/// secret key, re-derives the symmetric key from it and the transmitted
/// salt, and decrypts the cipher blob.
///
/// Succeeds exactly on the envelopes whose spec-level decryption
/// [`envelope_plain`] yields valid UTF-8, returning those bytes decoded; in
/// particular any envelope that [`kyber_encrypt`] produced for the matching
/// public key decrypts back to the original plaintext.
pub fn kyber_decrypt(envelope: &str, secret_key: &[u8]) -> (r: Result<String, CryptoError>)
    ensures
        r is Ok <==> (secret_key@.len() == KYBER_SECRET_KEY_BYTES && envelope_plain(
            envelope@,
            secret_key@,
        ) is Some && valid_utf8(envelope_plain(envelope@, secret_key@).unwrap())),
        r is Ok ==> r.unwrap()@ == decode_utf8(envelope_plain(envelope@, secret_key@).unwrap()),
        secret_key@.len() != KYBER_SECRET_KEY_BYTES ==> r == Err::<String, CryptoError>(
            CryptoError::Kem,
        ),
        (secret_key@.len() == KYBER_SECRET_KEY_BYTES && first_idx(envelope@, '|') == -1) ==> r
            == Err::<String, CryptoError>(CryptoError::Encoding),
        forall|p: Seq<u8>|
            (secret_key@.len() == KYBER_SECRET_KEY_BYTES && #[trigger] envelope_encrypts(
                envelope@,
                p,
                secret_key@,
            ) && valid_utf8(p)) ==> (r is Ok && r.unwrap()@ == decode_utf8(p)),
{
    if secret_key.len() != KYBER_SECRET_KEY_BYTES {
        return Err(CryptoError::Kem);
    }
    let n = envelope.unicode_len();
    let i1 = match find_char(envelope, '|') {
        Some(i) => i,
        None => {
            proof {
                assert forall|p: Seq<u8>| !(#[trigger] envelope_encrypts(
                    envelope@,
                    p,
                    secret_key@,
                )) by {
                    if envelope_encrypts(envelope@, p, secret_key@) {
                        let (encap, salt_b64, blob, iv) = choose|
                            encap: Seq<u8>,
                            salt_b64: Seq<char>,
                            blob: Seq<char>,
                            iv: Seq<u8>,
                        |
                            envelope_for(envelope@, encap, salt_b64, blob) && cipher_blob_for(
                                blob,
                                envelope_key(secret_key@, encap, salt_b64),
                                iv,
                                p,
                            );
                        lemma_envelope_structure(envelope@, encap, salt_b64, blob);
                    }
                }
            }
            return Err(CryptoError::Encoding);
        },
    };
    let encap_part = envelope.substring_char(0, i1);
    let rest = envelope.substring_char(i1 + 1, n);
    let m = rest.unicode_len();
    proof {
        assert(rest@ =~= envelope@.skip(i1 + 1));
    }
    let i2 = match find_char(rest, '|') {
        Some(i) => i,
        None => {
            proof {
                assert forall|p: Seq<u8>| !(#[trigger] envelope_encrypts(
                    envelope@,
                    p,
                    secret_key@,
                )) by {
                    if envelope_encrypts(envelope@, p, secret_key@) {
                        let (encap, salt_b64, blob, iv) = choose|
                            encap: Seq<u8>,
                            salt_b64: Seq<char>,
                            blob: Seq<char>,
                            iv: Seq<u8>,
                        |
                            envelope_for(envelope@, encap, salt_b64, blob) && cipher_blob_for(
                                blob,
                                envelope_key(secret_key@, encap, salt_b64),
                                iv,
                                p,
                            );
                        lemma_envelope_structure(envelope@, encap, salt_b64, blob);
                        assert(rest@ == envelope@.skip(b64_of(encap).len() as int + 1));
                    }
                }
            }
            return Err(CryptoError::Encoding);
        },
    };
    let salt_part = rest.substring_char(0, i2);
    let blob_part = rest.substring_char(i2 + 1, m);
    proof {
        assert(encap_part@ =~= envelope@.take(i1 as int));
        assert(salt_part@ =~= rest@.take(i2 as int));
        assert(blob_part@ =~= rest@.skip(i2 as int + 1));
    }
    let encap_bytes = match b64_decode(encap_part) {
        Some(v) => v,
        None => {
            proof {
                assert forall|p: Seq<u8>| !(#[trigger] envelope_encrypts(
                    envelope@,
                    p,
                    secret_key@,
                )) by {
                    if envelope_encrypts(envelope@, p, secret_key@) {
                        let (encap, salt_b64, blob, iv) = choose|
                            encap: Seq<u8>,
                            salt_b64: Seq<char>,
                            blob: Seq<char>,
                            iv: Seq<u8>,
                        |
                            envelope_for(envelope@, encap, salt_b64, blob) && cipher_blob_for(
                                blob,
                                envelope_key(secret_key@, encap, salt_b64),
                                iv,
                                p,
                            );
                        lemma_envelope_structure(envelope@, encap, salt_b64, blob);
                        assert(encap_part@ == b64_of(encap));
                    }
                }
            }
            return Err(CryptoError::Encoding);
        },
    };
    let shared_secret = match kyber_decapsulate(encap_bytes.as_slice(), secret_key) {
        Some(v) => v,
        None => {
            proof {
                assert forall|p: Seq<u8>| !(#[trigger] envelope_encrypts(
                    envelope@,
                    p,
                    secret_key@,
                )) by {
                    if envelope_encrypts(envelope@, p, secret_key@) {
                        let (encap, salt_b64, blob, iv) = choose|
                            encap: Seq<u8>,
                            salt_b64: Seq<char>,
                            blob: Seq<char>,
                            iv: Seq<u8>,
                        |
                            envelope_for(envelope@, encap, salt_b64, blob) && cipher_blob_for(
                                blob,
                                envelope_key(secret_key@, encap, salt_b64),
                                iv,
                                p,
                            );
                        lemma_envelope_structure(envelope@, encap, salt_b64, blob);
                        assert(encap_part@ == b64_of(encap));
                        assert(encap_bytes@ == encap);
                    }
                }
            }
            return Err(CryptoError::Kem);
        },
    };
    let secret_b64 = b64_encode(shared_secret.as_slice());
    let encryption_key = generate_basic_key(secret_b64.as_str(), salt_part);
    let result = aes_decrypt(blob_part, encryption_key.as_str());
    proof {
        assert(encap_bytes@ == b64_decode_of(envelope@.take(i1 as int)).unwrap());
        assert(shared_secret@ == kyber_decap_of(secret_key@, encap_bytes@));
        assert(b64_decode_of(encryption_key@) == Some(
            derived_key(
                encode_utf8(b64_of(kyber_decap_of(secret_key@, encap_bytes@))),
                encode_utf8(rest@.take(i2 as int)),
            ),
        ));
        assert(envelope_plain(envelope@, secret_key@) == blob_plain(
            blob_part@,
            b64_decode_of(encryption_key@).unwrap(),
        ));
        assert forall|p: Seq<u8>|
            (#[trigger] envelope_encrypts(envelope@, p, secret_key@) && valid_utf8(
                p,
            )) implies (result is Ok && result.unwrap()@ == decode_utf8(p)) by {
            let (encap, salt_b64, blob, iv) = choose|
                encap: Seq<u8>,
                salt_b64: Seq<char>,
                blob: Seq<char>,
                iv: Seq<u8>,
            |
                envelope_for(envelope@, encap, salt_b64, blob) && cipher_blob_for(
                    blob,
                    envelope_key(secret_key@, encap, salt_b64),
                    iv,
                    p,
                );
            lemma_envelope_structure(envelope@, encap, salt_b64, blob);
            assert(encap_part@ == b64_of(encap));
            assert(encap_bytes@ == encap);
            assert(salt_part@ == salt_b64);
            assert(blob_part@ == blob);
            assert(shared_secret@ == kyber_decap_of(secret_key@, encap));
            assert(secret_b64@ == b64_of(kyber_decap_of(secret_key@, encap)));
            let kb = envelope_key(secret_key@, encap, salt_b64);
            assert(b64_decode_of(encryption_key@) == Some(kb));
            assert(kb.len() == 32);
            assert(cipher_blob_for(blob_part@, kb, iv, p));
        }
    }
    result
}

/// `base64(sha256(data))`: the pseudonymous digest of an identifying code.
///
/// Deterministic: the result is a function of `data` alone, is 44 characters
/// of standard base64, and decodes back to the 32 digest bytes.
pub fn hash(data: &str) -> (r: String)
    ensures
        r@ == b64_of(sha256_of(encode_utf8(data@))),
        b64_decode_of(r@) == Some(sha256_of(encode_utf8(data@))),
        sha256_of(encode_utf8(data@)).len() == 32,
        r@.len() == 44,
{
    let digest = sha256(data.as_bytes());
    b64_encode(digest.as_slice())
}

/// Law: key derivation is a pure function. Two calls of
/// [`generate_basic_key`] on equal secret and salt strings yield equal keys,
/// since each returns exactly `base64(derived_key(secret, salt))`.
pub proof fn lemma_derive_key_deterministic(
    secret1: Seq<u8>,
    salt1: Seq<u8>,
    secret2: Seq<u8>,
    salt2: Seq<u8>,
)
    requires
        secret1 == secret2,
        salt1 == salt2,
    ensures
        derived_key(secret1, salt1) == derived_key(secret2, salt2),
        b64_of(derived_key(secret1, salt1)) == b64_of(derived_key(secret2, salt2)),
{
}

/// Law: the digest is a pure function. Two calls of [`hash`] on equal
/// inputs yield equal 44-character strings, since each returns exactly
/// `base64(sha256(input))`.
pub proof fn lemma_digest_deterministic(x: Seq<u8>, y: Seq<u8>)
    requires
        x == y,
    ensures
        sha256_of(x) == sha256_of(y),
        b64_of(sha256_of(x)) == b64_of(sha256_of(y)),
{
}

} // verus!
