//! Trusted bindings to the cryptographic primitives the envelope is built on:
//! a secure random source, PBKDF2-HMAC-SHA512, SHA-256, AES-256-CBC and the
//! Kyber key-encapsulation mechanism (security level 3, kyber768).

use vstd::prelude::*;

verus! {

/// Size in bytes of a kyber768 public key.
pub const KYBER_PUBLIC_KEY_BYTES: usize = 1184;

/// Size in bytes of a kyber768 secret key.
pub const KYBER_SECRET_KEY_BYTES: usize = 2400;

/// Size in bytes of a kyber768 encapsulation ciphertext.
pub const KYBER_CIPHERTEXT_BYTES: usize = 1088;

/// Size in bytes of the shared secret a Kyber encapsulation yields.
pub const KYBER_SHARED_SECRET_BYTES: usize = 32;

/// What `pbkdf2::pbkdf2_hmac_array::<Sha512, 32>` returns: a 32-byte key
/// that is a function of the password, the salt and the round count alone.
pub uninterp spec fn kdf_of(password: Seq<u8>, salt: Seq<u8>, rounds: u32) -> Seq<u8>;

/// What SHA-256 returns: a 32-byte digest that is a function of the input alone.
pub uninterp spec fn sha256_of(data: Seq<u8>) -> Seq<u8>;

/// What AES-256-CBC encryption with PKCS7 padding returns for a given
/// 32-byte key, 16-byte IV and plaintext.
pub uninterp spec fn aes_cbc_enc(key: Seq<u8>, iv: Seq<u8>, data: Seq<u8>) -> Seq<u8>;

/// What AES-256-CBC decryption with PKCS7 unpadding returns for a given
/// 32-byte key, 16-byte IV and ciphertext.
pub uninterp spec fn aes_cbc_dec(key: Seq<u8>, iv: Seq<u8>, data: Seq<u8>) -> Seq<u8>;

/// What `safe_pqc_kyber::decapsulate` returns for a well-sized secret key and
/// encapsulation ciphertext: a 32-byte shared secret, a function of the two alone.
pub uninterp spec fn kyber_decap_of(sk: Seq<u8>, ct: Seq<u8>) -> Seq<u8>;

/// Holds of the key pairs that `safe_pqc_kyber::keypair` produces; only such
/// pairs are promised to decapsulate an honest encapsulation to its secret.
pub uninterp spec fn kyber_valid_pair(pk: Seq<u8>, sk: Seq<u8>) -> bool;

/// Relies on `rand::random::<[u8; 16]>`: 16 bytes from the thread-local
/// cryptographically secure generator. Nothing can be promised of the values.
#[verifier::external_body]
pub(crate) fn random_bytes_16() -> [u8; 16] {
    rand::random::<[u8; 16]>()
}

/// Relies on `pbkdf2::pbkdf2_hmac_array` with `sha2::Sha512`: the derived key
/// depends on the password, the salt and the round count alone.
#[verifier::external_body]
pub(crate) fn pbkdf2_sha512(password: &[u8], salt: &[u8], rounds: u32) -> (r: [u8; 32])
    ensures
        r@ == kdf_of(password@, salt@, rounds),
        r@.len() == 32,
{
    pbkdf2::pbkdf2_hmac_array::<sha2::Sha512, 32>(password, salt, rounds)
}

/// Relies on `crypto_hash::digest` with `Algorithm::SHA256`: a 32-byte
/// digest that depends on the input bytes alone.
#[verifier::external_body]
pub(crate) fn sha256(data: &[u8]) -> (r: Vec<u8>)
    ensures
        r@ == sha256_of(data@),
        r@.len() == 32,
{
    crypto_hash::digest(crypto_hash::Algorithm::SHA256, data)
}

/// Relies on `libaes::Cipher::new_256` and `Cipher::cbc_encrypt`: AES-256-CBC
/// with automatic PKCS7 padding. The ciphertext depends on key, IV and
/// plaintext alone, and is the plaintext length rounded up to the next
/// multiple of the block size.
#[verifier::external_body]
pub(crate) fn aes256_cbc_encrypt(key: &[u8], iv: &[u8], data: &[u8]) -> (r: Vec<u8>)
    requires
        key@.len() == 32,
        iv@.len() == 16,
    ensures
        r@ == aes_cbc_enc(key@, iv@, data@),
        r@.len() == data@.len() + 16 - (data@.len() % 16),
{
    let cipher = libaes::Cipher::new_256(key.try_into().unwrap());
    cipher.cbc_encrypt(iv, data)
}

/// Relies on `libaes::Cipher::new_256` and `Cipher::cbc_decrypt`: AES-256-CBC
/// with automatic PKCS7 unpadding. The result depends on key, IV and input
/// alone, and decrypting what `cbc_encrypt` produced under the same key and
/// IV restores the plaintext.
#[verifier::external_body]
pub(crate) fn aes256_cbc_decrypt(key: &[u8], iv: &[u8], data: &[u8]) -> (r: Vec<u8>)
    requires
        key@.len() == 32,
        iv@.len() == 16,
    ensures
        r@ == aes_cbc_dec(key@, iv@, data@),
        forall|p: Seq<u8>| data@ == aes_cbc_enc(key@, iv@, p) ==> r@ == p,
{
    let cipher = libaes::Cipher::new_256(key.try_into().unwrap());
    cipher.cbc_decrypt(iv, data)
}

/// Relies on `safe_pqc_kyber::encapsulate` with `rand::thread_rng`: it fails
/// exactly when the public key is not `KYBER_PUBLICKEYBYTES` long; otherwise
/// it returns an encapsulation ciphertext and a shared secret, and
/// decapsulating that ciphertext with the matching secret key yields the
/// same shared secret.
#[verifier::external_body]
pub(crate) fn kyber_encapsulate(pk: &[u8]) -> (r: Option<(Vec<u8>, Vec<u8>)>)
    ensures
        r is Some <==> pk@.len() == KYBER_PUBLIC_KEY_BYTES,
        r is Some ==> {
            &&& r.unwrap().0@.len() == KYBER_CIPHERTEXT_BYTES
            &&& r.unwrap().1@.len() == KYBER_SHARED_SECRET_BYTES
            &&& forall|sk: Seq<u8>|
                kyber_valid_pair(pk@, sk) ==> kyber_decap_of(sk, r.unwrap().0@) == r.unwrap().1@
        },
{
    let mut rng = rand::thread_rng();
    match safe_pqc_kyber::encapsulate(pk, &mut rng) {
        Ok((ct, ss)) => Some((ct.to_vec(), ss.to_vec())),
        Err(_) => None,
    }
}

/// Relies on `safe_pqc_kyber::decapsulate`: it fails exactly when the
/// ciphertext or secret key has the wrong length; otherwise the 32-byte
/// shared secret is a function of the two inputs alone.
#[verifier::external_body]
pub(crate) fn kyber_decapsulate(ct: &[u8], sk: &[u8]) -> (r: Option<Vec<u8>>)
    ensures
        r is Some <==> (ct@.len() == KYBER_CIPHERTEXT_BYTES && sk@.len()
            == KYBER_SECRET_KEY_BYTES),
        r is Some ==> r.unwrap()@ == kyber_decap_of(sk@, ct@) && r.unwrap()@.len()
            == KYBER_SHARED_SECRET_BYTES,
{
    match safe_pqc_kyber::decapsulate(ct, sk) {
        Ok(ss) => Some(ss.to_vec()),
        Err(_) => None,
    }
}

} // verus!
