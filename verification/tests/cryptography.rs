//! Tests of the cryptographic core: salt generation, key derivation, the
//! symmetric cipher wrapper, the hybrid KEM envelope and the digest.

use backboard::cryptography::{
    aes_decrypt, aes_encrypt, generate_basic_key, generate_salt, hash, kyber_decrypt,
    kyber_encrypt, CryptoError,
};

fn b64_decode(s: &str) -> Vec<u8> {
    base64::Engine::decode(&base64::engine::general_purpose::STANDARD, s).unwrap()
}

fn b64_encode(b: &[u8]) -> String {
    base64::Engine::encode(&base64::engine::general_purpose::STANDARD, b)
}

fn fresh_keypair() -> (Vec<u8>, Vec<u8>) {
    let mut rng = rand::thread_rng();
    let keys = safe_pqc_kyber::keypair(&mut rng);
    (keys.public.to_vec(), keys.secret.to_vec())
}

#[test]
fn salt_is_24_base64_chars_of_16_bytes() {
    let salt = generate_salt();
    assert_eq!(salt.len(), 24);
    assert_eq!(b64_decode(&salt).len(), 16);
}

#[test]
fn salts_never_repeat_in_a_thousand_trials() {
    let mut seen: Vec<String> = Vec::new();
    for _ in 0..1000 {
        let salt = generate_salt();
        assert!(!seen.contains(&salt));
        seen.push(salt);
    }
}

#[test]
fn derive_key_is_deterministic() {
    let a = generate_basic_key("secret", "salt");
    let b = generate_basic_key("secret", "salt");
    assert_eq!(a, b);
}

#[test]
fn derive_key_matches_pbkdf2_hmac_sha512_at_1000_rounds() {
    assert_eq!(
        generate_basic_key("secret", "salt"),
        "929yOBt18N6xwzkzSoyJdDZsrbxr9GRg+Xg2PejSENs="
    );
    assert_eq!(
        generate_basic_key("secret", "pepper"),
        "aR0hYO4T9tJI7KuJOpqJWG7oJbJ+0U2OD3lmuwRQ454="
    );
}

#[test]
fn derive_key_differs_for_different_salts() {
    let a = generate_basic_key("secret", "salt");
    let b = generate_basic_key("secret", "pepper");
    assert_ne!(a, b);
    assert_eq!(b64_decode(&a).len(), 32);
    assert_eq!(b64_decode(&b).len(), 32);
}

#[test]
fn digest_is_deterministic_and_decodes_to_32_bytes() {
    let x = hash("some identifying code");
    let y = hash("some identifying code");
    assert_eq!(x, y);
    assert_ne!(hash("x"), hash("y"));
    assert_eq!(b64_decode(&x).len(), 32);
}

#[test]
fn digest_matches_sha256() {
    let digest = hash("1234567A89");
    assert_eq!(digest.len(), 44);
    assert_eq!(digest, "GCjPaHOY1QRYMpjzAy9ACI6xw5JJ8RkhHIfAfr8sRp8=");
    assert_eq!(hash("1234567A89"), digest);
    assert_eq!(hash("hello"), "LPJNul+wow4m6DsqxbninhsWHlwfp0JecwQzYpOLmCQ=");
}

#[test]
fn aes_encrypt_rejects_wrong_key_lengths() {
    let short_key = b64_encode(&[7u8; 16]);
    assert_eq!(
        aes_encrypt("data", short_key),
        Err(CryptoError::KeyLength)
    );
    let long_key = b64_encode(&[7u8; 33]);
    assert_eq!(aes_encrypt("data", long_key), Err(CryptoError::KeyLength));
    assert_eq!(
        aes_encrypt("data", String::from("not base64!!")),
        Err(CryptoError::Encoding)
    );
}

#[test]
fn aes_round_trip_restores_plaintext() {
    let key = generate_basic_key("secret", &generate_salt());
    let blob = aes_encrypt("a fairly ordinary plaintext, über alles", key.clone()).unwrap();
    let parts: Vec<&str> = blob.split(';').collect();
    assert_eq!(parts.len(), 2);
    assert_eq!(b64_decode(parts[0]).len(), 16);
    assert!(b64_decode(parts[1]).len() % 16 == 0);
    let back = aes_decrypt(&blob, &key).unwrap();
    assert_eq!(back, "a fairly ordinary plaintext, über alles");
}

#[test]
fn aes_fresh_ivs_give_different_blobs() {
    let key = generate_basic_key("secret", "salt");
    let one = aes_encrypt("same plaintext", key.clone()).unwrap();
    let two = aes_encrypt("same plaintext", key).unwrap();
    assert_ne!(one, two);
}

#[test]
fn aes_decrypt_rejects_malformed_blobs() {
    let key = generate_basic_key("secret", "salt");
    assert_eq!(
        aes_decrypt("no separator here", &key),
        Err(CryptoError::Encoding)
    );
    assert_eq!(
        aes_decrypt("bad base64!;AAAA", &key),
        Err(CryptoError::Encoding)
    );
    // a 4-byte IV is not 16 bytes long
    assert_eq!(aes_decrypt("AAAAAA==;AAAA", &key), Err(CryptoError::Encoding));
    assert_eq!(
        aes_decrypt("whatever;whatever", "no key"),
        Err(CryptoError::Encoding)
    );
    let short_key = b64_encode(&[7u8; 16]);
    assert_eq!(
        aes_decrypt("AAAAAA==;AAAA", &short_key),
        Err(CryptoError::KeyLength)
    );
}

#[test]
fn hybrid_round_trip_restores_hello_world() {
    let (public_key, secret_key) = fresh_keypair();
    let envelope = kyber_encrypt("hello world", b64_encode(&public_key)).unwrap();
    let back = kyber_decrypt(&envelope, &secret_key).unwrap();
    assert_eq!(back, "hello world");
}

#[test]
fn envelope_has_two_pipes_and_one_semicolon() {
    let (public_key, _) = fresh_keypair();
    let envelope = kyber_encrypt("payload", b64_encode(&public_key)).unwrap();
    assert_eq!(envelope.chars().filter(|c| *c == '|').count(), 2);
    assert_eq!(envelope.chars().filter(|c| *c == ';').count(), 1);
    let parts: Vec<&str> = envelope.split('|').collect();
    assert_eq!(parts.len(), 3);
    assert!(!parts[0].is_empty() && !parts[1].is_empty() && !parts[2].is_empty());
    assert_eq!(b64_decode(parts[0]).len(), 1088);
    assert_eq!(b64_decode(parts[1]).len(), 16);
}

#[test]
fn kyber_encrypt_rejects_bad_public_keys() {
    assert_eq!(
        kyber_encrypt("data", String::from("definitely not base64 \u{1F512}")),
        Err(CryptoError::Encoding)
    );
    let wrong_length = b64_encode(&[1u8; 100]);
    assert_eq!(kyber_encrypt("data", wrong_length), Err(CryptoError::Kem));
}

#[test]
fn kyber_decrypt_rejects_bad_inputs() {
    let (public_key, secret_key) = fresh_keypair();
    let envelope = kyber_encrypt("data", b64_encode(&public_key)).unwrap();
    assert_eq!(
        kyber_decrypt(&envelope, &[0u8; 7]),
        Err(CryptoError::Kem)
    );
    assert_eq!(
        kyber_decrypt("no pipes at all", &secret_key),
        Err(CryptoError::Encoding)
    );
    assert_eq!(
        kyber_decrypt("one|pipe only", &secret_key),
        Err(CryptoError::Encoding)
    );
    // "junk" is valid base64 but decodes to 3 bytes: no encapsulation
    assert_eq!(
        kyber_decrypt("junk|junk|junk", &secret_key),
        Err(CryptoError::Kem)
    );
    assert_eq!(
        kyber_decrypt("not base64!|salt|iv;ct", &secret_key),
        Err(CryptoError::Encoding)
    );
}

#[test]
fn envelopes_differ_between_calls() {
    let (public_key, _) = fresh_keypair();
    let one = kyber_encrypt("same payload", b64_encode(&public_key)).unwrap();
    let two = kyber_encrypt("same payload", b64_encode(&public_key)).unwrap();
    // fresh encapsulation, salt and IV every call
    assert_ne!(one, two);
    let salt_one = one.split('|').nth(1).unwrap().to_string();
    let salt_two = two.split('|').nth(1).unwrap().to_string();
    assert_ne!(salt_one, salt_two);
}
