//! Hybrid post-quantum encryption envelope for per-student records.
//!
//! The core combines a post-quantum key-encapsulation mechanism with
//! AES-256-CBC under a PBKDF2-derived key, and offers a SHA-256 digest
//! used to pseudonymize identifying codes.

pub mod encoding;
pub mod primitives;
pub mod cryptography;
pub mod grades_processor;
