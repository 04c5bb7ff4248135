//! RC4 stream cipher with keystream-reuse analysis helpers.
pub mod analysis;
pub mod bank;
pub mod hex;
pub mod rc4;
pub mod text;
