//! A keyed pseudorandom byte stream built on HMAC-SHA256.

pub mod crypto;
