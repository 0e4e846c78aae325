//! SHA-256, Base64 and hexadecimal encodings, and an authenticated message format built on
//! them: every operation is proved against a specification of what it computes.
#![allow(non_snake_case)]

pub mod base64;
pub mod files;
pub mod hex;
pub mod message;
pub mod sha256;
pub mod text;
