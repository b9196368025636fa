//! Standard Base64 (alphabet `A-Z`, `a-z`, `0-9`, `+`, `/`, padding `=`),
//! with contracts proved by Verus.
pub mod alphabet;
pub mod base64;
pub mod laws;

pub use crate::base64::{decode, encode, DecodeError};
