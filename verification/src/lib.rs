//! yescrypt password-based key derivation, with its behaviour stated and proved.
//!
//! The public entry point is [`yescrypt_kdf`]. The modules hold the pieces it
//! is made of, each with its contract: the Salsa20 core and scrypt's BlockMix
//! (`salsa20`), pwxform and its BlockMix (`pwxform`), the sequential mixing
//! `smix` (`smix`), the parameter rules (`params`), the SHA-256 primitives
//! that come from the RustCrypto crates (`sha256`), and small integer helpers
//! (`common`).

pub mod common;
pub mod sha256;
pub mod salsa20;
pub mod pwxform;
pub mod params;
pub mod smix;
pub mod kdf;
pub mod scrypt;

pub use crate::kdf::yescrypt_kdf;
pub use crate::common::{ilog2, prev_power_of_two, wrap};
