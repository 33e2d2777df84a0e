//! Codec for checksummed, human-typable addresses of the form
//! `<prefix>:<payload>`: a version byte and a hash, regrouped into 5-bit
//! symbols, protected by a 40-bit polynomial checksum that is seeded with the
//! prefix, and rendered in a fixed 32-character alphabet.
//!
//! ```text
//! let hash = [0xF5, 0xBF, 0x48, 0xB3, 0x97, 0xDA, 0xE7, 0x0B, 0xE8, 0x2B,
//!             0x3C, 0xCA, 0x47, 0x93, 0xF8, 0xEB, 0x2B, 0x6C, 0xDA, 0xC9];
//! let address = encode("bitcoincash", AddressType::P2PKH, &hash)?;
//! assert_eq!(address, "bitcoincash:qr6m7j9njldwwzlg9v7v53unlr4jkmx6eylep8ekg2");
//! assert_eq!(decode(&address)?, ("bitcoincash".to_string(), AddressType::P2PKH, hash.to_vec()));
//! ```
//!
//! - [`symbol`]: the 5-bit symbol.
//! - [`base32`]: the alphabet, and the rule of one case.
//! - [`bits`]: regrouping between bytes and symbols.
//! - [`checksum`]: the polynomial residue.
//! - [`converter`]: addresses, with `encode_spec` and `decode_spec`, the
//!   functions that `encode` and `decode` compute.
//! - [`laws`]: what holds of every address.
//! - [`error`]: the failures.

pub mod base32;
pub mod bits;
pub mod checksum;
pub mod converter;
pub mod error;
pub mod laws;
pub mod symbol;
pub mod text;

pub use converter::{decode, encode, AddressType};
pub use error::{Bech32Error, Error, ErrorView};
pub use symbol::U5;
