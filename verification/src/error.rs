//! The closed set of failures of the codec.

use vstd::prelude::*;
use vstd::std_specs::convert::FromSpecImpl;

verus! {

/// Failures that the `bech32` crate reports. Only the two that its bit
/// regrouping raises can reach a caller of this library: `InvalidData` and
/// `InvalidPadding`.
#[derive(Debug, Clone, Copy, PartialEq, Eq)]
pub enum Bech32Error {
    /// The string holds no separator.
    MissingSeparator,
    /// The checksum does not match the data.
    InvalidChecksum,
    /// The data or the human-readable part is too long or too short.
    InvalidLength,
    /// A character outside the alphabet.
    InvalidChar(char),
    /// A value that does not fit the bit width it was given with.
    InvalidData(u8),
    /// The bits left over after regrouping are too many or not all zero.
    InvalidPadding,
    /// Letters of both cases.
    MixedCase,
}

/// Why an address could not be encoded or decoded.
#[derive(Debug, PartialEq, Eq)]
pub enum Error {
    /// The text is not of the form `<prefix>:<payload>`, or its payload is
    /// empty, not ASCII or too short. Holds the offending text.
    InvalidAddressFormat(String),
    /// A character outside the alphabet.
    InvalidChar(char),
    /// Letters of both cases in one payload.
    MixedCase,
    /// The hash has none of the eight permitted lengths. Holds its length in bits.
    InvalidHashSize(usize),
    /// A size code outside `0..=7`.
    InvalidHashSizeBits(u8),
    /// The hash is not as long as the version byte says. Holds its length in bytes.
    HashSizeMismatch(usize),
    /// The checksum does not verify. Holds the address.
    InvalidChecksum(String),
    /// A type field that is neither of the two known values.
    InvalidAddressTypeBit(u8),
    /// The bit regrouping failed.
    Bech32(Bech32Error),
}

/// What an [`Error`] says, with texts as sequences of characters and sizes as
/// natural numbers.
pub ghost enum ErrorView {
    InvalidAddressFormat(Seq<char>),
    InvalidChar(char),
    MixedCase,
    InvalidHashSize(nat),
    InvalidHashSizeBits(u8),
    HashSizeMismatch(nat),
    InvalidChecksum(Seq<char>),
    InvalidAddressTypeBit(u8),
    Bech32(Bech32Error),
}

impl View for Error {
    type V = ErrorView;

    open spec fn view(&self) -> ErrorView {
        match *self {
            Error::InvalidAddressFormat(text) => ErrorView::InvalidAddressFormat(text@),
            Error::InvalidChar(c) => ErrorView::InvalidChar(c),
            Error::MixedCase => ErrorView::MixedCase,
            Error::InvalidHashSize(bits) => ErrorView::InvalidHashSize(bits as nat),
            Error::InvalidHashSizeBits(code) => ErrorView::InvalidHashSizeBits(code),
            Error::HashSizeMismatch(len) => ErrorView::HashSizeMismatch(len as nat),
            Error::InvalidChecksum(text) => ErrorView::InvalidChecksum(text@),
            Error::InvalidAddressTypeBit(bit) => ErrorView::InvalidAddressTypeBit(bit),
            Error::Bech32(e) => ErrorView::Bech32(e),
        }
    }
}

impl From<Bech32Error> for Error {
    fn from(err: Bech32Error) -> (e: Error) {
        Error::Bech32(err)
    }
}

impl FromSpecImpl<Bech32Error> for Error {
    open spec fn obeys_from_spec() -> bool {
        true
    }

    open spec fn from_spec(err: Bech32Error) -> Error {
        Error::Bech32(err)
    }
}

} // verus!
