//! Addresses: a prefix, a separator, and the text of a payload that holds a
//! version byte, a hash and the checksum.

use vstd::prelude::*;
use vstd::slice::{slice_subrange, slice_to_vec};
use vstd::string::{StrSliceExecFns, StringExecFns};
use crate::base32;
use crate::bits::{
    bytes_to_symbols, convert_bits, convert_bits_spec, lemma_fits_none_unfit,
    lemma_regroup_round_trip,
};
use crate::checksum::{
    append, checksum_spec, checksum_valid, parse_prefix, polymod, prefix_symbols,
    validate_checksum, zeros8,
};
use crate::error::{Error, ErrorView};
use crate::symbol::{check_base32, to_u8_vec, values};

verus! {

/// Address type.
#[derive(Clone, Copy, Debug, PartialEq, Eq)]
pub enum AddressType {
    /// P2PKH address.
    P2PKH,
    /// P2SH address.
    P2SH,
}

impl AddressType {
    /// The type's bit in the version byte: 0 for P2PKH, 8 for P2SH.
    pub open spec fn spec_tag(self) -> u8 {
        match self {
            AddressType::P2PKH => 0,
            AddressType::P2SH => 8,
        }
    }

    /// The type's bit in the version byte: 0 for P2PKH, 8 for P2SH.
    #[verifier::when_used_as_spec(spec_tag)]
    pub fn tag(self) -> (t: u8)
        ensures
            t == self.spec_tag(),
    {
        match self {
            AddressType::P2PKH => 0,
            AddressType::P2SH => 8,
        }
    }
}

/// The character between prefix and payload.
pub const SEPARATOR: char = ':';

/// The size code of a hash of `len` bytes: one of eight lengths has one.
pub open spec fn hash_size_code(len: nat) -> Option<u8> {
    if len == 20 {
        Some(0)
    } else if len == 24 {
        Some(1)
    } else if len == 28 {
        Some(2)
    } else if len == 32 {
        Some(3)
    } else if len == 40 {
        Some(4)
    } else if len == 48 {
        Some(5)
    } else if len == 56 {
        Some(6)
    } else if len == 64 {
        Some(7)
    } else {
        None
    }
}

/// The length in bytes of the hash that a version byte announces, by its low
/// three bits.
pub open spec fn hash_size_spec(version_byte: u8) -> nat {
    let code = version_byte & 7;
    if code == 0 {
        20
    } else if code == 1 {
        24
    } else if code == 2 {
        28
    } else if code == 3 {
        32
    } else if code == 4 {
        40
    } else if code == 5 {
        48
    } else if code == 6 {
        56
    } else {
        64
    }
}

/// The address type that a version byte announces, by its bit 3.
pub open spec fn address_type_spec(version_byte: u8) -> AddressType {
    if version_byte & 8 == 0 {
        AddressType::P2PKH
    } else {
        AddressType::P2SH
    }
}

/// The address of a hash: the prefix, the separator, and the text of the
/// payload symbols followed by their checksum. The payload symbols are the
/// version byte and the hash, regrouped by five bits.
pub open spec fn encode_spec(prefix: Seq<char>, address_type: AddressType, hash: Seq<u8>) -> Result<
    Seq<char>,
    ErrorView,
> {
    match hash_size_code(hash.len()) {
        None => Err(ErrorView::InvalidHashSize(hash.len() * 8)),
        Some(code) => {
            let payload = bytes_to_symbols(seq![address_type.tag() | code] + hash);
            Ok(
                prefix + seq![SEPARATOR] + base32::encode_spec(
                    payload + checksum_spec(prefix, payload),
                ),
            )
        },
    }
}

/// Whether `address` holds the separator at `i` and nowhere else.
pub open spec fn is_only_separator(address: Seq<char>, i: int) -> bool {
    &&& 0 <= i < address.len()
    &&& address[i] == SEPARATOR
    &&& forall|j: int| 0 <= j < address.len() && #[trigger] address[j] == SEPARATOR ==> j == i
}

/// What the two parts of `address` hold.
///
/// The text must read as at least ten symbols whose checksum verifies under
/// the prefix. Without the last eight, regrouped by eight bits, they are the
/// version byte and the hash; the hash must be as long as the version byte
/// says.
pub open spec fn decode_parts(address: Seq<char>, prefix: Seq<char>, text: Seq<char>) -> Result<
    (Seq<char>, AddressType, Seq<u8>),
    ErrorView,
> {
    match base32::decode_spec(text) {
        Err(e) => Err(e),
        Ok(payload) => if payload.len() < 10 {
            Err(ErrorView::InvalidAddressFormat(address))
        } else if !checksum_valid(prefix, payload) {
            Err(ErrorView::InvalidChecksum(address))
        } else {
            match convert_bits_spec(payload.take(payload.len() - 8), 5, 8, false) {
                Err(e) => Err(ErrorView::Bech32(e)),
                Ok(bytes) => if hash_size_spec(bytes[0]) != bytes.len() - 1 {
                    Err(ErrorView::HashSizeMismatch((bytes.len() - 1) as nat))
                } else {
                    Ok((prefix, address_type_spec(bytes[0]), bytes.skip(1)))
                },
            }
        },
    }
}

/// What `address` holds: its prefix, its type and its hash.
///
/// An address has the separator exactly once: before it stands the prefix,
/// behind it the text of the payload.
pub open spec fn decode_spec(address: Seq<char>) -> Result<
    (Seq<char>, AddressType, Seq<u8>),
    ErrorView,
> {
    if exists|i: int| is_only_separator(address, i) {
        let i = choose|i: int| is_only_separator(address, i);
        decode_parts(address, address.take(i), address.skip(i + 1))
    } else {
        Err(ErrorView::InvalidAddressFormat(address))
    }
}

/// The size code of `hash`, by its length, or `InvalidHashSize` with the
/// length in bits where it is none of the eight permitted.
pub fn get_hash_size_bits(hash: &[u8]) -> (r: Result<u8, Error>)
    requires
        hash@.len() * 8 <= usize::MAX,
    ensures
        match hash_size_code(hash@.len()) {
            Some(code) => r matches Ok(c) && c == code,
            None => r matches Err(e) && e@ == ErrorView::InvalidHashSize(hash@.len() * 8),
        },
        r matches Ok(c) ==> c <= 7,
{
    let bits: usize = hash.len() * 8;
    if bits == 160 {
        Ok(0)
    } else if bits == 192 {
        Ok(1)
    } else if bits == 224 {
        Ok(2)
    } else if bits == 256 {
        Ok(3)
    } else if bits == 320 {
        Ok(4)
    } else if bits == 384 {
        Ok(5)
    } else if bits == 448 {
        Ok(6)
    } else if bits == 512 {
        Ok(7)
    } else {
        Err(Error::InvalidHashSize(bits))
    }
}

/// The length in bytes of the hash that `version_byte` announces. It never
/// fails: the three bits of the size code each stand for a length.
pub fn get_hash_size(version_byte: u8) -> (r: Result<usize, Error>)
    ensures
        r matches Ok(len) && len == hash_size_spec(version_byte),
{
    let code = version_byte & 7;
    assert(code <= 7) by (bit_vector)
        requires
            code == version_byte & 7,
    ;
    let len_bits: usize = if code == 0 {
        160
    } else if code == 1 {
        192
    } else if code == 2 {
        224
    } else if code == 3 {
        256
    } else if code == 4 {
        320
    } else if code == 5 {
        384
    } else if code == 6 {
        448
    } else if code == 7 {
        512
    } else {
        return Err(Error::InvalidHashSizeBits(code));
    };
    Ok(len_bits / 8)
}

/// The address type that `version_byte` announces. It never fails: bit 3 is
/// either clear or set.
pub fn get_address_type(version_byte: u8) -> (r: Result<AddressType, Error>)
    ensures
        r matches Ok(t) && t == address_type_spec(version_byte),
{
    let bit = version_byte & 8;
    assert(bit == 0 || bit == 8) by (bit_vector)
        requires
            bit == version_byte & 8,
    ;
    if bit == 0 {
        Ok(AddressType::P2PKH)
    } else if bit == 8 {
        Ok(AddressType::P2SH)
    } else {
        Err(Error::InvalidAddressTypeBit(bit))
    }
}

/// Encodes `hash` as an address under `prefix`.
///
/// Fails with `InvalidHashSize` where the hash is not 20, 24, 28, 32, 40, 48,
/// 56 or 64 bytes long, and succeeds otherwise.
pub fn encode(prefix: &str, address_type: AddressType, hash: &[u8]) -> (r: Result<String, Error>)
    requires
        hash@.len() * 8 <= usize::MAX,
    ensures
        match r {
            Ok(address) => encode_spec(prefix@, address_type, hash@) == Ok::<
                Seq<char>,
                ErrorView,
            >(address@),
            Err(e) => encode_spec(prefix@, address_type, hash@) == Err::<Seq<char>, ErrorView>(
                e@,
            ),
        },
{
    let prefix_data = parse_prefix(prefix)?;
    let code = get_hash_size_bits(hash)?;
    let version_byte = address_type.tag() | code;
    let mut payload: Vec<u8> = Vec::new();
    payload.push(version_byte);
    let mut i: usize = 0;
    while i < hash.len()
        invariant
            i <= hash.len(),
            payload@ == seq![version_byte] + hash@.take(i as int),
        decreases hash.len() - i,
    {
        payload.push(hash[i]);
        i += 1;
    }
    proof {
        assert(hash@.take(i as int) == hash@);
        lemma_regroup_round_trip(payload@);
    }
    let regrouped = convert_bits(&payload, 8, 5, true)?;
    let payload_data = check_base32(regrouped.as_slice())?;
    let ghost symbols = bytes_to_symbols(payload@);
    let mut checksum_data = prefix_data;
    append(&mut checksum_data, payload_data.as_slice());
    let zeros = [0u8; 8];
    proof {
        assert(zeros@ == zeros8());
        lemma_fits_none_unfit(zeros@, 5);
    }
    append(&mut checksum_data, check_base32(zeros.as_slice())?.as_slice());
    proof {
        assert(values(checksum_data@) == prefix_symbols(prefix@) + symbols + zeros8());
    }
    let checksum = polymod(checksum_data.as_slice())?;
    let mut full = payload_data;
    append(&mut full, checksum.as_slice());
    proof {
        assert(values(full@) == symbols + checksum_spec(prefix@, symbols));
    }
    let text = base32::encode(full.as_slice());
    let mut address = prefix.to_owned();
    address.push(SEPARATOR);
    address.append(text.as_str());
    proof {
        assert(address@ == prefix@ + seq![SEPARATOR] + text@);
    }
    Ok(address)
}

/// Where `address` holds its only separator, if it holds exactly one.
fn find_separator(address: &str) -> (r: Option<usize>)
    ensures
        match r {
            Some(i) => is_only_separator(address@, i as int),
            None => !exists|i: int| is_only_separator(address@, i),
        },
{
    let ghost text = address@;
    let len = address.unicode_len();
    let mut found: Option<usize> = None;
    let mut second: bool = false;
    let mut index: usize = 0;
    for c in it: address.chars()
        invariant
            it.seq() == text,
            text.len() == len,
            index == it.index(),
            match found {
                None => !second && forall|j: int| 0 <= j < index ==> text[j] != SEPARATOR,
                Some(i) => {
                    &&& i < index
                    &&& text[i as int] == SEPARATOR
                    &&& forall|j: int| 0 <= j < i ==> text[j] != SEPARATOR
                    &&& second ==> exists|j: int| i < j < index && text[j] == SEPARATOR
                    &&& !second ==> forall|j: int| i < j < index ==> text[j] != SEPARATOR
                },
            },
    {
        if c == SEPARATOR {
            if found.is_none() {
                found = Some(index);
            } else {
                second = true;
            }
        }
        index += 1;
    }
    match found {
        Some(i) => {
            if second {
                proof {
                    let j = choose|j: int| i < j < text.len() && text[j] == SEPARATOR;
                    assert forall|k: int| !is_only_separator(text, k) by {
                        if is_only_separator(text, k) {
                            assert(text[i as int] == SEPARATOR);
                            assert(text[j] == SEPARATOR);
                        }
                    }
                }
                None
            } else {
                Some(i)
            }
        },
        None => None,
    }
}

/// Decodes `address` into its prefix, its type and its hash.
///
/// Fails with `InvalidAddressFormat` where the separator does not stand in
/// `address` exactly once, where the text behind it is empty or not ASCII
/// (the error then holds that text), or where it has fewer than ten
/// characters; with `MixedCase` or `InvalidChar` by the first character of
/// that text that is a letter of the wrong case or outside the alphabet; with
/// `InvalidChecksum` where the checksum does not verify under the prefix;
/// with `InvalidPadding` where the symbols without the checksum are no whole
/// number of bytes followed by fewer than five zero bits; and with
/// `HashSizeMismatch` where the hash is not as long as the version byte says.
pub fn decode(address: &str) -> (r: Result<(String, AddressType, Vec<u8>), Error>)
    ensures
        match r {
            Ok((prefix, address_type, hash)) => decode_spec(address@) == Ok::<
                (Seq<char>, AddressType, Seq<u8>),
                ErrorView,
            >((prefix@, address_type, hash@)),
            Err(e) => decode_spec(address@) == Err::<
                (Seq<char>, AddressType, Seq<u8>),
                ErrorView,
            >(e@),
        },
{
    let at = match find_separator(address) {
        Some(i) => i,
        None => {
            return Err(Error::InvalidAddressFormat(address.to_owned()));
        },
    };
    proof {
        let chosen = choose|i: int| is_only_separator(address@, i);
        assert(chosen == at);
    }
    let len = address.unicode_len();
    let prefix = address.substring_char(0, at);
    let text = address.substring_char(at + 1, len);
    let payload = base32::decode(text)?;
    if payload.len() < 8 + 1 + 1 {
        return Err(Error::InvalidAddressFormat(address.to_owned()));
    }
    let valid = validate_checksum(prefix, payload.as_slice())?;
    if !valid {
        return Err(Error::InvalidChecksum(address.to_owned()));
    }
    let symbols = to_u8_vec(slice_subrange(payload.as_slice(), 0, payload.len() - 8));
    proof {
        assert(symbols@ == values(payload@).take(payload@.len() - 8));
    }
    let payload_data = match convert_bits(&symbols, 5, 8, false) {
        Ok(v) => v,
        Err(e) => {
            return Err(Error::from(e));
        },
    };
    let version_byte = payload_data[0];
    let hash = slice_subrange(payload_data.as_slice(), 1, payload_data.len());
    let size = get_hash_size(version_byte)?;
    if size != hash.len() {
        return Err(Error::HashSizeMismatch(hash.len()));
    }
    let address_type = get_address_type(version_byte)?;
    Ok((prefix.to_owned(), address_type, slice_to_vec(hash)))
}

} // verus!
