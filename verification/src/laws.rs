//! What holds of every address: the laws that tie `encode` and `decode`
//! together. The contracts of the two functions say that they compute
//! `encode_spec` and `decode_spec`; the laws are stated over those.

use vstd::prelude::*;
use crate::base32;
use crate::bits::{bytes_to_symbols, lemma_regroup_round_trip};
use crate::checksum::{
    checksum_spec, checksum_valid, lemma_burst_change_detected, lemma_burst_change_state,
    lemma_checksum_verifies, lemma_prefix_state_decides, lemma_prefix_symbols_five_bit,
    polymod_state, prefix_symbol, prefix_symbols, zeros8,
};
use crate::converter::{
    address_type_spec, decode_parts, decode_spec, encode_spec, hash_size_code, hash_size_spec,
    is_only_separator, AddressType, SEPARATOR,
};
use crate::error::ErrorView;
use crate::symbol::{all_five_bit, lemma_concat_five_bit};

verus! {

/// The address with the text `text` behind the only separator at `i`.
pub open spec fn with_text(address: Seq<char>, i: int, text: Seq<char>) -> Seq<char> {
    address.take(i + 1) + text
}

/// A text that reads as symbols holds no separator.
pub proof fn lemma_text_holds_no_separator(text: Seq<char>)
    requires
        base32::decode_spec(text) is Ok,
    ensures
        !text.contains(SEPARATOR),
{
    if text.contains(SEPARATOR) {
        let i = choose|i: int| 0 <= i < text.len() && text[i] == SEPARATOR;
        assert(base32::char_fault(text, i) is Some);
    }
}

/// An address splits at its only separator, and at no other place.
pub proof fn lemma_split(address: Seq<char>, i: int)
    requires
        is_only_separator(address, i),
    ensures
        decode_spec(address) == decode_parts(address, address.take(i), address.skip(i + 1)),
{
    let chosen = choose|j: int| is_only_separator(address, j);
    assert(is_only_separator(address, chosen));
    assert(address[chosen] == SEPARATOR);
}

/// A prefix and a text without separators, with one between them, make an
/// address that splits into the two.
pub proof fn lemma_join(prefix: Seq<char>, text: Seq<char>)
    requires
        !prefix.contains(SEPARATOR),
        !text.contains(SEPARATOR),
    ensures
        is_only_separator(prefix + seq![SEPARATOR] + text, prefix.len() as int),
        (prefix + seq![SEPARATOR] + text).take(prefix.len() as int) == prefix,
        (prefix + seq![SEPARATOR] + text).skip(prefix.len() as int + 1) == text,
{
    let address = prefix + seq![SEPARATOR] + text;
    let i = prefix.len() as int;
    assert forall|j: int| 0 <= j < address.len() && #[trigger] address[j] == SEPARATOR implies j
        == i by {
        if j < i {
            assert(prefix[j] == address[j]);
            assert(prefix.contains(SEPARATOR));
        } else if j > i {
            assert(text[j - i - 1] == address[j]);
            assert(text.contains(SEPARATOR));
        }
    }
    assert(address.take(i) == prefix);
    assert(address.skip(i + 1) == text);
}

/// The length that a size code announces is the length that it was given
/// for.
pub proof fn lemma_hash_size_of_code(len: nat)
    requires
        hash_size_code(len) is Some,
    ensures
        hash_size_spec(hash_size_code(len)->Some_0) == len,
{
    let code = hash_size_code(len)->Some_0;
    assert(code & 7 == code) by (bit_vector)
        requires
            code <= 7,
    ;
}

/// The version byte keeps the type and the size code apart.
proof fn lemma_version_byte(address_type: AddressType, code: u8)
    requires
        code <= 7,
    ensures
        (address_type.tag() | code) & 7 == code,
        address_type_spec(address_type.tag() | code) == address_type,
{
    let tag = address_type.tag();
    assert((tag | code) & 7 == code && ((tag | code) & 8 == 0 <==> tag == 0)) by (bit_vector)
        requires
            code <= 7,
            tag == 0 || tag == 8,
    ;
}

/// Round trip: an address that `encode` made of a prefix without separator,
/// a type and a hash of a permitted length decodes to the same three.
pub proof fn lemma_decode_encode(prefix: Seq<char>, address_type: AddressType, hash: Seq<u8>)
    requires
        hash_size_code(hash.len()) is Some,
        !prefix.contains(SEPARATOR),
    ensures
        encode_spec(prefix, address_type, hash) is Ok,
        decode_spec(encode_spec(prefix, address_type, hash)->Ok_0) == Ok::<
            (Seq<char>, AddressType, Seq<u8>),
            ErrorView,
        >((prefix, address_type, hash)),
{
    let code = hash_size_code(hash.len())->Some_0;
    let version = address_type.tag() | code;
    let bytes = seq![version] + hash;
    let symbols = bytes_to_symbols(bytes);
    let checksum = checksum_spec(prefix, symbols);
    let payload = symbols + checksum;
    let text = base32::encode_spec(payload);
    let address = prefix + seq![SEPARATOR] + text;
    assert(encode_spec(prefix, address_type, hash) == Ok::<Seq<char>, ErrorView>(address));

    lemma_regroup_round_trip(bytes);
    vstd::arithmetic::power2::lemma2_to64();
    assert(all_five_bit(symbols)) by {
        assert forall|i: int| 0 <= i < symbols.len() implies #[trigger] symbols[i] <= 31 by {
            assert(symbols[i] < vstd::arithmetic::power2::pow2(5));
        }
    }
    lemma_prefix_symbols_five_bit(prefix);
    let pre = prefix_symbols(prefix) + symbols;
    lemma_concat_five_bit(prefix_symbols(prefix), symbols);
    // The checksum verifies behind the symbols that it was made for.
    lemma_checksum_verifies(pre);
    assert(prefix_symbols(prefix) + payload == pre + checksum);
    assert(checksum_valid(prefix, payload));
    assert(all_five_bit(checksum)) by {
        let c = polymod_state(pre + zeros8()) ^ 1;
        assert forall|i: int| 0 <= i < checksum.len() implies #[trigger] checksum[i] <= 31 by {
            let shift = (35 - 5 * i) as u64;
            assert(((c >> shift) & 31) as u8 <= 31) by (bit_vector);
        }
    }
    lemma_concat_five_bit(symbols, checksum);

    // The text reads as the payload again, and the address splits in two.
    base32::lemma_decode_encode(payload);
    lemma_text_holds_no_separator(text);
    lemma_join(prefix, text);
    lemma_split(address, prefix.len() as int);
    assert(payload.take(payload.len() - 8) == symbols);
    lemma_version_byte(address_type, code);
    assert(bytes[0] == version);
    assert(bytes.skip(1) == hash);
}

/// An address that `encode` made of a prefix with a separator in it does not
/// decode: it holds the separator twice.
pub proof fn lemma_separator_in_prefix(
    prefix: Seq<char>,
    address_type: AddressType,
    hash: Seq<u8>,
)
    requires
        hash_size_code(hash.len()) is Some,
        prefix.contains(SEPARATOR),
    ensures
        encode_spec(prefix, address_type, hash) is Ok,
        decode_spec(encode_spec(prefix, address_type, hash)->Ok_0) == Err::<
            (Seq<char>, AddressType, Seq<u8>),
            ErrorView,
        >(ErrorView::InvalidAddressFormat(encode_spec(prefix, address_type, hash)->Ok_0)),
{
    let address = encode_spec(prefix, address_type, hash)->Ok_0;
    let j = choose|j: int| 0 <= j < prefix.len() && prefix[j] == SEPARATOR;
    assert(address[j] == SEPARATOR);
    assert(address[prefix.len() as int] == SEPARATOR);
}

/// Case invariance: an address that decodes, with the text behind its
/// separator in upper case, decodes to the same prefix, type and hash.
pub proof fn lemma_upper_case_decodes_alike(address: Seq<char>, i: int)
    requires
        is_only_separator(address, i),
        decode_spec(address) is Ok,
    ensures
        decode_spec(with_text(address, i, base32::upper_case(address.skip(i + 1)))) == decode_spec(
            address,
        ),
{
    let text = address.skip(i + 1);
    let upper = base32::upper_case(text);
    let changed = with_text(address, i, upper);
    lemma_split(address, i);
    base32::lemma_upper_case(text);
    lemma_text_holds_no_separator(upper);
    lemma_rejoin(address, i, upper);
    lemma_split(changed, i);
}

/// An address keeps its only separator in place when the text behind it is
/// replaced by one that holds none.
proof fn lemma_rejoin(address: Seq<char>, i: int, text: Seq<char>)
    requires
        is_only_separator(address, i),
        !text.contains(SEPARATOR),
    ensures
        is_only_separator(with_text(address, i, text), i),
        with_text(address, i, text).take(i) == address.take(i),
        with_text(address, i, text).skip(i + 1) == text,
{
    let changed = with_text(address, i, text);
    assert forall|j: int| 0 <= j < changed.len() && #[trigger] changed[j] == SEPARATOR implies j
        == i by {
        if j < i {
            assert(address[j] == changed[j]);
        } else if j > i {
            assert(text[j - i - 1] == changed[j]);
            assert(text.contains(SEPARATOR));
        }
    }
    assert(changed.take(i) == address.take(i));
    assert(changed.skip(i + 1) == text);
}

/// Case invariance: an address that decodes is refused with `MixedCase` once
/// some of the letters behind its separator, not all, change their case.
/// `mixed` is the changed text, with a lowercase letter at `lower` and an
/// uppercase one at `upper`.
pub proof fn lemma_mixed_case_refused(
    address: Seq<char>,
    i: int,
    mixed: Seq<char>,
    lower: int,
    upper: int,
)
    requires
        is_only_separator(address, i),
        decode_spec(address) is Ok,
        mixed.len() == address.len() - i - 1,
        forall|k: int|
            0 <= k < mixed.len() ==> base32::to_upper(#[trigger] mixed[k]) == base32::to_upper(
                address[i + 1 + k],
            ),
        0 <= lower < mixed.len(),
        0 <= upper < mixed.len(),
        base32::is_lower_spec(mixed[lower]) == Some(true),
        base32::is_lower_spec(mixed[upper]) == Some(false),
    ensures
        decode_spec(with_text(address, i, mixed)) == Err::<
            (Seq<char>, AddressType, Seq<u8>),
            ErrorView,
        >(ErrorView::MixedCase),
{
    let text = address.skip(i + 1);
    lemma_split(address, i);
    assert forall|k: int| 0 <= k < text.len() implies base32::to_upper(#[trigger] mixed[k])
        == base32::to_upper(text[k]) by {
        assert(text[k] == address[i + 1 + k]);
    }
    base32::lemma_mixed_case(text, mixed, lower, upper);
    assert(!mixed.contains(SEPARATOR)) by {
        if mixed.contains(SEPARATOR) {
            let k = choose|k: int| 0 <= k < mixed.len() && mixed[k] == SEPARATOR;
            assert(base32::to_upper(mixed[k]) == base32::to_upper(text[k]));
            assert(text[k] == address[i + 1 + k]);
        }
    }
    lemma_rejoin(address, i, mixed);
    lemma_split(with_text(address, i, mixed), i);
}

/// Checksum sensitivity: an address that decodes is refused with
/// `InvalidChecksum` once one character behind its separator is replaced by
/// a character that stands for another symbol, where the text still reads as
/// symbols.
pub proof fn lemma_single_character_change_refused(address: Seq<char>, i: int, k: int, c: char)
    requires
        is_only_separator(address, i),
        decode_spec(address) is Ok,
        i < k < address.len(),
        base32::decode_spec(address.update(k, c).skip(i + 1)) is Ok,
        base32::char_symbol(c) != base32::char_symbol(address[k]),
    ensures
        decode_spec(address.update(k, c)) == Err::<(Seq<char>, AddressType, Seq<u8>), ErrorView>(
            ErrorView::InvalidChecksum(address.update(k, c)),
        ),
{
    let prefix = address.take(i);
    let text = address.skip(i + 1);
    let changed = address.update(k, c);
    let changed_text = changed.skip(i + 1);
    let at = k - i - 1;
    // The changed address still splits at `i`, into the same prefix.
    lemma_text_holds_no_separator(changed_text);
    assert(changed_text[at] == c);
    assert(is_only_separator(changed, i)) by {
        assert forall|j: int| 0 <= j < changed.len() && #[trigger] changed[j]
            == SEPARATOR implies j == i by {
            if j != k {
                assert(changed[j] == address[j]);
            }
        }
    }
    assert(changed.take(i) == prefix);
    lemma_split(address, i);
    lemma_split(changed, i);
    // Its symbols are the old ones but for the one at `at`.
    let payload = base32::decode_spec(text)->Ok_0;
    let changed_payload = base32::decode_spec(changed_text)->Ok_0;
    lemma_symbols_five_bit(text);
    lemma_symbols_five_bit(changed_text);
    assert(text[at] == address[k]);
    assert(base32::char_fault(text, at) is None);
    assert(base32::char_fault(changed_text, at) is None);
    assert(payload[at] != changed_payload[at]);
    assert forall|j: int| 0 <= j < payload.len() && j != at implies #[trigger] payload[j]
        == changed_payload[j] by {
        assert(changed_text[j] == text[j]);
    }
    // So the checksum runs over two sequences that differ in one place.
    let n = prefix_symbols(prefix).len() as int;
    let a = prefix_symbols(prefix) + payload;
    let b = prefix_symbols(prefix) + changed_payload;
    lemma_prefix_symbols_five_bit(prefix);
    lemma_concat_five_bit(prefix_symbols(prefix), payload);
    lemma_concat_five_bit(prefix_symbols(prefix), changed_payload);
    assert(a[n + at] == payload[at]);
    assert(b[n + at] == changed_payload[at]);
    assert forall|j: int| 0 <= j < a.len() && j != n + at implies a[j] == b[j] by {
        if j >= n {
            assert(payload[j - n] == changed_payload[j - n]);
        }
    }
    lemma_burst_change_detected(a, b, n + at, n + at + 1);
}

/// Prefix binding: an address that decodes is refused with `InvalidChecksum`
/// under every other prefix, but for those that the checksum cannot tell from
/// its own: those whose symbols lead to the same state.
pub proof fn lemma_prefix_binding(address: Seq<char>, i: int, other: Seq<char>)
    requires
        is_only_separator(address, i),
        decode_spec(address) is Ok,
        !other.contains(SEPARATOR),
        polymod_state(prefix_symbols(other)) != polymod_state(prefix_symbols(address.take(i))),
    ensures
        decode_spec(other + address.skip(i)) == Err::<
            (Seq<char>, AddressType, Seq<u8>),
            ErrorView,
        >(ErrorView::InvalidChecksum(other + address.skip(i))),
{
    let text = address.skip(i + 1);
    let changed = other + address.skip(i);
    lemma_split(address, i);
    lemma_text_holds_no_separator(text);
    assert(changed == other + seq![SEPARATOR] + text);
    lemma_join(other, text);
    lemma_split(changed, other.len() as int);
    let payload = base32::decode_spec(text)->Ok_0;
    lemma_symbols_five_bit(text);
    lemma_prefix_state_decides(address.take(i), other, payload);
}

/// Under a prefix that the checksum cannot tell from its own, an address
/// that decodes still does, to the same type and hash.
pub proof fn lemma_prefix_alias(address: Seq<char>, i: int, other: Seq<char>)
    requires
        is_only_separator(address, i),
        decode_spec(address) is Ok,
        !other.contains(SEPARATOR),
        polymod_state(prefix_symbols(other)) == polymod_state(prefix_symbols(address.take(i))),
    ensures
        decode_spec(other + address.skip(i)) == Ok::<
            (Seq<char>, AddressType, Seq<u8>),
            ErrorView,
        >((other, decode_spec(address)->Ok_0.1, decode_spec(address)->Ok_0.2)),
{
    let text = address.skip(i + 1);
    let changed = other + address.skip(i);
    lemma_split(address, i);
    lemma_text_holds_no_separator(text);
    assert(changed == other + seq![SEPARATOR] + text);
    lemma_join(other, text);
    lemma_split(changed, other.len() as int);
    let payload = base32::decode_spec(text)->Ok_0;
    lemma_symbols_five_bit(text);
    lemma_prefix_state_decides(address.take(i), other, payload);
}

/// The symbols that a text reads as are 5-bit numbers.
proof fn lemma_symbols_five_bit(text: Seq<char>)
    requires
        base32::decode_spec(text) is Ok,
    ensures
        all_five_bit(base32::decode_spec(text)->Ok_0),
{
    let payload = base32::decode_spec(text)->Ok_0;
    assert forall|j: int| 0 <= j < payload.len() implies #[trigger] payload[j] <= 31 by {
        assert(base32::char_fault(text, j) is None);
    }
}

/// Two prefixes of the same length that differ in the low five bits of a
/// character, and do so only within the at most eight characters from
/// `start` up to `end`, lead to different states: the checksum tells them
/// apart.
pub proof fn lemma_close_prefixes_differ(
    prefix: Seq<char>,
    other: Seq<char>,
    start: int,
    end: int,
)
    requires
        other.len() == prefix.len(),
        0 <= start <= end <= prefix.len(),
        end - start <= 8,
        forall|j: int|
            0 <= j < prefix.len() && !(start <= j < end) ==> prefix_symbol(#[trigger] other[j])
                == prefix_symbol(prefix[j]),
        exists|j: int|
            start <= j < end && prefix_symbol(#[trigger] other[j]) != prefix_symbol(prefix[j]),
    ensures
        polymod_state(prefix_symbols(other)) != polymod_state(prefix_symbols(prefix)),
{
    let a = prefix_symbols(prefix);
    let b = prefix_symbols(other);
    lemma_prefix_symbols_five_bit(prefix);
    lemma_prefix_symbols_five_bit(other);
    assert forall|j: int| 0 <= j < a.len() && !(start <= j < end) implies a[j] == b[j] by {
        if j < prefix.len() {
            assert(prefix_symbol(other[j]) == prefix_symbol(prefix[j]));
        }
    }
    let k = choose|j: int|
        start <= j < end && prefix_symbol(#[trigger] other[j]) != prefix_symbol(prefix[j]);
    assert(a[k] != b[k]);
    lemma_burst_change_state(a, b, start, end);
}

} // verus!
