use cash_addr::base32;
use cash_addr::checksum::{append, parse_prefix, polymod, validate_checksum};
use cash_addr::converter::{get_address_type, get_hash_size, get_hash_size_bits};
use cash_addr::symbol::{check_base32, to_u8_vec};
use cash_addr::{AddressType, Bech32Error, Error, U5};

fn symbols(values: &[u8]) -> Vec<U5> {
    check_base32(values).unwrap()
}

#[test]
fn u5_holds_five_bits() {
    for v in 0..=31u8 {
        assert_eq!(U5::try_from_u8(v).unwrap().to_u8(), v);
    }
    for v in 32..=255u8 {
        assert_eq!(U5::try_from_u8(v), Err(Bech32Error::InvalidData(v)));
    }
}

#[test]
fn check_base32_names_the_first_wide_value() {
    assert_eq!(to_u8_vec(&symbols(&[0, 31, 7])), vec![0, 31, 7]);
    assert_eq!(check_base32(&[]), Ok(vec![]));
    assert_eq!(
        check_base32(&[1, 40, 2, 99]),
        Err(Error::Bech32(Bech32Error::InvalidData(40)))
    );
}

#[test]
fn alphabet_in_order() {
    let all: Vec<u8> = (0..32).collect();
    assert_eq!(base32::encode(&symbols(&all)), "qpzry9x8gf2tvdw0s3jn54khce6mua7l");
    assert_eq!(base32::encode(&[]), "");
}

#[test]
fn alphabet_reads_both_cases() {
    let all: Vec<u8> = (0..32).collect();
    assert_eq!(to_u8_vec(&base32::decode("qpzry9x8gf2tvdw0s3jn54khce6mua7l").unwrap()), all);
    assert_eq!(to_u8_vec(&base32::decode("QPZRY9X8GF2TVDW0S3JN54KHCE6MUA7L").unwrap()), all);
    assert_eq!(to_u8_vec(&base32::decode("0289").unwrap()), vec![15, 10, 7, 5]);
}

#[test]
fn alphabet_refuses() {
    assert_eq!(base32::decode(""), Err(Error::InvalidAddressFormat(String::new())));
    assert_eq!(
        base32::decode("q\u{fc}"),
        Err(Error::InvalidAddressFormat("q\u{fc}".to_string()))
    );
    assert_eq!(base32::decode("qQ"), Err(Error::MixedCase));
    assert_eq!(base32::decode("Qq"), Err(Error::MixedCase));
    assert_eq!(base32::decode("2q3P"), Err(Error::MixedCase));
    for c in ['b', 'i', 'o', '1', 'B', 'I', 'O', ':', '-', ' ', '\u{7f}', '\0'] {
        assert_eq!(base32::decode(&c.to_string()), Err(Error::InvalidChar(c)));
    }
    assert_eq!(base32::decode("q-"), Err(Error::InvalidChar('-')));
}

#[test]
fn case_of_a_character() {
    for c in 'a'..='z' {
        assert_eq!(base32::is_lower(c), Some(true));
    }
    for c in 'A'..='Z' {
        assert_eq!(base32::is_lower(c), Some(false));
    }
    for c in ['0', '9', ':', '-', ' ', '@', '[', '`', '{', '\u{e9}'] {
        assert_eq!(base32::is_lower(c), None);
    }
}

#[test]
fn prefix_symbols_are_low_five_bits() {
    assert_eq!(
        to_u8_vec(&parse_prefix("bitcoincash").unwrap()),
        vec![2, 9, 20, 3, 15, 9, 14, 3, 1, 19, 8, 0]
    );
    assert_eq!(
        to_u8_vec(&parse_prefix("BITCOINCASH").unwrap()),
        vec![2, 9, 20, 3, 15, 9, 14, 3, 1, 19, 8, 0]
    );
    assert_eq!(to_u8_vec(&parse_prefix("").unwrap()), vec![0]);
    assert_eq!(to_u8_vec(&parse_prefix("\u{20ac}?").unwrap()), vec![12, 31, 0]);
}

#[test]
fn polymod_known_residues() {
    assert_eq!(to_u8_vec(&polymod(&[]).unwrap()), vec![0; 8]);
    assert_eq!(to_u8_vec(&polymod(&symbols(&[1, 2, 3])).unwrap()), vec![0, 0, 0, 0, 1, 1, 2, 2]);
    let mut data = parse_prefix("bitcoincash").unwrap();
    append(&mut data, &symbols(&[0; 8]));
    assert_eq!(to_u8_vec(&polymod(&data).unwrap()), vec![29, 20, 29, 7, 4, 3, 23, 2]);
}

#[test]
fn polymod_reduces_by_the_generators() {
    // Nine symbols push bits off the top of the 40-bit state.
    let residue = to_u8_vec(&polymod(&symbols(&[31; 9])).unwrap());
    let mut state: u64 = 0;
    for s in residue {
        state = (state << 5) | u64::from(s);
    }
    assert_eq!(state, 0xbc_b89a_62b3 ^ 1);
}

#[test]
fn checksum_completes_a_payload() {
    let payload = symbols(&[3, 1, 4, 1, 5, 9, 2, 6]);
    let mut data = parse_prefix("pref").unwrap();
    append(&mut data, &payload);
    append(&mut data, &symbols(&[0; 8]));
    let checksum = polymod(&data).unwrap();
    let mut full = payload.clone();
    append(&mut full, &checksum);
    assert_eq!(validate_checksum("pref", &full), Ok(true));
    assert_eq!(validate_checksum("perf", &full), Ok(false));
    assert_eq!(validate_checksum("pref", &payload), Ok(false));
}

#[test]
fn append_keeps_order() {
    let mut data = symbols(&[1, 2]);
    append(&mut data, &symbols(&[3, 4, 5]));
    append(&mut data, &[]);
    assert_eq!(to_u8_vec(&data), vec![1, 2, 3, 4, 5]);
}

#[test]
fn size_code_of_each_length() {
    let lengths = [20usize, 24, 28, 32, 40, 48, 56, 64];
    for (code, len) in lengths.iter().enumerate() {
        assert_eq!(get_hash_size_bits(&vec![0u8; *len]), Ok(code as u8));
    }
    assert_eq!(get_hash_size_bits(&[]), Err(Error::InvalidHashSize(0)));
    assert_eq!(get_hash_size_bits(&[0u8; 21]), Err(Error::InvalidHashSize(168)));
}

#[test]
fn version_byte_fields() {
    let lengths = [20usize, 24, 28, 32, 40, 48, 56, 64];
    for version in 0..=255u8 {
        assert_eq!(get_hash_size(version), Ok(lengths[usize::from(version & 7)]));
        let expected = if version & 8 == 0 { AddressType::P2PKH } else { AddressType::P2SH };
        assert_eq!(get_address_type(version), Ok(expected));
    }
}

#[test]
fn address_type_tags() {
    assert_eq!(AddressType::P2PKH.tag(), 0);
    assert_eq!(AddressType::P2SH.tag(), 8);
}
