use cash_addr::{decode, Bech32Error, Error};

#[test]
fn empty_payload_is_malformed() {
    assert_eq!(decode("bitcoincash:"), Err(Error::InvalidAddressFormat(String::new())));
}

#[test]
fn missing_separator_is_malformed() {
    let address = "bitcoincashqr6m7j9njldwwzlg9v7v53unlr4jkmx6eylep8ekg2";
    assert_eq!(decode(address), Err(Error::InvalidAddressFormat(address.to_string())));
    assert_eq!(decode(""), Err(Error::InvalidAddressFormat(String::new())));
}

#[test]
fn second_separator_is_malformed() {
    let address = "bitcoincash:qr6m7j9njldwwzlg9v7v53unlr4jkmx6eylep8ekg2:";
    assert_eq!(decode(address), Err(Error::InvalidAddressFormat(address.to_string())));
    let address = "bit:coincash:qr6m7j9njldwwzlg9v7v53unlr4jkmx6eylep8ekg2";
    assert_eq!(decode(address), Err(Error::InvalidAddressFormat(address.to_string())));
    assert_eq!(decode("::"), Err(Error::InvalidAddressFormat("::".to_string())));
}

#[test]
fn non_ascii_payload_is_malformed() {
    assert_eq!(
        decode("bitcoincash:qr6m7j9njldwwzlg9v7v53unlr4jkmx6eylep8ekg\u{e9}"),
        Err(Error::InvalidAddressFormat(
            "qr6m7j9njldwwzlg9v7v53unlr4jkmx6eylep8ekg\u{e9}".to_string()
        ))
    );
}

#[test]
fn short_payload_is_malformed() {
    for address in ["bitcoincash:q", "bitcoincash:qqqqqqqqq"] {
        assert_eq!(decode(address), Err(Error::InvalidAddressFormat(address.to_string())));
    }
}

#[test]
fn character_outside_the_alphabet() {
    assert_eq!(
        decode("bitcoincash:qr6m7j9njldwwzlg9v7v53unlr4jkmx6eylep8ekgb"),
        Err(Error::InvalidChar('b'))
    );
    assert_eq!(
        decode("bitcoincash:1r6m7j9njldwwzlg9v7v53unlr4jkmx6eylep8ekg2"),
        Err(Error::InvalidChar('1'))
    );
    assert_eq!(
        decode("bitcoincash:qr6m7j9njldwwzlg9v7v53 unlr4jkmx6eylep8ekg2"),
        Err(Error::InvalidChar(' '))
    );
}

#[test]
fn first_faulty_character_decides() {
    assert_eq!(decode("bitcoincash:qbQqqqqqqqqq"), Err(Error::InvalidChar('b')));
    assert_eq!(decode("bitcoincash:qQbqqqqqqqqq"), Err(Error::MixedCase));
    assert_eq!(decode("bitcoincash:qBqqqqqqqqqq"), Err(Error::MixedCase));
    assert_eq!(decode("bitcoincash:2B2222222222"), Err(Error::InvalidChar('B')));
}

#[test]
fn hash_shorter_or_longer_than_announced() {
    assert_eq!(
        decode("bitcoincash:qqqqzqsrqszsvpcgpy9qkrqdpc83qygjzv2p29shdf00dy0q"),
        Err(Error::HashSizeMismatch(24))
    );
    assert_eq!(decode("bitcoincash:qqyq78nf2w"), Err(Error::HashSizeMismatch(0)));
}

#[test]
fn set_padding_bit_is_refused() {
    assert_eq!(
        decode("bitcoincash:qr6m7j9njldwwzlg9v7v53unlr4jkmx6e9v6cvq4mt"),
        Err(Error::Bech32(Bech32Error::InvalidPadding))
    );
}

#[test]
fn five_or_more_padding_bits_are_refused() {
    assert_eq!(
        decode("bitcoincash:qr6m7j9njldwwzlg9v7v53unlr4jkmx6eyqdf2lmql7"),
        Err(Error::Bech32(Bech32Error::InvalidPadding))
    );
}

#[test]
fn from_wraps_the_regrouping_error() {
    assert_eq!(
        Error::from(Bech32Error::InvalidPadding),
        Error::Bech32(Bech32Error::InvalidPadding)
    );
    assert_eq!(
        Error::from(Bech32Error::InvalidData(32)),
        Error::Bech32(Bech32Error::InvalidData(32))
    );
}
