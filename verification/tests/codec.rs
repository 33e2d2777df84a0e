use cash_addr::base32;
use cash_addr::{decode, encode, AddressType};

#[test]
fn test() {
    let test_str = "qr6m7j9njldwwzlg9v7v53unlr4jkmx6eylep8ekg2";

    let decoded = base32::decode(test_str).unwrap();
    let encoded = base32::encode(&decoded);

    assert_eq!(encoded, test_str);
}

#[test]
fn encode_test() {
    let data = [
        0xF5, 0xBF, 0x48, 0xB3, 0x97, 0xDA, 0xE7, 0x0B, 0xE8, 0x2B, 0x3C, 0xCA, 0x47, 0x93, 0xF8,
        0xEB, 0x2B, 0x6C, 0xDA, 0xC9,
    ];

    let prefix = "bitcoincash";
    let addr_type = AddressType::P2PKH;
    let address = encode(prefix, addr_type, &data).unwrap();
    assert_eq!(address, "bitcoincash:qr6m7j9njldwwzlg9v7v53unlr4jkmx6eylep8ekg2");

    let prefix = "bchtest";
    let addr_type = AddressType::P2SH;
    let address = encode(prefix, addr_type, &data).unwrap();
    assert_eq!(address, "bchtest:pr6m7j9njldwwzlg9v7v53unlr4jkmx6eyvwc0uz5t");
}

#[test]
fn decode_test() {
    let data = [
        0xF5, 0xBF, 0x48, 0xB3, 0x97, 0xDA, 0xE7, 0x0B, 0xE8, 0x2B, 0x3C, 0xCA, 0x47, 0x93, 0xF8,
        0xEB, 0x2B, 0x6C, 0xDA, 0xC9,
    ];

    let address = "bitcoincash:qr6m7j9njldwwzlg9v7v53unlr4jkmx6eylep8ekg2";
    let (prefix, addr_type, hash) = decode(address).unwrap();
    assert_eq!(prefix, "bitcoincash");
    assert_eq!(addr_type, AddressType::P2PKH);
    assert_eq!(hash, data);

    let address = "bchtest:pr6m7j9njldwwzlg9v7v53unlr4jkmx6eyvwc0uz5t";
    let (prefix, addr_type, hash) = decode(address).unwrap();
    assert_eq!(prefix, "bchtest");
    assert_eq!(addr_type, AddressType::P2SH);
    assert_eq!(hash, data);
}
