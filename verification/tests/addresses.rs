use cash_addr::{decode, encode, AddressType, Error};

const HASH: [u8; 20] = [
    0xF5, 0xBF, 0x48, 0xB3, 0x97, 0xDA, 0xE7, 0x0B, 0xE8, 0x2B, 0x3C, 0xCA, 0x47, 0x93, 0xF8, 0xEB,
    0x2B, 0x6C, 0xDA, 0xC9,
];

const ADDRESS: &str = "bitcoincash:qr6m7j9njldwwzlg9v7v53unlr4jkmx6eylep8ekg2";

const ALPHABET: &str = "qpzry9x8gf2tvdw0s3jn54khce6mua7l";

fn sample(len: usize) -> Vec<u8> {
    (0..len).map(|i| ((7 * i + len) & 0xff) as u8).collect()
}

fn upper_payload(address: &str) -> String {
    let at = address.find(':').unwrap();
    format!("{}{}", &address[..=at], address[at + 1..].to_ascii_uppercase())
}

#[test]
fn encode_each_hash_size() {
    let expected = [
        (20, "bitcoincash:qq2pkg3fxqmnu32v2ddxz6r0we7cfzujnyu5kuj2k0"),
        (24, "bitcoincash:qyvp7f3dxsa5yj2s2a0x2mrn02qc3ruknkj2hv4epawf5ey9"),
        (28, "bitcoincash:qgwzx2338ql5vn25td3xjurh06zceyu65x52ld4acn9a9kglwx6zvcc"),
        (32, "bitcoincash:qvszwt3483p5552ctanx6arms2yep9u75kkt8wkper8adh0ya0e0jzvkm7nkn"),
        (
            40,
            "bitcoincash:qs5z7d3ag394yktqvah82lyr32ge38ax4k6thskf6rtaae0v70aqzzq0zcwjg2ej8ymslssphx",
        ),
        (
            48,
            "bitcoincash:q5crw0j9f3f45ctgdam8mpytj2v6pfawkk7v8jk3mr07dm05lvpqjyqhrcjjcve6g9yy74jav34hy7g5z9zax7j",
        ),
        (
            56,
            "bitcoincash:qcur73jd23dky6tswalgtrynn2s63takhhzvh5keurn7aa0uqv9pzxqlyckngw6zf9g9whn9d3eh4qvg37tfmf9tk2uss2a4efqt",
        ),
        (
            64,
            "bitcoincash:qaqywnj4t33k5utc07rgm9ym525mpda7chxd8khparhldlgypvfpjgp89c6ncs6229v97endw3ac9zvsj702tt9nhtqu3n7kmhjwhuhe0cd6fd5s",
        ),
    ];
    for (len, address) in expected {
        assert_eq!(encode("bitcoincash", AddressType::P2PKH, &sample(len)).unwrap(), address);
    }
}

#[test]
fn encode_p2sh_sets_the_type_bit() {
    assert_eq!(
        encode("bchtest", AddressType::P2SH, &sample(24)).unwrap(),
        "bchtest:pyvp7f3dxsa5yj2s2a0x2mrn02qc3ruknkj2hv4engwe8clf"
    );
    assert_eq!(
        encode("bchtest", AddressType::P2SH, &sample(64)).unwrap(),
        "bchtest:paqywnj4t33k5utc07rgm9ym525mpda7chxd8khparhldlgypvfpjgp89c6ncs6229v97endw3ac9zvsj702tt9nhtqu3n7kmhjwhuheushlp0eu"
    );
}

#[test]
fn round_trip_every_size_and_type() {
    for prefix in ["bitcoincash", "bchtest", "", "x"] {
        for address_type in [AddressType::P2PKH, AddressType::P2SH] {
            for len in [20, 24, 28, 32, 40, 48, 56, 64] {
                let hash = sample(len);
                let address = encode(prefix, address_type, &hash).unwrap();
                let (p, t, h) = decode(&address).unwrap();
                assert_eq!(p, prefix);
                assert_eq!(t, address_type);
                assert_eq!(h, hash);
            }
        }
    }
}

#[test]
fn round_trip_fails_for_a_prefix_with_separator() {
    let address = encode("a:b", AddressType::P2PKH, &HASH).unwrap();
    assert_eq!(decode(&address), Err(Error::InvalidAddressFormat(address.clone())));
}

#[test]
fn encode_empty_prefix() {
    assert_eq!(
        encode("", AddressType::P2PKH, &HASH).unwrap(),
        ":qr6m7j9njldwwzlg9v7v53unlr4jkmx6ey9nzdauw7"
    );
}

#[test]
fn encode_refuses_other_lengths() {
    for len in [0usize, 1, 19, 21, 23, 36, 63, 65, 128] {
        assert_eq!(
            encode("bitcoincash", AddressType::P2PKH, &sample(len)),
            Err(Error::InvalidHashSize(len * 8))
        );
    }
}

#[test]
fn upper_case_payload_decodes_alike() {
    for len in [20, 32, 64] {
        let address = encode("bitcoincash", AddressType::P2SH, &sample(len)).unwrap();
        assert_eq!(decode(&upper_payload(&address)), decode(&address));
    }
    let (prefix, address_type, hash) = decode(&upper_payload(ADDRESS)).unwrap();
    assert_eq!(prefix, "bitcoincash");
    assert_eq!(address_type, AddressType::P2PKH);
    assert_eq!(hash, HASH);
}

#[test]
fn one_upper_case_letter_is_mixed_case() {
    assert_eq!(
        decode("bitcoincash:Qr6m7j9njldwwzlg9v7v53unlr4jkmx6eylep8ekg2"),
        Err(Error::MixedCase)
    );
}

#[test]
fn any_mix_of_cases_is_mixed_case() {
    let at = ADDRESS.find(':').unwrap();
    let payload: Vec<char> = ADDRESS[at + 1..].chars().collect();
    let letters: Vec<usize> =
        (0..payload.len()).filter(|&i| payload[i].is_ascii_alphabetic()).collect();
    for &i in &letters {
        let mut changed = payload.clone();
        changed[i] = changed[i].to_ascii_uppercase();
        let text: String = changed.iter().collect();
        assert_eq!(decode(&format!("bitcoincash:{}", text)), Err(Error::MixedCase));

        let mut changed: Vec<char> = payload.iter().map(|c| c.to_ascii_uppercase()).collect();
        changed[i] = changed[i].to_ascii_lowercase();
        let text: String = changed.iter().collect();
        assert_eq!(decode(&format!("bitcoincash:{}", text)), Err(Error::MixedCase));
    }
}

#[test]
fn every_single_character_change_fails_the_checksum() {
    let at = ADDRESS.find(':').unwrap();
    let payload: Vec<char> = ADDRESS[at + 1..].chars().collect();
    for i in 0..payload.len() {
        for c in ALPHABET.chars() {
            if c == payload[i] {
                continue;
            }
            let mut changed = payload.clone();
            changed[i] = c;
            let text: String = changed.iter().collect();
            let address = format!("bitcoincash:{}", text);
            assert_eq!(decode(&address), Err(Error::InvalidChecksum(address.clone())));
        }
    }
}

#[test]
fn changed_checksum_tail_fails_the_checksum() {
    let address = "bitcoincash:qr6m7j9njldwwzlg9v7v53unlr4jkmx6eylep8ekg3";
    assert_eq!(decode(address), Err(Error::InvalidChecksum(address.to_string())));
}

#[test]
fn payload_under_another_prefix_fails_the_checksum() {
    let address = "bchtest:qr6m7j9njldwwzlg9v7v53unlr4jkmx6eylep8ekg2";
    assert_eq!(decode(address), Err(Error::InvalidChecksum(address.to_string())));
    let address = "bitcoincasi:qr6m7j9njldwwzlg9v7v53unlr4jkmx6eylep8ekg2";
    assert_eq!(decode(address), Err(Error::InvalidChecksum(address.to_string())));
}

#[test]
fn prefix_counts_by_its_low_five_bits() {
    let (prefix, address_type, hash) =
        decode("BITCOINCASH:qr6m7j9njldwwzlg9v7v53unlr4jkmx6eylep8ekg2").unwrap();
    assert_eq!(prefix, "BITCOINCASH");
    assert_eq!(address_type, AddressType::P2PKH);
    assert_eq!(hash, HASH);
}

#[test]
fn version_byte_high_bits_are_ignored() {
    let (prefix, address_type, hash) =
        decode("bitcoincash:3r6m7j9njldwwzlg9v7v53unlr4jkmx6eye7fw4vaz").unwrap();
    assert_eq!(prefix, "bitcoincash");
    assert_eq!(address_type, AddressType::P2SH);
    assert_eq!(hash, HASH);
}
