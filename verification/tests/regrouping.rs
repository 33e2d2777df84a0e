use cash_addr::{decode, encode, AddressType};

/// Bit `k` of the string that writes each item with `width` bits, most
/// significant bit first; `false` behind its end.
fn stream_bit(items: &[u8], width: usize, k: usize) -> bool {
    k < items.len() * width && (items[k / width] >> (width - 1 - k % width)) & 1 == 1
}

/// What regrouping gives, computed bit by bit.
fn regrouped(items: &[u8], from: usize, to: usize, pad: bool) -> Result<Vec<u8>, bech32::Error> {
    if let Some(&item) = items.iter().find(|&&item| u32::from(item) >> from != 0) {
        return Err(bech32::Error::InvalidData(item));
    }
    let total = items.len() * from;
    let rest = total % to;
    let count = if pad {
        (total + to - 1) / to
    } else {
        if rest >= from || (total - rest..total).any(|k| stream_bit(items, from, k)) {
            return Err(bech32::Error::InvalidPadding);
        }
        total / to
    };
    let mut out = Vec::new();
    for j in 0..count {
        let mut value = 0u8;
        for b in 0..to {
            value = (value << 1) | u8::from(stream_bit(items, from, j * to + b));
        }
        out.push(value);
    }
    Ok(out)
}

fn samples(from: usize) -> Vec<Vec<u8>> {
    let mask = ((1u32 << from) - 1) as u8;
    let mut all = vec![vec![], vec![0], vec![mask], vec![mask; 9], vec![0; 7]];
    let mut seed: u32 = 0x2545_f491;
    for len in 1..=12 {
        let mut items = Vec::new();
        for _ in 0..len {
            seed = seed.wrapping_mul(1_664_525).wrapping_add(1_013_904_223);
            items.push(((seed >> 24) as u8) & mask);
        }
        all.push(items);
    }
    all
}

#[test]
fn regrouping_keeps_the_bit_string() {
    for from in 1..=8usize {
        for to in 1..=8usize {
            for pad in [true, false] {
                for items in samples(from) {
                    assert_eq!(
                        bech32::convert_bits(&items, from as u32, to as u32, pad),
                        regrouped(&items, from, to, pad),
                        "{:?} from {} to {} pad {}",
                        items,
                        from,
                        to,
                        pad
                    );
                }
            }
        }
    }
}

#[test]
fn regrouping_names_the_first_wide_item() {
    assert_eq!(
        bech32::convert_bits(&[3u8, 40, 2, 99], 5, 8, false),
        Err(bech32::Error::InvalidData(40))
    );
    assert_eq!(regrouped(&[3, 40, 2, 99], 5, 8, false), Err(bech32::Error::InvalidData(40)));
    assert_eq!(
        bech32::convert_bits(&[1u8, 2, 4], 2, 8, true),
        Err(bech32::Error::InvalidData(4))
    );
    assert_eq!(regrouped(&[1, 2, 4], 2, 8, true), Err(bech32::Error::InvalidData(4)));
}

#[test]
fn regrouping_pads_with_zero_bits() {
    assert_eq!(bech32::convert_bits(&[0xffu8], 8, 5, true), Ok(vec![0x1f, 0x1c]));
    assert_eq!(regrouped(&[0xff], 8, 5, true), Ok(vec![0x1f, 0x1c]));
    assert_eq!(regrouped(&[0x1f, 0x1c], 5, 8, false), Ok(vec![0xff]));
    assert_eq!(regrouped(&[0x1f, 0x1d], 5, 8, false), Err(bech32::Error::InvalidPadding));
    assert_eq!(regrouped(&[0x1f, 0x1c, 0], 5, 8, false), Err(bech32::Error::InvalidPadding));
}

#[test]
fn payload_symbols_are_the_regrouped_version_byte_and_hash() {
    let hash: Vec<u8> = (100..120).collect();
    let address = encode("p", AddressType::P2SH, &hash).unwrap();
    let alphabet = "qpzry9x8gf2tvdw0s3jn54khce6mua7l";
    let symbols: Vec<u8> =
        address[2..].chars().map(|c| alphabet.find(c).unwrap() as u8).collect();
    let mut bytes = vec![8u8];
    bytes.extend_from_slice(&hash);
    assert_eq!(symbols[..symbols.len() - 8], regrouped(&bytes, 8, 5, true).unwrap()[..]);
    assert_eq!(decode(&address).unwrap().2, hash);
}
