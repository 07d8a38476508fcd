use magnet_dht::hex::{decode_hex, encode_hex, HexError};

#[test]
fn encodes_lowercase_pairs() {
    assert_eq!(encode_hex(&[0x68, 0x53, 0xab, 0x00, 0xff]), "6853ab00ff");
    assert_eq!(encode_hex(&[]), "");
}

#[test]
fn decodes_either_case() {
    assert_eq!(decode_hex("6853AB2b").unwrap(), vec![0x68, 0x53, 0xab, 0x2b]);
    let infohash = decode_hex("6853ab2b86b2cb6a3c778b8aafe3dffd94242321").unwrap();
    assert_eq!(infohash.len(), 20);
    assert_eq!(encode_hex(&infohash), "6853ab2b86b2cb6a3c778b8aafe3dffd94242321");
}

#[test]
fn rejects_bad_hex() {
    assert_eq!(decode_hex("abc"), Err(HexError::OddLength));
    assert_eq!(decode_hex("00zz11"), Err(HexError::InvalidDigit { pos: 2 }));
}

#[test]
fn hex_round_trip() {
    let bytes: Vec<u8> = (0..=255).collect();
    assert_eq!(decode_hex(&encode_hex(&bytes)).unwrap(), bytes);
}
