use rbkcrack::driver::{decipher, DecipherError};
use rbkcrack::keys::Keys;

const CIPHER_STORED: [u8; 17] =
    [182, 171, 204, 111, 17, 221, 210, 205, 154, 223, 220, 247, 109, 107, 207, 220, 0];

const CIPHER_DEFLATED: [u8; 22] = [
    182, 171, 204, 111, 17, 221, 210, 205, 154, 223, 220, 247, 214, 116, 211, 233, 55, 103, 174,
    120, 164, 119,
];

fn session_keys() -> Keys {
    Keys::from_words(&[0x8879dfed, 0x14335b6b, 0x8dc58b53])
}

#[test]
fn decipher_drops_the_header() {
    let mut keys = session_keys();
    assert_eq!(decipher(&mut keys, &CIPHER_STORED, false), Ok(b"plain".to_vec()));
}

#[test]
fn decipher_inflates_on_request() {
    let mut keys = session_keys();
    assert_eq!(
        decipher(&mut keys, &CIPHER_DEFLATED, true),
        Ok(b"hello hello hello hello".to_vec())
    );
    let mut keys = session_keys();
    assert_eq!(
        decipher(&mut keys, &CIPHER_DEFLATED, false),
        Ok(vec![203, 72, 205, 201, 201, 87, 200, 64, 39, 1])
    );
}

#[test]
fn decipher_reports_a_corrupt_stream() {
    let mut keys = session_keys();
    // "plain" is no Deflate stream
    assert_eq!(decipher(&mut keys, &CIPHER_STORED, true), Err(DecipherError::CorruptStream));
}

#[test]
fn decipher_of_a_bare_header_gives_nothing() {
    let mut keys = session_keys();
    assert_eq!(decipher(&mut keys, &CIPHER_STORED[..12], false), Ok(Vec::new()));
}

#[test]
fn keys_decipher_gives_the_header_too() {
    let mut keys = session_keys();
    let text = keys.decipher(&CIPHER_STORED);
    assert_eq!(text, vec![7u8, 1, 200, 33, 90, 14, 255, 0, 61, 128, 5, 77, 112, 108, 97, 105, 110]);
    // the keys have moved on: deciphering again gives something else
    assert_ne!(keys.decipher(&CIPHER_STORED), text);
}

#[test]
fn keys_print_as_three_hex_words() {
    assert_eq!(session_keys().to_string(), "8879dfed 14335b6b 8dc58b53");
    assert_eq!(Keys::new().to_string(), "12345678 23456789 34567890");
    assert_eq!(Keys::from_words(&[0, 0xa, 0xABCDEF]).to_string(), "00000000 0000000a 00abcdef");
}

#[test]
fn from_words_takes_the_first_three() {
    let keys = Keys::from_words(&[1, 2, 3, 4]);
    assert_eq!((keys.get_x(), keys.get_y(), keys.get_z()), (1, 2, 3));
    let copy = keys.clone();
    assert_eq!((copy.get_x(), copy.get_y(), copy.get_z()), (1, 2, 3));
}
