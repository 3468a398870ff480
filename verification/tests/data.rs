use rbkcrack::data::{Data, InputError};

#[test]
fn short_plaintext_is_rejected() {
    let plain = vec![0u8; 11];
    let cipher = vec![0u8; 64];
    assert_eq!(Data::new(plain, cipher, 0).err(), Some(InputError::PlaintextTooSmall));
}

#[test]
fn twelve_bytes_of_plaintext_are_enough() {
    let plain = vec![0u8; 12];
    let cipher = vec![0u8; 24];
    assert!(Data::new(plain, cipher, 0).is_ok());
}

#[test]
fn offset_before_the_header_is_rejected() {
    let plain = vec![0u8; 12];
    let cipher = vec![0u8; 64];
    assert_eq!(Data::new(plain.clone(), cipher.clone(), -13).err(), Some(InputError::OffsetTooSmall));
    assert_eq!(Data::new(plain.clone(), cipher.clone(), i32::MIN).err(), Some(InputError::OffsetTooSmall));
    // the offset is judged before the plaintext
    assert_eq!(Data::new(vec![0u8; 3], cipher.clone(), -13).err(), Some(InputError::OffsetTooSmall));
    assert!(Data::new(plain, cipher, -12).is_ok());
}

#[test]
fn ciphertext_shorter_than_plaintext_is_rejected() {
    let plain = vec![0u8; 20];
    let cipher = vec![0u8; 19];
    assert_eq!(Data::new(plain, cipher, -12).err(), Some(InputError::CiphertextTooSmall));
}

#[test]
fn plaintext_past_the_end_of_the_ciphertext_is_rejected() {
    let plain = vec![0u8; 20];
    assert_eq!(Data::new(plain.clone(), vec![0u8; 31], 0).err(), Some(InputError::OffsetTooLarge));
    assert!(Data::new(plain.clone(), vec![0u8; 32], 0).is_ok());
    assert_eq!(Data::new(plain.clone(), vec![0u8; 32], 1).err(), Some(InputError::OffsetTooLarge));
    assert_eq!(Data::new(plain, vec![0u8; 32], i32::MAX).err(), Some(InputError::OffsetTooLarge));
}

#[test]
fn keystream_combines_plaintext_and_ciphertext() {
    let plain: Vec<u8> = (0..12).collect();
    let cipher: Vec<u8> = (100..130).collect();
    let data = Data::new(plain.clone(), cipher.clone(), 3).unwrap();
    assert_eq!(data.offset, 3);
    assert_eq!(data.plain_text, plain);
    assert_eq!(data.cipher_text, cipher);
    let expected: Vec<u8> = (0..12).map(|j| plain[j] ^ cipher[15 + j]).collect();
    assert_eq!(data.keystream, expected);
    assert_eq!(data.keystream[0], 0 ^ 115);

    let data = Data::new(plain.clone(), cipher.clone(), -12).unwrap();
    let expected: Vec<u8> = (0..12).map(|j| plain[j] ^ cipher[j]).collect();
    assert_eq!(data.keystream, expected);
}

#[test]
fn error_messages_name_the_fault() {
    assert_eq!(InputError::OffsetTooSmall.message(), "offset is too small");
    assert_eq!(InputError::PlaintextTooSmall.message(), "plaintext is too small");
    assert_eq!(InputError::CiphertextTooSmall.message(), "ciphertext is smaller than plaintext");
    assert_eq!(InputError::OffsetTooLarge.message(), "offset is too large");
}

#[test]
fn cipher_size_needed_counts_header_offset_and_plaintext() {
    assert_eq!(Data::cipher_size_needed(0, 100), Some(112));
    assert_eq!(Data::cipher_size_needed(-12, 100), Some(100));
    assert_eq!(Data::cipher_size_needed(5, 0), Some(17));
    assert_eq!(Data::cipher_size_needed(-13, 100), None);
    assert_eq!(Data::cipher_size_needed(1, usize::MAX - 12), None);
    assert_eq!(Data::cipher_size_needed(0, usize::MAX - 12), Some(usize::MAX));
}

#[test]
fn data_can_be_cloned() {
    let plain: Vec<u8> = (0..12).collect();
    let cipher: Vec<u8> = (100..130).collect();
    let data = Data::new(plain, cipher, 3).unwrap();
    let copy = data.clone();
    assert_eq!(copy.keystream, data.keystream);
    assert_eq!(copy.plain_text, data.plain_text);
    assert_eq!(copy.cipher_text, data.cipher_text);
    assert_eq!(copy.offset, 3);
}

#[test]
fn check_judges_offset_then_plaintext_then_ciphertext() {
    assert_eq!(Data::check(12, 24, 0), None);
    assert_eq!(Data::check(11, 0, -13), Some(InputError::OffsetTooSmall));
    assert_eq!(Data::check(11, 0, 0), Some(InputError::PlaintextTooSmall));
    assert_eq!(Data::check(12, 11, 5), Some(InputError::CiphertextTooSmall));
    assert_eq!(Data::check(12, 23, 0), Some(InputError::OffsetTooLarge));
    assert_eq!(Data::check(12, 12, -12), None);
    assert_eq!(Data::check(12, usize::MAX, i32::MAX), None);
    assert_eq!(Data::check(usize::MAX, usize::MAX, -12), None);
    assert_eq!(Data::check(usize::MAX, usize::MAX, -11), Some(InputError::OffsetTooLarge));
}
