use rbkcrack::attack::Attack;
use rbkcrack::data::Data;
use rbkcrack::keys::Keys;
use rbkcrack::keystream_tab::KeystreamTab;

const INDEX: usize = 735115;

const Z_LIST: [u32; 12] = [
    1092480552, 2001087864, 2524901027, 1811754778, 3216743481, 3305472034, 3752192579,
    1744967186, 3351227042, 4039650542, 237715486, 282349850,
];

const Y_LIST: [u32; 12] = [
    64, 64, 838860800, 4085658340, 702500480, 2170229995, 2383027522, 2433410890, 1767399924,
    853191409, 3862839011, 2230629911,
];

/// The plaintext bytes at positions 4 to 10 of the window, which the lists above determine.
const PLAIN_4_TO_10: [u8; 7] = [79, 139, 198, 147, 214, 52, 194];

/// The values of the plaintext byte at position 3 of the window that the lists above admit.
const PLAIN_3: [u8; 4] = [21, 46, 163, 244];

/// Texts whose window of twelve positions at `INDEX` holds the given plaintext
/// byte at position 3, the bytes above at positions 4 to 10, and the keystream
/// of `Z_LIST`.
fn window_data(plain_3: u8) -> Data {
    let tab = KeystreamTab::new();
    let mut plain = vec![0u8; INDEX + 12];
    plain[INDEX + 3] = plain_3;
    for (j, &p) in PLAIN_4_TO_10.iter().enumerate() {
        plain[INDEX + 4 + j] = p;
    }
    let mut cipher = vec![0u8; 12 + plain.len()];
    for j in 0..12 {
        cipher[12 + INDEX + j] = plain[INDEX + j] ^ tab.get_byte(Z_LIST[j]);
    }
    Data::new(plain, cipher, 0).unwrap()
}

#[test]
fn test_x_list() {
    for &p in PLAIN_3.iter() {
        let data = window_data(p);
        let mut attack = Attack::new(&data, 735115);
        attack.x_list = [
            2, 64, 347029520, 21996, 207, 3988292578, 881025314, 2807276851, 77, 60, 9, 187,
        ];
        attack.y_list = [
            64, 64, 838860800, 4085658340, 702500480, 2170229995, 2383027522, 2433410890,
            1767399924, 853191409, 3862839011, 2230629911,
        ];
        attack.z_list = [
            1092480552, 2001087864, 2524901027, 1811754778, 3216743481, 3305472034, 3752192579,
            1744967186, 3351227042, 4039650542, 237715486, 282349850,
        ];

        assert_eq!(true, attack.test_x_list());
    }
}

#[test]
fn explore_y_list() {
    for &p in PLAIN_3.iter() {
        let data = window_data(p);
        let mut attack = Attack::new(&data, 735115);
        attack.x_list = [
            2, 64, 3414458384, 22000, 207, 3988292578, 881025314, 2807276851, 77, 60, 9, 187,
        ];
        attack.y_list = [
            64, 64, 838860800, 4085658340, 702500480, 2170229995, 2383027522, 2433410890,
            1767399924, 853191409, 3862839011, 2230629911,
        ];
        attack.z_list = [
            1092480552, 2001087864, 2524901027, 1811754778, 3216743481, 3305472034, 3752192579,
            1744967186, 3351227042, 4039650542, 237715486, 282349850,
        ];

        assert_eq!(true, attack.explore_y_lists(11));
    }
}

#[test]
fn test_x_list_rejects_other_plaintext() {
    let mut accepted = Vec::new();
    for p in 0..=255u8 {
        let data = window_data(p);
        let mut attack = Attack::new(&data, INDEX);
        attack.x_list = [
            2, 64, 347029520, 21996, 207, 3988292578, 881025314, 2807276851, 77, 60, 9, 187,
        ];
        attack.y_list = Y_LIST;
        attack.z_list = Z_LIST;
        if attack.test_x_list() {
            accepted.push(p);
        }
    }
    assert_eq!(accepted, PLAIN_3.to_vec());
}

#[test]
fn explore_y_lists_keeps_the_accepted_lists() {
    let data = window_data(PLAIN_3[0]);
    let mut attack = Attack::new(&data, INDEX);
    attack.x_list = [0, 0, 0, 0, 0, 0, 0, 0, 0, 0, 0, 0];
    attack.y_list = Y_LIST;
    attack.z_list = Z_LIST;
    // only the top bytes of Y3..Y10 are known when the descent starts
    for j in 3..11 {
        attack.y_list[j] &= 0xff00_0000;
    }
    assert!(attack.explore_y_lists(11));
    assert_eq!(attack.y_list, Y_LIST);
    assert_eq!(attack.x_list[4], 207);
    assert_eq!(attack.x_list[5], 3988292578);
    assert_eq!(attack.x_list[6], 881025314);
    assert_eq!(attack.x_list[7], 2807276851);
    assert_eq!(&attack.x_list[8..], &[77, 60, 9, 187]);
}

/// Encrypts `payload` after a twelve-byte header, starting from the given keys,
/// and returns the ciphertext with the keys before each byte.
fn encrypt(start: (u32, u32, u32), header: &[u8; 12], payload: &[u8]) -> (Vec<u8>, Vec<(u32, u32, u32)>) {
    let tab = KeystreamTab::new();
    let mut keys = Keys::new();
    keys.set_keys(start.0, start.1, start.2);
    let mut cipher = Vec::new();
    let mut states = Vec::new();
    for &p in header.iter().chain(payload.iter()) {
        states.push((keys.get_x(), keys.get_y(), keys.get_z()));
        cipher.push(p ^ tab.get_byte(keys.get_z()));
        keys.update(p);
    }
    (cipher, states)
}

fn sample_payload(len: usize) -> Vec<u8> {
    let mut seed: u32 = 0x2545_f491;
    (0..len)
        .map(|_| {
            seed = seed.wrapping_mul(1664525).wrapping_add(1013904223);
            (seed >> 24) as u8
        })
        .collect()
}

#[test]
fn carry_out_recovers_the_keys() {
    let start = (0x8879dfed, 0x14335b6b, 0x8dc58b53);
    let header = [7u8, 1, 200, 33, 90, 14, 255, 0, 61, 128, 5, 77];
    let payload = sample_payload(40);
    let (cipher, states) = encrypt(start, &header, &payload);
    let data = Data::new(payload.clone(), cipher, 0).unwrap();
    let index = 20;
    let mut attack = Attack::new(&data, index);
    let z11 = states[12 + index + 11].2;
    assert!(attack.carry_out(z11 & 0xffff_fffc));
    let mid = states[12 + index + 7];
    assert_eq!((attack.x_list[7], attack.y_list[7], attack.z_list[7]), mid);
    for j in 1..12 {
        assert_eq!(attack.z_list[j], states[12 + index + j].2);
    }
    for j in 3..12 {
        assert_eq!(attack.y_list[j], states[12 + index + j].1);
    }
    let keys = attack.get_keys();
    assert_eq!(0x8879dfed, keys.get_x());
    assert_eq!(0x14335b6b, keys.get_y());
    assert_eq!(0x8dc58b53, keys.get_z());
}

#[test]
fn carry_out_rejects_a_wrong_candidate() {
    let start = (0x8879dfed, 0x14335b6b, 0x8dc58b53);
    let header = [7u8, 1, 200, 33, 90, 14, 255, 0, 61, 128, 5, 77];
    let payload = sample_payload(40);
    let (cipher, states) = encrypt(start, &header, &payload);
    let data = Data::new(payload.clone(), cipher, 0).unwrap();
    let mut attack = Attack::new(&data, 20);
    let z11 = states[12 + 20 + 11].2;
    assert!(!attack.carry_out((z11 & 0xffff_fffc) ^ 0x0400_0000));
}

#[test]
fn new_workspace_is_blank() {
    let data = window_data(PLAIN_3[0]);
    let attack = Attack::new(&data, INDEX);
    assert_eq!(attack.z_list, [0; 12]);
    assert_eq!(attack.y_list, [0; 12]);
    assert_eq!(attack.x_list, [0; 12]);
    assert_eq!(attack.index, INDEX);
    assert_eq!(Attack::SIZE, 12);
}

#[test]
fn cloned_workspace_works_on_its_own_lists() {
    let data = window_data(PLAIN_3[0]);
    let mut attack = Attack::new(&data, INDEX);
    attack.x_list = [
        2, 64, 347029520, 21996, 207, 3988292578, 881025314, 2807276851, 77, 60, 9, 187,
    ];
    attack.y_list = Y_LIST;
    attack.z_list = Z_LIST;
    let mut copy = attack.clone();
    assert_eq!(copy.x_list, attack.x_list);
    assert_eq!(copy.y_list, Y_LIST);
    assert_eq!(copy.z_list, Z_LIST);
    copy.x_list[8] = 78;
    assert!(!copy.test_x_list());
    assert!(attack.test_x_list());
}

#[test]
fn test_x_list_rebuilds_three_values_whatever_the_verdict() {
    let data = window_data(PLAIN_3[0]);
    let mut attack = Attack::new(&data, INDEX);
    attack.x_list = [0, 0, 0, 0, 207, 226, 34, 51, 77, 60, 9, 188];
    attack.y_list = Y_LIST;
    attack.z_list = Z_LIST;
    assert!(!attack.test_x_list());
    assert_eq!(attack.x_list, [0, 0, 0, 0, 207, 3988292578, 881025314, 2807276851, 77, 60, 9, 188]);
    attack.x_list[11] = 187;
    assert!(attack.test_x_list());
}

#[test]
fn explore_y_lists_fails_on_a_wrong_top_byte() {
    let data = window_data(PLAIN_3[0]);
    let mut attack = Attack::new(&data, INDEX);
    attack.y_list = Y_LIST;
    attack.z_list = Z_LIST;
    attack.y_list[6] ^= 0x0100_0000;
    let y_list = attack.y_list;
    assert!(!attack.explore_y_lists(11));
    // what is left keeps the top bytes and the values from position 11 on
    for j in 0..12 {
        assert_eq!(attack.y_list[j] >> 24, y_list[j] >> 24);
    }
    assert_eq!(attack.y_list[11], y_list[11]);
    assert_eq!(attack.z_list, Z_LIST);
}

#[test]
fn get_keys_steps_back_over_the_ciphertext_before_position_seven() {
    let start = (0x8879dfed, 0x14335b6b, 0x8dc58b53);
    let header = [7u8, 1, 200, 33, 90, 14, 255, 0, 61, 128, 5, 77];
    let payload = sample_payload(40);
    let (cipher, states) = encrypt(start, &header, &payload);
    for offset in [0i32, 3, -5] {
        // the plaintext known is the payload from `offset` on
        let from = (12 + offset) as usize;
        let plain = if offset >= 0 {
            payload[offset as usize..].to_vec()
        } else {
            let mut text = header[from..].to_vec();
            text.extend_from_slice(&payload);
            text
        };
        let data = Data::new(plain, cipher.clone(), offset).unwrap();
        for index in [0usize, 9, 20] {
            let mut attack = Attack::new(&data, index);
            let mid = states[from + index + 7];
            attack.x_list[7] = mid.0;
            attack.y_list[7] = mid.1;
            attack.z_list[7] = mid.2;
            let keys = attack.get_keys();
            assert_eq!(0x8879dfed, keys.get_x());
            assert_eq!(0x14335b6b, keys.get_y());
            assert_eq!(0x8dc58b53, keys.get_z());
        }
    }
}
