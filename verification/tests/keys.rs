use rbkcrack::keys::Keys;
use rbkcrack::keystream_tab::KeystreamTab;

#[test]
fn update() {
    let _key: Keys = Default::default();
}

#[test]
fn new_keys_are_the_session_start() {
    let keys = Keys::new();
    assert_eq!(keys.get_x(), 0x1234_5678);
    assert_eq!(keys.get_y(), 0x2345_6789);
    assert_eq!(keys.get_z(), 0x3456_7890);
    let keys: Keys = Default::default();
    assert_eq!((keys.get_x(), keys.get_y(), keys.get_z()), (0x1234_5678, 0x2345_6789, 0x3456_7890));
}

#[test]
fn update_follows_the_recurrences() {
    // one step from the session start with the byte 'a', worked by hand:
    // X = crc32(0x12345678, 0x61), Y = (Y + lsb(X)) * 0x08088405 + 1, Z = crc32(Z, msb(Y))
    let mut keys = Keys::new();
    keys.update(0x61);
    assert_eq!(keys.get_x(), 0x6479_9c96);
    let y = (0x2345_6789u32 + 0x96).wrapping_mul(0x0808_8405).wrapping_add(1);
    assert_eq!(keys.get_y(), y);
    assert_eq!(keys.get_y(), 0xb303_049c);
    assert_eq!(keys.get_z(), 0xa253_270a);
}

#[test]
fn update_backword_undoes_update() {
    let tab = KeystreamTab::new();
    let states = [
        (0x1234_5678u32, 0x2345_6789u32, 0x3456_7890u32),
        (0, 0, 0),
        (0xffff_ffff, 0xffff_ffff, 0xffff_ffff),
        (0x8879dfed, 0x14335b6b, 0x8dc58b53),
    ];
    for &(x, y, z) in states.iter() {
        for p in 0..=255u8 {
            let mut keys = Keys::new();
            keys.set_keys(x, y, z);
            let c = p ^ tab.get_byte(z);
            keys.update(p);
            keys.update_backword(c);
            assert_eq!((keys.get_x(), keys.get_y(), keys.get_z()), (x, y, z));
        }
    }
}

#[test]
fn set_keys_replaces_all_three() {
    let mut keys = Keys::new();
    keys.set_keys(1, 2, 3);
    assert_eq!((keys.get_x(), keys.get_y(), keys.get_z()), (1, 2, 3));
}
