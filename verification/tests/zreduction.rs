use rbkcrack::attack::Attack;
use rbkcrack::crc32_tab::Crc32Tab;
use rbkcrack::data::Data;
use rbkcrack::driver::{find_keys, try_candidate};
use rbkcrack::keys::Keys;
use rbkcrack::keystream_tab::KeystreamTab;
use rbkcrack::zreduction::Zreduction;

const START: (u32, u32, u32) = (0x8879dfed, 0x14335b6b, 0x8dc58b53);
const HEADER: [u8; 12] = [7, 1, 200, 33, 90, 14, 255, 0, 61, 128, 5, 77];

fn sample_payload(len: usize) -> Vec<u8> {
    let mut seed: u32 = 0x2545_f491;
    (0..len)
        .map(|_| {
            seed = seed.wrapping_mul(1664525).wrapping_add(1013904223);
            (seed >> 24) as u8
        })
        .collect()
}

/// The texts of a sample entry of `len` payload bytes, with the third key before each byte.
fn sample(len: usize) -> (Data, Vec<u32>) {
    let tab = KeystreamTab::new();
    let payload = sample_payload(len);
    let mut keys = Keys::new();
    keys.set_keys(START.0, START.1, START.2);
    let mut cipher = Vec::new();
    let mut z = Vec::new();
    for &p in HEADER.iter().chain(payload.iter()) {
        z.push(keys.get_z());
        cipher.push(p ^ tab.get_byte(keys.get_z()));
        keys.update(p);
    }
    (Data::new(payload, cipher, 0).unwrap(), z)
}

fn sum(values: &[u32]) -> u32 {
    values.iter().fold(0u32, |a, &b| a.wrapping_add(b))
}

#[test]
fn generate_lists_every_word_that_gives_the_last_byte() {
    let (data, z) = sample(12);
    let tab = KeystreamTab::new();
    let mut zr = Zreduction::new(&data.keystream);
    assert_eq!(zr.size(), 0);
    assert_eq!(zr.get_index(), 0);
    zr.generate();
    assert_eq!(zr.get_index(), 11);
    assert_eq!(zr.size(), 1 << 22);
    let k = *data.keystream.last().unwrap();
    let low = tab.get_zi_2_16_array(k);
    let values = zr.get_zi_2_32_vector();
    assert_eq!(values[0], low[0]);
    assert_eq!(values[1], (1 << 16) | low[0]);
    assert_eq!(values[65535], (65535 << 16) | low[0]);
    assert_eq!(values[65536], low[1]);
    assert_eq!(values[(1 << 22) - 1], (65535 << 16) | low[63]);
    for &v in values.iter().step_by(997) {
        assert_eq!(v & 3, 0);
        assert_eq!(tab.get_byte(v), k);
    }
    assert!(values.contains(&(z[12 + 11] & 0xffff_fffc)));
}

#[test]
fn reduce_without_a_small_list_ends_at_the_lowest_position() {
    let (data, z) = sample(40);
    let mut zr = Zreduction::new(&data.keystream);
    zr.generate();
    assert_eq!(zr.get_index(), 39);
    zr.reduce();
    assert_eq!(zr.get_index(), 11);
    assert_eq!(zr.size(), 279061);
    let values = zr.get_zi_2_32_vector();
    assert_eq!(&values[..5], &[4780, 9856, 17824, 27260, 33896]);
    assert_eq!(&values[279058..], &[4294863484, 4294897272, 4294897368]);
    assert_eq!(sum(values), 3340735164);
    assert_eq!(values[213828], z[12 + 11] & 0xffff_fffc);
    assert!(values.windows(2).all(|w| w[0] < w[1]));
}

#[test]
fn reduce_keeps_the_smallest_list() {
    let (data, z) = sample(1500);
    let tab = KeystreamTab::new();
    let mut zr = Zreduction::new(&data.keystream);
    zr.generate();
    zr.reduce();
    assert_eq!(zr.get_index(), 106);
    assert_eq!(zr.size(), 5742);
    let values = zr.get_zi_2_32_vector();
    assert_eq!(&values[..5], &[850620, 1015896, 1016620, 1073488, 1232956]);
    assert_eq!(&values[5739..], &[4294341044, 4294341080, 4294341452]);
    assert_eq!(sum(values), 4094454372);
    assert_eq!(values[2745], 2020979064);
    assert_eq!(values[2745], z[12 + 106] & 0xffff_fffc);
    assert!(values.windows(2).all(|w| w[0] < w[1]));
    for &v in values.iter() {
        assert_eq!(v & 3, 0);
        assert_eq!(tab.get_byte(v), data.keystream[106]);
    }
}

/// The texts of an entry of `len` payload bytes whose keys before payload byte
/// 11 are `mid`, with the keys at the start of the entry.
fn sample_around(mid: (u32, u32, u32), len: usize) -> (Data, (u32, u32, u32)) {
    let tab = KeystreamTab::new();
    let noise = sample_payload(len + 12);
    let mut cipher: Vec<u8> = noise[..23].to_vec();
    let mut keys = Keys::new();
    keys.set_keys(mid.0, mid.1, mid.2);
    for &c in cipher.iter().rev() {
        keys.update_backword(c);
    }
    let start = (keys.get_x(), keys.get_y(), keys.get_z());
    let mut text = keys.decipher(&cipher);
    assert_eq!((keys.get_x(), keys.get_y(), keys.get_z()), mid);
    for &p in noise[23..].iter() {
        cipher.push(p ^ tab.get_byte(keys.get_z()));
        keys.update(p);
        text.push(p);
    }
    (Data::new(text[12..].to_vec(), cipher, 0).unwrap(), start)
}

#[test]
fn find_keys_recovers_the_session_keys() {
    let (data, start) = sample_around((0x1234_abcd, 0x9e37_79b9, 0x0000_2a10), 40);
    let found = find_keys(&data, false);
    assert_eq!(found.len(), 1);
    assert_eq!((found[0].get_x(), found[0].get_y(), found[0].get_z()), start);
    // the keys found decipher the entry
    let mut keys = found[0].clone();
    let text = keys.decipher(&data.cipher_text);
    assert_eq!(&text[12..], &data.plain_text[..]);
}

#[test]
fn find_keys_without_reduction_recovers_the_session_keys() {
    let (data, start) = sample_around((0xfeed_f00d, 0x0bad_cafe, 0x0000_0154), 12);
    let found = find_keys(&data, false);
    assert_eq!(found.len(), 1);
    assert_eq!((found[0].get_x(), found[0].get_y(), found[0].get_z()), start);
}

#[test]
fn find_keys_on_twelve_bytes_attacks_the_last_position() {
    // with twelve bytes nothing is reduced, and the window starts at 0
    let (data, z) = sample(12);
    let mut attack = Attack::new(&data, 0);
    let keys = try_candidate(&mut attack, z[12 + 11] & 0xffff_fffc).unwrap();
    assert_eq!((keys.get_x(), keys.get_y(), keys.get_z()), START);
}

#[test]
fn try_candidate_tells_hits_from_misses() {
    let (data, z) = sample(64);
    let mut attack = Attack::new(&data, 30);
    let right = z[12 + 41] & 0xffff_fffc;
    assert!(try_candidate(&mut attack, right ^ 0x0001_0000).is_none());
    assert!(try_candidate(&mut attack, right ^ 0x8000_0000).is_none());
    let keys = try_candidate(&mut attack, right).unwrap();
    assert_eq!((keys.get_x(), keys.get_y(), keys.get_z()), START);
    // the two low bits of the candidate are of no account
    let keys = try_candidate(&mut attack, right | 3).unwrap();
    assert_eq!((keys.get_x(), keys.get_y(), keys.get_z()), START);
    assert!(try_candidate(&mut attack, right ^ 0x0000_0400).is_none());
}

/// Whether some word with its low bits clear produces the byte `k` and has
/// `z` follow from it.
fn has_successor(crc: &Crc32Tab, tab: &KeystreamTab, z: u32, k: u8) -> bool {
    // the top byte of the successor fixes its bits [2,24)
    (0..256u32).any(|top| {
        let entry = crc.crc32inv(top << 24, 0);
        let shifted = (z ^ entry) & 0xffff_fc00;
        let next = (top << 24) | (shifted >> 8);
        next >> 24 == top
            && crc.get_zim1_10_32(next) == z & 0xffff_fc00
            && tab.get_byte(next) == k
    })
}

#[test]
fn reduce_keeps_what_follows_from_the_position_above() {
    let (data, _) = sample(13);
    let crc = Crc32Tab::new();
    let tab = KeystreamTab::new();
    let mut zr = Zreduction::new(&data.keystream);
    zr.generate();
    zr.reduce();
    assert_eq!(zr.get_index(), 11);
    let values = zr.get_zi_2_32_vector();
    assert!(values.windows(2).all(|w| w[0] < w[1]));
    for &z in values.iter().step_by(1009) {
        assert_eq!(z & 3, 0);
        assert_eq!(tab.get_byte(z), data.keystream[11]);
        assert!(has_successor(&crc, &tab, z, data.keystream[12]));
    }
    // words that produce the byte of position 11 are kept exactly when they have a successor
    let mut z = 0x1234_5678u32;
    let mut kept = 0;
    let mut dropped = 0;
    while kept < 50 || dropped < 50 {
        z = z.wrapping_mul(0x0019_660d).wrapping_add(0x3c6e_f35f);
        let word = z & 0xffff_fffc;
        if tab.get_byte(word) != data.keystream[11] {
            continue;
        }
        let listed = values.binary_search(&word).is_ok();
        assert_eq!(listed, has_successor(&crc, &tab, word, data.keystream[12]));
        if listed {
            kept += 1;
        } else {
            dropped += 1;
        }
    }
}

#[test]
fn reduce_stops_when_the_countdown_runs_out() {
    let (data, z) = sample(20000);
    let mut zr = Zreduction::new(&data.keystream);
    zr.generate();
    zr.reduce();
    // a list of 92 values is met at position 8069, and none as small in the
    // 368 steps that follow
    assert_eq!(zr.get_index(), 8069);
    assert_eq!(zr.size(), 92);
    let values = zr.get_zi_2_32_vector();
    assert_eq!(&values[..5], &[131402068, 131402240, 399654340, 554389596, 696723960]);
    assert_eq!(&values[89..], &[4156275188, 4170780828, 4170781552]);
    assert_eq!(sum(values), 251009300);
    assert_eq!(values[22], 1629940908);
    assert_eq!(values[22], z[12 + 8069] & 0xffff_fffc);
}

#[test]
fn find_keys_attacks_the_list_that_the_reduction_leaves() {
    let (data, _) = sample(20000);
    let first = find_keys(&data, false);
    assert_eq!(first.len(), 1);
    assert_eq!((first[0].get_x(), first[0].get_y(), first[0].get_z()), START);
    let all = find_keys(&data, true);
    assert!(!all.is_empty() && all.len() <= 92);
    assert_eq!(all[0].to_string(), first[0].to_string());
    assert!(all.iter().any(|k| (k.get_x(), k.get_y(), k.get_z()) == START));
}
