use rbkcrack::crc32_tab::Crc32Tab;
use rbkcrack::keystream_tab::KeystreamTab;
use rbkcrack::mult_tab::MultTab;
use rbkcrack::utils::{lsb, msb, MASK_0_16, MASK_10_32, MASK_24_32, MASK_26_32, MASK_2_32, MASK_8_32, MAXDIFF_0_24, MAXDIFF_0_26};

#[test]
fn lsb_and_msb_pick_the_outer_bytes() {
    assert_eq!(lsb(0x1234_5678), 0x78);
    assert_eq!(msb(0x1234_5678), 0x12);
    assert_eq!(lsb(0xffff_ff00), 0);
    assert_eq!(msb(0x00ff_ffff), 0);
}

#[test]
fn masks_keep_their_windows() {
    assert_eq!(MASK_0_16, 0x0000_ffff);
    assert_eq!(MASK_2_32, !0b11);
    assert_eq!(MASK_8_32, !0xff);
    assert_eq!(MASK_10_32, !0x3ff);
    assert_eq!(MASK_24_32, 0xff << 24);
    assert_eq!(MASK_26_32, 0x3f << 26);
    assert_eq!(MAXDIFF_0_24, 0x0100_00fe);
    assert_eq!(MAXDIFF_0_26, 0x0400_00fe);
}

#[test]
fn crc32_is_the_zip_checksum() {
    let tab = Crc32Tab::new();
    let mut c = 0xffff_ffffu32;
    for &b in b"123456789" {
        c = tab.crc32(c, b);
    }
    assert_eq!(c ^ 0xffff_ffff, 0xcbf4_3926);
    // the entries of the forward table, read through a register of zero
    assert_eq!(tab.crc32(0, 1), 0x7707_3096);
    assert_eq!(tab.crc32(0, 255), 0x2d02_ef8d);
    assert_eq!(tab.crc32(0x1234_5678, 0x61), 0x6479_9c96);
}

#[test]
fn crc32inv_reads_the_inverse_table() {
    let tab = Crc32Tab::new();
    assert_eq!(tab.crc32inv(0x0100_0000, 0), 0xdb71_0641);
    assert_eq!(tab.crc32inv(0xff00_0000, 0), 0x0f6a_70d9);
    assert_eq!(tab.crc32inv(0x1234_5678, 0x61), 0x83bf_2838);
}

#[test]
fn crc32_and_crc32inv_undo_each_other() {
    let tab = Crc32Tab::new();
    let words = [0u32, 1, 0xff, 0x100, 0x1234_5678, 0x8000_0000, 0xdead_beef, 0xffff_ffff];
    for &c in words.iter() {
        for b in 0..=255u8 {
            assert_eq!(tab.crc32inv(tab.crc32(c, b), b), c);
            assert_eq!(tab.crc32(tab.crc32inv(c, b), b), c);
        }
    }
}

#[test]
fn inverse_table_is_keyed_by_the_top_byte_of_the_forward_table() {
    let tab = Crc32Tab::new();
    for i in 0..=255u8 {
        let t = tab.crc32(0, i);
        assert_eq!(tab.crc32inv(t & 0xff00_0000, 0), (t << 8) ^ u32::from(i));
    }
}

#[test]
fn previous_z_and_top_of_y_follow_from_two_z_values() {
    let tab = Crc32Tab::new();
    let z1 = 2001087864u32;
    let z2 = 2524901027u32;
    assert_eq!(tab.get_yi_24_32(z2, z1), 838860800);
    assert_eq!(tab.get_zim1_10_32(z2), z1 & MASK_10_32);
    assert_eq!(tab.get_zim1_10_32(z2), tab.crc32inv(z2, 0) & 0xffff_fc00);
    // the two low bits of Zi have no part in Z{i-1}[10,32)
    assert_eq!(tab.get_zim1_10_32(z2 & MASK_2_32), tab.get_zim1_10_32(z2));
}

#[test]
fn multinv_is_the_inverse_multiplier() {
    assert_eq!(MultTab::MULT, 0x0808_8405);
    assert_eq!(MultTab::MULT.wrapping_mul(MultTab::MULTINV), 1);
    let tab = MultTab::new();
    assert_eq!(tab.get_multinv(1), 0xd94f_a8cd);
    assert_eq!(tab.get_multinv(2), 0xb29f_519a);
    assert_eq!(tab.get_multinv(255), 0x7659_2433);
    for b in 0..=255u8 {
        assert_eq!(tab.get_multinv(b).wrapping_mul(MultTab::MULT), u32::from(b));
    }
}

#[test]
fn fibers_list_the_bytes_by_the_top_byte_of_their_product() {
    let tab = MultTab::new();
    assert_eq!(tab.get_msb_prod_fiber2(0), &vec![0u8, 86, 225]);
    assert_eq!(tab.get_msb_prod_fiber2(190), &vec![48u8, 187]);
    assert_eq!(tab.get_msb_prod_fiber3(0), &vec![0u8, 86, 172, 225]);
    assert_eq!(tab.get_msb_prod_fiber3(255), &vec![0u8, 86, 139, 225]);
    for m in 0..=255u8 {
        let mut two = Vec::new();
        let mut three = Vec::new();
        for b in 0..=255u8 {
            let top = (MultTab::MULTINV.wrapping_mul(u32::from(b)) >> 24) as u8;
            if top == m || top.wrapping_add(1) == m {
                two.push(b);
            }
            if top == m || top.wrapping_add(1) == m || top.wrapping_sub(1) == m {
                three.push(b);
            }
        }
        assert_eq!(tab.get_msb_prod_fiber2(m), &two);
        assert_eq!(tab.get_msb_prod_fiber3(m), &three);
    }
}

#[test]
fn fibers_hold_every_byte_that_passes_the_filter() {
    let tab = MultTab::new();
    let mut d = 0x9e37_79b9u32;
    for _ in 0..2000 {
        d = d.wrapping_mul(0x0019_660d).wrapping_add(0x3c6e_f35f);
        for b in 0..=255u8 {
            if d.wrapping_sub(tab.get_multinv(b)) <= MAXDIFF_0_24 {
                assert!(tab.get_msb_prod_fiber2(msb(d)).contains(&b));
            }
        }
    }
}

fn keystream_byte(z: u32) -> u8 {
    let t = (z | 3) & 0xffff;
    ((t * (t ^ 1)) >> 8) as u8
}

#[test]
fn get_byte_is_the_keystream_byte() {
    let tab = KeystreamTab::new();
    assert_eq!(tab.get_byte(0), 0);
    assert_eq!(tab.get_byte(0x3456_7890), 171);
    assert_eq!(tab.get_byte(0xffff_ffff), 0);
    let mut z = 1u32;
    for _ in 0..5000 {
        z = z.wrapping_mul(0x0019_660d).wrapping_add(0x3c6e_f35f);
        assert_eq!(tab.get_byte(z), keystream_byte(z));
        // only the bits [2,16) matter
        assert_eq!(tab.get_byte(z), tab.get_byte(z & 0xfffc));
    }
}

#[test]
fn zi_2_16_array_lists_the_preimages_of_each_byte() {
    let tab = KeystreamTab::new();
    assert_eq!(&tab.get_zi_2_16_array(0)[..4], &[0, 4, 8, 12]);
    assert_eq!(*tab.get_zi_2_16_array(0).last().unwrap(), 65532);
    assert_eq!(&tab.get_zi_2_16_array(255)[..3], &[1512, 1896, 4204]);
    for k in 0..=255u8 {
        let expected: Vec<u32> =
            (0..1u32 << 14).map(|i| i << 2).filter(|&z| keystream_byte(z) == k).collect();
        assert_eq!(tab.get_zi_2_16_array(k), &expected);
        assert_eq!(expected.len(), 64);
        for &z in expected.iter() {
            for high in [0u32, 1, 0x1234, 0xffff] {
                assert_eq!(keystream_byte((high << 16) | z), k);
            }
        }
    }
}

#[test]
fn zi_2_16_vector_lists_the_preimages_in_one_bucket() {
    let tab = KeystreamTab::new();
    assert_eq!(tab.get_zi_2_16_vector(13, 1092480552), &vec![60968u32]);
    assert_eq!(tab.get_zi_2_16_vector(0, 0), &vec![0u32, 4, 8, 12]);
    assert!(tab.get_zi_2_16_vector(0, 1 << 10).is_empty());
    for k in [0u8, 13, 75, 255] {
        for q in 0..64u32 {
            let expected: Vec<u32> = (0..256u32)
                .map(|j| (q << 10) | (j << 2))
                .filter(|&z| keystream_byte(z) == k)
                .collect();
            // bits outside [10,16) of the second argument are ignored
            assert_eq!(tab.get_zi_2_16_vector(k, (q << 10) | 0xabcd_0000 | 0x3ff), &expected);
            assert_eq!(tab.has_zi_2_16(k, (q << 10) | 0xabcd_0000), !expected.is_empty());
        }
    }
}

#[test]
fn tables_can_be_cloned() {
    let crc = Crc32Tab::new().clone();
    assert_eq!(crc.crc32(0, 1), 0x7707_3096);
    let mult = MultTab::new().clone();
    assert_eq!(mult.get_msb_prod_fiber2(190), &vec![48u8, 187]);
    let ks = KeystreamTab::new().clone();
    assert_eq!(ks.get_zi_2_16_vector(13, 1092480552), &vec![60968u32]);
    assert!(ks.has_zi_2_16(0, 0) && !ks.has_zi_2_16(0, 1 << 10));
}
