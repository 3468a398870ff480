//! What an accepted completion is worth: the keys that it holds for position 7
//! of the window produce the keystream of the positions that follow.

use vstd::prelude::*;
use crate::crc32_tab::{crc32_spec, crc32inv_spec, crc_inv_entry, zim1_10_32,
    lemma_crc32_crc32inv};
use crate::keys::{KeyState, update_spec};
use crate::keystream_tab::{keystream_byte, is_zi_2_16, lemma_zi_2_16_vector_members,
    lemma_keystream_window};
use crate::mult_tab::MultTab;
use crate::utils::{lsb_spec, msb_spec, MASK_0_16, MASK_10_32, MASK_8_32, MASK_2_32};
use crate::workspace::{Lists, Known, shaped, y_unstep, x_forward, x_accepts, y_accepts, y_assign,
    y_reachable, z_candidates, z_assign, y11_accepts, y11_assign, z_reachable};

verus! {

/// Whether the Y-list of `f` follows the recurrence of the second key at
/// position `j`: undoing the step from `Y{j-1}` to `Yj` with the low byte of
/// `Xj` gives `Y{j-1}`.
pub open spec fn y_link(f: Lists, j: int) -> bool {
    f.y[j - 1] == y_unstep(f.y[j]).wrapping_sub(lsb_spec(f.x[j]) as u32)
}

/// Whether the Z-list of `f` follows the recurrence of the third key at
/// position `j`: `Z{j-1}` produces its keystream byte and agrees with what
/// `Zj` gives for its bits `[8,32)`.
pub open spec fn z_link(f: Lists, k: Known, j: int) -> bool {
    &&& keystream_byte(f.z[j - 1]) == k.keystream[k.index + j - 1]
    &&& f.z[j - 1] & MASK_8_32 == crc32inv_spec(f.z[j], 0) & MASK_8_32
}

/// Whether the top byte of `Yj` in `f` is the byte that leads from `Z{j-1}` to `Zj`.
pub open spec fn y_top_link(f: Lists, j: int) -> bool {
    msb_spec(f.y[j]) == lsb_spec(crc32inv_spec(f.z[j], 0) ^ f.z[j - 1])
}

/// Whether `f` keeps of `s` what a completion of the Y-list from position `i`
/// leaves in place, and follows the recurrence of the second key below.
pub open spec fn y_reached(s: Lists, f: Lists, k: Known, i: int) -> bool {
    &&& shaped(f)
    &&& f.z == s.z
    &&& forall|j: int| i <= j < 12 ==> #[trigger] f.y[j] == s.y[j]
    &&& forall|j: int| 2 <= j < 12 ==> msb_spec(#[trigger] f.y[j]) == msb_spec(s.y[j])
    &&& forall|j: int| i < j < 12 ==> lsb_spec(#[trigger] f.x[j]) == lsb_spec(s.x[j])
    &&& forall|j: int| 4 <= j <= i ==> #[trigger] y_link(f, j)
    &&& x_accepts(f, k)
}

/// Whether `f` keeps of `s` what a search from position `i` of the Z-list
/// leaves in place, and follows the recurrences of the second and third keys
/// below.
pub open spec fn z_reached(s: Lists, f: Lists, k: Known, i: int) -> bool {
    &&& shaped(f)
    &&& forall|j: int| i < j < 12 ==> #[trigger] f.z[j] == s.z[j]
    &&& 0 <= i < 12 ==> f.z[i] & MASK_2_32 == s.z[i] & MASK_2_32
    &&& forall|j: int| 1 <= j <= i ==> #[trigger] z_link(f, k, j)
    &&& forall|j: int| 2 <= j < 12 && j <= i + 1 ==> #[trigger] y_top_link(f, j)
    &&& forall|j: int| i + 2 <= j < 12 ==> msb_spec(#[trigger] f.y[j]) == msb_spec(s.y[j])
    &&& forall|j: int| 4 <= j < 12 ==> #[trigger] y_link(f, j)
    &&& x_accepts(f, k)
}

/// The low byte of a word that holds a byte, and of a rebuilt first key.
proof fn lemma_low_bytes(g: u8, a: u32, b: u32)
    by (bit_vector)
    ensures
        lsb_spec(g as u32) == g,
        lsb_spec((a & MASK_8_32) | (lsb_spec(b) as u32)) == lsb_spec(b),
{
}

/// An accepted completion of the Y-list keeps what it found in place and
/// follows the recurrence of the second key at every position that it filled.
pub proof fn lemma_y_reached(s: Lists, f: Lists, k: Known, i: int)
    requires
        shaped(s),
        3 <= i <= 11,
        y_reachable(s, f, k, i),
    ensures
        y_reached(s, f, k, i),
    decreases i,
{
    if i <= 3 {
        lemma_low_bytes(0, crc32_spec(s.x[4], k.plaintext[k.index + 4]), s.x[5]);
        lemma_low_bytes(0, crc32_spec(f.x[5], k.plaintext[k.index + 5]), s.x[6]);
        lemma_low_bytes(0, crc32_spec(f.x[6], k.plaintext[k.index + 6]), s.x[7]);
    } else {
        let g = choose|g: u8| #[trigger] y_accepts(s, i, g) && y_reachable(y_assign(s, i, g), f, k, i - 1);
        let t = y_assign(s, i, g);
        lemma_y_reached(t, f, k, i - 1);
        lemma_low_bytes(g, 0, 0);
        assert(f.y[i - 1] == t.y[i - 1]);
        assert(f.y[i] == t.y[i]);
        assert(lsb_spec(f.x[i]) == lsb_spec(t.x[i]));
        assert(y_link(f, i));
        assert forall|j: int| i <= j < 12 implies #[trigger] f.y[j] == s.y[j] by {
            assert(f.y[j] == t.y[j]);
        }
        assert forall|j: int| 2 <= j < 12 implies msb_spec(#[trigger] f.y[j]) == msb_spec(s.y[j]) by {
            assert(msb_spec(f.y[j]) == msb_spec(t.y[j]));
            if j == i - 1 {
                reveal(y_accepts);
            }
        }
        assert forall|j: int| i < j < 12 implies lsb_spec(#[trigger] f.x[j]) == lsb_spec(s.x[j]) by {
            assert(lsb_spec(f.x[j]) == lsb_spec(t.x[j]));
        }
        assert forall|j: int| 4 <= j <= i implies #[trigger] y_link(f, j) by {
            if j < i {
                assert(y_link(f, j));
            }
        }
    }
}

/// What writing a candidate for `Z{i-1}[2,16)` fixes between `Z{i-1}`, `Zi`
/// and the word above; `t` and `u` stand for entries of the inverse table.
#[verifier::rlimit(40)]
proof fn lemma_z_written(z: u32, v: u32, t: u32, above: u32, u: u32, w: u32)
    by (bit_vector)
    requires
        is_zi_2_16(v),
        ((v & MASK_0_16) >> 10) == (((((z << 8) ^ t ^ 0u32) & MASK_10_32) & MASK_0_16) >> 10),
    ensures
        ({
            let zim1 = (((z << 8) ^ t ^ 0u32) & MASK_10_32) | v;
            let zi_2_32 = z & MASK_2_32;
            let zi = zi_2_32 | ((((zi_2_32 << 8) ^ t ^ 0u32) ^ zim1) >> 8);
            &&& zi & MASK_2_32 == z & MASK_2_32
            &&& msb_spec(zi) == msb_spec(z)
            &&& msb_spec(zi_2_32) == msb_spec(z)
            &&& zim1 & MASK_8_32 == ((zi << 8) ^ t ^ 0u32) & MASK_8_32
            &&& zim1 & 3 == 0
            &&& zim1 & MASK_0_16 == v
            &&& (w & MASK_2_32 == zim1 & MASK_2_32 ==> w & MASK_8_32 == zim1 & MASK_8_32 && w
                & 0xfffc == v & 0xfffc)
            &&& msb_spec((((above << 8) ^ u ^ 0u32) ^ zi) << 24) == lsb_spec(
                ((above << 8) ^ u ^ 0u32) ^ zi,
            )
        }),
{
}

/// An accepted completion keeps what it found in place, and follows the
/// recurrences of the second and third keys at every position that it filled.
pub proof fn lemma_z_reached(s: Lists, f: Lists, k: Known, i: int)
    requires
        shaped(s),
        0 <= i <= 11,
        z_reachable(s, f, k, i),
    ensures
        z_reached(s, f, k, i),
    decreases i,
{
    if i <= 0 {
        let y11 = choose|y11: u32| #[trigger] y11_accepts(s, y11) && y_reachable(y11_assign(s, y11), f, k, 11);
        let t = y11_assign(s, y11);
        lemma_y_reached(t, f, k, 11);
        assert forall|j: int| 0 < j < 12 implies #[trigger] f.z[j] == s.z[j] by {}
        assert forall|j: int| 2 <= j < 12 implies msb_spec(#[trigger] f.y[j]) == msb_spec(s.y[j]) by {
            assert(msb_spec(f.y[j]) == msb_spec(t.y[j]));
            if j == 11 {
                reveal(y11_accepts);
                lemma_top_bytes(y11, s.y[11]);
            }
        }
        assert forall|j: int| 4 <= j < 12 implies #[trigger] y_link(f, j) by {
            assert(y_link(f, j));
        }
    } else {
        let v = choose|v: u32| #[trigger]
            z_candidates(s, k, i).contains(v) && z_reachable(z_assign(s, i, v), f, k, i - 1);
        let t = z_assign(s, i, v);
        lemma_z_reached(t, f, k, i - 1);
        let key = k.keystream[k.index + i - 1];
        lemma_zi_2_16_vector_members(key, zim1_10_32(s.z[i]), v);
        let above = if i < 11 { s.z[i + 1] } else { 0 };
        lemma_z_written(
            s.z[i],
            v,
            crc_inv_entry(msb_spec(s.z[i])),
            above,
            crc_inv_entry(msb_spec(above)),
            f.z[i - 1],
        );
        assert(f.z[i] == t.z[i]);
        assert(f.z[i - 1] & MASK_2_32 == t.z[i - 1] & MASK_2_32);
        lemma_keystream_window(f.z[i - 1], v);
        assert(z_link(f, k, i));
        assert forall|j: int| i < j < 12 implies #[trigger] f.z[j] == s.z[j] by {
            assert(f.z[j] == t.z[j]);
        }
        assert forall|j: int| 1 <= j <= i implies #[trigger] z_link(f, k, j) by {
            if j < i {
                assert(z_link(f, k, j));
            }
        }
        if i < 11 {
            assert(f.z[i + 1] == t.z[i + 1]);
            assert(msb_spec(f.y[i + 1]) == msb_spec(t.y[i + 1]));
            assert(y_top_link(f, i + 1));
        }
        assert forall|j: int| 2 <= j < 12 && j <= i + 1 implies #[trigger] y_top_link(f, j) by {
            if j <= i {
                assert(y_top_link(f, j));
            }
        }
        assert forall|j: int| i + 2 <= j < 12 implies msb_spec(#[trigger] f.y[j]) == msb_spec(
            s.y[j],
        ) by {
            assert(msb_spec(f.y[j]) == msb_spec(t.y[j]));
        }
        assert forall|j: int| 4 <= j < 12 implies #[trigger] y_link(f, j) by {
            assert(y_link(f, j));
        }
    }
}

/// Words that agree under the mask of the top byte have the same top byte.
proof fn lemma_top_bytes(a: u32, b: u32)
    by (bit_vector)
    requires
        a & crate::utils::MASK_24_32 == b & crate::utils::MASK_24_32,
    ensures
        msb_spec(a) == msb_spec(b),
{
}

/// The keys that the workspace `f` holds for position `7 + n` of the window:
/// its second and third keys, and the first key that follows from `X7`.
pub open spec fn keys_at(f: Lists, k: Known, n: int) -> KeyState {
    KeyState { x: x_forward(f.x[7], k, n), y: f.y[7 + n], z: f.z[7 + n] }
}

/// How the steps of the second and third keys follow from their links.
#[verifier::rlimit(40)]
proof fn lemma_links_forward(zn: u32, zp: u32, t: u32, yn: u32, yp: u32, l: u8)
    by (bit_vector)
    ensures
        zp & MASK_8_32 == ((zn << 8) ^ t ^ 0u32) & MASK_8_32 ==> (zn << 8) ^ t ^ (lsb_spec(
            ((zn << 8) ^ t ^ 0u32) ^ zp,
        ) as u32) == zp,
        yp == yn.wrapping_sub(1).wrapping_mul(MultTab::MULTINV).wrapping_sub(l as u32)
            ==> yp.wrapping_add(l as u32).wrapping_mul(MultTab::MULT).wrapping_add(1) == yn,
{
}

/// One step of the cipher leads from the keys of one position of an accepted
/// workspace to those of the next.
proof fn lemma_keys_step(f: Lists, k: Known, n: int)
    requires
        shaped(f),
        0 <= n < 4,
        x_accepts(f, k),
        z_link(f, k, 8 + n),
        y_top_link(f, 8 + n),
        y_link(f, 8 + n),
    ensures
        keystream_byte(keys_at(f, k, n).z) == k.keystream[k.index + 7 + n],
        update_spec(keys_at(f, k, n), k.plaintext[k.index + 7 + n]) == keys_at(f, k, n + 1),
{
    let j = 8 + n;
    let before = keys_at(f, k, n);
    let after = keys_at(f, k, n + 1);
    let p = k.plaintext[k.index + 7 + n];
    assert(crc32_spec(before.x, p) == after.x);
    assert(lsb_spec(after.x) == lsb_spec(f.x[j])) by {
        reveal(x_accepts);
    }
    let m = msb_spec(f.y[j]);
    lemma_links_forward(
        f.z[j],
        f.z[j - 1],
        crc_inv_entry(msb_spec(f.z[j])),
        f.y[j],
        f.y[j - 1],
        lsb_spec(f.x[j]),
    );
    assert(f.y[j - 1].wrapping_add(lsb_spec(f.x[j]) as u32).wrapping_mul(
        MultTab::MULT,
    ).wrapping_add(1) == f.y[j]) by {
        reveal(y_unstep);
    }
    assert(crc32inv_spec(f.z[j], m) == f.z[j - 1]);
    lemma_crc32_crc32inv(f.z[j], m);
}

/// The keys that an accepted completion holds for position 7 of the window
/// produce the keystream bytes of positions 7 to 10, and absorbing the
/// plaintext of these positions leads them through the second and third keys
/// that the completion holds for positions 8 to 11.
pub proof fn lemma_accepted_keys_fit(s: Lists, f: Lists, k: Known, i: int)
    requires
        shaped(s),
        8 <= i <= 11,
        z_reachable(s, f, k, 11),
    ensures
        keys_at(f, k, 0) == (KeyState { x: f.x[7], y: f.y[7], z: f.z[7] }),
        keystream_byte(keys_at(f, k, i - 8).z) == k.keystream[k.index + i - 1],
        update_spec(keys_at(f, k, i - 8), k.plaintext[k.index + i - 1]) == keys_at(f, k, i - 7),
{
    lemma_z_reached(s, f, k, 11);
    assert(z_link(f, k, i));
    assert(y_top_link(f, i));
    assert(y_link(f, i));
    lemma_keys_step(f, k, i - 8);
}

} // verus!
