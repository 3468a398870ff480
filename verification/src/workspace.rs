//! The workspace of the attack and what it means for a completed workspace to
//! be accepted.
//!
//! The attack completes three lists of twelve values each, one for every key,
//! by guessing a few bits at a time and filtering each guess: first the third
//! keys from `Z11` down to `Z0`, then `Y11`, then the second keys down to `Y3`
//! together with the low bytes of the first keys, and at last the first keys
//! themselves. The relations `y_reachable` and `z_reachable` say which
//! completions pass every filter.

use vstd::prelude::*;
use crate::crc32_tab::{crc32_spec, crc32inv_spec, zim1_10_32, yi_24_32};
use crate::keystream_tab::zi_2_16_vector;
use crate::mult_tab::{MultTab, multinv_spec};
use crate::utils::{lsb_spec, msb_spec, MASK_8_32, MASK_24_32, MASK_26_32, MASK_2_32, MAXDIFF_0_24,
    MAXDIFF_0_26};

verus! {

/// The three lists of the workspace: twelve consecutive values of each key,
/// as far as they are known.
pub struct Lists {
    /// The third keys `Z0..Z11`.
    pub z: Seq<u32>,
    /// The second keys `Y0..Y11`.
    pub y: Seq<u32>,
    /// The first keys `X0..X11`.
    pub x: Seq<u32>,
}

/// What the search reads and never changes.
pub struct Known {
    /// The keystream bytes under the known plaintext.
    pub keystream: Seq<u8>,
    /// The known plaintext.
    pub plaintext: Seq<u8>,
    /// The position in both of the first of the twelve values.
    pub index: int,
}

/// A workspace with nothing written to it.
pub open spec fn blank() -> Lists {
    Lists {
        z: Seq::new(12, |i: int| 0u32),
        y: Seq::new(12, |i: int| 0u32),
        x: Seq::new(12, |i: int| 0u32),
    }
}

/// Whether each list has its twelve entries.
pub open spec fn shaped(l: Lists) -> bool {
    l.z.len() == 12 && l.y.len() == 12 && l.x.len() == 12
}

/// `Y{i-1} + lsb(Xi)`, which `Yi` determines.
#[verifier::opaque]
pub open spec fn y_unstep(y: u32) -> u32 {
    y.wrapping_sub(1).wrapping_mul(MultTab::MULTINV)
}

/// The workspace after the upper bytes of `X5`, `X6` and `X7` have been computed
/// from `X4` and the plaintext, each keeping its guessed low byte.
pub open spec fn x_rebuilt(l: Lists, k: Known) -> Lists {
    let x5 = (crc32_spec(l.x[4], k.plaintext[k.index + 4]) & MASK_8_32) | (lsb_spec(l.x[5]) as u32);
    let x6 = (crc32_spec(x5, k.plaintext[k.index + 5]) & MASK_8_32) | (lsb_spec(l.x[6]) as u32);
    let x7 = (crc32_spec(x6, k.plaintext[k.index + 6]) & MASK_8_32) | (lsb_spec(l.x[7]) as u32);
    Lists { x: l.x.update(5, x5).update(6, x6).update(7, x7), ..l }
}

/// `X{7+n}`, computed forward from `X7` over the plaintext, for `n` up to 4.
pub open spec fn x_forward(x7: u32, k: Known, n: int) -> u32 {
    let x8 = crc32_spec(x7, k.plaintext[k.index + 7]);
    let x9 = crc32_spec(x8, k.plaintext[k.index + 8]);
    let x10 = crc32_spec(x9, k.plaintext[k.index + 9]);
    if n <= 0 {
        x7
    } else if n == 1 {
        x8
    } else if n == 2 {
        x9
    } else if n == 3 {
        x10
    } else {
        crc32_spec(x10, k.plaintext[k.index + 10])
    }
}

/// `X3`, computed backward from `X7` over the plaintext.
pub open spec fn x3_from(x7: u32, k: Known) -> u32 {
    let x6 = crc32inv_spec(x7, k.plaintext[k.index + 6]);
    let x5 = crc32inv_spec(x6, k.plaintext[k.index + 5]);
    let x4 = crc32inv_spec(x5, k.plaintext[k.index + 4]);
    crc32inv_spec(x4, k.plaintext[k.index + 3])
}

/// The final test of a complete workspace: the low bytes guessed for `X8..X11`
/// are those that follow from `X7`, and `X3` fits the known bits of `Y1`.
#[verifier::opaque]
pub open spec fn x_accepts(l: Lists, k: Known) -> bool {
    &&& lsb_spec(x_forward(l.x[7], k, 1)) == lsb_spec(l.x[8])
    &&& lsb_spec(x_forward(l.x[7], k, 2)) == lsb_spec(l.x[9])
    &&& lsb_spec(x_forward(l.x[7], k, 3)) == lsb_spec(l.x[10])
    &&& lsb_spec(x_forward(l.x[7], k, 4)) == lsb_spec(l.x[11])
    &&& y_unstep(y_unstep(l.y[3]).wrapping_sub(lsb_spec(x3_from(l.x[7], k)) as u32)).wrapping_sub(
        yi_24_32(l.z[1], l.z[0]) & MASK_26_32,
    ) <= MAXDIFF_0_26
}

/// Whether the byte `g`, guessed for `lsb(Xi)`, passes the filters of position `i`:
/// the value of `Y{i-1}` that it gives has the top byte already found for it,
/// and lies close enough above the top byte found for `Y{i-2}`.
#[verifier::opaque]
pub open spec fn y_accepts(l: Lists, i: int, g: u8) -> bool {
    let fy = y_unstep(l.y[i]);
    let ffy = y_unstep(fy);
    &&& ffy.wrapping_sub(multinv_spec(g)).wrapping_sub(l.y[i - 2] & MASK_24_32) <= MAXDIFF_0_24
    &&& msb_spec(fy.wrapping_sub(g as u32)) == msb_spec(l.y[i - 1])
}

/// The workspace after the guess `g` for `lsb(Xi)` has been written, with the
/// `Y{i-1}` that follows from it.
pub open spec fn y_assign(l: Lists, i: int, g: u8) -> Lists {
    Lists {
        y: l.y.update(i - 1, y_unstep(l.y[i]).wrapping_sub(g as u32)),
        x: l.x.update(i, g as u32),
        ..l
    }
}

/// Whether the completion of the Y-list that starts at position `i` on the
/// workspace `s` can end, accepted, with the workspace `f`: some byte passes the
/// filters of each position from `i` down to 4, and the workspace that these
/// guesses give passes the final test.
pub open spec fn y_reachable(s: Lists, f: Lists, k: Known, i: int) -> bool
    decreases i,
{
    if i <= 3 {
        f == x_rebuilt(s, k) && x_accepts(f, k)
    } else {
        exists|g: u8| #[trigger] y_accepts(s, i, g) && y_reachable(y_assign(s, i, g), f, k, i - 1)
    }
}

/// The values of `Z{i-1}[2,16)` worth trying at position `i`: those that produce
/// the keystream byte of position `i - 1` and agree with `Z{i-1}[10,32)`.
pub open spec fn z_candidates(l: Lists, k: Known, i: int) -> Seq<u32> {
    zi_2_16_vector(k.keystream[k.index + i - 1], zim1_10_32(l.z[i]))
}

/// The workspace after the guess `v` for `Z{i-1}[2,16)` has been written: it
/// completes `Z{i-1}[2,32)`, fixes the two low bits of `Zi`, and gives the top
/// byte of `Y{i+1}`.
pub open spec fn z_assign(l: Lists, i: int, v: u32) -> Lists {
    let zim1 = zim1_10_32(l.z[i]) | v;
    let zi_2_32 = l.z[i] & MASK_2_32;
    let zi = zi_2_32 | ((crc32inv_spec(zi_2_32, 0) ^ zim1) >> 8);
    Lists {
        z: l.z.update(i - 1, zim1).update(i, zi),
        y: if i < 11 {
            l.y.update(i + 1, yi_24_32(l.z[i + 1], zi))
        } else {
            l.y
        },
        x: l.x,
    }
}

/// Whether `y11` is a value for `Y11` worth exploring: it has the top byte
/// already found for `Y11`, and the `Y10 + lsb(X11)` that it gives lies close
/// enough above the top byte found for `Y10`.
#[verifier::opaque]
pub open spec fn y11_accepts(l: Lists, y11: u32) -> bool {
    &&& y11 & MASK_24_32 == l.y[11] & MASK_24_32
    &&& y_unstep(y11).wrapping_sub(l.y[10] & MASK_24_32) <= MAXDIFF_0_24
}

/// The workspace after `Y11` has been written.
pub open spec fn y11_assign(l: Lists, y11: u32) -> Lists {
    Lists { y: l.y.update(11, y11), ..l }
}

/// The workspace with `z11_2_32` written as `Z11`.
pub open spec fn seeded(l: Lists, z11_2_32: u32) -> Lists {
    Lists { z: l.z.update(11, z11_2_32), ..l }
}

/// Whether the search that starts at position `i` of the Z-list on the workspace
/// `s` can end, accepted, with the workspace `f`: some candidate completes each
/// `Z{j-1}` for `j` from `i` down to 1, some value of `Y11` is worth exploring,
/// and the completion of the Y-list from position 11 can end with `f`.
pub open spec fn z_reachable(s: Lists, f: Lists, k: Known, i: int) -> bool
    decreases i,
{
    if i <= 0 {
        exists|y11: u32| #[trigger]
            y11_accepts(s, y11) && y_reachable(y11_assign(s, y11), f, k, 11)
    } else {
        exists|v: u32| #[trigger]
            z_candidates(s, k, i).contains(v) && z_reachable(z_assign(s, i, v), f, k, i - 1)
    }
}

} // verus!
