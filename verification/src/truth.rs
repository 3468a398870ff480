//! The attack does not miss the keys: where the texts come from a run of the
//! cipher, the candidate that the run gives survives the reduction, and the
//! attack accepts it.

use vstd::prelude::*;
use crate::crc32_tab::{crc32_spec, crc32inv_spec, crc_inv_entry, crc_entry, zim1_10_32, yi_24_32,
    lemma_crc32inv_crc32};
use crate::data::Data;
use crate::keys::{KeyState, update_spec, state_after, deciphered, rewind,
    lemma_deciphered_next, lemma_rewind_state_after};
use crate::keystream_tab::{keystream_byte, is_zi_2_16, bucket_of, lemma_zi_2_16_vector_members};
use crate::mult_tab::{MultTab, multinv_spec};
use crate::search::{z_first, lemma_z_first_finds};
use crate::utils::{lsb_spec, msb_spec, MASK_0_16, MASK_10_32, MASK_8_32, MASK_24_32, MASK_26_32,
    MASK_2_32, MAXDIFF_0_24, MAXDIFF_0_26};
use crate::workspace::{Lists, Known, shaped, y_unstep, x_rebuilt, x_forward, x3_from, x_accepts,
    y_accepts, y_assign, y_reachable, z_candidates, z_assign, y11_accepts, y11_assign, z_reachable};
use crate::zreduction::{is_candidate, precedes};

verus! {

/// Whether the keys `st[j]` produce the keystream byte of position `j` and
/// become `st[j + 1]` by absorbing the plaintext byte of position `j`.
#[verifier::opaque]
pub open spec fn run_step(st: Seq<KeyState>, keystream: Seq<u8>, plaintext: Seq<u8>, j: int) -> bool {
    &&& keystream_byte(st[j].z) == keystream[j]
    &&& st[j + 1] == update_spec(st[j], plaintext[j])
}

/// Whether `st` lists the keys of a run of the cipher over the plaintext that
/// produces the keystream: the keys before each byte, and those after the last.
pub open spec fn is_run(st: Seq<KeyState>, keystream: Seq<u8>, plaintext: Seq<u8>) -> bool {
    &&& st.len() == keystream.len() + 1
    &&& plaintext.len() == keystream.len()
    &&& forall|j: int| 0 <= j < keystream.len() ==> #[trigger] run_step(st, keystream, plaintext, j)
}

/// What follows for the bits of two consecutive third keys `zp` and `zn` from
/// the step between them; `t` stands for the entry of the inverse table and `m`
/// for the top byte of the second key.
proof fn lemma_z_links(zn: u32, zp: u32, m: u8, t: u32, other: u32)
    requires
        (zn << 8) ^ t ^ (m as u32) == zp,
    ensures
        ((zn << 8) ^ t ^ 0u32) & MASK_10_32 == zp & MASK_10_32,
        ((zn << 8) ^ t ^ 0u32) & MASK_10_32 == (zp & MASK_2_32) & MASK_10_32,
        (zp & MASK_2_32) & 3 == 0,
        is_zi_2_16((zp & MASK_2_32) & MASK_0_16),
        (((zp & MASK_2_32) & MASK_0_16) & MASK_0_16) >> 10 == ((((zn << 8) ^ t ^ 0u32) & MASK_10_32)
            & MASK_0_16) >> 10,
        keystream_byte((zp & MASK_2_32) & MASK_0_16) == keystream_byte(zp),
        (((zn << 8) ^ t ^ 0u32) & MASK_10_32) | ((zp & MASK_2_32) & MASK_0_16) == zp & MASK_2_32,
        (zn & MASK_2_32) | (((((zn & MASK_2_32) << 8) ^ t ^ 0u32) ^ (zp & MASK_2_32)) >> 8) == zn,
        (((zn << 8) ^ t ^ 0u32) ^ zp) << 24 == (m as u32) << 24,
        ((((zn << 8) ^ t ^ 0u32) ^ (zp & MASK_2_32)) << 24) & MASK_26_32 == ((m as u32) << 24)
            & MASK_26_32,
        other & MASK_2_32 == zn & MASK_2_32 ==> msb_spec(other) == msb_spec(zn) && ((other << 8) ^ t
            ^ 0u32) & MASK_10_32 == ((zn << 8) ^ t ^ 0u32) & MASK_10_32 && other & MASK_2_32 == (
        other & MASK_2_32) & MASK_2_32 && msb_spec(other & MASK_2_32) == msb_spec(zn) && (other
            & MASK_2_32) | (((((other & MASK_2_32) << 8) ^ t ^ 0u32) ^ (zp & MASK_2_32)) >> 8)
            == zn,
        msb_spec(zn & MASK_2_32) == msb_spec(zn),
        (zn & MASK_2_32) & MASK_2_32 == zn & MASK_2_32,
{
    lemma_z_links_before(zn, zp, m, t);
    lemma_z_links_after(zn, zp, m, t, other);
}

/// The part of `lemma_z_links` on the key before the step.
#[verifier::rlimit(40)]
proof fn lemma_z_links_before(zn: u32, zp: u32, m: u8, t: u32)
    by (bit_vector)
    requires
        (zn << 8) ^ t ^ (m as u32) == zp,
    ensures
        ((zn << 8) ^ t ^ 0u32) & MASK_10_32 == zp & MASK_10_32,
        ((zn << 8) ^ t ^ 0u32) & MASK_10_32 == (zp & MASK_2_32) & MASK_10_32,
        (zp & MASK_2_32) & 3 == 0,
        is_zi_2_16((zp & MASK_2_32) & MASK_0_16),
        (((zp & MASK_2_32) & MASK_0_16) & MASK_0_16) >> 10 == ((((zn << 8) ^ t ^ 0u32) & MASK_10_32)
            & MASK_0_16) >> 10,
        (((zn << 8) ^ t ^ 0u32) & MASK_10_32) | ((zp & MASK_2_32) & MASK_0_16) == zp & MASK_2_32,
        (((zn << 8) ^ t ^ 0u32) ^ zp) << 24 == (m as u32) << 24,
        ((((zn << 8) ^ t ^ 0u32) ^ (zp & MASK_2_32)) << 24) & MASK_26_32 == ((m as u32) << 24)
            & MASK_26_32,
        keystream_byte((zp & MASK_2_32) & MASK_0_16) == keystream_byte(zp),
{
}

/// The part of `lemma_z_links` on the key after the step.
#[verifier::rlimit(40)]
proof fn lemma_z_links_after(zn: u32, zp: u32, m: u8, t: u32, other: u32)
    by (bit_vector)
    requires
        (zn << 8) ^ t ^ (m as u32) == zp,
    ensures
        (zn & MASK_2_32) | (((((zn & MASK_2_32) << 8) ^ t ^ 0u32) ^ (zp & MASK_2_32)) >> 8) == zn,
        other & MASK_2_32 == zn & MASK_2_32 ==> msb_spec(other) == msb_spec(zn) && ((other << 8) ^ t
            ^ 0u32) & MASK_10_32 == ((zn << 8) ^ t ^ 0u32) & MASK_10_32 && other & MASK_2_32 == (
        other & MASK_2_32) & MASK_2_32 && msb_spec(other & MASK_2_32) == msb_spec(zn) && (other
            & MASK_2_32) | (((((other & MASK_2_32) << 8) ^ t ^ 0u32) ^ (zp & MASK_2_32)) >> 8)
            == zn,
        msb_spec(zn & MASK_2_32) == msb_spec(zn),
        (zn & MASK_2_32) & MASK_2_32 == zn & MASK_2_32,
{
}

/// What one step of the cipher tells about its third key: the value after
/// the step fixes the value before it but for its low byte.
pub proof fn lemma_z_step(before: KeyState, p: u8, other: u32)
    ensures
        ({
            let after = update_spec(before, p);
            let low = (before.z & MASK_2_32) & MASK_0_16;
            &&& crc32inv_spec(after.z, msb_spec(after.y)) == before.z
            &&& precedes(before.z & MASK_2_32, after.z)
            &&& (before.z & MASK_2_32) & 3 == 0
            &&& (after.z & MASK_2_32) & MASK_2_32 == after.z & MASK_2_32
            &&& keystream_byte(before.z & MASK_2_32) == keystream_byte(before.z)
            &&& other & MASK_2_32 == after.z & MASK_2_32 ==> {
                &&& zim1_10_32(other) == (before.z & MASK_2_32) & MASK_10_32
                &&& is_zi_2_16(low)
                &&& bucket_of(low) == bucket_of(zim1_10_32(other))
                &&& keystream_byte(low) == keystream_byte(before.z)
                &&& zim1_10_32(other) | low == before.z & MASK_2_32
                &&& (other & MASK_2_32) | ((crc32inv_spec(other & MASK_2_32, 0) ^ (before.z
                    & MASK_2_32)) >> 8) == after.z
            }
            &&& yi_24_32(after.z, before.z) == (msb_spec(after.y) as u32) << 24
            &&& yi_24_32(after.z, before.z & MASK_2_32) & MASK_26_32 == ((msb_spec(after.y) as u32)
                << 24) & MASK_26_32
        }),
{
    let after = update_spec(before, p);
    let m = msb_spec(after.y);
    lemma_crc32inv_crc32(before.z, m);
    let t = crc_inv_entry(msb_spec(after.z));
    lemma_z_links(after.z, before.z, m, t, other);
    lemma_low_window(before.z);
}

/// The two low bits of the third key have no part in the keystream byte.
#[verifier::rlimit(40)]
proof fn lemma_low_window(z: u32)
    by (bit_vector)
    ensures
        keystream_byte(z & MASK_2_32) == keystream_byte(z),
{
}

/// What follows for two consecutive second keys from the step between them,
/// and how a word relates to its top byte.
#[verifier::rlimit(40)]
proof fn lemma_y_links(yp: u32, l: u8, g: u8, fy: u32, m: u8)
    by (bit_vector)
    ensures
        yp.wrapping_add(l as u32).wrapping_mul(MultTab::MULT).wrapping_add(1).wrapping_sub(
            1,
        ).wrapping_mul(MultTab::MULTINV) == yp.wrapping_add(l as u32),
        yp.wrapping_add(l as u32).wrapping_sub(l as u32) == yp,
        yp.wrapping_add(l as u32).wrapping_sub(yp & MASK_24_32) <= MAXDIFF_0_24,
        yp.wrapping_add(l as u32).wrapping_sub(yp & MASK_26_32) <= MAXDIFF_0_26,
        fy.wrapping_sub(1).wrapping_mul(MultTab::MULTINV).wrapping_sub(multinv_spec(g))
            == fy.wrapping_sub(g as u32).wrapping_sub(1).wrapping_mul(MultTab::MULTINV),
        yp & MASK_24_32 == (msb_spec(yp) as u32) << 24,
        msb_spec((m as u32) << 24) == m,
        ((m as u32) << 24) & MASK_24_32 == (m as u32) << 24,
        msb_spec(yp) == m ==> yp & MASK_26_32 == ((m as u32) << 24) & MASK_26_32,
        lsb_spec(l as u32) == l,
{
}

/// What one step of the cipher tells about its second key: undoing the step
/// gives the value before it plus the low byte of the first key after it.
pub proof fn lemma_y_step(before: KeyState, p: u8)
    ensures
        ({
            let after = update_spec(before, p);
            let l = lsb_spec(after.x);
            &&& y_unstep(after.y) == before.y.wrapping_add(l as u32)
            &&& y_unstep(after.y).wrapping_sub(l as u32) == before.y
            &&& y_unstep(after.y).wrapping_sub(before.y & MASK_24_32) <= MAXDIFF_0_24
            &&& y_unstep(after.y).wrapping_sub(before.y & MASK_26_32) <= MAXDIFF_0_26
        }),
{
    reveal(y_unstep);
    let after = update_spec(before, p);
    lemma_y_links(before.y, lsb_spec(after.x), 0, 0, 0);
}

/// What a step of a run tells about the first key.
proof fn lemma_run_x(st: Seq<KeyState>, keystream: Seq<u8>, plaintext: Seq<u8>, j: int)
    requires
        is_run(st, keystream, plaintext),
        0 <= j < keystream.len(),
    ensures
        st[j + 1].x == crc32_spec(st[j].x, plaintext[j]),
        crc32inv_spec(st[j + 1].x, plaintext[j]) == st[j].x,
{
    assert(run_step(st, keystream, plaintext, j));
    reveal(run_step);
    lemma_crc32inv_crc32(st[j].x, plaintext[j]);
}

/// What a step of a run tells about the second key.
proof fn lemma_run_y(st: Seq<KeyState>, keystream: Seq<u8>, plaintext: Seq<u8>, j: int)
    requires
        is_run(st, keystream, plaintext),
        0 <= j < keystream.len(),
    ensures
        y_unstep(st[j + 1].y) == st[j].y.wrapping_add(lsb_spec(st[j + 1].x) as u32),
        y_unstep(st[j + 1].y).wrapping_sub(lsb_spec(st[j + 1].x) as u32) == st[j].y,
        y_unstep(st[j + 1].y).wrapping_sub(st[j].y & MASK_24_32) <= MAXDIFF_0_24,
        y_unstep(st[j + 1].y).wrapping_sub(st[j].y & MASK_26_32) <= MAXDIFF_0_26,
{
    assert(run_step(st, keystream, plaintext, j));
    reveal(run_step);
    lemma_y_step(st[j], plaintext[j]);
}

/// What a step of a run tells about the third key.
proof fn lemma_run_z(st: Seq<KeyState>, keystream: Seq<u8>, plaintext: Seq<u8>, j: int, other: u32)
    requires
        is_run(st, keystream, plaintext),
        0 <= j < keystream.len(),
    ensures
        ({
            let after = st[j + 1];
            let before = st[j];
            let low = (before.z & MASK_2_32) & MASK_0_16;
            &&& keystream_byte(before.z) == keystream[j]
            &&& precedes(before.z & MASK_2_32, after.z)
            &&& (before.z & MASK_2_32) & 3 == 0
            &&& (after.z & MASK_2_32) & MASK_2_32 == after.z & MASK_2_32
            &&& (before.z & MASK_2_32) & MASK_2_32 == before.z & MASK_2_32
            &&& keystream_byte(before.z & MASK_2_32) == keystream_byte(before.z)
            &&& other & MASK_2_32 == after.z & MASK_2_32 ==> {
                &&& zim1_10_32(other) == (before.z & MASK_2_32) & MASK_10_32
                &&& is_zi_2_16(low)
                &&& bucket_of(low) == bucket_of(zim1_10_32(other))
                &&& keystream_byte(low) == keystream_byte(before.z)
                &&& zim1_10_32(other) | low == before.z & MASK_2_32
                &&& (other & MASK_2_32) | ((crc32inv_spec(other & MASK_2_32, 0) ^ (before.z
                    & MASK_2_32)) >> 8) == after.z
            }
            &&& yi_24_32(after.z, before.z) == (msb_spec(after.y) as u32) << 24
            &&& yi_24_32(after.z, before.z & MASK_2_32) & MASK_26_32 == ((msb_spec(after.y) as u32)
                << 24) & MASK_26_32
        }),
{
    assert(run_step(st, keystream, plaintext, j));
    reveal(run_step);
    lemma_z_step(st[j], plaintext[j], other);
    lemma_mask_twice(st[j].z);
}

/// The value that a run gives for `Zi[2,32)` is consistent with the keystream
/// from position `i` on.
pub proof fn lemma_run_gives_candidate(
    st: Seq<KeyState>,
    keystream: Seq<u8>,
    plaintext: Seq<u8>,
    i: int,
)
    requires
        is_run(st, keystream, plaintext),
        0 <= i < keystream.len(),
    ensures
        is_candidate(keystream, i, st[i].z & MASK_2_32),
    decreases keystream.len() - i,
{
    lemma_run_z(st, keystream, plaintext, i, 0);
    if i + 1 < keystream.len() {
        lemma_run_gives_candidate(st, keystream, plaintext, i + 1);
        let next = st[i + 1].z & MASK_2_32;
        lemma_run_z(st, keystream, plaintext, i, next);
        assert(precedes(st[i].z & MASK_2_32, next));
    }
}

/// Whether the workspace `s`, at position `i` of the Z-list, holds what the
/// run gives: the third keys above position `i`, the bits `[2,32)` of the one at
/// position `i`, and the top bytes of the second keys from position `i + 2` on.
pub open spec fn z_true(s: Lists, st: Seq<KeyState>, k: Known, i: int) -> bool {
    &&& shaped(s)
    &&& forall|j: int| i < j < 12 ==> #[trigger] s.z[j] == st[k.index + j].z
    &&& 1 <= i < 12 ==> s.z[i] & MASK_2_32 == st[k.index + i].z & MASK_2_32
    &&& i == 0 ==> s.z[0] == st[k.index].z & MASK_2_32
    &&& forall|j: int|
        i + 2 <= j < 12 ==> #[trigger] s.y[j] == (msb_spec(st[k.index + j].y) as u32) << 24
}

/// Whether the workspace `s`, at position `i` of the Y-list, holds what the
/// run gives: the third keys, the second keys from position `i` on and the top
/// bytes of those from position 2 on, and the low bytes of the first keys above
/// position `i`.
pub open spec fn y_true(s: Lists, st: Seq<KeyState>, k: Known, i: int) -> bool {
    &&& shaped(s)
    &&& forall|j: int| 1 <= j < 12 ==> #[trigger] s.z[j] == st[k.index + j].z
    &&& s.z[0] == st[k.index].z & MASK_2_32
    &&& forall|j: int| i <= j < 12 ==> #[trigger] s.y[j] == st[k.index + j].y
    &&& forall|j: int| 2 <= j < i ==> msb_spec(#[trigger] s.y[j]) == msb_spec(st[k.index + j].y)
    &&& forall|j: int| i < j < 12 ==> #[trigger] s.x[j] == lsb_spec(st[k.index + j].x) as u32
}

/// Whether the window of the workspace lies within the run.
pub open spec fn in_run(st: Seq<KeyState>, k: Known) -> bool {
    &&& is_run(st, k.keystream, k.plaintext)
    &&& 0 <= k.index
    &&& k.index + 12 <= k.keystream.len()
}

/// The candidate that the run gives passes at position `i` of the Z-list, and
/// leaves a workspace that holds what the run gives at the position below.
proof fn lemma_z_true_step(s: Lists, st: Seq<KeyState>, k: Known, i: int)
    requires
        in_run(st, k),
        1 <= i <= 11,
        z_true(s, st, k, i),
    ensures
        ({
            let v = (st[k.index + i - 1].z & MASK_2_32) & MASK_0_16;
            &&& z_candidates(s, k, i).contains(v)
            &&& z_true(z_assign(s, i, v), st, k, i - 1)
        }),
{
    let b = k.index;
    let before = st[b + i - 1];
    let after = st[b + i];
    lemma_run_z(st, k.keystream, k.plaintext, b + i - 1, s.z[i]);
    let v = (before.z & MASK_2_32) & MASK_0_16;
    lemma_zi_2_16_vector_members(k.keystream[b + i - 1], zim1_10_32(s.z[i]), v);
    let t = z_assign(s, i, v);
    assert(t.z[i] == after.z);
    assert(t.z[i - 1] == before.z & MASK_2_32);
    if i < 11 {
        assert(s.z[i + 1] == st[b + i + 1].z);
        lemma_run_z(st, k.keystream, k.plaintext, b + i, 0);
        assert(t.y[i + 1] == (msb_spec(st[b + i + 1].y) as u32) << 24);
    }
    assert forall|j: int| i - 1 < j < 12 implies #[trigger] t.z[j] == st[b + j].z by {
        if j > i {
            assert(s.z[j] == st[b + j].z);
        }
    }
    assert forall|j: int| i + 1 <= j < 12 implies #[trigger] t.y[j] == (msb_spec(st[b + j].y) as u32)
        << 24 by {
        if j > i + 1 {
            assert(s.y[j] == (msb_spec(st[b + j].y) as u32) << 24);
        }
    }
}

/// Clearing the two low bits twice is clearing them once.
pub proof fn lemma_mask_twice(z: u32)
    by (bit_vector)
    ensures
        (z & MASK_2_32) & MASK_2_32 == z & MASK_2_32,
{
}

/// The byte that the run gives for `lsb(Xi)` passes the filters of position
/// `i` of the Y-list, and leaves a workspace that holds what the run gives at
/// the position below.
proof fn lemma_y_true_step(s: Lists, st: Seq<KeyState>, k: Known, i: int)
    requires
        in_run(st, k),
        4 <= i <= 11,
        y_true(s, st, k, i),
    ensures
        y_accepts(s, i, lsb_spec(st[k.index + i].x)),
        y_true(y_assign(s, i, lsb_spec(st[k.index + i].x)), st, k, i - 1),
{
    let b = k.index;
    let g = lsb_spec(st[b + i].x);
    lemma_run_y(st, k.keystream, k.plaintext, b + i - 1);
    lemma_run_y(st, k.keystream, k.plaintext, b + i - 2);
    assert(s.y[i] == st[b + i].y);
    assert(msb_spec(s.y[i - 1]) == msb_spec(st[b + i - 1].y));
    assert(msb_spec(s.y[i - 2]) == msb_spec(st[b + i - 2].y));
    let fy = y_unstep(s.y[i]);
    assert(fy.wrapping_sub(g as u32) == st[b + i - 1].y);
    assert(y_unstep(fy).wrapping_sub(multinv_spec(g)) == y_unstep(st[b + i - 1].y)) by {
        reveal(y_unstep);
        lemma_y_links(0, 0, g, fy, 0);
    }
    assert(s.y[i - 2] & MASK_24_32 == st[b + i - 2].y & MASK_24_32) by {
        lemma_y_links(s.y[i - 2], 0, 0, 0, 0);
        lemma_y_links(st[b + i - 2].y, 0, 0, 0, 0);
    }
    assert(y_accepts(s, i, g)) by {
        reveal(y_accepts);
    }
    let t = y_assign(s, i, g);
    assert forall|j: int| i - 1 <= j < 12 implies #[trigger] t.y[j] == st[b + j].y by {
        if j >= i {
            assert(s.y[j] == st[b + j].y);
        }
    }
    assert forall|j: int| 2 <= j < i - 1 implies msb_spec(#[trigger] t.y[j]) == msb_spec(
        st[b + j].y,
    ) by {
        assert(msb_spec(s.y[j]) == msb_spec(st[b + j].y));
    }
    assert forall|j: int| i - 1 < j < 12 implies #[trigger] t.x[j] == lsb_spec(st[b + j].x) as u32 by {
        if j > i {
            assert(s.x[j] == lsb_spec(st[b + j].x) as u32);
        }
    }
    assert forall|j: int| 1 <= j < 12 implies #[trigger] t.z[j] == st[b + j].z by {
        assert(s.z[j] == st[b + j].z);
    }
}

/// How many bytes of a first key are known after each of the three steps that
/// rebuild `X5`, `X6` and `X7` from the low byte of `X4`; `t1` and `t` stand for
/// entries of the forward table.
#[verifier::rlimit(40)]
proof fn lemma_x_links(x4: u32, t1: u32, l5: u8, a: u32, b: u32, t: u32, l: u8, v: u32)
    by (bit_vector)
    ensures
        lsb_spec(lsb_spec(x4) as u32) == lsb_spec(x4),
        (lsb_spec(x4) as u32) >> 8 == 0,
        ((((0u32 ^ t1) & MASK_8_32) | (l5 as u32)) & MASK_24_32) == ((x4 >> 8) ^ t1) & MASK_24_32,
        lsb_spec((v & MASK_8_32) | (l as u32)) == l,
        a & MASK_24_32 == b & MASK_24_32 ==> ((((a >> 8) ^ t) & MASK_8_32) | (l as u32))
            & 0xffff_0000 == ((b >> 8) ^ t) & 0xffff_0000,
        a & 0xffff_0000 == b & 0xffff_0000 ==> ((a >> 8) ^ t) & MASK_8_32 == ((b >> 8) ^ t)
            & MASK_8_32,
        v & MASK_8_32 == b & MASK_8_32 && l == lsb_spec(b) ==> (v & MASK_8_32) | (l as u32) == b,
{
}

/// A workspace that holds what the run gives passes the final test.
proof fn lemma_x_true(s: Lists, st: Seq<KeyState>, k: Known)
    requires
        in_run(st, k),
        y_true(s, st, k, 3),
    ensures
        x_accepts(x_rebuilt(s, k), k),
{
    let b = k.index;
    let f = x_rebuilt(s, k);
    let x4 = st[b + 4].x;
    let x5 = st[b + 5].x;
    let x6 = st[b + 6].x;
    let x7 = st[b + 7].x;
    lemma_run_x(st, k.keystream, k.plaintext, b + 3);
    lemma_run_x(st, k.keystream, k.plaintext, b + 4);
    lemma_run_x(st, k.keystream, k.plaintext, b + 5);
    lemma_run_x(st, k.keystream, k.plaintext, b + 6);
    lemma_run_x(st, k.keystream, k.plaintext, b + 7);
    lemma_run_x(st, k.keystream, k.plaintext, b + 8);
    lemma_run_x(st, k.keystream, k.plaintext, b + 9);
    lemma_run_x(st, k.keystream, k.plaintext, b + 10);
    assert(s.x[4] == lsb_spec(x4) as u32);
    assert(s.x[5] == lsb_spec(x5) as u32);
    assert(s.x[6] == lsb_spec(x6) as u32);
    assert(s.x[7] == lsb_spec(x7) as u32);
    // X5: the top byte and the low byte are right
    let t1 = crc_entry(lsb_spec(x4) ^ k.plaintext[b + 4]);
    lemma_x_links(x4, t1, lsb_spec(x5), 0, 0, 0, lsb_spec(x5), 0);
    lemma_x_links(0, 0, 0, 0, 0, 0, lsb_spec(x5), crc32_spec(s.x[4], k.plaintext[b + 4]));
    lemma_x_links(x5, 0, 0, 0, 0, 0, 0, 0);
    assert(f.x[5] & MASK_24_32 == x5 & MASK_24_32);
    assert(lsb_spec(f.x[5]) == lsb_spec(x5));
    // X6: the two top bytes and the low byte are right
    let t2 = crc_entry(lsb_spec(x5) ^ k.plaintext[b + 5]);
    lemma_x_links(x6, 0, 0, f.x[5], x5, t2, lsb_spec(x6), crc32_spec(f.x[5], k.plaintext[b + 5]));
    lemma_x_links(x6, 0, 0, 0, 0, 0, 0, 0);
    assert(f.x[6] & 0xffff_0000 == x6 & 0xffff_0000);
    assert(lsb_spec(f.x[6]) == lsb_spec(x6));
    // X7: all of it is right
    let t3 = crc_entry(lsb_spec(x6) ^ k.plaintext[b + 6]);
    lemma_x_links(x7, 0, 0, f.x[6], x6, t3, lsb_spec(x7), crc32_spec(f.x[6], k.plaintext[b + 6]));
    lemma_x_links(x7, 0, 0, 0, x7, 0, lsb_spec(x7), crc32_spec(f.x[6], k.plaintext[b + 6]));
    assert(f.x[7] == x7);
    lemma_x_window(f, st, k);
}

/// A workspace that holds the right `X7`, the right low bytes above it and the
/// right `Y3`, `Z1` and `Z0[2,32)` passes the final test.
proof fn lemma_x_window(f: Lists, st: Seq<KeyState>, k: Known)
    requires
        in_run(st, k),
        shaped(f),
        f.x[7] == st[k.index + 7].x,
        forall|j: int| 8 <= j < 12 ==> #[trigger] f.x[j] == lsb_spec(st[k.index + j].x) as u32,
        f.y[3] == st[k.index + 3].y,
        f.z[1] == st[k.index + 1].z,
        f.z[0] == st[k.index].z & MASK_2_32,
    ensures
        x_accepts(f, k),
{
    let b = k.index;
    let x7 = st[b + 7].x;
    lemma_run_x(st, k.keystream, k.plaintext, b + 3);
    lemma_run_x(st, k.keystream, k.plaintext, b + 4);
    lemma_run_x(st, k.keystream, k.plaintext, b + 5);
    lemma_run_x(st, k.keystream, k.plaintext, b + 6);
    lemma_run_x(st, k.keystream, k.plaintext, b + 7);
    lemma_run_x(st, k.keystream, k.plaintext, b + 8);
    lemma_run_x(st, k.keystream, k.plaintext, b + 9);
    lemma_run_x(st, k.keystream, k.plaintext, b + 10);
    // forward from X7
    assert(x_forward(x7, k, 1) == st[b + 8].x);
    assert(x_forward(x7, k, 2) == st[b + 9].x);
    assert(x_forward(x7, k, 3) == st[b + 10].x);
    assert(x_forward(x7, k, 4) == st[b + 11].x);
    assert(f.x[8] == lsb_spec(st[b + 8].x) as u32);
    assert(f.x[9] == lsb_spec(st[b + 9].x) as u32);
    assert(f.x[10] == lsb_spec(st[b + 10].x) as u32);
    assert(f.x[11] == lsb_spec(st[b + 11].x) as u32);
    lemma_x_links(st[b + 8].x, 0, 0, 0, 0, 0, 0, 0);
    lemma_x_links(st[b + 9].x, 0, 0, 0, 0, 0, 0, 0);
    lemma_x_links(st[b + 10].x, 0, 0, 0, 0, 0, 0, 0);
    lemma_x_links(st[b + 11].x, 0, 0, 0, 0, 0, 0, 0);
    // backward from X7
    assert(x3_from(x7, k) == st[b + 3].x);
    // X3 fits with Y1[26,32)
    lemma_run_y(st, k.keystream, k.plaintext, b + 2);
    lemma_run_y(st, k.keystream, k.plaintext, b + 1);
    lemma_run_z(st, k.keystream, k.plaintext, b, 0);
    lemma_y_links(st[b + 1].y, 0, 0, 0, msb_spec(st[b + 1].y));
    assert(x_accepts(f, k)) by {
        reveal(x_accepts);
    }
}

/// From a workspace that holds what the run gives, the completion of the
/// Y-list can end accepted.
proof fn lemma_y_true_reaches(s: Lists, st: Seq<KeyState>, k: Known, i: int)
    requires
        in_run(st, k),
        3 <= i <= 11,
        y_true(s, st, k, i),
    ensures
        exists|f: Lists| y_reachable(s, f, k, i),
    decreases i,
{
    if i <= 3 {
        lemma_x_true(s, st, k);
        assert(y_reachable(s, x_rebuilt(s, k), k, i));
    } else {
        let g = lsb_spec(st[k.index + i].x);
        lemma_y_true_step(s, st, k, i);
        let below = i - 1;
        lemma_y_true_reaches(y_assign(s, i, g), st, k, below);
        let f = choose|f: Lists| y_reachable(y_assign(s, i, g), f, k, below);
        assert(y_reachable(s, f, k, i));
    }
}

/// From a workspace that holds what the run gives, the search can end accepted.
proof fn lemma_z_true_reaches(s: Lists, st: Seq<KeyState>, k: Known, i: int)
    requires
        in_run(st, k),
        0 <= i <= 11,
        z_true(s, st, k, i),
    ensures
        exists|f: Lists| z_reachable(s, f, k, i),
    decreases i,
{
    let b = k.index;
    if i <= 0 {
        let y11 = st[b + 11].y;
        lemma_run_y(st, k.keystream, k.plaintext, b + 10);
        assert(s.y[11] == (msb_spec(st[b + 11].y) as u32) << 24);
        assert(s.y[10] == (msb_spec(st[b + 10].y) as u32) << 24);
        lemma_y_links(y11, 0, 0, 0, msb_spec(y11));
        lemma_y_links(st[b + 10].y, 0, 0, 0, msb_spec(st[b + 10].y));
        assert(y11_accepts(s, y11)) by {
            reveal(y11_accepts);
        }
        let t = y11_assign(s, y11);
        assert forall|j: int| 1 <= j < 12 implies #[trigger] t.z[j] == st[b + j].z by {
            assert(s.z[j] == st[b + j].z);
        }
        assert forall|j: int| 2 <= j < 11 implies msb_spec(#[trigger] t.y[j]) == msb_spec(
            st[b + j].y,
        ) by {
            assert(s.y[j] == (msb_spec(st[b + j].y) as u32) << 24);
            lemma_y_links(0, 0, 0, 0, msb_spec(st[b + j].y));
        }
        lemma_y_true_reaches(t, st, k, 11);
        let f = choose|f: Lists| y_reachable(t, f, k, 11);
        assert(z_reachable(s, f, k, 0));
    } else {
        let v = (st[b + i - 1].z & MASK_2_32) & MASK_0_16;
        lemma_z_true_step(s, st, k, i);
        let below = i - 1;
        lemma_z_true_reaches(z_assign(s, i, v), st, k, below);
        let f = choose|f: Lists| z_reachable(z_assign(s, i, v), f, k, below);
        assert(z_reachable(s, f, k, i));
    }
}

/// The attack accepts the candidate that a run of the cipher gives: whatever
/// the workspace holds before, with the bits `[2,32)` of the third key of
/// position 11 as its seed the search finds an accepted completion.
pub proof fn lemma_run_is_accepted(s: Lists, st: Seq<KeyState>, k: Known, z11_2_32: u32)
    requires
        shaped(s),
        in_run(st, k),
        z11_2_32 & MASK_2_32 == st[k.index + 11].z & MASK_2_32,
    ensures
        z_first(crate::workspace::seeded(s, z11_2_32), k, 11) is Some,
{
    let seeded = crate::workspace::seeded(s, z11_2_32);
    assert(z_true(seeded, st, k, 11));
    lemma_z_true_reaches(seeded, st, k, 11);
    lemma_z_first_finds(seeded, k, 11);
}

/// The keys of the cipher along the plaintext of `data`, when it starts the
/// entry with the keys `start`: those before each plaintext byte, and those
/// after the last.
pub open spec fn run_of(data: &Data, start: KeyState) -> Seq<KeyState> {
    Seq::new(
        data.plain_text@.len() + 1,
        |j: int| state_after(start, data.cipher_text@.take(data.start() + j)),
    )
}

/// Whether the ciphertext of `data`, deciphered with the keys `start`, holds
/// the plaintext of `data` at its place.
pub open spec fn is_genuine(data: &Data, start: KeyState) -> bool {
    forall|j: int|
        0 <= j < data.plain_text@.len() ==> #[trigger] deciphered(start, data.cipher_text@)[data.start()
            + j] == data.plain_text@[j]
}

/// A plaintext byte and its ciphertext byte give the keystream byte between them.
proof fn lemma_xor_back(p: u8, c: u8, k: u8)
    by (bit_vector)
    requires
        c ^ k == p,
    ensures
        p ^ c == k,
{
}

/// The keys along a genuine text are a run of the cipher that produces its keystream.
pub proof fn lemma_genuine_run(data: &Data, start: KeyState)
    requires
        data.wf(),
        is_genuine(data, start),
    ensures
        is_run(run_of(data, start), data.keystream@, data.plain_text@),
{
    let st = run_of(data, start);
    let cipher = data.cipher_text@;
    let from = data.start();
    assert forall|j: int| 0 <= j < data.keystream@.len() implies #[trigger] run_step(
        st,
        data.keystream@,
        data.plain_text@,
        j,
    ) by {
        reveal(run_step);
        lemma_deciphered_next(start, cipher, from + j);
        let before = state_after(start, cipher.take(from + j));
        assert(deciphered(start, cipher)[from + j] == data.plain_text@[j]);
        lemma_xor_back(data.plain_text@[j], cipher[from + j], keystream_byte(before.z));
    }
}

/// Stepping backward from the keys that a run gives for a position, over all
/// the ciphertext before that position, leads to the keys at the start of the entry.
pub proof fn lemma_run_rewinds(data: &Data, start: KeyState, j: int)
    requires
        0 <= j <= data.plain_text@.len(),
        0 <= data.start(),
    ensures
        rewind(run_of(data, start)[j], data.cipher_text@.take(data.start() + j)) == start,
{
    lemma_rewind_state_after(start, data.cipher_text@.take(data.start() + j));
}

} // verus!
