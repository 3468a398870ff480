//! The order in which the attack tries its guesses, and the proof that trying
//! them in this order finds an accepted completion whenever there is one.

use vstd::prelude::*;
use crate::crc32_tab::{crc32_spec, zim1_10_32, crc_inv_entry};
use crate::keystream_tab::lemma_zi_2_16_vector_members;
use crate::mult_tab::{MultTab, multinv_spec, fiber2, fiber3, lemma_fiber2_complete,
    lemma_fiber3_complete};
use crate::utils::{lsb_spec, msb_spec, MASK_0_16, MASK_10_32, MASK_8_32, MASK_24_32, MASK_2_32,
    MAXDIFF_0_24};
use crate::workspace::{Lists, Known, shaped, y_unstep, x_rebuilt, x_accepts, y_accepts, y_assign,
    y_reachable, z_candidates, z_assign, y11_accepts, y11_assign, z_reachable};

verus! {

/// The top byte that selects the bytes worth guessing for `lsb(Xi)`.
pub open spec fn y_fiber_top(l: Lists, i: int) -> u8 {
    msb_spec(y_unstep(y_unstep(l.y[i])).wrapping_sub(l.y[i - 2] & MASK_24_32))
}

/// The value of `Y11` with low byte `b`, middle bytes `mid` and the top byte of the workspace.
pub open spec fn y11_candidate(l: Lists, mid: u32, b: u8) -> u32 {
    (b as u32) | (mid << 8) | (l.y[11] & MASK_24_32)
}

/// `(Y11[8,32) - 1) * MULTINV` for the middle bytes `mid` and the top byte of the workspace.
pub open spec fn y11_prod(l: Lists, mid: u32) -> u32 {
    y_unstep((mid << 8) | (l.y[11] & MASK_24_32))
}

/// The top byte that selects the bytes worth guessing for `Y11[0,8)`.
pub open spec fn y11_fiber_top(l: Lists, mid: u32) -> u8 {
    msb_spec(l.y[10]).wrapping_sub(msb_spec(y11_prod(l, mid)))
}

/// The first accepted completion of the Y-list from position `i` on the
/// workspace `s`, when the bytes listed for `lsb(Xi)` are tried in order from
/// the `j`-th on, and each byte that passes the filters is followed down before
/// the next is tried.
pub open spec fn y_search(s: Lists, k: Known, i: int, j: int) -> Option<Lists>
    decreases i, fiber2(y_fiber_top(s, i)).len() - j,
{
    if i <= 3 {
        let f = x_rebuilt(s, k);
        if x_accepts(f, k) {
            Some(f)
        } else {
            None
        }
    } else {
        let bytes = fiber2(y_fiber_top(s, i));
        if j < 0 || j >= bytes.len() {
            None
        } else {
            let below = if y_accepts(s, i, bytes[j]) {
                y_search(y_assign(s, i, bytes[j]), k, i - 1, 0)
            } else {
                None
            };
            if below is Some {
                below
            } else {
                y_search(s, k, i, j + 1)
            }
        }
    }
}

/// The first accepted completion of the workspace `s`, whose Z-list is
/// complete, when the values of `Y11` are tried in ascending order of their
/// middle bytes from `mid` on, and for each of them the bytes listed for the
/// low byte in order, from the `h`-th on for `mid` itself.
pub open spec fn y11_search(s: Lists, k: Known, mid: int, h: int) -> Option<Lists>
    decreases 65536 - mid, fiber3(y11_fiber_top(s, mid as u32)).len() - h,
{
    if mid < 0 || mid >= 65536 {
        None
    } else {
        let bytes = fiber3(y11_fiber_top(s, mid as u32));
        if h < 0 || h >= bytes.len() {
            y11_search(s, k, mid + 1, 0)
        } else {
            let y11 = y11_candidate(s, mid as u32, bytes[h]);
            let below = if y11_accepts(s, y11) {
                y_search(y11_assign(s, y11), k, 11, 0)
            } else {
                None
            };
            if below is Some {
                below
            } else {
                y11_search(s, k, mid, h + 1)
            }
        }
    }
}

/// The first accepted completion of the workspace `s` from position `i` of the
/// Z-list, when the candidates for `Z{i-1}[2,16)` are tried in order from the
/// `j`-th on, and each is followed down before the next is tried.
pub open spec fn z_search(s: Lists, k: Known, i: int, j: int) -> Option<Lists>
    decreases i, z_candidates(s, k, i).len() - j,
{
    if i <= 0 {
        y11_search(s, k, 0, 0)
    } else {
        let values = z_candidates(s, k, i);
        if j < 0 || j >= values.len() {
            None
        } else {
            let below = z_search(z_assign(s, i, values[j]), k, i - 1, 0);
            if below is Some {
                below
            } else {
                z_search(s, k, i, j + 1)
            }
        }
    }
}

/// The first accepted completion of the Y-list from position `i`.
pub open spec fn y_first(s: Lists, k: Known, i: int) -> Option<Lists> {
    y_search(s, k, i, 0)
}

/// The first accepted completion from position `i` of the Z-list.
pub open spec fn z_first(s: Lists, k: Known, i: int) -> Option<Lists> {
    z_search(s, k, i, 0)
}

/// Whether `t` agrees with `s` on everything that the completion of the Y-list
/// from position `i` reads or leaves in place.
pub open spec fn y_same(s: Lists, t: Lists, i: int) -> bool {
    &&& shaped(s)
    &&& shaped(t)
    &&& t.z == s.z
    &&& forall|j: int| 0 <= j < 12 ==> msb_spec(#[trigger] t.y[j]) == msb_spec(s.y[j])
    &&& forall|j: int| 0 <= j < 3 || i <= j < 12 ==> #[trigger] t.y[j] == s.y[j]
    &&& forall|j: int|
        0 <= j < 4 || (i < j < 12 && 7 < j) || (j == 4 && i == 3) ==> #[trigger] t.x[j] == s.x[j]
    &&& forall|j: int| 5 <= j <= 7 && i < j ==> lsb_spec(#[trigger] t.x[j]) == lsb_spec(s.x[j])
}

/// Words with the same top byte agree under the mask of that byte, and a low
/// byte put into a word can be read back.
proof fn lemma_bytes(a: u32, b: u32, g: u8)
    by (bit_vector)
    ensures
        msb_spec(a) == msb_spec(b) <==> a & MASK_24_32 == b & MASK_24_32,
        lsb_spec((a & MASK_8_32) | (lsb_spec(b) as u32)) == lsb_spec(b),
        lsb_spec(g as u32) == g,
{
}

/// Two subtractions can be done in either order.
proof fn lemma_sub_commutes(a: u32, b: u32, c: u32)
    ensures
        a.wrapping_sub(b).wrapping_sub(c) == a.wrapping_sub(c).wrapping_sub(b),
{
}

/// Workspaces that agree at position `i` of the Y-list list the same bytes
/// there, judge each guess alike, and agree at the position below once the
/// same guess is written to both.
pub proof fn lemma_y_same_step(s: Lists, t: Lists, i: int, g: u8)
    requires
        y_same(s, t, i),
        4 <= i <= 11,
    ensures
        y_accepts(s, i, g) == y_accepts(t, i, g),
        y_fiber_top(s, i) == y_fiber_top(t, i),
        y_same(y_assign(s, i, g), y_assign(t, i, g), i - 1),
{
    reveal(y_accepts);
    lemma_bytes(s.y[i - 2], t.y[i - 2], g);
    assert(msb_spec(t.y[i - 1]) == msb_spec(s.y[i - 1]));
    assert(msb_spec(t.y[i - 2]) == msb_spec(s.y[i - 2]));
    assert(t.y[i] == s.y[i]);
    let s1 = y_assign(s, i, g);
    let t1 = y_assign(t, i, g);
    assert forall|j: int| 0 <= j < 12 implies msb_spec(#[trigger] t1.y[j]) == msb_spec(
        s1.y[j],
    ) by {
        assert(msb_spec(t.y[j]) == msb_spec(s.y[j]));
    }
    assert forall|j: int| 5 <= j <= 7 && i - 1 < j implies lsb_spec(#[trigger] t1.x[j])
        == lsb_spec(s1.x[j]) by {
        if j != i {
            assert(lsb_spec(t.x[j]) == lsb_spec(s.x[j]));
        }
    }
}

/// The final test leaves a workspace that agrees with the one it started from.
pub proof fn lemma_y_same_rebuilt(s: Lists, k: Known)
    requires
        shaped(s),
    ensures
        y_same(s, x_rebuilt(s, k), 3),
{
    let t = x_rebuilt(s, k);
    lemma_bytes(crc32_spec(s.x[4], k.plaintext[k.index + 4]), s.x[5], 0);
    lemma_bytes(crc32_spec(t.x[5], k.plaintext[k.index + 5]), s.x[6], 0);
    lemma_bytes(crc32_spec(t.x[6], k.plaintext[k.index + 6]), s.x[7], 0);
}

/// A workspace left by a failed completion below position `i` of the Y-list
/// still agrees with the one that the completion at position `i` started from.
pub proof fn lemma_y_same_compose(s: Lists, t: Lists, u: Lists, i: int, g: u8)
    requires
        4 <= i <= 11,
        y_same(s, t, i),
        y_accepts(t, i, g),
        y_same(y_assign(t, i, g), u, i - 1),
    ensures
        y_same(s, u, i),
{
    let t1 = y_assign(t, i, g);
    reveal(y_accepts);
    assert forall|j: int| 0 <= j < 12 implies msb_spec(#[trigger] u.y[j]) == msb_spec(s.y[j]) by {
        assert(msb_spec(u.y[j]) == msb_spec(t1.y[j]));
        assert(msb_spec(t.y[j]) == msb_spec(s.y[j]));
    }
    assert forall|j: int| 0 <= j < 3 || i <= j < 12 implies #[trigger] u.y[j] == s.y[j] by {
        assert(u.y[j] == t1.y[j]);
        assert(t.y[j] == s.y[j]);
    }
    assert forall|j: int|
        0 <= j < 4 || (i < j < 12 && 7 < j) || (j == 4 && i == 3) implies #[trigger] u.x[j]
        == s.x[j] by {
        assert(u.x[j] == t1.x[j]);
        assert(t.x[j] == s.x[j]);
    }
    assert forall|j: int| 5 <= j <= 7 && i < j implies lsb_spec(#[trigger] u.x[j]) == lsb_spec(
        s.x[j],
    ) by {
        assert(lsb_spec(u.x[j]) == lsb_spec(t1.x[j]));
        assert(lsb_spec(t.x[j]) == lsb_spec(s.x[j]));
    }
}

/// No completion is accepted once every byte of the fiber has been tried in vain.
proof fn lemma_y_exhausted(s: Lists, k: Known, i: int, m: u8, below: int)
    requires
        4 <= i <= 11,
        below == i - 1,
        m == y_fiber_top(s, i),
        forall|f: Lists, h: int|
            0 <= h < fiber2(m).len() ==> !(y_accepts(s, i, fiber2(m)[h]) && #[trigger] y_reachable(
                y_assign(s, i, fiber2(m)[h]),
                f,
                k,
                below,
            )),
    ensures
        forall|f: Lists| !y_reachable(s, f, k, i),
{
    assert forall|f: Lists| !y_reachable(s, f, k, i) by {
        if y_reachable(s, f, k, i) {
            let g = choose|g: u8|
                #[trigger] y_accepts(s, i, g) && y_reachable(y_assign(s, i, g), f, k, i - 1);
            let ffy = y_unstep(y_unstep(s.y[i]));
            assert(ffy.wrapping_sub(s.y[i - 2] & MASK_24_32).wrapping_sub(multinv_spec(g))
                <= MAXDIFF_0_24) by {
                reveal(y_accepts);
                lemma_sub_commutes(ffy, multinv_spec(g), s.y[i - 2] & MASK_24_32);
            }
            assert(m == msb_spec(ffy.wrapping_sub(s.y[i - 2] & MASK_24_32)));
            lemma_fiber2_complete(ffy.wrapping_sub(s.y[i - 2] & MASK_24_32), g);
            let h = choose|h: int| 0 <= h < fiber2(m).len() && fiber2(m)[h] == g;
            assert(y_reachable(y_assign(s, i, fiber2(m)[h]), f, k, below));
        }
    }
}

/// Whether `t` agrees with `s` on everything that the search from position `i`
/// of the Z-list reads or leaves in place.
pub open spec fn z_same(s: Lists, t: Lists, i: int) -> bool {
    &&& shaped(s)
    &&& shaped(t)
    &&& forall|j: int| i < j < 12 ==> #[trigger] t.z[j] == s.z[j]
    &&& 0 <= i < 12 ==> t.z[i] & MASK_2_32 == s.z[i] & MASK_2_32
    &&& i == 0 ==> t.z[0] == s.z[0] && t.y[2] == s.y[2]
    &&& forall|j: int| i + 2 <= j < 12 ==> msb_spec(#[trigger] t.y[j]) == msb_spec(s.y[j])
    &&& t.y[0] == s.y[0]
    &&& t.y[1] == s.y[1]
    &&& forall|j: int| 0 <= j < 4 ==> #[trigger] t.x[j] == s.x[j]
}

/// How the running product of the search for `Y11` follows from the bytes of
/// `Y11`, and how a value of `Y11` splits into these bytes.
#[verifier::rlimit(40)]
proof fn lemma_y11_bits(y: u32, mid: u32, b: u8, y11: u32)
    by (bit_vector)
    ensures
        (multinv_spec(msb_spec(y)) << 24).wrapping_sub(MultTab::MULTINV) == ((0u32 << 8) | (y
            & MASK_24_32)).wrapping_sub(1).wrapping_mul(MultTab::MULTINV),
        mid < 65535 ==> ((((mid + 1) as u32) << 8) | (y & MASK_24_32)).wrapping_sub(
            1,
        ).wrapping_mul(MultTab::MULTINV) == ((mid << 8) | (y & MASK_24_32)).wrapping_sub(
            1,
        ).wrapping_mul(MultTab::MULTINV).wrapping_add(MultTab::MULTINV << 8),
        mid < 65536 ==> ((mid << 8) | (y & MASK_24_32)).wrapping_sub(1).wrapping_mul(
            MultTab::MULTINV,
        ).wrapping_add(multinv_spec(b)) == ((b as u32) | (mid << 8) | (y & MASK_24_32)).wrapping_sub(
            1,
        ).wrapping_mul(MultTab::MULTINV),
        mid < 65536 ==> ((b as u32) | (mid << 8) | (y & MASK_24_32)) & MASK_24_32 == y
            & MASK_24_32,
        (y11 >> 8) & 0xffff < 65536,
        y11 & MASK_24_32 == y & MASK_24_32 ==> y11 == (lsb_spec(y11) as u32) | (((y11 >> 8)
            & 0xffff) << 8) | (y & MASK_24_32),
{
}

/// The two low bits of `Zi` have no part in `Z{i-1}[10,32)`, and fixing them
/// leaves the other bits as they are; `t` stands for the entry of the inverse table.
#[verifier::rlimit(40)]
proof fn lemma_z_bits(a: u32, b: u32, t: u32, v: u32)
    by (bit_vector)
    ensures
        a & MASK_2_32 == b & MASK_2_32 ==> msb_spec(a) == msb_spec(b) && ((a << 8) ^ t ^ 0u32)
            & MASK_10_32 == ((b << 8) ^ t ^ 0u32) & MASK_10_32,
        (a & MASK_2_32) & MASK_2_32 == a & MASK_2_32,
        v & 3 == 0 && v <= 0xffff && ((v & MASK_0_16) >> 10) == (((((a << 8) ^ t ^ 0u32)
            & MASK_10_32) & MASK_0_16) >> 10) ==> ((a & MASK_2_32) | (((((a & MASK_2_32) << 8) ^ t
            ^ 0u32) ^ ((((a << 8) ^ t ^ 0u32) & MASK_10_32) | v)) >> 8)) & MASK_2_32 == a
            & MASK_2_32,
{
}

/// `Z{i-1}[10,32)` does not depend on the two low bits of `Zi`.
proof fn lemma_zim1_ignores_low_bits(a: u32, b: u32)
    requires
        a & MASK_2_32 == b & MASK_2_32,
    ensures
        zim1_10_32(a) == zim1_10_32(b),
        a & MASK_2_32 == (a & MASK_2_32) & MASK_2_32,
{
    lemma_z_bits(a, b, crc_inv_entry(msb_spec(a)), 0);
}

/// Fixing the two low bits of `Zi` leaves its other bits as they are.
pub proof fn lemma_refined_keeps_bits(l: Lists, k: Known, i: int, v: u32)
    requires
        1 <= i <= 11,
        shaped(l),
        z_candidates(l, k, i).contains(v),
    ensures
        z_assign(l, i, v).z[i] & MASK_2_32 == l.z[i] & MASK_2_32,
{
    let a = l.z[i];
    lemma_zi_2_16_vector_members(k.keystream[k.index + i - 1], zim1_10_32(a), v);
    lemma_z_bits(a, a & MASK_2_32, crc_inv_entry(msb_spec(a)), v);
    lemma_z_bits(a & MASK_2_32, a, crc_inv_entry(msb_spec(a)), v);
}

/// Workspaces that agree at position `i` of the Z-list have the same
/// candidates there, and agree at the position below once the same candidate is
/// written to both.
pub proof fn lemma_z_same_step(s: Lists, t: Lists, k: Known, i: int, v: u32)
    requires
        z_same(s, t, i),
        1 <= i <= 11,
    ensures
        z_candidates(s, k, i) == z_candidates(t, k, i),
        zim1_10_32(s.z[i]) == zim1_10_32(t.z[i]),
        z_same(z_assign(s, i, v), z_assign(t, i, v), i - 1),
{
    lemma_zim1_ignores_low_bits(s.z[i], t.z[i]);
    let s1 = z_assign(s, i, v);
    let t1 = z_assign(t, i, v);
    if i < 11 {
        assert(t.z[i + 1] == s.z[i + 1]);
    }
    assert(t1.z[i] == s1.z[i]);
    assert(t1.z[i - 1] == s1.z[i - 1]);
    assert forall|j: int| i - 1 < j < 12 implies #[trigger] t1.z[j] == s1.z[j] by {
        if j > i {
            assert(t.z[j] == s.z[j]);
        }
    }
    assert forall|j: int| i + 1 <= j < 12 implies msb_spec(#[trigger] t1.y[j]) == msb_spec(
        s1.y[j],
    ) by {
        if j > i + 1 {
            assert(msb_spec(t.y[j]) == msb_spec(s.y[j]));
        }
    }
    assert forall|j: int| 0 <= j < 4 implies #[trigger] t1.x[j] == s1.x[j] by {
        assert(t.x[j] == s.x[j]);
    }
}

/// Workspaces that agree once the Z-list is complete judge each value of `Y11`
/// alike, and agree at position 11 of the Y-list once the same value is written
/// to both.
pub proof fn lemma_z_same_y11(s: Lists, t: Lists, y11: u32)
    requires
        z_same(s, t, 0),
    ensures
        y11_accepts(s, y11) == y11_accepts(t, y11),
        y_same(y11_assign(s, y11), y11_assign(t, y11), 11),
        forall|mid: u32, b: u8| #[trigger] y11_candidate(s, mid, b) == y11_candidate(t, mid, b),
        forall|mid: u32| #[trigger] y11_fiber_top(s, mid) == y11_fiber_top(t, mid),
        forall|mid: u32| #[trigger] y11_prod(s, mid) == y11_prod(t, mid),
{
    reveal(y11_accepts);
    assert(msb_spec(t.y[11]) == msb_spec(s.y[11]));
    assert(msb_spec(t.y[10]) == msb_spec(s.y[10]));
    lemma_bytes(t.y[11], s.y[11], 0);
    lemma_bytes(t.y[10], s.y[10], 0);
    let s1 = y11_assign(s, y11);
    let t1 = y11_assign(t, y11);
    assert(t1.z =~= s1.z) by {
        assert forall|j: int| 0 <= j < 12 implies t.z[j] == s.z[j] by {}
    }
    assert forall|j: int| 0 <= j < 12 implies msb_spec(#[trigger] t1.y[j]) == msb_spec(
        s1.y[j],
    ) by {
        if 2 <= j < 11 {
            assert(msb_spec(t.y[j]) == msb_spec(s.y[j]));
        }
    }
    assert forall|j: int| 0 <= j < 4 implies #[trigger] t1.x[j] == s1.x[j] by {
        assert(t.x[j] == s.x[j]);
    }
}

/// No search is accepted once every candidate has been tried in vain.
proof fn lemma_z_exhausted(s: Lists, k: Known, i: int, below: int)
    requires
        1 <= i <= 11,
        below == i - 1,
        forall|f: Lists, h: int|
            0 <= h < z_candidates(s, k, i).len() ==> !#[trigger] z_reachable(
                z_assign(s, i, z_candidates(s, k, i)[h]),
                f,
                k,
                below,
            ),
    ensures
        forall|f: Lists| !z_reachable(s, f, k, i),
{
    assert forall|f: Lists| !z_reachable(s, f, k, i) by {
        if z_reachable(s, f, k, i) {
            let v = choose|v: u32| #[trigger]
                z_candidates(s, k, i).contains(v) && z_reachable(z_assign(s, i, v), f, k, i - 1);
            let h = choose|h: int|
                0 <= h < z_candidates(s, k, i).len() && z_candidates(s, k, i)[h] == v;
            assert(z_reachable(z_assign(s, i, z_candidates(s, k, i)[h]), f, k, below));
        }
    }
}

/// The running product of the search for `Y11` starts at the middle bytes 0
/// and moves from one value of the middle bytes to the next by a fixed step.
pub proof fn lemma_y11_prod(l: Lists, mid: u32, b: u8)
    requires
        shaped(l),
        mid < 65536,
    ensures
        y11_prod(l, 0) == (multinv_spec(msb_spec(l.y[11])) << 24).wrapping_sub(MultTab::MULTINV),
        mid < 65535 ==> y11_prod(l, (mid + 1) as u32) == y11_prod(l, mid).wrapping_add(
            MultTab::MULTINV << 8,
        ),
        y_unstep(y11_candidate(l, mid, b)) == y11_prod(l, mid).wrapping_add(multinv_spec(b)),
        y11_candidate(l, mid, b) & MASK_24_32 == l.y[11] & MASK_24_32,
{
    reveal(y_unstep);
    lemma_y11_bits(l.y[11], mid, b, 0);
}

/// The search from position `i` of the Y-list reads nothing on which `s` and `t` differ.
pub proof fn lemma_y_search_same(s: Lists, t: Lists, k: Known, i: int, j: int)
    requires
        y_same(s, t, i),
        3 <= i <= 11,
    ensures
        y_search(s, k, i, j) == y_search(t, k, i, j),
    decreases i, fiber2(y_fiber_top(s, i)).len() - j,
{
    if i <= 3 {
        assert(t.y =~= s.y);
        assert(lsb_spec(t.x[5]) == lsb_spec(s.x[5]));
        assert(lsb_spec(t.x[6]) == lsb_spec(s.x[6]));
        assert(lsb_spec(t.x[7]) == lsb_spec(s.x[7]));
        assert(t.x[4] == s.x[4]);
        assert(x_rebuilt(s, k).x =~= x_rebuilt(t, k).x);
        assert(x_rebuilt(s, k) == x_rebuilt(t, k));
    } else {
        lemma_y_same_step(s, t, i, 0);
        let bytes = fiber2(y_fiber_top(s, i));
        if 0 <= j < bytes.len() {
            lemma_y_same_step(s, t, i, bytes[j]);
            lemma_y_search_same(y_assign(s, i, bytes[j]), y_assign(t, i, bytes[j]), k, i - 1, 0);
            lemma_y_search_same(s, t, k, i, j + 1);
        }
    }
}

/// The search for `Y11` reads nothing on which `s` and `t` differ.
pub proof fn lemma_y11_search_same(s: Lists, t: Lists, k: Known, mid: int, h: int)
    requires
        z_same(s, t, 0),
    ensures
        y11_search(s, k, mid, h) == y11_search(t, k, mid, h),
    decreases 65536 - mid, fiber3(y11_fiber_top(s, mid as u32)).len() - h,
{
    if 0 <= mid < 65536 {
        lemma_z_same_y11(s, t, 0);
        assert(y11_fiber_top(s, mid as u32) == y11_fiber_top(t, mid as u32));
        let bytes = fiber3(y11_fiber_top(s, mid as u32));
        if 0 <= h < bytes.len() {
            let y11 = y11_candidate(s, mid as u32, bytes[h]);
            assert(y11_candidate(t, mid as u32, bytes[h]) == y11);
            lemma_z_same_y11(s, t, y11);
            lemma_y_search_same(y11_assign(s, y11), y11_assign(t, y11), k, 11, 0);
            lemma_y11_search_same(s, t, k, mid, h + 1);
        } else {
            lemma_y11_search_same(s, t, k, mid + 1, 0);
        }
    }
}

/// The search from position `i` of the Z-list reads nothing on which `s` and `t` differ.
pub proof fn lemma_z_search_same(s: Lists, t: Lists, k: Known, i: int, j: int)
    requires
        z_same(s, t, i),
        0 <= i <= 11,
    ensures
        z_search(s, k, i, j) == z_search(t, k, i, j),
    decreases i, z_candidates(s, k, i).len() - j,
{
    if i <= 0 {
        lemma_y11_search_same(s, t, k, 0, 0);
    } else {
        lemma_z_same_step(s, t, k, i, 0);
        let values = z_candidates(s, k, i);
        if 0 <= j < values.len() {
            lemma_z_same_step(s, t, k, i, values[j]);
            lemma_z_search_same(z_assign(s, i, values[j]), z_assign(t, i, values[j]), k, i - 1, 0);
            lemma_z_search_same(s, t, k, i, j + 1);
        }
    }
}

/// A workspace left by a failed search below position `i` of the Z-list still
/// agrees with the one that the search at position `i` started from.
pub proof fn lemma_z_same_compose(s: Lists, t: Lists, after: Lists, k: Known, i: int, v: u32)
    requires
        1 <= i <= 11,
        z_same(s, t, i),
        z_candidates(t, k, i).contains(v),
        z_same(z_assign(t, i, v), after, i - 1),
    ensures
        z_same(s, after, i),
{
    let u = z_assign(t, i, v);
    lemma_refined_keeps_bits(t, k, i, v);
    assert forall|j: int| i < j < 12 implies #[trigger] after.z[j] == s.z[j] by {
        assert(after.z[j] == u.z[j]);
        assert(t.z[j] == s.z[j]);
    }
    assert(after.z[i] == u.z[i]);
    assert forall|j: int| i + 2 <= j < 12 implies msb_spec(#[trigger] after.y[j]) == msb_spec(
        s.y[j],
    ) by {
        assert(msb_spec(after.y[j]) == msb_spec(u.y[j]));
        assert(msb_spec(t.y[j]) == msb_spec(s.y[j]));
    }
    assert forall|j: int| 0 <= j < 4 implies #[trigger] after.x[j] == s.x[j] by {
        assert(after.x[j] == u.x[j]);
        assert(t.x[j] == s.x[j]);
    }
}

/// A workspace left by a failed completion of the Y-list still agrees with
/// the one that the search for `Y11` started from.
pub proof fn lemma_y11_same_compose(s: Lists, t: Lists, after: Lists, y11: u32)
    requires
        z_same(s, t, 0),
        y11_accepts(t, y11),
        y_same(y11_assign(t, y11), after, 11),
    ensures
        z_same(s, after, 0),
{
    let u = y11_assign(t, y11);
    reveal(y11_accepts);
    lemma_bytes(y11, t.y[11], 0);
    assert forall|j: int| 0 < j < 12 implies #[trigger] after.z[j] == s.z[j] by {
        assert(u.z[j] == t.z[j]);
    }
    assert forall|j: int| 2 <= j < 12 implies msb_spec(#[trigger] after.y[j]) == msb_spec(
        s.y[j],
    ) by {
        assert(msb_spec(after.y[j]) == msb_spec(u.y[j]));
        assert(msb_spec(t.y[j]) == msb_spec(s.y[j]));
    }
    assert(after.y[0] == u.y[0] && after.y[1] == u.y[1] && after.y[2] == u.y[2]);
    assert forall|j: int| 0 <= j < 4 implies #[trigger] after.x[j] == s.x[j] by {
        assert(after.x[j] == u.x[j]);
        assert(t.x[j] == s.x[j]);
    }
}

/// What the search finds at position `i` of the Y-list is an accepted completion.
pub proof fn lemma_y_search_sound(s: Lists, k: Known, i: int, j: int)
    requires
        3 <= i <= 11,
        y_search(s, k, i, j) is Some,
    ensures
        y_reachable(s, y_search(s, k, i, j)->0, k, i),
    decreases i, fiber2(y_fiber_top(s, i)).len() - j,
{
    if i > 3 {
        let bytes = fiber2(y_fiber_top(s, i));
        let below = if y_accepts(s, i, bytes[j]) {
            y_search(y_assign(s, i, bytes[j]), k, i - 1, 0)
        } else {
            None
        };
        if below is Some {
            lemma_y_search_sound(y_assign(s, i, bytes[j]), k, i - 1, 0);
            assert(y_accepts(s, i, bytes[j]));
        } else {
            lemma_y_search_sound(s, k, i, j + 1);
        }
    }
}

/// Where the search at position `i` of the Y-list finds nothing from the
/// `j`-th byte on, none of these bytes leads to an accepted completion; and
/// where it finds nothing at all, there is no accepted completion.
pub proof fn lemma_y_search_complete(s: Lists, k: Known, i: int, j: int, below: int)
    requires
        3 <= i <= 11,
        below == i - 1,
        0 <= j,
        y_search(s, k, i, j) is None,
    ensures
        i > 3 ==> forall|f: Lists, h: int|
            j <= h < fiber2(y_fiber_top(s, i)).len() ==> !(y_accepts(
                s,
                i,
                fiber2(y_fiber_top(s, i))[h],
            ) && #[trigger] y_reachable(y_assign(s, i, fiber2(y_fiber_top(s, i))[h]), f, k, below)),
        j == 0 ==> forall|f: Lists| !y_reachable(s, f, k, i),
    decreases i, fiber2(y_fiber_top(s, i)).len() - j,
{
    if i > 3 {
        let bytes = fiber2(y_fiber_top(s, i));
        if j < bytes.len() {
            lemma_y_search_complete(s, k, i, j + 1, below);
            if y_accepts(s, i, bytes[j]) {
                lemma_y_search_complete(y_assign(s, i, bytes[j]), k, below, 0, below - 1);
            }
        }
        if j == 0 {
            lemma_y_exhausted(s, k, i, y_fiber_top(s, i), below);
        }
    }
}

/// The completion of the Y-list finds an accepted completion exactly when there is one.
pub proof fn lemma_y_first_finds(s: Lists, k: Known, i: int)
    requires
        3 <= i <= 11,
    ensures
        y_first(s, k, i) is Some <==> exists|f: Lists| y_reachable(s, f, k, i),
        y_first(s, k, i) is Some ==> y_reachable(s, y_first(s, k, i)->0, k, i),
{
    if y_first(s, k, i) is Some {
        lemma_y_search_sound(s, k, i, 0);
    } else {
        lemma_y_search_complete(s, k, i, 0, i - 1);
    }
}

/// What the search for `Y11` finds is an accepted completion.
pub proof fn lemma_y11_search_sound(s: Lists, k: Known, mid: int, h: int)
    requires
        y11_search(s, k, mid, h) is Some,
    ensures
        z_reachable(s, y11_search(s, k, mid, h)->0, k, 0),
    decreases 65536 - mid, fiber3(y11_fiber_top(s, mid as u32)).len() - h,
{
    let bytes = fiber3(y11_fiber_top(s, mid as u32));
    if 0 <= h < bytes.len() {
        let y11 = y11_candidate(s, mid as u32, bytes[h]);
        let below = if y11_accepts(s, y11) {
            y_search(y11_assign(s, y11), k, 11, 0)
        } else {
            None
        };
        if below is Some {
            lemma_y_search_sound(y11_assign(s, y11), k, 11, 0);
            assert(y11_accepts(s, y11));
        } else {
            lemma_y11_search_sound(s, k, mid, h + 1);
        }
    } else {
        lemma_y11_search_sound(s, k, mid + 1, 0);
    }
}

/// Whether the value `y11` comes, in the order of the search for `Y11`, at or
/// after the `h`-th byte listed for the middle bytes `mid`.
pub open spec fn y11_from(s: Lists, y11: u32, mid: int, h: int) -> bool {
    let m = (y11 >> 8) & 0xffff;
    m > mid || (m == mid && exists|n: int|
        h <= n < fiber3(y11_fiber_top(s, m)).len() && #[trigger] fiber3(y11_fiber_top(s, m))[n]
            == lsb_spec(y11))
}

/// Where the search for `Y11` finds nothing from some point on, no value of
/// `Y11` from that point on leads to an accepted completion.
pub proof fn lemma_y11_search_complete(s: Lists, k: Known, mid: int, h: int)
    requires
        shaped(s),
        0 <= mid <= 65536,
        0 <= h,
        y11_search(s, k, mid, h) is None,
    ensures
        forall|f: Lists, y11: u32|
            y11_from(s, y11, mid, h) ==> !(y11_accepts(s, y11) && #[trigger] y_reachable(
                y11_assign(s, y11),
                f,
                k,
                11,
            )),
    decreases 65536 - mid, fiber3(y11_fiber_top(s, mid as u32)).len() - h,
{
    if mid < 65536 {
        let bytes = fiber3(y11_fiber_top(s, mid as u32));
        if h < bytes.len() {
            let here = y11_candidate(s, mid as u32, bytes[h]);
            lemma_y11_search_complete(s, k, mid, h + 1);
            if y11_accepts(s, here) {
                lemma_y_search_complete(y11_assign(s, here), k, 11, 0, 10);
            }
            assert forall|f: Lists, y11: u32| y11_from(s, y11, mid, h) implies !(y11_accepts(
                s,
                y11,
            ) && #[trigger] y_reachable(y11_assign(s, y11), f, k, 11)) by {
                if y11_accepts(s, y11) && !y11_from(s, y11, mid, h + 1) {
                    let n = choose|n: int|
                        h <= n < bytes.len() && #[trigger] bytes[n] == lsb_spec(y11);
                    assert(n == h);
                    reveal(y11_accepts);
                    lemma_y11_bits(s.y[11], mid as u32, bytes[h], y11);
                    assert(y11 == here);
                }
            }
        } else {
            lemma_y11_search_complete(s, k, mid + 1, 0);
            assert forall|f: Lists, y11: u32| y11_from(s, y11, mid, h) implies !(y11_accepts(
                s,
                y11,
            ) && #[trigger] y_reachable(y11_assign(s, y11), f, k, 11)) by {
                let m = (y11 >> 8) & 0xffff;
                if m > mid {
                    if y11_accepts(s, y11) && m == mid + 1 {
                        lemma_y11_listed(s, y11);
                    }
                    lemma_y11_bits(0, 0, 0, y11);
                    assert(y11_accepts(s, y11) ==> y11_from(s, y11, mid + 1, 0));
                }
            }
        }
    } else {
        assert forall|f: Lists, y11: u32| y11_from(s, y11, mid, h) implies !(y11_accepts(s, y11)
            && #[trigger] y_reachable(y11_assign(s, y11), f, k, 11)) by {
            lemma_y11_bits(0, 0, 0, y11);
        }
    }
}

/// The low byte of a value of `Y11` worth exploring is listed for its middle bytes.
pub proof fn lemma_y11_listed(s: Lists, y11: u32)
    requires
        shaped(s),
        y11_accepts(s, y11),
    ensures
        y11_from(s, y11, ((y11 >> 8) & 0xffff) as int, 0),
        y11_from(s, y11, 0, 0),
{
    let mid = (y11 >> 8) & 0xffff;
    let b = lsb_spec(y11);
    reveal(y11_accepts);
    lemma_y11_bits(s.y[11], mid, b, y11);
    assert(y11 == y11_candidate(s, mid, b));
    lemma_y11_prod(s, mid, b);
    lemma_fiber3_complete(y11_prod(s, mid), b, s.y[10]);
    let top = y11_fiber_top(s, mid);
    let n = choose|n: int| 0 <= n < fiber3(top).len() && fiber3(top)[n] == b;
    assert(0 <= n < fiber3(top).len() && fiber3(top)[n] == lsb_spec(y11));
}

/// What the search finds from position `i` of the Z-list is an accepted completion.
pub proof fn lemma_z_search_sound(s: Lists, k: Known, i: int, j: int)
    requires
        0 <= i <= 11,
        z_search(s, k, i, j) is Some,
    ensures
        z_reachable(s, z_search(s, k, i, j)->0, k, i),
    decreases i, z_candidates(s, k, i).len() - j,
{
    if i <= 0 {
        lemma_y11_search_sound(s, k, 0, 0);
    } else {
        let values = z_candidates(s, k, i);
        let below = z_search(z_assign(s, i, values[j]), k, i - 1, 0);
        if below is Some {
            lemma_z_search_sound(z_assign(s, i, values[j]), k, i - 1, 0);
            assert(values.contains(values[j]));
        } else {
            lemma_z_search_sound(s, k, i, j + 1);
        }
    }
}

/// Where the search from position `i` of the Z-list finds nothing from the
/// `j`-th candidate on, none of these candidates leads to an accepted
/// completion; and where it finds nothing at all, there is no accepted completion.
pub proof fn lemma_z_search_complete(s: Lists, k: Known, i: int, j: int, below: int)
    requires
        shaped(s),
        0 <= i <= 11,
        below == i - 1,
        0 <= j,
        z_search(s, k, i, j) is None,
    ensures
        i > 0 ==> forall|f: Lists, h: int|
            j <= h < z_candidates(s, k, i).len() ==> !#[trigger] z_reachable(
                z_assign(s, i, z_candidates(s, k, i)[h]),
                f,
                k,
                below,
            ),
        j == 0 ==> forall|f: Lists| !z_reachable(s, f, k, i),
    decreases i, z_candidates(s, k, i).len() - j,
{
    if i > 0 {
        let values = z_candidates(s, k, i);
        if j < values.len() {
            lemma_z_search_complete(s, k, i, j + 1, below);
            lemma_z_search_complete(z_assign(s, i, values[j]), k, below, 0, below - 1);
        }
        if j == 0 {
            lemma_z_exhausted(s, k, i, below);
        }
    } else {
        lemma_y11_search_complete(s, k, 0, 0);
        assert forall|f: Lists| !z_reachable(s, f, k, 0) by {
            if z_reachable(s, f, k, 0) {
                let y11 = choose|y11: u32| #[trigger]
                    y11_accepts(s, y11) && y_reachable(y11_assign(s, y11), f, k, 11);
                lemma_y11_listed(s, y11);
                assert(y_reachable(y11_assign(s, y11), f, k, 11));
            }
        }
    }
}

/// The search finds an accepted completion exactly when there is one.
pub proof fn lemma_z_first_finds(s: Lists, k: Known, i: int)
    requires
        shaped(s),
        0 <= i <= 11,
    ensures
        z_first(s, k, i) is Some <==> exists|f: Lists| z_reachable(s, f, k, i),
        z_first(s, k, i) is Some ==> z_reachable(s, z_first(s, k, i)->0, k, i),
{
    if z_first(s, k, i) is Some {
        lemma_z_search_sound(s, k, i, 0);
    } else {
        lemma_z_search_complete(s, k, i, 0, i - 1);
    }
}

} // verus!
