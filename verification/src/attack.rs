//! The guess-and-filter search for the keys at a fixed position of the keystream.

use vstd::prelude::*;
use crate::crc32_tab::Crc32Tab;
use crate::data::Data;
use crate::keys::{Keys, KeyState, rewind};
use crate::keystream_tab::KeystreamTab;
use crate::mult_tab::{MultTab, fiber2, fiber3};
use crate::search::{y_search, y11_search, z_search, y_first, z_first, y_same, z_same, y_fiber_top,
    y11_candidate, y11_prod, y11_fiber_top,
    lemma_y_same_step, lemma_y_same_rebuilt, lemma_y_same_compose, lemma_y_search_same,
    lemma_y_first_finds, lemma_z_same_step, lemma_z_same_y11, lemma_z_same_compose,
    lemma_y11_same_compose, lemma_y11_prod, lemma_z_search_same, lemma_z_first_finds};
use crate::truth::{in_run, lemma_run_is_accepted};
use crate::utils::{lsb, msb, MASK_8_32, MASK_24_32, MASK_26_32, MASK_2_32, MAXDIFF_0_24,
    MAXDIFF_0_26};
use crate::workspace::{Lists, Known, blank, shaped, y_unstep, x_rebuilt, x_accepts, y_accepts,
    y_assign, y_reachable, z_candidates, z_assign, y11_accepts, y11_assign, seeded, z_reachable};

verus! {

/// The attack workspace: twelve consecutive values of each key, as far as
/// they are known, for the window of the keystream that starts at `index`.
#[derive(Debug)]
pub struct Attack<'a> {
    /// The third keys `Z0..Z11`.
    pub z_list: [u32; 12],
    /// The second keys `Y0..Y11`.
    pub y_list: [u32; 12],
    /// The first keys `X0..X11`.
    pub x_list: [u32; 12],
    /// The texts under attack.
    pub data: &'a Data,
    /// The position in the keystream of the first of the twelve values.
    pub index: usize,
    /// The table of products of the inverse multiplier.
    pub multtab: MultTab,
    /// The CRC-32 tables.
    pub crc32tab: Crc32Tab,
    /// The keystream tables.
    pub keystreamtab: KeystreamTab,
}

impl<'a> Clone for Attack<'a> {
    fn clone(&self) -> (attack: Attack<'a>)
        ensures
            attack.lists() == self.lists(),
            attack.data == self.data,
            attack.index == self.index,
    {
        Attack {
            z_list: self.z_list,
            y_list: self.y_list,
            x_list: self.x_list,
            data: self.data,
            index: self.index,
            multtab: self.multtab.clone(),
            crc32tab: self.crc32tab.clone(),
            keystreamtab: self.keystreamtab.clone(),
        }
    }
}

impl<'a> Attack<'a> {
    /// The number of consecutive keystream bytes that the search works on.
    pub const SIZE: usize = 12;

    /// The three lists as they stand.
    pub open spec fn lists(&self) -> Lists {
        Lists { z: self.z_list@, y: self.y_list@, x: self.x_list@ }
    }

    /// The texts under the window of the workspace.
    pub open spec fn known(&self) -> Known {
        Known {
            keystream: self.data.keystream@,
            plaintext: self.data.plain_text@,
            index: self.index as int,
        }
    }

    /// Whether the window of twelve positions lies within the keystream.
    pub open spec fn wf(&self) -> bool {
        &&& self.data.wf()
        &&& self.index + Attack::SIZE <= self.data.keystream@.len()
    }

    /// A workspace for the window that starts at `index`, with empty lists.
    pub fn new(data: &'a Data, index: usize) -> (attack: Attack<'a>)
        requires
            data.wf(),
            index + Attack::SIZE <= data.keystream@.len(),
        ensures
            attack.wf(),
            attack.data == data,
            attack.index == index,
            attack.lists() == blank(),
    {
        let attack = Attack {
            z_list: [0;12],
            y_list: [0;12],
            x_list: [0;12],
            data,
            index,
            multtab: MultTab::new(),
            crc32tab: Crc32Tab::new(),
            keystreamtab: KeystreamTab::new(),
        };
        assert(attack.z_list@ =~= blank().z);
        assert(attack.y_list@ =~= blank().y);
        assert(attack.x_list@ =~= blank().x);
        attack
    }

    /// The top byte that selects the bytes worth guessing for `lsb(Xi)`.
    fn y_top(&self, i: usize) -> (m: u8)
        requires
            4 <= i <= 11,
        ensures
            m == y_fiber_top(self.lists(), i as int),
    {
        proof {
            reveal(y_unstep);
        }
        let fy: u32 = self.y_list[i].wrapping_sub(1).wrapping_mul(MultTab::MULTINV);
        let ffy: u32 = fy.wrapping_sub(1).wrapping_mul(MultTab::MULTINV);
        msb(ffy.wrapping_sub(self.y_list[i - 2] & MASK_24_32))
    }

    /// Whether the guess `xi_0_8` for `lsb(Xi)` passes the filters of position `i`.
    fn y_passes(&self, i: usize, xi_0_8: u8) -> (fits: bool)
        requires
            4 <= i <= 11,
        ensures
            fits == y_accepts(self.lists(), i as int, xi_0_8),
    {
        proof {
            reveal(y_unstep);
            reveal(y_accepts);
        }
        let fy: u32 = self.y_list[i].wrapping_sub(1).wrapping_mul(MultTab::MULTINV);
        let ffy: u32 = fy.wrapping_sub(1).wrapping_mul(MultTab::MULTINV);

        // compute corresponding Y{i-1}
        let yim1 = fy.wrapping_sub(xi_0_8 as u32);

        // filter values with Y{i-2}[24,32)
        ffy.wrapping_sub(self.multtab.get_multinv(xi_0_8)).wrapping_sub(
            self.y_list[i - 2] & MASK_24_32,
        ) <= MAXDIFF_0_24 && msb(yim1) == msb(self.y_list[i - 1])
    }

    /// Writes the guess `xi_0_8` for `lsb(Xi)` and the `Y{i-1}` that follows from it.
    fn y_write(&mut self, i: usize, xi_0_8: u8)
        requires
            4 <= i <= 11,
        ensures
            final(self).data == old(self).data,
            final(self).index == old(self).index,
            final(self).lists() == y_assign(old(self).lists(), i as int, xi_0_8),
    {
        proof {
            reveal(y_unstep);
        }
        let fy: u32 = self.y_list[i].wrapping_sub(1).wrapping_mul(MultTab::MULTINV);

        // add Y{i-1} to the Y-list
        self.y_list[i - 1] = fy.wrapping_sub(xi_0_8 as u32);

        // set Xi value
        self.x_list[i] = xi_0_8 as u32;
        proof {
            let goal = y_assign(old(self).lists(), i as int, xi_0_8);
            assert(self.y_list@ =~= goal.y);
            assert(self.x_list@ =~= goal.x);
        }
    }

    /// Completes the Y-list from position `i` down to 3, then tests the workspace.
    ///
    /// The bytes listed for `lsb(Xi)` are tried in order, and the first
    /// accepted completion is kept. On success the workspace holds that
    /// completion. On failure no completion is accepted, and the workspace keeps
    /// what `y_same` names.
    pub fn explore_y_lists(&mut self, i: i32) -> (found: bool)
        requires
            old(self).wf(),
            3 <= i <= 11,
        ensures
            final(self).data == old(self).data,
            final(self).index == old(self).index,
            found == y_first(old(self).lists(), old(self).known(), i as int) is Some,
            found ==> y_first(old(self).lists(), old(self).known(), i as int) == Some(
                final(self).lists(),
            ),
            found ==> y_reachable(
                old(self).lists(),
                final(self).lists(),
                old(self).known(),
                i as int,
            ),
            !found ==> y_same(old(self).lists(), final(self).lists(), i as int),
            !found ==> forall|f: Lists|
                !y_reachable(old(self).lists(), f, old(self).known(), i as int),
        decreases i,
    {
        let ghost k = self.known();
        let ghost s = self.lists();
        proof {
            lemma_y_first_finds(s, k, i as int);
        }
        if i != 3 {
            // the Y-list is not complete so generate Y{i-1} values
            let pos = i as usize;

            // get possible LSB(Xi)
            let m = self.y_top(pos);
            let n = self.multtab.get_msb_prod_fiber2(m).len();
            let next = i - 1;
            let ghost below = next as int;
            let mut j: usize = 0;
            while j < n
                invariant
                    4 <= i <= 11,
                    pos == i,
                    next == i - 1,
                    below == next,
                    j <= n,
                    n == fiber2(m).len(),
                    self.data == old(self).data,
                    self.index == old(self).index,
                    old(self).wf(),
                    k == old(self).known(),
                    s == old(self).lists(),
                    m == y_fiber_top(s, i as int),
                    y_same(s, self.lists(), i as int),
                    y_search(s, k, i as int, 0) == y_search(s, k, i as int, j as int),
                decreases n - j,
            {
                let xi_0_8 = self.multtab.get_msb_prod_fiber2(m)[j];
                let ghost t = self.lists();
                proof {
                    lemma_y_same_step(s, t, i as int, xi_0_8);
                }
                if self.y_passes(pos, xi_0_8) {
                    self.y_write(pos, xi_0_8);
                    let ghost u = self.lists();
                    proof {
                        lemma_y_search_same(y_assign(s, i as int, xi_0_8), u, k, below, 0);
                    }
                    assert(self.known() == k);
                    if self.explore_y_lists(next) {
                        proof {
                            lemma_y_first_finds(s, k, i as int);
                        }
                        return true;
                    }
                    proof {
                        lemma_y_same_compose(s, t, self.lists(), i as int, xi_0_8);
                    }
                }
                j += 1;
            }
            false
        } else {
            proof {
                lemma_y_same_rebuilt(s, k);
            }
            self.test_x_list()
        }
    }

    /// Completes `X5..X7` and tests the workspace against the plaintext.
    pub fn test_x_list(&mut self) -> (accepted: bool)
        requires
            old(self).wf(),
        ensures
            final(self).data == old(self).data,
            final(self).index == old(self).index,
            final(self).lists() == x_rebuilt(old(self).lists(), old(self).known()),
            accepted == x_accepts(final(self).lists(), old(self).known()),
    {
        let ghost k = self.known();
        let index = self.index;
        let plain_len = self.data.plain_text.len();
        assert(index + 12 <= plain_len == k.keystream.len());

        // compute X7
        self.x_list[5] = (self.crc32tab.crc32(self.x_list[4], self.data.plain_text[index + 4])
            & MASK_8_32) | (lsb(self.x_list[5]) as u32);
        self.x_list[6] = (self.crc32tab.crc32(self.x_list[5], self.data.plain_text[index + 5])
            & MASK_8_32) | (lsb(self.x_list[6]) as u32);
        self.x_list[7] = (self.crc32tab.crc32(self.x_list[6], self.data.plain_text[index + 6])
            & MASK_8_32) | (lsb(self.x_list[7]) as u32);
        assert(self.x_list@ =~= x_rebuilt(old(self).lists(), k).x);

        // compare 4 LSB(Xi) obtained from plaintext with those from the X-list
        let x8 = self.crc32tab.crc32(self.x_list[7], self.data.plain_text[index + 7]);
        if lsb(x8) != lsb(self.x_list[8]) {
            assert(!x_accepts(self.lists(), k)) by {
                reveal(x_accepts);
            }
            return false;
        }
        let x9 = self.crc32tab.crc32(x8, self.data.plain_text[index + 8]);
        if lsb(x9) != lsb(self.x_list[9]) {
            assert(!x_accepts(self.lists(), k)) by {
                reveal(x_accepts);
            }
            return false;
        }
        let x10 = self.crc32tab.crc32(x9, self.data.plain_text[index + 9]);
        if lsb(x10) != lsb(self.x_list[10]) {
            assert(!x_accepts(self.lists(), k)) by {
                reveal(x_accepts);
            }
            return false;
        }
        let x11 = self.crc32tab.crc32(x10, self.data.plain_text[index + 10]);
        if lsb(x11) != lsb(self.x_list[11]) {
            assert(!x_accepts(self.lists(), k)) by {
                reveal(x_accepts);
            }
            return false;
        }

        // compute X3
        let x6 = self.crc32tab.crc32inv(self.x_list[7], self.data.plain_text[index + 6]);
        let x5 = self.crc32tab.crc32inv(x6, self.data.plain_text[index + 5]);
        let x4 = self.crc32tab.crc32inv(x5, self.data.plain_text[index + 4]);
        let x = self.crc32tab.crc32inv(x4, self.data.plain_text[index + 3]);

        // check that X3 fits with Y1[26,32)
        let y1_26_32 = self.crc32tab.get_yi_24_32(self.z_list[1], self.z_list[0]) & MASK_26_32;
        let fy = self.y_list[3].wrapping_sub(1).wrapping_mul(MultTab::MULTINV);
        let ffy = fy.wrapping_sub(lsb(x) as u32).wrapping_sub(1).wrapping_mul(MultTab::MULTINV);
        let fits = ffy.wrapping_sub(y1_26_32) <= MAXDIFF_0_26;
        assert(fits == x_accepts(self.lists(), k)) by {
            reveal(x_accepts);
            reveal(y_unstep);
        }
        fits
    }

    /// Writes `Z{i-1}[2,32)`, the two low bits of `Zi`, and the top byte of `Y{i+1}`.
    fn z_write(&mut self, i: usize, zim1_10_32: u32, zim1_2_16: u32)
        requires
            1 <= i <= 11,
            zim1_10_32 == crate::crc32_tab::zim1_10_32(old(self).z_list@[i as int]),
        ensures
            final(self).data == old(self).data,
            final(self).index == old(self).index,
            final(self).lists() == z_assign(old(self).lists(), i as int, zim1_2_16),
    {
        // add Z{i-1}[2,32) to the Z-list
        self.z_list[i - 1] = zim1_10_32 | zim1_2_16;

        // find Zi[0,2) from Crc32^1
        self.z_list[i] = self.z_list[i] & MASK_2_32;
        self.z_list[i] = self.z_list[i] | ((self.crc32tab.crc32inv(self.z_list[i], 0)
            ^ self.z_list[i - 1]) >> 8);

        // get Y{i+1}[24,32)
        if i < 11 {
            self.y_list[i + 1] = self.crc32tab.get_yi_24_32(self.z_list[i + 1], self.z_list[i]);
        }
        proof {
            let goal = z_assign(old(self).lists(), i as int, zim1_2_16);
            assert(self.z_list@ =~= goal.z);
            assert(self.y_list@ =~= goal.y);
        }
    }

    /// Whether the value of `Y11` with middle bytes `mid` and low byte `y11_0_8` is
    /// worth exploring.
    fn y11_passes(&self, prod: u32, mid: u32, y11_0_8: u8) -> (fits: bool)
        requires
            mid < 65536,
            prod == y11_prod(self.lists(), mid),
        ensures
            fits == y11_accepts(
                self.lists(),
                y11_candidate(self.lists(), mid, y11_0_8),
            ),
    {
        proof {
            reveal(y11_accepts);
            lemma_y11_prod(self.lists(), mid, y11_0_8);
        }
        // filter Y11[0,8) using Y10[24,32)
        prod.wrapping_add(self.multtab.get_multinv(y11_0_8)).wrapping_sub(
            self.y_list[10] & MASK_24_32,
        ) <= MAXDIFF_0_24
    }

    /// Writes the value of `Y11` with middle bytes `mid` and low byte `y11_0_8`.
    fn y11_write(&mut self, mid: u32, y11_0_8: u8)
        requires
            mid < 65536,
        ensures
            final(self).data == old(self).data,
            final(self).index == old(self).index,
            final(self).lists() == y11_assign(
                old(self).lists(),
                y11_candidate(old(self).lists(), mid, y11_0_8),
            ),
    {
        self.y_list[11] = (y11_0_8 as u32) | (mid << 8) | (self.y_list[11] & MASK_24_32);
        proof {
            let before = old(self).lists();
            assert(self.y_list@ =~= y11_assign(before, y11_candidate(before, mid, y11_0_8)).y);
        }
    }

    /// Completes the Z-list from position `i` down to 0, then guesses `Y11`
    /// and completes the Y-list.
    ///
    /// The candidates are tried in order, and the first accepted completion
    /// is kept. On success the workspace holds that completion. On failure no
    /// completion is accepted, and the workspace keeps what `z_same` names.
    pub fn explore_z_lists(&mut self, i: i32) -> (found: bool)
        requires
            old(self).wf(),
            0 <= i <= 11,
        ensures
            final(self).data == old(self).data,
            final(self).index == old(self).index,
            found == z_first(old(self).lists(), old(self).known(), i as int) is Some,
            found ==> z_first(old(self).lists(), old(self).known(), i as int) == Some(
                final(self).lists(),
            ),
            found ==> z_reachable(
                old(self).lists(),
                final(self).lists(),
                old(self).known(),
                i as int,
            ),
            !found ==> z_same(old(self).lists(), final(self).lists(), i as int),
            !found ==> forall|f: Lists|
                !z_reachable(old(self).lists(), f, old(self).known(), i as int),
        decreases i,
    {
        let ghost k = self.known();
        let ghost s = self.lists();
        proof {
            lemma_z_first_finds(s, k, i as int);
        }
        if i != 0 {
            // the Z-list is not complete so generate Z{i-1}[2,32) values
            let pos = i as usize;

            // get Z{i-1}[10,32) from CRC32^-1
            let zim1_10_32 = self.crc32tab.get_zim1_10_32(self.z_list[pos]);

            // get Z{i-1}[2,16) values from keystream byte k{i-1} and Z{i-1}[10,16)
            let keystream_len = self.data.keystream.len();
            assert(self.index + pos <= keystream_len);
            let ki = self.data.keystream[self.index + pos - 1];
            let n = self.keystreamtab.get_zi_2_16_vector(ki, zim1_10_32).len();
            let next = i - 1;
            let ghost below = next as int;
            let mut j: usize = 0;
            while j < n
                invariant
                    1 <= i <= 11,
                    pos == i,
                    next == i - 1,
                    below == next,
                    j <= n,
                    self.data == old(self).data,
                    self.index == old(self).index,
                    old(self).wf(),
                    k == old(self).known(),
                    s == old(self).lists(),
                    zim1_10_32 == crate::crc32_tab::zim1_10_32(s.z[i as int]),
                    ki == k.keystream[k.index + i - 1],
                    n == z_candidates(s, k, i as int).len(),
                    z_same(s, self.lists(), i as int),
                    z_search(s, k, i as int, 0) == z_search(s, k, i as int, j as int),
                decreases n - j,
            {
                let zim1_2_16 = self.keystreamtab.get_zi_2_16_vector(ki, zim1_10_32)[j];
                let ghost t = self.lists();
                proof {
                    lemma_z_same_step(s, t, k, i as int, zim1_2_16);
                    assert(z_candidates(s, k, i as int)[j as int] == zim1_2_16);
                    assert(z_candidates(t, k, i as int).contains(zim1_2_16));
                }
                self.z_write(pos, zim1_10_32, zim1_2_16);
                let ghost u = self.lists();
                proof {
                    lemma_z_search_same(z_assign(s, i as int, zim1_2_16), u, k, below, 0);
                }
                assert(self.known() == k);
                if self.explore_z_lists(next) {
                    proof {
                        lemma_z_first_finds(s, k, i as int);
                    }
                    return true;
                }
                proof {
                    lemma_z_same_compose(s, t, self.lists(), k, i as int, zim1_2_16);
                }
                j += 1;
            }
            false
        } else {
            // the Z-list is complete so iterate over possible Y values
            proof {
                lemma_y11_prod(s, 0, 0);
            }
            // guess Y11[8,24) and keep prod == (Y11[8,32) - 1) * mult^-1
            let mut prod = (self.multtab.get_multinv(msb(self.y_list[11])) << 24).wrapping_sub(
                MultTab::MULTINV,
            );
            let mut mid: u32 = 0;
            while mid < 65536
                invariant
                    i == 0,
                    mid <= 65536,
                    self.data == old(self).data,
                    self.index == old(self).index,
                    old(self).wf(),
                    k == old(self).known(),
                    s == old(self).lists(),
                    shaped(s),
                    mid < 65536 ==> prod == y11_prod(s, mid),
                    z_same(s, self.lists(), 0),
                    y11_search(s, k, 0, 0) == y11_search(s, k, mid as int, 0),
                decreases 65536 - mid,
            {
                proof {
                    lemma_z_same_y11(s, self.lists(), 0);
                    assert(y11_fiber_top(s, mid) == y11_fiber_top(self.lists(), mid));
                }
                // get possible Y11[0,8) values
                let top = msb(self.y_list[10]).wrapping_sub(msb(prod));
                let n = self.multtab.get_msb_prod_fiber3(top).len();
                let mut j: usize = 0;
                while j < n
                    invariant
                        i == 0,
                        mid < 65536,
                        j <= n,
                        n == fiber3(top).len(),
                        top == y11_fiber_top(s, mid),
                        self.data == old(self).data,
                        self.index == old(self).index,
                        old(self).wf(),
                        k == old(self).known(),
                        s == old(self).lists(),
                        prod == y11_prod(s, mid),
                        z_same(s, self.lists(), 0),
                        y11_search(s, k, 0, 0) == y11_search(s, k, mid as int, j as int),
                    decreases n - j,
                {
                    let y11_0_8 = self.multtab.get_msb_prod_fiber3(top)[j];
                    let ghost t = self.lists();
                    let ghost y11 = y11_candidate(s, mid, y11_0_8);
                    proof {
                        lemma_z_same_y11(s, t, y11);
                        assert(y11_candidate(t, mid, y11_0_8) == y11);
                        assert(y11_prod(t, mid) == prod);
                    }
                    if self.y11_passes(prod, mid, y11_0_8) {
                        self.y11_write(mid, y11_0_8);
                        let ghost u = self.lists();
                        proof {
                            lemma_y_search_same(y11_assign(s, y11), u, k, 11, 0);
                        }
                        assert(self.known() == k);
                        if self.explore_y_lists(11) {
                            proof {
                                lemma_z_first_finds(s, k, 0);
                            }
                            return true;
                        }
                        proof {
                            lemma_y11_same_compose(s, t, self.lists(), y11);
                        }
                    }
                    j += 1;
                }
                proof {
                    lemma_y11_prod(s, mid, 0);
                }
                prod = prod.wrapping_add(MultTab::MULTINV << 8);
                mid += 1;
            }
            false
        }
    }

    /// Searches for the keys with `z11_2_32` as the bits `[2,32)` of `Z11`.
    ///
    /// On success the workspace holds the first accepted completion of the
    /// three lists. On failure no completion is accepted. The search succeeds
    /// where some run of the cipher over the plaintext produces the keystream
    /// and has these bits in its third key at position 11 of the window.
    pub fn carry_out(&mut self, z11_2_32: u32) -> (found: bool)
        requires
            old(self).wf(),
        ensures
            final(self).wf(),
            (exists|st: Seq<KeyState>|
                in_run(st, old(self).known()) && z11_2_32 & MASK_2_32 == st[old(self).index
                    + 11].z & MASK_2_32) ==> found,
            final(self).data == old(self).data,
            final(self).index == old(self).index,
            found == z_first(seeded(old(self).lists(), z11_2_32), old(self).known(), 11) is Some,
            found ==> z_first(seeded(old(self).lists(), z11_2_32), old(self).known(), 11) == Some(
                final(self).lists(),
            ),
            found ==> z_reachable(
                seeded(old(self).lists(), z11_2_32),
                final(self).lists(),
                old(self).known(),
                11,
            ),
            !found ==> forall|f: Lists|
                !z_reachable(seeded(old(self).lists(), z11_2_32), f, old(self).known(), 11),
    {
        proof {
            let k = self.known();
            if exists|st: Seq<KeyState>|
                in_run(st, k) && z11_2_32 & MASK_2_32 == st[k.index + 11].z & MASK_2_32 {
                let st = choose|st: Seq<KeyState>|
                    in_run(st, k) && z11_2_32 & MASK_2_32 == st[k.index + 11].z & MASK_2_32;
                lemma_run_is_accepted(self.lists(), st, k, z11_2_32);
            }
        }
        self.z_list[11] = z11_2_32;
        assert(self.lists().z =~= seeded(old(self).lists(), z11_2_32).z);
        assert(self.lists() == seeded(old(self).lists(), z11_2_32));
        assert(self.known() == old(self).known());
        self.explore_z_lists(11)
    }

    /// The keys at the start of the ciphertext: those that the workspace holds
    /// for position 7, stepped backward over all the ciphertext before it.
    pub fn get_keys(&self) -> (keys: Keys)
        requires
            self.wf(),
        ensures
            keys@ == rewind(
                (KeyState { x: self.x_list@[7], y: self.y_list@[7], z: self.z_list@[7] }),
                self.data.cipher_text@.take(self.data.start() + self.index + 7),
            ),
    {
        let mut keys = Keys::new();
        keys.set_keys(self.x_list[7], self.y_list[7], self.z_list[7]);
        let ghost mid_state = keys@;
        let plain_len = self.data.plain_text.len();
        let cipher_len = self.data.cipher_text.len();
        let start: usize = (12 + self.data.offset as i64) as usize;
        assert(start + plain_len <= cipher_len);
        let n = start + self.index + 7;
        let ghost prefix = self.data.cipher_text@.take(n as int);
        assert(prefix.take(n as int) =~= prefix);
        let mut i = n;
        while i > 0
            invariant
                i <= n <= self.data.cipher_text@.len(),
                prefix == self.data.cipher_text@.take(n as int),
                rewind(keys@, prefix.take(i as int)) == rewind(mid_state, prefix),
            decreases i,
        {
            proof {
                assert(prefix.take(i as int).drop_last() =~= prefix.take(i - 1));
            }
            i -= 1;
            keys.update_backword(self.data.cipher_text[i]);
        }
        keys
    }
}

} // verus!
