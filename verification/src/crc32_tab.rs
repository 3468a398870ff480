//! Forward and inverse lookup tables for the ZIP CRC-32.

use vstd::prelude::*;
use crate::utils::{lsb, msb, lsb_spec, msb_spec, MASK_10_32};

verus! {

/// The reflected CRC-32 polynomial used by ZIP.
pub const CRCPOL: u32 = 0xedb8_8320;

/// One step of the bitwise division by the polynomial.
pub open spec fn crc_step(c: u32) -> u32 {
    if c & 1 == 1 {
        (c >> 1) ^ CRCPOL
    } else {
        c >> 1
    }
}

/// The step that undoes `crc_step`.
pub open spec fn crc_unstep(c: u32) -> u32 {
    if c & 0x8000_0000 != 0 {
        ((c ^ CRCPOL) << 1) | 1
    } else {
        c << 1
    }
}

/// Entry `b` of the forward table: eight division steps applied to `b`.
pub open spec fn crc_entry(b: u8) -> u32 {
    crc_step(crc_step(crc_step(crc_step(crc_step(crc_step(crc_step(crc_step(b as u32))))))))
}

/// Entry `m` of the inverse table: eight inverse steps applied to `m` placed in the top byte.
pub open spec fn crc_inv_entry(m: u8) -> u32 {
    crc_unstep(
        crc_unstep(
            crc_unstep(
                crc_unstep(crc_unstep(crc_unstep(crc_unstep(crc_unstep((m as u32) << 24))))),
            ),
        ),
    )
}

/// The CRC-32 of register `c` after absorbing byte `b`.
pub open spec fn crc32_spec(c: u32, b: u8) -> u32 {
    (c >> 8) ^ crc_entry(lsb(c) ^ b)
}

/// The register that gives `c` when it absorbs byte `b`.
pub open spec fn crc32inv_spec(c: u32, b: u8) -> u32 {
    (c << 8) ^ crc_inv_entry(msb(c)) ^ (b as u32)
}

/// The top ten-bit-aligned window `Z{i-1}[10,32)` that `Zi` determines.
pub open spec fn zim1_10_32(zi_2_32: u32) -> u32 {
    crc32inv_spec(zi_2_32, 0) & MASK_10_32
}

/// The byte `Yi[24,32)`, placed in its window, that links `Z{i-1}` to `Zi`.
pub open spec fn yi_24_32(zi: u32, zim1: u32) -> u32 {
    (crc32inv_spec(zi, 0) ^ zim1) << 24
}

/// Each table sends what the other gives for an index back to that index.
#[verifier::rlimit(40)]
proof fn lemma_entries_invert(i: u8, m: u8)
    by (bit_vector)
    ensures
        m == msb_spec(crc_entry(i)) ==> crc_inv_entry(m) == (crc_entry(i) << 8) ^ (i as u32),
        i == lsb_spec(crc_inv_entry(m)) ==> msb_spec(crc_entry(i)) == m && crc_inv_entry(m) == (
        crc_entry(i) << 8) ^ (i as u32),
{
}

/// How the shifts and the table entries `t` and `u` of the two lookups cancel.
proof fn lemma_lookup_algebra(c: u32, b: u8, t: u32, u: u32)
    by (bit_vector)
    ensures
        msb_spec((c >> 8) ^ t) == msb_spec(t),
        (((c >> 8) ^ t) << 8) ^ ((t << 8) ^ ((lsb_spec(c) ^ b) as u32)) ^ (b as u32) == c,
        lsb_spec((c << 8) ^ u ^ (b as u32)) ^ b == lsb_spec(u),
        msb_spec(t) == msb_spec(c) && u == (t << 8) ^ (lsb_spec(u) as u32) ==> (((c << 8) ^ u ^ (
        b as u32)) >> 8) ^ t == c,
{
}

/// The inverse table holds, at the top byte of each forward entry, that entry
/// shifted up by one byte with its index in the freed low byte.
pub proof fn lemma_inverse_entry(i: u8)
    ensures
        crc_inv_entry(msb_spec(crc_entry(i))) == (crc_entry(i) << 8) ^ (i as u32),
{
    lemma_entries_invert(i, msb_spec(crc_entry(i)));
}

/// Absorbing a byte and then undoing it with the same byte restores the register.
pub proof fn lemma_crc32inv_crc32(c: u32, b: u8)
    ensures
        crc32inv_spec(crc32_spec(c, b), b) == c,
{
    let j = lsb_spec(c) ^ b;
    let t = crc_entry(j);
    lemma_entries_invert(j, msb_spec(t));
    lemma_lookup_algebra(c, b, t, 0);
}

/// Undoing a byte and then absorbing the same byte restores the register.
pub proof fn lemma_crc32_crc32inv(c: u32, b: u8)
    ensures
        crc32_spec(crc32inv_spec(c, b), b) == c,
{
    let u = crc_inv_entry(msb_spec(c));
    let i = lsb_spec(u);
    let t = crc_entry(i);
    lemma_entries_invert(i, msb_spec(c));
    lemma_lookup_algebra(c, b, t, u);
}

/// The CRC-32 lookup tables.
#[derive(Debug)]
pub struct Crc32Tab {
    crctab: Vec<u32>,
    crcinvtab: Vec<u32>,
}

/// One step of the bitwise division by the polynomial.
fn step(c: u32) -> (r: u32)
    ensures
        r == crc_step(c),
{
    if c & 1 == 1 {
        (c >> 1) ^ CRCPOL
    } else {
        c >> 1
    }
}

/// Entry `b` of the forward table.
fn entry(b: u8) -> (r: u32)
    ensures
        r == crc_entry(b),
{
    step(step(step(step(step(step(step(step(b as u32))))))))
}

/// The forward table: entry `i` holds `crc_entry(i)`.
pub open spec fn crc_table() -> Seq<u32> {
    Seq::new(256, |i: int| crc_entry(i as u8))
}

/// The inverse table: entry `m` holds `crc_inv_entry(m)`.
pub open spec fn crc_inv_table() -> Seq<u32> {
    Seq::new(256, |m: int| crc_inv_entry(m as u8))
}

impl Clone for Crc32Tab {
    fn clone(&self) -> (tab: Crc32Tab)
        ensures
            tab.forward() == self.forward(),
            tab.inverse() == self.inverse(),
    {
        proof {
            use_type_invariant(self);
        }
        let crctab = self.crctab.clone();
        let crcinvtab = self.crcinvtab.clone();
        assert(crctab@ =~= self.crctab@);
        assert(crcinvtab@ =~= self.crcinvtab@);
        Crc32Tab { crctab, crcinvtab }
    }
}

impl Crc32Tab {
    #[verifier::type_invariant]
    spec fn inv(&self) -> bool {
        &&& self.crctab@.len() == 256
        &&& self.crcinvtab@.len() == 256
        &&& forall|i: int| 0 <= i < 256 ==> #[trigger] self.crctab@[i] == crc_entry(i as u8)
        &&& forall|i: int| 0 <= i < 256 ==> #[trigger] self.crcinvtab@[i] == crc_inv_entry(i as u8)
    }

    /// The forward table as it is held.
    pub closed spec fn forward(&self) -> Seq<u32> {
        self.crctab@
    }

    /// The inverse table as it is held.
    pub closed spec fn inverse(&self) -> Seq<u32> {
        self.crcinvtab@
    }

    /// Builds both tables.
    pub fn new() -> (tab: Crc32Tab)
        ensures
            tab.forward() == crc_table(),
            tab.inverse() == crc_inv_table(),
    {
        let mut crctab: Vec<u32> = Vec::new();
        let mut crcinvtab: Vec<u32> = Vec::new();
        let mut n: usize = 0;
        while n < 256
            invariant
                n <= 256,
                crcinvtab@.len() == n,
            decreases 256 - n,
        {
            crcinvtab.push(0);
            n += 1;
        }
        let mut b: usize = 0;
        while b < 256
            invariant
                b <= 256,
                crctab@.len() == b,
                crcinvtab@.len() == 256,
                forall|i: int| 0 <= i < b ==> #[trigger] crctab@[i] == crc_entry(i as u8),
                forall|i: int|
                    0 <= i < b ==> crcinvtab@[msb_spec(#[trigger] crc_entry(i as u8)) as int]
                        == crc_inv_entry(msb_spec(crc_entry(i as u8))),
            decreases 256 - b,
        {
            let crc = entry(b as u8);
            proof {
                lemma_inverse_entry(b as u8);
            }
            crctab.push(crc);
            crcinvtab.set(msb(crc) as usize, (crc << 8) ^ (b as u32));
            b += 1;
        }
        proof {
            assert forall|m: int| 0 <= m < 256 implies #[trigger] crcinvtab@[m] == crc_inv_entry(
                m as u8,
            ) by {
                let i = lsb_spec(crc_inv_entry(m as u8));
                lemma_entries_invert(i, m as u8);
                assert(crcinvtab@[msb_spec(crc_entry(i as int as u8)) as int] == crc_inv_entry(
                    msb_spec(crc_entry(i as int as u8)),
                ));
            }
        }
        assert(crctab@ =~= crc_table());
        assert(crcinvtab@ =~= crc_inv_table());
        Crc32Tab { crctab, crcinvtab }
    }

    /// The CRC-32 of register `pval` after absorbing byte `b`.
    pub fn crc32(&self, pval: u32, b: u8) -> (r: u32)
        ensures
            r == crc32_spec(pval, b),
    {
        proof {
            use_type_invariant(self);
        }
        (pval >> 8) ^ self.crctab[(lsb(pval) ^ b) as usize]
    }

    /// The register that gives `crc` when it absorbs byte `b`.
    pub fn crc32inv(&self, crc: u32, b: u8) -> (r: u32)
        ensures
            r == crc32inv_spec(crc, b),
    {
        proof {
            use_type_invariant(self);
        }
        (crc << 8) ^ self.crcinvtab[msb(crc) as usize] ^ (b as u32)
    }

    /// `Z{i-1}[10,32)` from `Zi[2,32)`.
    pub fn get_zim1_10_32(&self, zi_2_32: u32) -> (r: u32)
        ensures
            r == zim1_10_32(zi_2_32),
    {
        self.crc32inv(zi_2_32, 0) & MASK_10_32
    }

    /// `Yi[24,32)` from `Zi` and `Z{i-1}`.
    pub fn get_yi_24_32(&self, zi: u32, zim1: u32) -> (r: u32)
        ensures
            r == yi_24_32(zi, zim1),
    {
        (self.crc32inv(zi, 0) ^ zim1) << 24
    }
}

} // verus!
