//! Tables for the multiplier of the Y recurrence and for its inverse.

use vstd::prelude::*;
use crate::sieve::{sieve, lemma_sieve_contains, lemma_sieve_entry};
use crate::utils::{msb, msb_spec, MASK_24_32, MAXDIFF_0_24};

verus! {

/// Products of the inverse multiplier with every byte, and for each top byte
/// the bytes whose product can complete it.
#[derive(Debug)]
pub struct MultTab {
    multinvtab: Vec<u32>,
    msbprodfiber2: Vec<Vec<u8>>,
    msbprodfiber3: Vec<Vec<u8>>,
}

/// The product `b * MULTINV` modulo 2^32.
pub open spec fn multinv_spec(b: u8) -> u32 {
    MultTab::MULTINV.wrapping_mul(b as u32)
}

/// Whether the top byte of `b * MULTINV` is `m` or the byte just below `m`.
pub open spec fn in_fiber2(m: u8, b: u8) -> bool {
    let p = msb_spec(multinv_spec(b));
    p == m || p.wrapping_add(1) == m
}

/// Whether the top byte of `b * MULTINV` is `m` or one of its two neighbours.
pub open spec fn in_fiber3(m: u8, b: u8) -> bool {
    let p = msb_spec(multinv_spec(b));
    p.wrapping_sub(1) == m || p == m || p.wrapping_add(1) == m
}

/// The family of all bytes, numbered by their value.
pub open spec fn byte_at() -> spec_fn(int) -> u8 {
    |i: int| i as u8
}

/// Whether the byte with a given number is listed in `fiber2(m)`.
pub open spec fn fiber2_keep(m: u8) -> spec_fn(int) -> bool {
    |i: int| in_fiber2(m, i as u8)
}

/// Whether the byte with a given number is listed in `fiber3(m)`.
pub open spec fn fiber3_keep(m: u8) -> spec_fn(int) -> bool {
    |i: int| in_fiber3(m, i as u8)
}

/// The bytes `b`, ascending, with `msb(b * MULTINV)` equal to `m` or to `m - 1`.
pub open spec fn fiber2(m: u8) -> Seq<u8> {
    sieve(256, byte_at(), fiber2_keep(m))
}

/// The bytes `b`, ascending, with `msb(b * MULTINV)` equal to `m - 1`, `m` or `m + 1`.
pub open spec fn fiber3(m: u8) -> Seq<u8> {
    sieve(256, byte_at(), fiber3_keep(m))
}

/// The products of the two multipliers, and where the top byte of a product
/// lies when the product is close to a given word.
#[verifier::rlimit(40)]
proof fn lemma_products(b: u8, d: u32, prod: u32, y: u32)
    by (bit_vector)
    ensures
        MultTab::MULT.wrapping_mul(MultTab::MULTINV) == 1,
        MultTab::MULT.wrapping_mul(multinv_spec(b)) == b as u32,
        d.wrapping_sub(multinv_spec(b)) <= MAXDIFF_0_24 ==> in_fiber2(msb_spec(d), b),
        prod.wrapping_add(multinv_spec(b)).wrapping_sub(y & MASK_24_32) <= MAXDIFF_0_24
            ==> in_fiber3(msb_spec(y).wrapping_sub(msb_spec(prod)), b),
{
}

/// `MULTINV` is the inverse of `MULT` modulo 2^32, so multiplying a table
/// entry by `MULT` gives back its index.
pub proof fn lemma_multinv_inverts(b: u8)
    ensures
        MultTab::MULT.wrapping_mul(MultTab::MULTINV) == 1,
        MultTab::MULT.wrapping_mul(multinv_spec(b)) == b as u32,
{
    lemma_products(b, 0, 0, 0);
}

/// A byte is listed in `fiber2(m)` exactly when its product has top byte `m` or `m - 1`.
pub proof fn lemma_fiber2_members(m: u8, b: u8)
    ensures
        fiber2(m).contains(b) <==> in_fiber2(m, b),
{
    if in_fiber2(m, b) {
        lemma_sieve_contains(256, byte_at(), fiber2_keep(m), b as int);
    }
    if fiber2(m).contains(b) {
        let j = choose|j: int| 0 <= j < fiber2(m).len() && fiber2(m)[j] == b;
        lemma_sieve_entry(256, byte_at(), fiber2_keep(m), j);
    }
}

/// A byte is listed in `fiber3(m)` exactly when its product has top byte `m - 1`, `m` or `m + 1`.
pub proof fn lemma_fiber3_members(m: u8, b: u8)
    ensures
        fiber3(m).contains(b) <==> in_fiber3(m, b),
{
    if in_fiber3(m, b) {
        lemma_sieve_contains(256, byte_at(), fiber3_keep(m), b as int);
    }
    if fiber3(m).contains(b) {
        let j = choose|j: int| 0 <= j < fiber3(m).len() && fiber3(m)[j] == b;
        lemma_sieve_entry(256, byte_at(), fiber3_keep(m), j);
    }
}

/// Every byte whose product lies at most `MAXDIFF_0_24` below `d` is listed
/// in the fiber of the top byte of `d`.
pub proof fn lemma_fiber2_complete(d: u32, b: u8)
    requires
        d.wrapping_sub(multinv_spec(b)) <= MAXDIFF_0_24,
    ensures
        fiber2(msb_spec(d)).contains(b),
{
    lemma_products(b, d, 0, 0);
    lemma_fiber2_members(msb_spec(d), b);
}

/// Every byte whose product, added to `prod`, lies at most `MAXDIFF_0_24`
/// above the top byte of `y` is listed in the fiber of the difference of the
/// two top bytes.
pub proof fn lemma_fiber3_complete(prod: u32, b: u8, y: u32)
    requires
        prod.wrapping_add(multinv_spec(b)).wrapping_sub(y & MASK_24_32) <= MAXDIFF_0_24,
    ensures
        fiber3(msb_spec(y).wrapping_sub(msb_spec(prod))).contains(b),
{
    lemma_products(b, 0, prod, y);
    lemma_fiber3_members(msb_spec(y).wrapping_sub(msb_spec(prod)), b);
}

/// The table of products: entry `b` holds `b * MULTINV`.
pub open spec fn multinv_table() -> Seq<u32> {
    Seq::new(256, |b: int| multinv_spec(b as u8))
}

/// The first family of fibers: entry `m` holds `fiber2(m)`.
pub open spec fn fiber2_table() -> Seq<Seq<u8>> {
    Seq::new(256, |m: int| fiber2(m as u8))
}

/// The second family of fibers: entry `m` holds `fiber3(m)`.
pub open spec fn fiber3_table() -> Seq<Seq<u8>> {
    Seq::new(256, |m: int| fiber3(m as u8))
}

impl Clone for MultTab {
    fn clone(&self) -> (tab: MultTab)
        ensures
            tab.products() == self.products(),
            tab.fibers2() == self.fibers2(),
            tab.fibers3() == self.fibers3(),
    {
        proof {
            use_type_invariant(self);
        }
        let multinvtab = self.multinvtab.clone();
        let msbprodfiber2 = self.msbprodfiber2.clone();
        let msbprodfiber3 = self.msbprodfiber3.clone();
        assert(multinvtab@ =~= self.multinvtab@);
        let tab = MultTab { multinvtab, msbprodfiber2, msbprodfiber3 };
        assert(tab.fibers2() =~= self.fibers2());
        assert(tab.fibers3() =~= self.fibers3());
        tab
    }
}

impl MultTab {
    /// The multiplier of the Y recurrence.
    pub const MULT: u32 = 0x0808_8405;

    /// The inverse of `MULT` modulo 2^32.
    pub const MULTINV: u32 = 0xd94f_a8cd;

    #[verifier::type_invariant]
    spec fn inv(&self) -> bool {
        &&& self.multinvtab@.len() == 256
        &&& self.msbprodfiber2@.len() == 256
        &&& self.msbprodfiber3@.len() == 256
        &&& forall|i: int| 0 <= i < 256 ==> #[trigger] self.multinvtab@[i] == multinv_spec(i as u8)
        &&& forall|i: int| 0 <= i < 256 ==> (#[trigger] self.msbprodfiber2@[i])@ == fiber2(i as u8)
        &&& forall|i: int| 0 <= i < 256 ==> (#[trigger] self.msbprodfiber3@[i])@ == fiber3(i as u8)
    }

    /// The table of products as it is held.
    pub closed spec fn products(&self) -> Seq<u32> {
        self.multinvtab@
    }

    /// The first family of fibers as it is held.
    pub closed spec fn fibers2(&self) -> Seq<Seq<u8>> {
        Seq::new(256, |m: int| self.msbprodfiber2@[m]@)
    }

    /// The second family of fibers as it is held.
    pub closed spec fn fibers3(&self) -> Seq<Seq<u8>> {
        Seq::new(256, |m: int| self.msbprodfiber3@[m]@)
    }

    /// Builds the product table and both families of fibers.
    pub fn new() -> (tab: MultTab)
        ensures
            tab.products() == multinv_table(),
            tab.fibers2() == fiber2_table(),
            tab.fibers3() == fiber3_table(),
    {
        let mut multinvtab: Vec<u32> = Vec::new();
        let mut x: usize = 0;
        while x < 256
            invariant
                x <= 256,
                multinvtab@.len() == x,
                forall|i: int| 0 <= i < x ==> #[trigger] multinvtab@[i] == multinv_spec(i as u8),
            decreases 256 - x,
        {
            multinvtab.push(MultTab::MULTINV.wrapping_mul(x as u32));
            x += 1;
        }
        let mut msbprodfiber2: Vec<Vec<u8>> = Vec::new();
        let mut msbprodfiber3: Vec<Vec<u8>> = Vec::new();
        let mut m: usize = 0;
        while m < 256
            invariant
                m <= 256,
                multinvtab@.len() == 256,
                forall|i: int| 0 <= i < 256 ==> #[trigger] multinvtab@[i] == multinv_spec(i as u8),
                msbprodfiber2@.len() == m,
                msbprodfiber3@.len() == m,
                forall|i: int| 0 <= i < m ==> (#[trigger] msbprodfiber2@[i])@ == fiber2(i as u8),
                forall|i: int| 0 <= i < m ==> (#[trigger] msbprodfiber3@[i])@ == fiber3(i as u8),
            decreases 256 - m,
        {
            let top = m as u8;
            let mut two: Vec<u8> = Vec::new();
            let mut three: Vec<u8> = Vec::new();
            let mut b: usize = 0;
            while b < 256
                invariant
                    b <= 256,
                    top == m,
                    multinvtab@.len() == 256,
                    forall|i: int|
                        0 <= i < 256 ==> #[trigger] multinvtab@[i] == multinv_spec(i as u8),
                    two@ == sieve(b as nat, byte_at(), fiber2_keep(top)),
                    three@ == sieve(b as nat, byte_at(), fiber3_keep(top)),
                decreases 256 - b,
            {
                let p = msb(multinvtab[b]);
                let below = p.wrapping_sub(1) == top;
                let here = p == top;
                let above = p.wrapping_add(1) == top;
                if here || above {
                    two.push(b as u8);
                }
                if below || here || above {
                    three.push(b as u8);
                }
                b += 1;
            }
            msbprodfiber2.push(two);
            msbprodfiber3.push(three);
            m += 1;
        }
        let tab = MultTab { multinvtab, msbprodfiber2, msbprodfiber3 };
        assert(tab.products() =~= multinv_table());
        assert(tab.fibers2() =~= fiber2_table());
        assert(tab.fibers3() =~= fiber3_table());
        tab
    }

    /// The product `x * MULTINV` modulo 2^32.
    pub fn get_multinv(&self, x: u8) -> (r: u32)
        ensures
            r == multinv_spec(x),
    {
        proof {
            use_type_invariant(self);
        }
        self.multinvtab[x as usize]
    }

    /// The bytes whose product with `MULTINV` has top byte `m` or `m - 1`.
    pub fn get_msb_prod_fiber2(&self, m: u8) -> (r: &Vec<u8>)
        ensures
            r@ == fiber2(m),
    {
        proof {
            use_type_invariant(self);
        }
        &self.msbprodfiber2[m as usize]
    }

    /// The bytes whose product with `MULTINV` has top byte `m - 1`, `m` or `m + 1`.
    pub fn get_msb_prod_fiber3(&self, m: u8) -> (r: &Vec<u8>)
        ensures
            r@ == fiber3(m),
    {
        proof {
            use_type_invariant(self);
        }
        &self.msbprodfiber3[m as usize]
    }
}

} // verus!
