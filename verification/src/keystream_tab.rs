//! Lookup tables between keystream bytes and the bits `Z[2,16)` that produce them.

use vstd::prelude::*;
use crate::sieve::{sieve, sieve_source, lemma_sieve_contains, lemma_sieve_entry};
use crate::utils::{lsb, lsb_spec, MASK_0_16};

verus! {

/// The keystream byte that a cipher state with third key `z` produces.
pub open spec fn keystream_byte(z: u32) -> u8 {
    let t = z | 3;
    lsb_spec(t.wrapping_mul(t ^ 1) >> 8)
}

/// The family of all values of `Z[2,16)`, numbered upwards.
pub open spec fn zi_2_16_at() -> spec_fn(int) -> u32 {
    |i: int| (4 * i) as u32
}

/// Whether the value of `Z[2,16)` with a given number produces the keystream byte `k`.
pub open spec fn zi_2_16_keep(k: u8) -> spec_fn(int) -> bool {
    |i: int| keystream_byte((4 * i) as u32) == k
}

/// The six bits `Z[10,16)` of `z`, as a number below 64.
pub open spec fn bucket_of(z: u32) -> int {
    ((z & MASK_0_16) >> 10) as int
}

/// The family of the values of `Z[2,16)` whose bits `[10,16)` are `q`, numbered upwards.
pub open spec fn bucket_at(q: int) -> spec_fn(int) -> u32 {
    |j: int| (1024 * q + 4 * j) as u32
}

/// Whether the value of `Z[2,16)` with a given number in bucket `q` produces the
/// keystream byte `k`.
pub open spec fn bucket_keep(k: u8, q: int) -> spec_fn(int) -> bool {
    |j: int| keystream_byte((1024 * q + 4 * j) as u32) == k
}

/// All values of `Z[2,16)`, ascending, that produce keystream byte `k`.
pub open spec fn zi_2_16_array(k: u8) -> Seq<u32> {
    sieve(16384, zi_2_16_at(), zi_2_16_keep(k))
}

/// The values of `Z[2,16)`, ascending, that produce keystream byte `k` and
/// share their bits `[10,16)` with `zi_10_16`.
pub open spec fn zi_2_16_vector(k: u8, zi_10_16: u32) -> Seq<u32> {
    sieve(256, bucket_at(bucket_of(zi_10_16)), bucket_keep(k, bucket_of(zi_10_16)))
}

/// Whether `z` has only bits of the window `[2,16)` set.
pub open spec fn is_zi_2_16(z: u32) -> bool {
    z & 3 == 0 && z <= 0xffff
}

/// Bit `q` of the word `w`.
pub open spec fn bit_spec(w: u64, q: u64) -> bool {
    (w >> q) & 1 == 1
}

/// Setting bit `q` of a word changes no other bit, and the empty word has no bit set.
proof fn lemma_bits(w: u64, q: u64, i: u64)
    by (bit_vector)
    requires
        q < 64,
        i < 64,
    ensures
        bit_spec(w | (1u64 << q), i) == (i == q || bit_spec(w, i)),
        !bit_spec(0, i),
{
}

/// How a word splits into the windows `[2,10)`, `[10,16)` and `[16,32)`, of
/// which only the first two have a part in the keystream byte.
#[verifier::rlimit(40)]
proof fn lemma_windows(z: u32, high: u32)
    by (bit_vector)
    ensures
        (z & MASK_0_16) >> 2 < 16384,
        (z & MASK_0_16) >> 10 < 64,
        keystream_byte(z) == keystream_byte((4 * ((z & MASK_0_16) >> 2)) as u32),
        is_zi_2_16(z) ==> z == 4 * ((z & MASK_0_16) >> 2) && z == 1024 * ((z & MASK_0_16) >> 10)
            + 4 * ((z >> 2) & 0xff) && keystream_byte((high << 16) | z) == keystream_byte(z),
        z < 16384 ==> is_zi_2_16((4 * z) as u32) && 4 * z < 0x10000,
        z < 64 && high < 256 ==> is_zi_2_16((1024 * z + 4 * high) as u32) && ((((1024 * z + 4
            * high) as u32) & MASK_0_16) >> 10) == z && 1024 * z + 4 * high < 0x10000,
        ((z >> 2) & 0xff) < 256,
{
}

/// Words that agree on `Z[2,16)`, under the mask `0xfffc`, produce the same keystream byte.
pub proof fn lemma_keystream_window(a: u32, b: u32)
    requires
        a & 0xfffc == b & 0xfffc,
    ensures
        keystream_byte(a) == keystream_byte(b),
{
    lemma_windows(a, 0);
    lemma_windows(b, 0);
    lemma_window_number(a, b);
}

/// Words that agree on `Z[2,16)` have the same number among the values of `Z[2,16)`.
proof fn lemma_window_number(a: u32, b: u32)
    by (bit_vector)
    requires
        a & 0xfffc == b & 0xfffc,
    ensures
        (a & MASK_0_16) >> 2 == (b & MASK_0_16) >> 2,
{
}

/// The listed values for byte `k` are exactly the values of `Z[2,16)` that
/// produce `k`, whatever the upper half of the word holds.
pub proof fn lemma_zi_2_16_array_members(k: u8, z: u32, high: u32)
    requires
        is_zi_2_16(z),
    ensures
        zi_2_16_array(k).contains(z) <==> keystream_byte((high << 16) | z) == k,
{
    lemma_windows(z, high);
    let i = ((z & MASK_0_16) >> 2) as int;
    if keystream_byte(z) == k {
        lemma_sieve_contains(16384, zi_2_16_at(), zi_2_16_keep(k), i);
    }
    if zi_2_16_array(k).contains(z) {
        let j = choose|j: int| 0 <= j < zi_2_16_array(k).len() && zi_2_16_array(k)[j] == z;
        lemma_sieve_entry(16384, zi_2_16_at(), zi_2_16_keep(k), j);
    }
}

/// Every listed value for byte `k` lies in the window `[2,16)`.
pub proof fn lemma_zi_2_16_array_entry(k: u8, j: int)
    requires
        0 <= j < zi_2_16_array(k).len(),
    ensures
        is_zi_2_16(zi_2_16_array(k)[j]),
        keystream_byte(zi_2_16_array(k)[j]) == k,
        forall|h: int| 0 <= h < j ==> #[trigger] zi_2_16_array(k)[h] < zi_2_16_array(k)[j],
{
    lemma_sieve_entry(16384, zi_2_16_at(), zi_2_16_keep(k), j);
    let i = sieve_source(16384, zi_2_16_at(), zi_2_16_keep(k), j);
    lemma_windows(i as u32, 0);
    assert forall|h: int| 0 <= h < j implies #[trigger] zi_2_16_array(k)[h] < zi_2_16_array(
        k,
    )[j] by {
        lemma_sieve_entry(16384, zi_2_16_at(), zi_2_16_keep(k), h);
        let ih = sieve_source(16384, zi_2_16_at(), zi_2_16_keep(k), h);
        lemma_windows(ih as u32, 0);
    }
}

/// The values listed for byte `k` and the bucket of `zi_10_16` are exactly the
/// values of `Z[2,16)` in that bucket that produce `k`.
pub proof fn lemma_zi_2_16_vector_members(k: u8, zi_10_16: u32, z: u32)
    ensures
        zi_2_16_vector(k, zi_10_16).contains(z) <==> is_zi_2_16(z) && bucket_of(z) == bucket_of(
            zi_10_16,
        ) && keystream_byte(z) == k,
{
    let q = bucket_of(zi_10_16);
    lemma_windows(zi_10_16, 0);
    if is_zi_2_16(z) && bucket_of(z) == q && keystream_byte(z) == k {
        lemma_windows(z, 0);
        let j = ((z >> 2) & 0xff) as int;
        lemma_sieve_contains(256, bucket_at(q), bucket_keep(k, q), j);
    }
    if zi_2_16_vector(k, zi_10_16).contains(z) {
        let v = zi_2_16_vector(k, zi_10_16);
        let j = choose|j: int| 0 <= j < v.len() && v[j] == z;
        lemma_sieve_entry(256, bucket_at(q), bucket_keep(k, q), j);
        let i = sieve_source(256, bucket_at(q), bucket_keep(k, q), j);
        lemma_windows(q as u32, i as u32);
    }
}

/// The values listed for a bucket are strictly increasing.
pub proof fn lemma_zi_2_16_vector_increasing(k: u8, zi_10_16: u32, h: int, j: int)
    requires
        0 <= h < j < zi_2_16_vector(k, zi_10_16).len(),
    ensures
        zi_2_16_vector(k, zi_10_16)[h] < zi_2_16_vector(k, zi_10_16)[j],
{
    let q = bucket_of(zi_10_16);
    lemma_windows(zi_10_16, 0);
    lemma_sieve_entry(256, bucket_at(q), bucket_keep(k, q), j);
    lemma_sieve_entry(256, bucket_at(q), bucket_keep(k, q), h);
    let ij = sieve_source(256, bucket_at(q), bucket_keep(k, q), j);
    let ih = sieve_source(256, bucket_at(q), bucket_keep(k, q), h);
    lemma_windows(q as u32, ij as u32);
    lemma_windows(q as u32, ih as u32);
}

/// The selection that the table keeps for byte `k` and bucket `q`.
pub open spec fn bucket_sieve(k: int, q: int) -> Seq<u32> {
    sieve(256, bucket_at(q), bucket_keep(k as u8, q))
}

/// Whether the table of buckets holds the right selection for byte `k` and bucket `q`.
spec fn filter_ok(tab: Seq<Vec<u32>>, k: int, q: int) -> bool {
    tab[64 * k + q]@ == bucket_sieve(k, q)
}

/// Whether bit `q` of `w` tells that the bucket `q` of byte `k` holds a value,
/// for the buckets below `limit`, and is clear for the others.
spec fn present_ok(w: u64, k: int, q: int, limit: int) -> bool {
    bit_spec(w, q as u64) == (q < limit && bucket_sieve(k, q).len() > 0)
}

/// Keystream bytes and their preimages among the values of `Z[2,16)`.
#[derive(Debug)]
pub struct KeystreamTab {
    keystreamtab: Vec<u8>,
    keystreaminvtab: Vec<Vec<u32>>,
    keystreaminvfiltertab: Vec<Vec<u32>>,
    keystreaminvexists: Vec<u64>,
}

/// The keystream byte that a state with third key `z` produces.
fn byte_of(z: u32) -> (k: u8)
    ensures
        k == keystream_byte(z),
{
    let t = z | 3;
    lsb(t.wrapping_mul(t ^ 1) >> 8)
}

/// A copy of a table of lists.
fn clone_lists(lists: &Vec<Vec<u32>>) -> (r: Vec<Vec<u32>>)
    ensures
        r@.len() == lists@.len(),
        forall|i: int| 0 <= i < lists@.len() ==> r@[i]@ == lists@[i]@,
{
    lists.clone()
}

/// The table of keystream bytes: entry `i` holds the byte of the `i`-th value of `Z[2,16)`.
pub open spec fn keystream_table() -> Seq<u8> {
    Seq::new(16384, |i: int| keystream_byte((4 * i) as u32))
}

/// The table of preimages: entry `k` holds `zi_2_16_array(k)`.
pub open spec fn array_table() -> Seq<Seq<u32>> {
    Seq::new(256, |k: int| zi_2_16_array(k as u8))
}

/// The table of buckets: entry `64 * k + q` holds the preimages of byte `k` in bucket `q`.
pub open spec fn bucket_table() -> Seq<Seq<u32>> {
    Seq::new(16384, |n: int| bucket_sieve(n / 64, n % 64))
}

/// Whether the words tell, bit by bit, which buckets hold a value: bit `q` of
/// word `k` is set exactly when bucket `q` of byte `k` is not empty.
pub open spec fn tells_buckets(words: Seq<u64>) -> bool {
    &&& words.len() == 256
    &&& forall|k: int, q: int|
        0 <= k < 256 && 0 <= q < 64 ==> bit_spec(#[trigger] words[k], q as u64) == (
        #[trigger] bucket_sieve(k, q).len() > 0)
}

impl Clone for KeystreamTab {
    fn clone(&self) -> (tab: KeystreamTab)
        ensures
            tab.bytes() == self.bytes(),
            tab.arrays() == self.arrays(),
            tab.buckets() == self.buckets(),
            tab.present() == self.present(),
    {
        proof {
            use_type_invariant(self);
        }
        let keystreamtab = self.keystreamtab.clone();
        let keystreaminvtab = clone_lists(&self.keystreaminvtab);
        let keystreaminvfiltertab = clone_lists(&self.keystreaminvfiltertab);
        let keystreaminvexists = self.keystreaminvexists.clone();
        assert(keystreamtab@ =~= self.keystreamtab@);
        assert(keystreaminvexists@ =~= self.keystreaminvexists@);
        assert forall|k: int, q: int| 0 <= k < 256 && 0 <= q < 64 implies #[trigger] filter_ok(
            keystreaminvfiltertab@,
            k,
            q,
        ) by {
            assert(filter_ok(self.keystreaminvfiltertab@, k, q));
        }
        let tab = KeystreamTab {
            keystreamtab,
            keystreaminvtab,
            keystreaminvfiltertab,
            keystreaminvexists,
        };
        assert(tab.arrays() =~= self.arrays());
        assert(tab.buckets() =~= self.buckets());
        tab
    }
}

impl KeystreamTab {
    #[verifier::type_invariant]
    spec fn inv(&self) -> bool {
        &&& self.keystreamtab@.len() == 16384
        &&& self.keystreaminvtab@.len() == 256
        &&& self.keystreaminvfiltertab@.len() == 16384
        &&& self.keystreaminvexists@.len() == 256
        &&& forall|i: int|
            0 <= i < 16384 ==> #[trigger] self.keystreamtab@[i] == keystream_byte((4 * i) as u32)
        &&& forall|k: int|
            0 <= k < 256 ==> (#[trigger] self.keystreaminvtab@[k])@ == zi_2_16_array(k as u8)
        &&& forall|k: int, q: int|
            0 <= k < 256 && 0 <= q < 64 ==> #[trigger] filter_ok(self.keystreaminvfiltertab@, k, q)
        &&& forall|k: int, q: int|
            0 <= k < 256 && 0 <= q < 64 ==> #[trigger] present_ok(
                self.keystreaminvexists@[k],
                k,
                q,
                64,
            )
    }

    /// The table of keystream bytes as it is held.
    pub closed spec fn bytes(&self) -> Seq<u8> {
        self.keystreamtab@
    }

    /// The table of preimages as it is held.
    pub closed spec fn arrays(&self) -> Seq<Seq<u32>> {
        Seq::new(256, |k: int| self.keystreaminvtab@[k]@)
    }

    /// The table of buckets as it is held.
    pub closed spec fn buckets(&self) -> Seq<Seq<u32>> {
        Seq::new(16384, |n: int| self.keystreaminvfiltertab@[n]@)
    }

    /// The words that tell which buckets hold a value, as they are held.
    pub closed spec fn present(&self) -> Seq<u64> {
        self.keystreaminvexists@
    }

    /// Builds the tables.
    pub fn new() -> (tab: KeystreamTab)
        ensures
            tab.bytes() == keystream_table(),
            tab.arrays() == array_table(),
            tab.buckets() == bucket_table(),
            tells_buckets(tab.present()),
    {
        let mut keystreamtab: Vec<u8> = Vec::new();
        let mut i: usize = 0;
        while i < 16384
            invariant
                i <= 16384,
                keystreamtab@.len() == i,
                forall|h: int|
                    0 <= h < i ==> #[trigger] keystreamtab@[h] == keystream_byte((4 * h) as u32),
            decreases 16384 - i,
        {
            keystreamtab.push(byte_of(4 * (i as u32)));
            i += 1;
        }
        let mut keystreaminvtab: Vec<Vec<u32>> = Vec::new();
        let mut keystreaminvfiltertab: Vec<Vec<u32>> = Vec::new();
        let mut keystreaminvexists: Vec<u64> = Vec::new();
        let mut k: usize = 0;
        while k < 256
            invariant
                k <= 256,
                keystreamtab@.len() == 16384,
                forall|h: int|
                    0 <= h < 16384 ==> #[trigger] keystreamtab@[h] == keystream_byte(
                        (4 * h) as u32,
                    ),
                keystreaminvtab@.len() == k,
                keystreaminvfiltertab@.len() == 64 * k,
                keystreaminvexists@.len() == k,
                forall|h: int|
                    0 <= h < k ==> (#[trigger] keystreaminvtab@[h])@ == zi_2_16_array(h as u8),
                forall|h: int, q: int|
                    0 <= h < k && 0 <= q < 64 ==> #[trigger] filter_ok(
                        keystreaminvfiltertab@,
                        h,
                        q,
                    ),
                forall|h: int, q: int|
                    0 <= h < k && 0 <= q < 64 ==> #[trigger] present_ok(
                        keystreaminvexists@[h],
                        h,
                        q,
                        64,
                    ),
            decreases 256 - k,
        {
            let byte = k as u8;
            let mut all: Vec<u32> = Vec::new();
            let mut present: u64 = 0;
            let mut q: usize = 0;
            let ghost filter_before = keystreaminvfiltertab@;
            proof {
                assert forall|p: int| 0 <= p < 64 implies #[trigger] present_ok(
                    present,
                    k as int,
                    p,
                    0,
                ) by {
                    lemma_bits(0, 0, p as u64);
                }
            }
            while q < 64
                invariant
                    q <= 64,
                    k < 256,
                    byte == k,
                    keystreamtab@.len() == 16384,
                    forall|h: int|
                        0 <= h < 16384 ==> #[trigger] keystreamtab@[h] == keystream_byte(
                            (4 * h) as u32,
                        ),
                    all@ == sieve((256 * q) as nat, zi_2_16_at(), zi_2_16_keep(byte)),
                    keystreaminvfiltertab@.len() == 64 * k + q,
                    filter_before.len() == 64 * k,
                    forall|h: int|
                        0 <= h < 64 * k ==> keystreaminvfiltertab@[h] == filter_before[h],
                    forall|p: int|
                        0 <= p < q ==> #[trigger] filter_ok(keystreaminvfiltertab@, k as int, p),
                    forall|p: int|
                        0 <= p < 64 ==> #[trigger] present_ok(present, k as int, p, q as int),
                decreases 64 - q,
            {
                let mut some: Vec<u32> = Vec::new();
                let mut j: usize = 0;
                while j < 256
                    invariant
                        j <= 256,
                        q < 64,
                        keystreamtab@.len() == 16384,
                        forall|h: int|
                            0 <= h < 16384 ==> #[trigger] keystreamtab@[h] == keystream_byte(
                                (4 * h) as u32,
                            ),
                        all@ == sieve((256 * q + j) as nat, zi_2_16_at(), zi_2_16_keep(byte)),
                        some@ == sieve(j as nat, bucket_at(q as int), bucket_keep(byte, q as int)),
                    decreases 256 - j,
                {
                    let n = 256 * q + j;
                    if keystreamtab[n] == byte {
                        all.push(4 * (n as u32));
                        some.push(1024 * (q as u32) + 4 * (j as u32));
                    }
                    j += 1;
                }
                let ghost present_before = present;
                let ghost tab_before = keystreaminvfiltertab@;
                if some.len() > 0 {
                    present = present | (1u64 << (q as u64));
                }
                keystreaminvfiltertab.push(some);
                proof {
                    assert forall|p: int| 0 <= p < 64 implies #[trigger] present_ok(
                        present,
                        k as int,
                        p,
                        q + 1,
                    ) by {
                        lemma_bits(present_before, q as u64, p as u64);
                        assert(present_ok(present_before, k as int, p, q as int));
                    }
                    assert forall|p: int| 0 <= p < q + 1 implies #[trigger] filter_ok(
                        keystreaminvfiltertab@,
                        k as int,
                        p,
                    ) by {
                        if p < q {
                            assert(filter_ok(tab_before, k as int, p));
                        }
                    }
                }
                q += 1;
            }
            proof {
                assert forall|h: int, p: int| 0 <= h < k + 1 && 0 <= p < 64 implies #[trigger] filter_ok(
                    keystreaminvfiltertab@,
                    h,
                    p,
                ) by {
                    if h < k {
                        assert(filter_ok(filter_before, h, p));
                    }
                }
            }
            keystreaminvtab.push(all);
            keystreaminvexists.push(present);
            k += 1;
        }
        let tab = KeystreamTab {
            keystreamtab,
            keystreaminvtab,
            keystreaminvfiltertab,
            keystreaminvexists,
        };
        proof {
            assert(tab.bytes() =~= keystream_table());
            assert(tab.arrays() =~= array_table());
            assert forall|n: int| 0 <= n < 16384 implies #[trigger] tab.buckets()[n]
                == bucket_table()[n] by {
                assert(filter_ok(tab.keystreaminvfiltertab@, n / 64, n % 64));
            }
            assert(tab.buckets() =~= bucket_table());
            assert forall|k: int, q: int| 0 <= k < 256 && 0 <= q < 64 implies bit_spec(
                #[trigger] tab.present()[k],
                q as u64,
            ) == (#[trigger] bucket_sieve(k, q).len() > 0) by {
                assert(present_ok(tab.keystreaminvexists@[k], k, q, 64));
            }
        }
        tab
    }

    /// The keystream byte produced by a state whose third key is `zi`.
    pub fn get_byte(&self, zi: u32) -> (k: u8)
        ensures
            k == keystream_byte(zi),
    {
        proof {
            use_type_invariant(self);
            lemma_windows(zi, 0);
        }
        self.keystreamtab[((zi & MASK_0_16) >> 2) as usize]
    }

    /// All values of `Zi[2,16)` that produce keystream byte `ki`.
    pub fn get_zi_2_16_array(&self, ki: u8) -> (r: &Vec<u32>)
        ensures
            r@ == zi_2_16_array(ki),
    {
        proof {
            use_type_invariant(self);
        }
        &self.keystreaminvtab[ki as usize]
    }

    /// The values of `Zi[2,16)` that produce `ki` and agree with `zi_10_16` on bits `[10,16)`.
    pub fn get_zi_2_16_vector(&self, ki: u8, zi_10_16: u32) -> (r: &Vec<u32>)
        ensures
            r@ == zi_2_16_vector(ki, zi_10_16),
    {
        proof {
            use_type_invariant(self);
            lemma_windows(zi_10_16, 0);
            assert(filter_ok(self.keystreaminvfiltertab@, ki as int, bucket_of(zi_10_16)));
        }
        let q = ((zi_10_16 & MASK_0_16) >> 10) as usize;
        &self.keystreaminvfiltertab[64 * (ki as usize) + q]
    }

    /// Whether some value of `Zi[2,16)` produces `ki` and agrees with `zi_10_16` on bits `[10,16)`.
    pub fn has_zi_2_16(&self, ki: u8, zi_10_16: u32) -> (r: bool)
        ensures
            r == (zi_2_16_vector(ki, zi_10_16).len() > 0),
    {
        proof {
            use_type_invariant(self);
            lemma_windows(zi_10_16, 0);
            assert(present_ok(
                self.keystreaminvexists@[ki as int],
                ki as int,
                bucket_of(zi_10_16),
                64,
            ));
        }
        let q = ((zi_10_16 & MASK_0_16) >> 10) as u64;
        (self.keystreaminvexists[ki as usize] >> q) & 1 == 1
    }
}

} // verus!
