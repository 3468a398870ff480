//! The candidates for `Zi[2,32)` and their reduction along the keystream.

use vstd::prelude::*;
use rayon::slice::ParallelSliceMut;
use crate::crc32_tab::{Crc32Tab, zim1_10_32};
use crate::keystream_tab::{KeystreamTab, keystream_byte, zi_2_16_array, zi_2_16_vector, is_zi_2_16,
    bucket_of, lemma_zi_2_16_array_members, lemma_zi_2_16_array_entry,
    lemma_zi_2_16_vector_members, lemma_zi_2_16_vector_increasing};
use crate::sieve::{sieve, lemma_sieve_entry, lemma_sieve_contains};
use crate::utils::{MASK_0_16, MASK_10_32};

verus! {

/// Whether `z`, as `Zi[2,32)`, can follow from `next` as `Z{i+1}[2,32)`.
pub open spec fn precedes(z: u32, next: u32) -> bool {
    zim1_10_32(next) == z & MASK_10_32
}

/// Whether `z` is a value of `Zi[2,32)` consistent with the keystream from
/// position `i` to its end: it produces the byte of position `i`, and unless
/// `i` is the last position it can follow from a value that is consistent
/// with the keystream from position `i + 1`.
pub open spec fn is_candidate(keystream: Seq<u8>, i: int, z: u32) -> bool
    decreases keystream.len() - i,
{
    &&& 0 <= i < keystream.len()
    &&& z & 3 == 0
    &&& keystream_byte(z) == keystream[i]
    &&& i + 1 < keystream.len() ==> exists|next: u32| #[trigger]
        precedes(z, next) && is_candidate(keystream, i + 1, next)
}

/// Whether `v` lists each candidate of position `i` once, and nothing else.
pub open spec fn holds_candidates(v: Seq<u32>, keystream: Seq<u8>, i: int) -> bool {
    &&& v.no_duplicates()
    &&& forall|z: u32| v.contains(z) <==> is_candidate(keystream, i, z)
}

/// Whether `v` is strictly increasing.
pub open spec fn increasing(v: Seq<u32>) -> bool {
    forall|i: int, j: int| 0 <= i < j < v.len() ==> v[i] < v[j]
}

/// The family of all words with their two low bits clear, numbered upwards.
pub open spec fn word_at() -> spec_fn(int) -> u32 {
    |n: int| (4 * n) as u32
}

/// Whether the word with a given number is a candidate of position `i`.
pub open spec fn candidate_keep(keystream: Seq<u8>, i: int) -> spec_fn(int) -> bool {
    |n: int| is_candidate(keystream, i, (4 * n) as u32)
}

/// The candidates of position `i`, ascending.
pub open spec fn candidates(keystream: Seq<u8>, i: int) -> Seq<u32> {
    sieve(0x4000_0000, word_at(), candidate_keep(keystream, i))
}

/// The candidates for the last position in the order in which they are
/// generated: for each value of `Z[2,16)` that produces the keystream byte `k`,
/// ascending, every value of the upper half of the word, ascending.
pub open spec fn generated(k: u8) -> Seq<u32> {
    Seq::new(
        zi_2_16_array(k).len() * 65536,
        |n: int| (((n % 65536) as u32) << 16) | zi_2_16_array(k)[n / 65536],
    )
}

/// How a word splits into its halves and into the windows `[2,16)` and
/// `[10,32)`, and how words with the same window `[10,32)` are ordered.
#[verifier::rlimit(40)]
proof fn lemma_halves(high: u32, z: u32, w: u32, a: u32, b: u32)
    by (bit_vector)
    ensures
        high < 65536 && is_zi_2_16(z) ==> ((high << 16) | z) & 3 == 0 && ((high << 16) | z) >> 16
            == high && ((high << 16) | z) & MASK_0_16 == z,
        w & 3 == 0 ==> is_zi_2_16(w & MASK_0_16) && w >> 16 < 65536 && w == ((w >> 16) << 16) | (w
            & MASK_0_16) && keystream_byte(w) == keystream_byte(w & MASK_0_16),
        w & 3 == 0 ==> (w & MASK_10_32) & MASK_10_32 == w & MASK_10_32 && (w & MASK_10_32) | (w
            & MASK_0_16) == w && ((((w & MASK_0_16) & MASK_0_16) >> 10) == (((w & MASK_10_32)
            & MASK_0_16) >> 10)),
        a & MASK_10_32 == a && is_zi_2_16(z) && ((z & MASK_0_16) >> 10) == ((a & MASK_0_16) >> 10)
            ==> (a | z) & MASK_10_32 == a && (a | z) & 3 == 0 && (a | z) & MASK_0_16 == z && a
            <= (a | z) && (a | z) - a < 1024 && (a | z) - a == z & 0x3ff,
        a & MASK_10_32 == a && b & MASK_10_32 == b && a < b ==> a + 1024 <= b,
        (a & MASK_10_32) & MASK_10_32 == a & MASK_10_32,
        is_zi_2_16(a) && is_zi_2_16(b) && ((a & MASK_0_16) >> 10) == ((b & MASK_0_16) >> 10) && a
            < b ==> a & 0x3ff < b & 0x3ff,
{
}

/// The generated list holds each candidate of the last position once.
pub proof fn lemma_generated_holds(keystream: Seq<u8>)
    requires
        keystream.len() > 0,
    ensures
        holds_candidates(generated(keystream.last()), keystream, keystream.len() - 1),
{
    let k = keystream.last();
    let g = generated(k);
    let arr = zi_2_16_array(k);
    let last = keystream.len() - 1;
    assert forall|n: int, m: int| 0 <= n < g.len() && 0 <= m < g.len() && n != m implies g[n]
        != g[m] by {
        let (a, h) = (n / 65536, n % 65536);
        let (b, l) = (m / 65536, m % 65536);
        lemma_zi_2_16_array_entry(k, a);
        lemma_zi_2_16_array_entry(k, b);
        lemma_halves(h as u32, arr[a], 0, 0, 0);
        lemma_halves(l as u32, arr[b], 0, 0, 0);
        if a < b {
            assert(arr[a] < arr[b]);
        } else if b < a {
            assert(arr[b] < arr[a]);
        }
    }
    assert forall|z: u32| g.contains(z) <==> is_candidate(keystream, last, z) by {
        if g.contains(z) {
            let n = choose|n: int| 0 <= n < g.len() && g[n] == z;
            let (a, h) = (n / 65536, n % 65536);
            lemma_zi_2_16_array_entry(k, a);
            lemma_halves(h as u32, arr[a], 0, 0, 0);
            lemma_zi_2_16_array_members(k, arr[a], h as u32);
            assert(arr.contains(arr[a]));
        }
        if is_candidate(keystream, last, z) {
            lemma_halves(0, 0, z, 0, 0);
            let low = z & MASK_0_16;
            let high = z >> 16;
            lemma_zi_2_16_array_members(k, low, high);
            let a = choose|a: int| 0 <= a < arr.len() && arr[a] == low;
            let n = a * 65536 + high;
            assert(n / 65536 == a && n % 65536 == high);
            assert(g[n] == z);
        }
    }
}

/// Whether `w` is a value of `Z{i-1}[2,32)` that produces the keystream byte `k`
/// and can follow from a value listed in `current`.
pub open spec fn follows(current: Seq<u32>, k: u8, w: u32) -> bool {
    &&& w & 3 == 0
    &&& keystream_byte(w) == k
    &&& exists|next: u32| #[trigger] precedes(w, next) && current.contains(next)
}

/// Whether `zm` is the `Z{i-1}[10,32)` of a value among the first `n` of
/// `current`, and some `Z{i-1}[2,16)` completes it to produce the keystream byte `k`.
pub open spec fn collected(current: Seq<u32>, n: int, k: u8, zm: u32) -> bool {
    &&& zi_2_16_vector(k, zm).len() > 0
    &&& exists|h: int| 0 <= h < n && zim1_10_32(#[trigger] current[h]) == zm
}

/// Whether `w` completes one of the first `n` values of `zims` with one of the
/// first `m` values listed for the next, or with any value listed for an earlier one.
pub open spec fn completed(zims: Seq<u32>, n: int, m: int, k: u8, w: u32) -> bool {
    exists|a: int, b: int|
        0 <= a <= n && a < zims.len() && 0 <= b < zi_2_16_vector(k, zims[a]).len() && (a < n || b
            < m) && w == zims[a] | #[trigger] zi_2_16_vector(k, zims[a])[b]
}

/// A list that holds the values that follow from the candidates of position `i`,
/// ascending, is the list of the candidates of position `i - 1`.
pub proof fn lemma_step_holds(keystream: Seq<u8>, i: int, current: Seq<u32>, next: Seq<u32>)
    requires
        1 <= i < keystream.len(),
        holds_candidates(current, keystream, i),
        increasing(next),
        forall|w: u32| next.contains(w) <==> follows(current, keystream[i - 1], w),
    ensures
        holds_candidates(next, keystream, i - 1),
        next == candidates(keystream, i - 1),
{
    assert forall|w: u32| next.contains(w) <==> is_candidate(keystream, i - 1, w) by {
        if follows(current, keystream[i - 1], w) {
            let z = choose|z: u32| #[trigger] precedes(w, z) && current.contains(z);
            assert(is_candidate(keystream, i, z));
        }
        if is_candidate(keystream, i - 1, w) {
            let z = choose|z: u32| #[trigger] precedes(w, z) && is_candidate(keystream, i, z);
            assert(current.contains(z));
        }
    }
    lemma_candidates_listed(keystream, i - 1, next);
}

/// A strictly increasing list of exactly the candidates of position `i` is `candidates`.
pub proof fn lemma_candidates_listed(keystream: Seq<u8>, i: int, v: Seq<u32>)
    requires
        increasing(v),
        forall|w: u32| v.contains(w) <==> is_candidate(keystream, i, w),
    ensures
        v == candidates(keystream, i),
        holds_candidates(v, keystream, i),
{
    let f = word_at();
    let keep = candidate_keep(keystream, i);
    assert forall|x: u32|
        v.contains(x) <==> exists|n: int| 0 <= n < 0x4000_0000 && keep(n) && #[trigger] f(n)
            == x by {
        if v.contains(x) {
            lemma_quarters(x);
            let n = (x / 4) as int;
            assert(f(n) == x);
        }
    }
    crate::sieve::lemma_sieve_lists_sorted(v, 0x4000_0000, f, keep);
}

/// A word with its two low bits clear is four times its number.
proof fn lemma_quarters(x: u32)
    by (bit_vector)
    ensures
        x & 3 == 0 ==> 4 * (x / 4) == x,
        x / 4 < 0x4000_0000,
{
}

/// The candidates of a position, as listed, hold each candidate once.
pub proof fn lemma_candidates_hold(keystream: Seq<u8>, i: int)
    ensures
        holds_candidates(candidates(keystream, i), keystream, i),
        increasing(candidates(keystream, i)),
{
    let f = word_at();
    let keep = candidate_keep(keystream, i);
    let v = candidates(keystream, i);
    assert forall|a: int, b: int| 0 <= a < b < v.len() implies v[a] < v[b] by {
        lemma_sieve_entry(0x4000_0000, f, keep, a);
        lemma_sieve_entry(0x4000_0000, f, keep, b);
    }
    assert forall|w: u32| v.contains(w) <==> is_candidate(keystream, i, w) by {
        if v.contains(w) {
            let j = choose|j: int| 0 <= j < v.len() && v[j] == w;
            lemma_sieve_entry(0x4000_0000, f, keep, j);
        }
        if is_candidate(keystream, i, w) {
            lemma_quarters(w);
            lemma_sieve_contains(0x4000_0000, f, keep, (w / 4) as int);
        }
    }
}

/// What the reduction remembers of the sizes it has seen.
pub struct Tracking {
    /// Whether a list of at most `TRACK_SIZE` candidates has been seen.
    pub tracking: bool,
    /// The position of the smallest list seen.
    pub best_index: usize,
    /// The size of the smallest list seen.
    pub best_size: usize,
    /// Whether the countdown is armed.
    pub waiting: bool,
    /// The steps left on the countdown.
    pub wait: usize,
    /// Whether the countdown has run out.
    pub stopped: bool,
}

/// A list is tracked once it has at most this many candidates.
pub const TRACK_SIZE: usize = 0x1_0000;

/// The countdown is armed once the smallest list has at most this many candidates.
pub const WAIT_SIZE: usize = 0x100;

/// What the reduction remembers before its first step.
pub open spec fn tracking_start() -> Tracking {
    Tracking {
        tracking: false,
        best_index: 0,
        best_size: TRACK_SIZE,
        waiting: false,
        wait: 0,
        stopped: false,
    }
}

/// What the reduction remembers after step `i`, which found `size` candidates
/// for position `i - 1`.
///
/// A list no larger than the smallest so far becomes the smallest and disarms
/// the countdown. A larger list, once a smallest is known, arms the countdown
/// at four times the smallest size if the smallest list is the one of position
/// `i` and is small enough; an armed countdown then loses one step, and stops
/// the reduction when none is left.
pub open spec fn tracking_step(t: Tracking, i: usize, size: usize) -> Tracking {
    if t.stopped {
        t
    } else if size <= t.best_size {
        Tracking { tracking: true, best_index: (i - 1) as usize, best_size: size, waiting: false, ..t }
    } else if t.tracking {
        let armed = t.best_index == i && t.best_size <= WAIT_SIZE;
        let waiting = t.waiting || armed;
        let left = if armed {
            (t.best_size * 4) as usize
        } else {
            t.wait
        };
        let wait = if waiting {
            left.wrapping_sub(1)
        } else {
            left
        };
        Tracking { waiting, wait, stopped: waiting && wait == 0, ..t }
    } else {
        t
    }
}

/// What the reduction remembers after its steps from the last position down to `i`.
pub open spec fn tracking_after(keystream: Seq<u8>, i: int) -> Tracking
    decreases keystream.len() - i,
{
    if i >= keystream.len() || i < 1 {
        tracking_start()
    } else {
        tracking_step(
            tracking_after(keystream, i + 1),
            i as usize,
            candidates(keystream, i - 1).len() as usize,
        )
    }
}

/// The position whose candidates the reduction hands to the attack: that of
/// the smallest list it has tracked, or else the lowest position that the attack
/// can start from.
pub open spec fn reduced_index(keystream: Seq<u8>) -> int {
    let t = tracking_after(keystream, Zreduction::LOWEST as int + 1);
    if t.tracking {
        t.best_index as int
    } else {
        Zreduction::LOWEST as int
    }
}

/// Once the countdown has run out, further steps change nothing.
proof fn lemma_stopped_stays(keystream: Seq<u8>, i: int, j: int)
    requires
        1 <= j <= i < keystream.len(),
        tracking_after(keystream, i).stopped,
    ensures
        tracking_after(keystream, j) == tracking_after(keystream, i),
    decreases i - j,
{
    if j < i {
        lemma_stopped_stays(keystream, i, j + 1);
    }
}

/// The smallest list that the reduction tracks lies at a position that it has
/// passed, below the last.
proof fn lemma_tracking_bounds(keystream: Seq<u8>, i: int)
    requires
        Zreduction::LOWEST < i <= keystream.len() <= usize::MAX,
    ensures
        tracking_after(keystream, i).tracking ==> i - 1 <= tracking_after(keystream, i).best_index
            < keystream.len() - 1,
    decreases keystream.len() - i,
{
    if i < keystream.len() {
        lemma_tracking_bounds(keystream, i + 1);
    }
}

/// The reduction ends at a position from which the attack can start.
pub proof fn lemma_reduced_index_bounds(keystream: Seq<u8>)
    requires
        Zreduction::LOWEST < keystream.len() <= usize::MAX,
    ensures
        Zreduction::LOWEST <= reduced_index(keystream) < keystream.len(),
        reduced_index(keystream) == keystream.len() - 1 ==> keystream.len() == Zreduction::LOWEST
            + 1,
{
    if keystream.len() > Zreduction::LOWEST + 1 {
        lemma_tracking_bounds(keystream, Zreduction::LOWEST as int + 1);
    }
}

/// The candidate values of `Zi[2,32)` at one position of the keystream.
#[derive(Debug)]
pub struct Zreduction<'a> {
    keystream: &'a [u8],
    zi_2_32_vector: Vec<u32>,
    index: usize,
    keystreamtab: KeystreamTab,
    crc32tab: Crc32Tab,
}

/// Sorts the words in ascending order, by `rayon`'s `par_sort_unstable` on slices.
///
/// The outcome has the same words as many times each, in ascending order.
#[verifier::external_body]
fn par_sort_unstable(words: &mut Vec<u32>)
    ensures
        final(words)@.to_multiset() == old(words)@.to_multiset(),
        forall|i: int, j: int|
            0 <= i <= j < final(words)@.len() ==> final(words)@[i] <= final(words)@[j],
{
    words.par_sort_unstable();
}

/// Lists with the same words as many times each hold the same words.
proof fn lemma_same_members(a: Seq<u32>, b: Seq<u32>)
    requires
        a.to_multiset() == b.to_multiset(),
    ensures
        forall|x: u32| a.contains(x) <==> b.contains(x),
{
    a.to_multiset_ensures();
    b.to_multiset_ensures();
    assert forall|x: u32| a.contains(x) <==> b.contains(x) by {
        assert(a.contains(x) <==> a.to_multiset().count(x) > 0);
        assert(b.contains(x) <==> b.to_multiset().count(x) > 0);
    }
}

/// A list with one more word holds that word and what it held before.
proof fn lemma_push_contains(v: Seq<u32>, x: u32, y: u32)
    ensures
        v.push(x).contains(y) <==> v.contains(y) || x == y,
{
    if v.contains(y) {
        let i = choose|i: int| 0 <= i < v.len() && v[i] == y;
        assert(v.push(x)[i] == y);
    }
    if x == y {
        assert(v.push(x)[v.len() as int] == y);
    }
}

/// What one more value of `current` adds to the collected `Z{i-1}[10,32)`.
proof fn lemma_collected_next(current: Seq<u32>, n: int, k: u8, zm: u32)
    requires
        0 <= n < current.len(),
    ensures
        collected(current, n + 1, k, zm) <==> collected(current, n, k, zm) || (zim1_10_32(
            current[n],
        ) == zm && zi_2_16_vector(k, zm).len() > 0),
{
    if collected(current, n + 1, k, zm) {
        let h = choose|h: int| 0 <= h < n + 1 && zim1_10_32(#[trigger] current[h]) == zm;
        if h < n {
            assert(collected(current, n, k, zm));
        }
    }
    if collected(current, n, k, zm) {
        let h = choose|h: int| 0 <= h < n && zim1_10_32(#[trigger] current[h]) == zm;
        assert(0 <= h < n + 1 && zim1_10_32(current[h]) == zm);
    }
    if zim1_10_32(current[n]) == zm && zi_2_16_vector(k, zm).len() > 0 {
        assert(0 <= n < n + 1 && zim1_10_32(current[n]) == zm);
    }
}

/// What one more completion adds to the completed values.
proof fn lemma_completed_next(zims: Seq<u32>, a: int, b: int, k: u8, w: u32)
    requires
        0 <= a < zims.len(),
        0 <= b < zi_2_16_vector(k, zims[a]).len(),
    ensures
        completed(zims, a, b + 1, k, w) <==> completed(zims, a, b, k, w) || w == zims[a]
            | zi_2_16_vector(k, zims[a])[b],
{
    if completed(zims, a, b + 1, k, w) {
        let (c, d) = choose|c: int, d: int|
            0 <= c <= a && c < zims.len() && 0 <= d < zi_2_16_vector(k, zims[c]).len() && (c < a
                || d < b + 1) && w == zims[c] | #[trigger] zi_2_16_vector(k, zims[c])[d];
        if c < a || d < b {
            assert(completed(zims, a, b, k, w));
        }
    }
    if completed(zims, a, b, k, w) {
        let (c, d) = choose|c: int, d: int|
            0 <= c <= a && c < zims.len() && 0 <= d < zi_2_16_vector(k, zims[c]).len() && (c < a
                || d < b) && w == zims[c] | #[trigger] zi_2_16_vector(k, zims[c])[d];
        assert(completed(zims, a, b + 1, k, w)) by {
            assert(0 <= c <= a && c < zims.len() && 0 <= d < zi_2_16_vector(k, zims[c]).len() && (c
                < a || d < b + 1) && w == zims[c] | zi_2_16_vector(k, zims[c])[d]);
        }
    }
    if w == zims[a] | zi_2_16_vector(k, zims[a])[b] {
        assert(0 <= a <= a && a < zims.len() && 0 <= b < zi_2_16_vector(k, zims[a]).len() && (a < a
            || b < b + 1) && w == zims[a] | zi_2_16_vector(k, zims[a])[b]);
    }
}

/// Moving on to the next `Z{i-1}[10,32)` adds nothing by itself.
proof fn lemma_completed_row(zims: Seq<u32>, a: int, k: u8, w: u32)
    requires
        0 <= a < zims.len(),
    ensures
        completed(zims, a, zi_2_16_vector(k, zims[a]).len() as int, k, w) <==> completed(
            zims,
            a + 1,
            0,
            k,
            w,
        ),
{
    let full = zi_2_16_vector(k, zims[a]).len() as int;
    if completed(zims, a, full, k, w) {
        let (c, d) = choose|c: int, d: int|
            0 <= c <= a && c < zims.len() && 0 <= d < zi_2_16_vector(k, zims[c]).len() && (c < a
                || d < full) && w == zims[c] | #[trigger] zi_2_16_vector(k, zims[c])[d];
        assert(0 <= c <= a + 1 && c < zims.len() && 0 <= d < zi_2_16_vector(k, zims[c]).len() && (c
            < a + 1 || d < 0) && w == zims[c] | zi_2_16_vector(k, zims[c])[d]);
    }
    if completed(zims, a + 1, 0, k, w) {
        let (c, d) = choose|c: int, d: int|
            0 <= c <= a + 1 && c < zims.len() && 0 <= d < zi_2_16_vector(k, zims[c]).len() && (c
                < a + 1 || d < 0) && w == zims[c] | #[trigger] zi_2_16_vector(k, zims[c])[d];
        assert(0 <= c <= a && c < zims.len() && 0 <= d < zi_2_16_vector(k, zims[c]).len() && (c < a
            || d < full) && w == zims[c] | zi_2_16_vector(k, zims[c])[d]);
    }
}

/// The completions of the collected `Z{i-1}[10,32)` are the values that follow
/// from the current candidates.
proof fn lemma_completed_follows(current: Seq<u32>, zims: Seq<u32>, k: u8, w: u32)
    requires
        forall|zm: u32| zims.contains(zm) <==> collected(current, current.len() as int, k, zm),
    ensures
        completed(zims, zims.len() as int, 0, k, w) <==> follows(current, k, w),
{
    if completed(zims, zims.len() as int, 0, k, w) {
        let (c, d) = choose|c: int, d: int|
            0 <= c <= zims.len() && c < zims.len() && 0 <= d < zi_2_16_vector(k, zims[c]).len() && (
            c < zims.len() || d < 0) && w == zims[c] | #[trigger] zi_2_16_vector(k, zims[c])[d];
        let zm = zims[c];
        let v = zi_2_16_vector(k, zm)[d];
        assert(zims.contains(zm));
        let h = choose|h: int| 0 <= h < current.len() && zim1_10_32(#[trigger] current[h]) == zm;
        let z = current[h];
        assert(zi_2_16_vector(k, zm).contains(v));
        lemma_zi_2_16_vector_members(k, zm, v);
        lemma_halves(0, 0, 0, crate::crc32_tab::crc32inv_spec(z, 0), 0);
        lemma_halves(0, v, 0, zm, 0);
        lemma_halves(0, 0, w, 0, 0);
        assert(precedes(w, z));
        assert(current.contains(z));
    }
    if follows(current, k, w) {
        let z = choose|z: u32| #[trigger] precedes(w, z) && current.contains(z);
        let zm = zim1_10_32(z);
        let v = w & MASK_0_16;
        lemma_halves(0, 0, w, 0, 0);
        lemma_zi_2_16_vector_members(k, zm, v);
        let h = choose|h: int| 0 <= h < current.len() && current[h] == z;
        assert(zim1_10_32(current[h]) == zm);
        assert(is_zi_2_16(v) && keystream_byte(v) == k);
        assert(bucket_of(v) == bucket_of(zm));
        assert(zi_2_16_vector(k, zm).contains(v));
        assert(collected(current, current.len() as int, k, zm));
        assert(zims.contains(zm));
        let c = choose|c: int| 0 <= c < zims.len() && zims[c] == zm;
        assert(w == zm | v);
        let d = choose|d: int|
            0 <= d < zi_2_16_vector(k, zm).len() && zi_2_16_vector(k, zm)[d] == v;
        assert(0 <= c <= zims.len() && c < zims.len() && 0 <= d < zi_2_16_vector(k, zims[c]).len()
            && (c < zims.len() || d < 0) && w == zims[c] | zi_2_16_vector(k, zims[c])[d]);
    }
}

/// Drops the repeated words of an ascending list.
fn dedup(sorted: &Vec<u32>) -> (out: Vec<u32>)
    requires
        forall|i: int, j: int| 0 <= i <= j < sorted@.len() ==> sorted@[i] <= sorted@[j],
    ensures
        increasing(out@),
        forall|x: u32| out@.contains(x) <==> sorted@.contains(x),
{
    let mut out: Vec<u32> = Vec::new();
    let mut j: usize = 0;
    while j < sorted.len()
        invariant
            j <= sorted@.len(),
            forall|i: int, j: int| 0 <= i <= j < sorted@.len() ==> sorted@[i] <= sorted@[j],
            increasing(out@),
            j == 0 ==> out@.len() == 0,
            j > 0 ==> out@.len() > 0 && out@.last() == sorted@[j - 1],
            forall|x: u32| out@.contains(x) <==> sorted@.take(j as int).contains(x),
        decreases sorted@.len() - j,
    {
        let x = sorted[j];
        let ghost before = out@;
        let fresh = j == 0 || sorted[j - 1] != x;
        if fresh {
            out.push(x);
        }
        proof {
            let head = sorted@.take(j as int);
            assert(sorted@.take(j + 1) =~= head.push(x));
            assert forall|y: u32| out@.contains(y) <==> sorted@.take(j + 1).contains(y) by {
                lemma_push_contains(head, x, y);
                lemma_push_contains(before, x, y);
                if !fresh {
                    assert(before.last() == x);
                    assert(before.contains(x));
                }
            }
            if fresh && j > 0 {
                assert forall|a: int, b: int| 0 <= a < b < out@.len() implies out@[a] < out@[b] by {
                    if b == before.len() {
                        assert(before[a] <= before.last());
                    }
                }
            }
        }
        j += 1;
    }
    assert(sorted@.take(sorted@.len() as int) =~= sorted@);
    out
}

impl<'a> Zreduction<'a> {
    /// The lowest position whose candidates the attack can start from.
    pub const LOWEST: usize = 11;

    /// The keystream that the candidates are consistent with.
    pub closed spec fn keystream(&self) -> Seq<u8> {
        self.keystream@
    }

    /// The candidates, in the order in which they are held.
    pub closed spec fn values(&self) -> Seq<u32> {
        self.zi_2_32_vector@
    }

    /// The position of the keystream that the candidates belong to.
    pub closed spec fn index(&self) -> int {
        self.index as int
    }

    /// Whether the candidates are those of the last position, as generated.
    pub open spec fn is_generated(&self) -> bool {
        &&& self.keystream().len() > 0
        &&& self.index() == self.keystream().len() - 1
        &&& self.values() == generated(self.keystream().last())
    }

    /// An empty list of candidates for `keystream`.
    pub fn new(keystream: &'a [u8]) -> (zr: Zreduction<'a>)
        ensures
            zr.keystream() == keystream@,
            zr.values() == Seq::<u32>::empty(),
            zr.index() == 0,
    {
        Zreduction {
            zi_2_32_vector: Vec::new(),
            keystream,
            index: 0,
            keystreamtab: KeystreamTab::new(),
            crc32tab: Crc32Tab::new(),
        }
    }

    /// Lists every value of `Zi[2,32)` that produces the last keystream byte.
    pub fn generate(&mut self)
        requires
            old(self).keystream().len() > 0,
        ensures
            final(self).keystream() == old(self).keystream(),
            final(self).is_generated(),
            holds_candidates(final(self).values(), final(self).keystream(), final(self).index()),
    {
        let len = self.keystream.len();
        self.index = len - 1;
        let k = self.keystream[len - 1];
        assert(k == self.keystream@.last());
        let mut values: Vec<u32> = Vec::new();
        values.reserve(1 << 22);
        let n = self.keystreamtab.get_zi_2_16_array(k).len();
        let mut a: usize = 0;
        while a < n
            invariant
                a <= n,
                n == zi_2_16_array(k).len(),
                values@ == generated(k).take(a * 65536),
            decreases n - a,
        {
            let zi_2_16 = self.keystreamtab.get_zi_2_16_array(k)[a];
            let mut high: u32 = 0;
            while high < 65536
                invariant
                    a < n,
                    n == zi_2_16_array(k).len(),
                    high <= 65536,
                    zi_2_16 == zi_2_16_array(k)[a as int],
                    values@ == generated(k).take(a * 65536 + high),
                decreases 65536 - high,
            {
                proof {
                    let m = a * 65536 + high;
                    assert(m / 65536 == a && m % 65536 == high);
                    assert(generated(k).take(m + 1) =~= generated(k).take(m).push(
                        (high << 16) | zi_2_16,
                    ));
                }
                values.push((high << 16) | zi_2_16);
                high += 1;
            }
            a += 1;
        }
        assert(values@ =~= generated(k));
        self.zi_2_32_vector = values;
        proof {
            lemma_generated_holds(self.keystream@);
        }
    }

    /// The `Z{i-1}[10,32)` of the candidates that some `Z{i-1}[2,16)` completes to
    /// produce the keystream byte `k`.
    fn collect(&self, k: u8) -> (out: Vec<u32>)
        ensures
            forall|zm: u32|
                out@.contains(zm) <==> collected(
                    self.values(),
                    self.values().len() as int,
                    k,
                    zm,
                ),
            forall|j: int| 0 <= j < out@.len() ==> #[trigger] out@[j] & MASK_10_32 == out@[j],
    {
        let mut out: Vec<u32> = Vec::new();
        let mut j: usize = 0;
        while j < self.zi_2_32_vector.len()
            invariant
                j <= self.zi_2_32_vector@.len(),
                forall|zm: u32|
                    out@.contains(zm) <==> collected(self.zi_2_32_vector@, j as int, k, zm),
                forall|j: int| 0 <= j < out@.len() ==> #[trigger] out@[j] & MASK_10_32 == out@[j],
            decreases self.zi_2_32_vector@.len() - j,
        {
            // get Z{i-1}[10,32) from CRC32^-1
            let zim1_10_32 = self.crc32tab.get_zim1_10_32(self.zi_2_32_vector[j]);
            let ghost before = out@;
            // collect only those that are compatible with keystream{i-1}
            let compatible = self.keystreamtab.has_zi_2_16(k, zim1_10_32);
            if compatible {
                out.push(zim1_10_32);
            }
            proof {
                lemma_halves(0, 0, 0, crate::crc32_tab::crc32inv_spec(self.zi_2_32_vector@[j as int], 0), 0);
                assert forall|zm: u32|
                    out@.contains(zm) <==> collected(self.zi_2_32_vector@, j + 1, k, zm) by {
                    lemma_collected_next(self.zi_2_32_vector@, j as int, k, zm);
                    lemma_push_contains(before, zim1_10_32, zm);
                }
            }
            j += 1;
        }
        out
    }

    /// Every `Z{i-1}[2,32)` that completes one of `zims` to produce the keystream byte `k`.
    fn complete(&self, zims: &Vec<u32>, k: u8) -> (out: Vec<u32>)
        requires
            increasing(zims@),
            forall|j: int| 0 <= j < zims@.len() ==> #[trigger] zims@[j] & MASK_10_32 == zims@[j],
        ensures
            increasing(out@),
            forall|w: u32| out@.contains(w) <==> completed(zims@, zims@.len() as int, 0, k, w),
    {
        let mut out: Vec<u32> = Vec::new();
        let ghost mut ceiling: int = 0;
        let mut a: usize = 0;
        while a < zims.len()
            invariant
                a <= zims@.len(),
                increasing(zims@),
                forall|j: int|
                    0 <= j < zims@.len() ==> #[trigger] zims@[j] & MASK_10_32 == zims@[j],
                increasing(out@),
                forall|j: int| 0 <= j < out@.len() ==> out@[j] < ceiling,
                a < zims@.len() ==> ceiling <= zims@[a as int],
                forall|w: u32| out@.contains(w) <==> completed(zims@, a as int, 0, k, w),
            decreases zims@.len() - a,
        {
            let zim1_10_32 = zims[a];
            // get Z{i-1}[2,16) values from keystream byte k{i-1} and Z{i-1}[10,16)
            let n = self.keystreamtab.get_zi_2_16_vector(k, zim1_10_32).len();
            proof {
                if n > 0 {
                    let first = zi_2_16_vector(k, zim1_10_32)[0];
                    assert(zi_2_16_vector(k, zim1_10_32).contains(first));
                    lemma_zi_2_16_vector_members(k, zim1_10_32, first);
                    lemma_halves(0, first, 0, zim1_10_32, 0);
                }
            }
            let mut b: usize = 0;
            while b < n
                invariant
                    a < zims@.len(),
                    b <= n,
                    zim1_10_32 == zims@[a as int],
                    zim1_10_32 & MASK_10_32 == zim1_10_32,
                    n == zi_2_16_vector(k, zim1_10_32).len(),
                    increasing(out@),
                    forall|j: int| 0 <= j < out@.len() ==> out@[j] < ceiling,
                    ceiling <= zim1_10_32 + 1024,
                    b < n ==> ceiling <= (zim1_10_32 | zi_2_16_vector(k, zim1_10_32)[b as int]),
                    forall|w: u32| out@.contains(w) <==> completed(zims@, a as int, b as int, k, w),
                decreases n - b,
            {
                let zim1_2_16 = self.keystreamtab.get_zi_2_16_vector(k, zim1_10_32)[b];
                let ghost before = out@;
                let value = zim1_10_32 | zim1_2_16;
                out.push(value);
                proof {
                    let bucket = zi_2_16_vector(k, zim1_10_32);
                    assert(bucket.contains(zim1_2_16));
                    lemma_zi_2_16_vector_members(k, zim1_10_32, zim1_2_16);
                    lemma_halves(0, zim1_2_16, 0, zim1_10_32, 0);
                    if b + 1 < n {
                        let after = bucket[b + 1];
                        assert(bucket.contains(after));
                        lemma_zi_2_16_vector_members(k, zim1_10_32, after);
                        lemma_zi_2_16_vector_increasing(k, zim1_10_32, b as int, b + 1);
                        lemma_halves(0, after, 0, zim1_10_32, 0);
                        lemma_halves(0, 0, 0, zim1_2_16, after);
                    }
                    assert forall|w: u32|
                        out@.contains(w) <==> completed(zims@, a as int, b + 1, k, w) by {
                        lemma_completed_next(zims@, a as int, b as int, k, w);
                        lemma_push_contains(before, value, w);
                    }
                    ceiling = value + 1;
                }
                b += 1;
            }
            proof {
                assert forall|w: u32| out@.contains(w) <==> completed(zims@, a + 1, 0, k, w) by {
                    lemma_completed_row(zims@, a as int, k, w);
                }
                if a + 1 < zims@.len() {
                    lemma_halves(0, 0, 0, zim1_10_32, zims@[a + 1]);
                }
            }
            a += 1;
        }
        out
    }

    /// The candidates of the position below, from those held and the keystream byte `k` of
    /// that position.
    fn step(&self, k: u8) -> (next: Vec<u32>)
        ensures
            increasing(next@),
            forall|w: u32| next@.contains(w) <==> follows(self.values(), k, w),
    {
        // generate the Z{i-1}[10,32) values
        let mut zim1_10_32_vector = self.collect(k);
        let ghost unsorted = zim1_10_32_vector@;

        // remove duplicates
        par_sort_unstable(&mut zim1_10_32_vector);
        proof {
            lemma_same_members(unsorted, zim1_10_32_vector@);
            assert forall|j: int| 0 <= j < zim1_10_32_vector@.len() implies #[trigger]
                zim1_10_32_vector@[j] & MASK_10_32 == zim1_10_32_vector@[j] by {
                let zm = zim1_10_32_vector@[j];
                assert(zim1_10_32_vector@.contains(zm));
                assert(unsorted.contains(zm));
                let h = choose|h: int| 0 <= h < unsorted.len() && unsorted[h] == zm;
                assert(unsorted[h] & MASK_10_32 == unsorted[h]);
            }
        }
        let zims = dedup(&zim1_10_32_vector);
        proof {
            assert forall|j: int| 0 <= j < zims@.len() implies #[trigger] zims@[j] & MASK_10_32
                == zims@[j] by {
                let zm = zims@[j];
                assert(zims@.contains(zm));
                let h = choose|h: int|
                    0 <= h < zim1_10_32_vector@.len() && zim1_10_32_vector@[h] == zm;
                assert(zim1_10_32_vector@[h] & MASK_10_32 == zim1_10_32_vector@[h]);
            }
        }

        // complete Z{i-1}[10,32) values up to Z{i-1}[2,32)
        let next = self.complete(&zims, k);
        proof {
            assert forall|w: u32| next@.contains(w) <==> follows(self.values(), k, w) by {
                lemma_completed_follows(self.values(), zims@, k, w);
            }
        }
        next
    }

    /// Reduces the candidates along the keystream, from its last position
    /// downward, and keeps the smallest list that it meets.
    ///
    /// Each step replaces the candidates of position `i` by those of position
    /// `i - 1`. The lists are tracked as `tracking_step` tells; the reduction ends
    /// at the lowest position or when the countdown runs out, and leaves the
    /// candidates of the position `reduced_index`.
    pub fn reduce(&mut self)
        requires
            old(self).is_generated(),
            old(self).keystream().len() > Zreduction::LOWEST,
        ensures
            final(self).keystream() == old(self).keystream(),
            final(self).index() == reduced_index(final(self).keystream()),
            Zreduction::LOWEST <= final(self).index() < final(self).keystream().len(),
            holds_candidates(final(self).values(), final(self).keystream(), final(self).index()),
            final(self).index() < final(self).keystream().len() - 1 ==> final(self).values()
                == candidates(final(self).keystream(), final(self).index()),
            final(self).index() == final(self).keystream().len() - 1 ==> final(self).values()
                == old(self).values(),
    {
        let ghost ks = self.keystream@;
        proof {
            lemma_generated_holds(ks);
        }
        // variables to keep track of the smallest Zi[2,32) vector
        let mut best_copy: Vec<u32> = Vec::new();
        // variables to wait for a limited number of steps when a small enough vector is found
        let mut track = Tracking {
            tracking: false,
            best_index: 0,
            best_size: TRACK_SIZE,
            waiting: false,
            wait: 0,
            stopped: false,
        };
        let len = self.keystream.len();
        let mut i: usize = len - 1;
        while i > Zreduction::LOWEST && !track.stopped
            invariant
                Zreduction::LOWEST <= i < len,
                len == ks.len(),
                self.keystream@ == ks,
                !track.stopped ==> track == tracking_after(ks, i + 1),
                track.stopped ==> i > Zreduction::LOWEST && track == tracking_after(ks, i as int),
                track.tracking ==> i <= track.best_index < len - 1,
                track.stopped ==> track.tracking,
                !track.stopped ==> holds_candidates(self.zi_2_32_vector@, ks, i as int),
                !track.stopped && i < len - 1 ==> self.zi_2_32_vector@ == candidates(
                    ks,
                    i as int,
                ),
                i == len - 1 ==> self.zi_2_32_vector@ == old(self).values(),
                track.tracking && (track.stopped || track.best_index != i) ==> best_copy@
                    == candidates(ks, track.best_index as int),
            decreases i + (if track.stopped { 0int } else { 1int }),
        {
            let ghost before = track;
            let next = self.step(self.keystream[i - 1]);
            let size = next.len();
            proof {
                lemma_step_holds(ks, i as int, self.zi_2_32_vector@, next@);
                assert(tracking_after(ks, i as int) == tracking_step(before, i, size));
            }

            // update smallest vector tracking
            if size <= track.best_size {
                track.tracking = true;
                track.best_index = i - 1;
                track.best_size = size;
                track.waiting = false;
            } else if track.tracking {
                // vector is bigger than best_size
                if track.best_index == i {
                    // hit a minimum
                    // keep a copy of the vector because size is about to grow
                    std::mem::swap(&mut best_copy, &mut self.zi_2_32_vector);

                    if track.best_size <= WAIT_SIZE {
                        // enable waiting
                        track.waiting = true;
                        track.wait = track.best_size * 4;
                    }
                }
                if track.waiting {
                    track.wait = track.wait.wrapping_sub(1);
                    if track.wait == 0 {
                        track.stopped = true;
                    }
                }
            }
            assert(track == tracking_after(ks, i as int));

            if !track.stopped {
                // put result in z_2_32_vector
                self.zi_2_32_vector = next;
                i -= 1;
            }
        }

        proof {
            if track.stopped {
                lemma_stopped_stays(ks, i as int, Zreduction::LOWEST as int + 1);
            }
        }
        if track.tracking {
            // put best_copy in z_2_32_vector only if best_index is not the index of z_2_32_vector
            if track.best_index != Zreduction::LOWEST {
                std::mem::swap(&mut self.zi_2_32_vector, &mut best_copy);
            }
            self.index = track.best_index;
            proof {
                lemma_candidates_hold(ks, track.best_index as int);
            }
        } else {
            self.index = Zreduction::LOWEST;
        }
    }

    /// The number of candidates.
    pub fn size(&self) -> (n: usize)
        ensures
            n == self.values().len(),
    {
        self.zi_2_32_vector.len()
    }

    /// The position of the keystream that the candidates belong to.
    pub fn get_index(&self) -> (i: usize)
        ensures
            i == self.index(),
    {
        self.index
    }

    /// The candidates.
    pub fn get_zi_2_32_vector(&self) -> (v: &Vec<u32>)
        ensures
            v@ == self.values(),
    {
        &self.zi_2_32_vector
    }
}

} // verus!
