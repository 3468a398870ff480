//! Ordered selections from a numbered family of values.

use vstd::prelude::*;

verus! {

/// The values `f(0), f(1), ..., f(n - 1)` at the positions where `keep` holds,
/// in increasing order of position.
pub open spec fn sieve<T>(n: nat, f: spec_fn(int) -> T, keep: spec_fn(int) -> bool) -> Seq<T>
    decreases n,
{
    if n == 0 {
        Seq::empty()
    } else {
        let before = sieve((n - 1) as nat, f, keep);
        if keep(n - 1) {
            before.push(f(n - 1))
        } else {
            before
        }
    }
}

/// Where entry `j` of the selection comes from: the position of the `j`-th kept value.
pub open spec fn sieve_source<T>(
    n: nat,
    f: spec_fn(int) -> T,
    keep: spec_fn(int) -> bool,
    j: int,
) -> int
    decreases n,
{
    if n == 0 {
        0
    } else {
        let before = sieve((n - 1) as nat, f, keep);
        if keep(n - 1) && j == before.len() {
            n - 1
        } else {
            sieve_source((n - 1) as nat, f, keep, j)
        }
    }
}

/// Every entry of a selection is a kept value, and later entries come from later positions.
pub proof fn lemma_sieve_entry<T>(
    n: nat,
    f: spec_fn(int) -> T,
    keep: spec_fn(int) -> bool,
    j: int,
)
    requires
        0 <= j < sieve(n, f, keep).len(),
    ensures
        0 <= sieve_source(n, f, keep, j) < n,
        keep(sieve_source(n, f, keep, j)),
        sieve(n, f, keep)[j] == f(sieve_source(n, f, keep, j)),
        forall|k: int|
            0 <= k < j ==> sieve_source(n, f, keep, k) < #[trigger] sieve_source(n, f, keep, j),
    decreases n,
{
    if n > 0 {
        let before = sieve((n - 1) as nat, f, keep);
        if keep(n - 1) && j == before.len() {
            assert forall|k: int| 0 <= k < j implies sieve_source(n, f, keep, k) < n - 1 by {
                lemma_sieve_entry((n - 1) as nat, f, keep, k);
            }
        } else {
            lemma_sieve_entry((n - 1) as nat, f, keep, j);
            assert forall|k: int| 0 <= k < j implies sieve_source(n, f, keep, k) < sieve_source(
                n,
                f,
                keep,
                j,
            ) by {
                lemma_sieve_entry((n - 1) as nat, f, keep, k);
            }
        }
    }
}

/// Every kept value appears in the selection.
pub proof fn lemma_sieve_contains<T>(
    n: nat,
    f: spec_fn(int) -> T,
    keep: spec_fn(int) -> bool,
    i: int,
)
    requires
        0 <= i < n,
        keep(i),
    ensures
        exists|j: int| 0 <= j < sieve(n, f, keep).len() && #[trigger] sieve(n, f, keep)[j] == f(i),
    decreases n,
{
    let before = sieve((n - 1) as nat, f, keep);
    if i == n - 1 {
        assert(sieve(n, f, keep)[before.len() as int] == f(i));
    } else {
        lemma_sieve_contains((n - 1) as nat, f, keep, i);
        let j = choose|j: int| 0 <= j < before.len() && #[trigger] before[j] == f(i);
        assert(sieve(n, f, keep)[j] == f(i));
    }
}

/// A strictly increasing list of exactly the kept values of an increasing family
/// is the selection itself.
pub proof fn lemma_sieve_lists_sorted(
    v: Seq<u32>,
    n: nat,
    f: spec_fn(int) -> u32,
    keep: spec_fn(int) -> bool,
)
    requires
        forall|a: int, b: int| 0 <= a < b < n ==> #[trigger] f(a) < #[trigger] f(b),
        forall|i: int, j: int| 0 <= i < j < v.len() ==> v[i] < v[j],
        forall|x: u32|
            v.contains(x) <==> exists|i: int| 0 <= i < n && keep(i) && #[trigger] f(i) == x,
    ensures
        v == sieve(n, f, keep),
    decreases n,
{
    if n == 0 {
        if v.len() > 0 {
            assert(v.contains(v[0]));
        }
        assert(v =~= sieve(n, f, keep));
    } else {
        let m = n - 1;
        if keep(m) {
            assert(v.contains(f(m)));
            let p = choose|p: int| 0 <= p < v.len() && v[p] == f(m);
            if p + 1 < v.len() {
                let x = v[p + 1];
                assert(v.contains(x));
                let i = choose|i: int| 0 <= i < n && keep(i) && #[trigger] f(i) == x;
                if i < m {
                    assert(f(i) < f(m));
                }
            }
            let rest = v.drop_last();
            assert forall|x: u32|
                rest.contains(x) <==> exists|i: int| 0 <= i < m && keep(i) && #[trigger] f(i)
                    == x by {
                if rest.contains(x) {
                    let q = choose|q: int| 0 <= q < rest.len() && rest[q] == x;
                    assert(v[q] == x);
                    assert(v.contains(x));
                    let i = choose|i: int| 0 <= i < n && keep(i) && #[trigger] f(i) == x;
                    assert(v[q] < v[p]);
                    assert(i < m);
                }
                if exists|i: int| 0 <= i < m && keep(i) && #[trigger] f(i) == x {
                    let i = choose|i: int| 0 <= i < m && keep(i) && #[trigger] f(i) == x;
                    assert(f(i) < f(m));
                    assert(v.contains(x));
                    let q = choose|q: int| 0 <= q < v.len() && v[q] == x;
                    assert(rest[q] == x);
                }
            }
            lemma_sieve_lists_sorted(rest, m as nat, f, keep);
            assert(v =~= rest.push(f(m)));
        } else {
            assert forall|x: u32|
                v.contains(x) <==> exists|i: int| 0 <= i < m && keep(i) && #[trigger] f(i)
                    == x by {
                if v.contains(x) {
                    let i = choose|i: int| 0 <= i < n && keep(i) && #[trigger] f(i) == x;
                    assert(i < m);
                }
            }
            lemma_sieve_lists_sorted(v, m as nat, f, keep);
        }
    }
}

/// The selection from a shorter family starts the selection from a longer one.
pub proof fn lemma_sieve_prefix<T>(
    n: nat,
    m: nat,
    f: spec_fn(int) -> T,
    keep: spec_fn(int) -> bool,
)
    requires
        n <= m,
    ensures
        sieve(n, f, keep).len() <= sieve(m, f, keep).len(),
        forall|j: int|
            0 <= j < sieve(n, f, keep).len() ==> #[trigger] sieve(m, f, keep)[j] == sieve(
                n,
                f,
                keep,
            )[j],
    decreases m,
{
    if n < m {
        lemma_sieve_prefix(n, (m - 1) as nat, f, keep);
    }
}

} // verus!
