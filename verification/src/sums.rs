//! Finite sums of an integer function over `0..n`.

use vstd::prelude::*;

verus! {

/// `f(0) + f(1) + ... + f(n - 1)`.
pub open spec fn sum(f: spec_fn(int) -> int, n: nat) -> int
    decreases n,
{
    if n == 0 {
        0
    } else {
        sum(f, (n - 1) as nat) + f(n - 1)
    }
}

/// A sum of `n` terms that each lie between `-b` and `b` lies between
/// `-b * n` and `b * n`.
pub proof fn lemma_sum_bounded(f: spec_fn(int) -> int, n: nat, b: int)
    requires
        forall|i: int| 0 <= i < n ==> -b <= #[trigger] f(i) <= b,
    ensures
        -b * n <= sum(f, n) <= b * n,
    decreases n,
{
    if n > 0 {
        lemma_sum_bounded(f, (n - 1) as nat, b);
        assert(b * n == b * (n - 1) + b && -b * n == -b * (n - 1) - b) by (nonlinear_arith);
    } else {
        assert(b * 0 == 0 && -b * 0 == 0) by (nonlinear_arith);
    }
}

/// A sum of terms that are not negative is not negative.
pub proof fn lemma_sum_nonnegative(f: spec_fn(int) -> int, n: nat)
    requires
        forall|i: int| 0 <= i < n ==> 0 <= #[trigger] f(i),
    ensures
        0 <= sum(f, n),
    decreases n,
{
    if n > 0 {
        lemma_sum_nonnegative(f, (n - 1) as nat);
    }
}

/// Sums of functions that agree on `0..n` are equal.
pub proof fn lemma_sum_equal(f: spec_fn(int) -> int, g: spec_fn(int) -> int, n: nat)
    requires
        forall|i: int| 0 <= i < n ==> #[trigger] f(i) == g(i),
    ensures
        sum(f, n) == sum(g, n),
    decreases n,
{
    if n > 0 {
        lemma_sum_equal(f, g, (n - 1) as nat);
    }
}

/// The sum of a pointwise sum is the sum of the sums.
pub proof fn lemma_sum_add(
    f: spec_fn(int) -> int,
    g: spec_fn(int) -> int,
    h: spec_fn(int) -> int,
    n: nat,
)
    requires
        forall|i: int| 0 <= i < n ==> #[trigger] h(i) == f(i) + g(i),
    ensures
        sum(h, n) == sum(f, n) + sum(g, n),
    decreases n,
{
    if n > 0 {
        lemma_sum_add(f, g, h, (n - 1) as nat);
    }
}

/// What is left of `f` on `0..m` when it vanishes outside of `a`, `b` and `c`.
pub open spec fn picked(f: spec_fn(int) -> int, a: int, b: int, c: int, m: int) -> int {
    (if a < m {
        f(a)
    } else {
        0
    }) + (if b < m {
        f(b)
    } else {
        0
    }) + (if c < m {
        f(c)
    } else {
        0
    })
}

/// A function that vanishes outside of three distinct places sums to its
/// values at the three.
pub proof fn lemma_sum_three(f: spec_fn(int) -> int, a: int, b: int, c: int, n: nat)
    requires
        0 <= a,
        0 <= b,
        0 <= c,
        a != b,
        a != c,
        b != c,
        forall|i: int| 0 <= i < n && i != a && i != b && i != c ==> #[trigger] f(i) == 0,
    ensures
        sum(f, n) == picked(f, a, b, c, n as int),
    decreases n,
{
    if n > 0 {
        lemma_sum_three(f, a, b, c, (n - 1) as nat);
    }
}

/// A function that vanishes but at `a` sums to its value there.
pub proof fn lemma_sum_one(f: spec_fn(int) -> int, a: int, n: nat)
    requires
        0 <= a < n,
        forall|i: int| 0 <= i < n && i != a ==> #[trigger] f(i) == 0,
    ensures
        sum(f, n) == f(a),
{
    lemma_sum_three(f, a, n as int, n as int + 1, n);
}

/// `f` where `q` is below `m`, and zero elsewhere.
pub open spec fn masked(f: spec_fn(int) -> int, q: spec_fn(int) -> int, m: int) -> spec_fn(
    int,
) -> int {
    |j: int|
        if q(j) < m {
            f(j)
        } else {
            0
        }
}

/// `f` where `q` is `m`, and zero elsewhere.
pub open spec fn masked_at(f: spec_fn(int) -> int, q: spec_fn(int) -> int, m: int) -> spec_fn(
    int,
) -> int {
    |j: int|
        if q(j) == m {
            f(j)
        } else {
            0
        }
}

/// `p` and `q` are permutations of `0..n`, each the inverse of the other.
pub open spec fn inverse_on(p: spec_fn(int) -> int, q: spec_fn(int) -> int, n: int) -> bool {
    &&& forall|i: int| 0 <= i < n ==> 0 <= #[trigger] p(i) < n && q(p(i)) == i
    &&& forall|j: int| 0 <= j < n ==> 0 <= #[trigger] q(j) < n && p(q(j)) == j
}

/// The first `m` terms of `f` along the permutation `p` are the terms of `f`
/// at the places that `q` sends below `m`.
proof fn lemma_sum_masked(
    f: spec_fn(int) -> int,
    g: spec_fn(int) -> int,
    p: spec_fn(int) -> int,
    q: spec_fn(int) -> int,
    n: nat,
    m: nat,
)
    requires
        inverse_on(p, q, n as int),
        forall|i: int| 0 <= i < n ==> #[trigger] g(i) == f(p(i)),
        m <= n,
    ensures
        sum(g, m) == sum(masked(f, q, m as int), n),
    decreases m,
{
    if m == 0 {
        lemma_sum_bounded(masked(f, q, 0), n, 0);
    } else {
        let k = (m - 1) as nat;
        lemma_sum_masked(f, g, p, q, n, k);
        let at = masked_at(f, q, k as int);
        assert(q(p(k as int)) == k);
        assert forall|j: int| 0 <= j < n && j != p(k as int) implies #[trigger] at(j) == 0 by {
            assert(p(q(j)) == j);
        }
        lemma_sum_one(at, p(k as int), n);
        lemma_sum_add(masked(f, q, k as int), at, masked(f, q, m as int), n);
    }
}

/// Summing `f` along a permutation of `0..n` gives the sum of `f`.
pub proof fn lemma_sum_permuted(
    f: spec_fn(int) -> int,
    g: spec_fn(int) -> int,
    p: spec_fn(int) -> int,
    q: spec_fn(int) -> int,
    n: nat,
)
    requires
        inverse_on(p, q, n as int),
        forall|i: int| 0 <= i < n ==> #[trigger] g(i) == f(p(i)),
    ensures
        sum(g, n) == sum(f, n),
{
    lemma_sum_masked(f, g, p, q, n, n);
    lemma_sum_equal(masked(f, q, n as int), f, n);
}

} // verus!
