//! Finite sums.

use vstd::prelude::*;

verus! {

/// `f(0) + f(1) + .. + f(n - 1)`.
pub open spec fn total(f: spec_fn(int) -> nat, n: int) -> nat
    decreases n,
{
    if n <= 0 {
        0
    } else {
        total(f, n - 1) + f(n - 1)
    }
}

/// Sums of the same terms are the same.
pub proof fn lemma_total_same(f: spec_fn(int) -> nat, g: spec_fn(int) -> nat, n: int)
    requires
        forall|i: int| 0 <= i < n ==> #[trigger] f(i) == g(i),
    ensures
        total(f, n) == total(g, n),
    decreases n,
{
    if n > 0 {
        lemma_total_same(f, g, n - 1);
        assert(f(n - 1) == g(n - 1));
    }
}

/// A sum of zeros is zero.
pub proof fn lemma_total_zero(f: spec_fn(int) -> nat, n: int)
    requires
        forall|i: int| 0 <= i < n ==> #[trigger] f(i) == 0,
    ensures
        total(f, n) == 0,
    decreases n,
{
    if n > 0 {
        lemma_total_zero(f, n - 1);
        assert(f(n - 1) == 0);
    }
}

/// A sum of sums, term by term.
pub proof fn lemma_total_plus(f: spec_fn(int) -> nat, g: spec_fn(int) -> nat, n: int)
    ensures
        total(|i: int| f(i) + g(i), n) == total(f, n) + total(g, n),
    decreases n,
{
    if n > 0 {
        lemma_total_plus(f, g, n - 1);
    }
}

/// A sum in two parts.
pub proof fn lemma_total_concat(f: spec_fn(int) -> nat, m: int, n: int)
    requires
        0 <= m,
        0 <= n,
    ensures
        total(f, m + n) == total(f, m) + total(|i: int| f(m + i), n),
    decreases n,
{
    if n > 0 {
        lemma_total_concat(f, m, n - 1);
    }
}

/// Terms behind the last one that counts can be left out.
pub proof fn lemma_total_tail(f: spec_fn(int) -> nat, m: int, n: int)
    requires
        0 <= m <= n,
        forall|i: int| m <= i < n ==> #[trigger] f(i) == 0,
    ensures
        total(f, n) == total(f, m),
    decreases n,
{
    if m < n {
        lemma_total_tail(f, m, n - 1);
        assert(f(n - 1) == 0);
    }
}

/// A sum taken backwards.
pub proof fn lemma_total_reverse(f: spec_fn(int) -> nat, n: int)
    requires
        0 <= n,
    ensures
        total(|i: int| f(n - 1 - i), n) == total(f, n),
    decreases n,
{
    if n > 0 {
        let back = |i: int| f(n - 1 - i);
        let front = |i: int| f(n - 2 - i);
        let shifted = |i: int| back(1 + i);
        lemma_total_reverse(f, n - 1);
        lemma_total_concat(back, 1, n - 1);
        lemma_total_same(shifted, front, n - 1);
        lemma_total_same(|i: int| f(n - 1 - 1 - i), front, n - 1);
        assert(total(back, 1) == total(back, 0) + back(0));
    }
}

/// A sum of `m` rows of `n` terms each.
pub proof fn lemma_total_rows(f: spec_fn(int) -> nat, m: int, n: int)
    requires
        0 <= m,
        0 <= n,
    ensures
        total(f, m * n) == total(|q: int| total(|r: int| f(q * n + r), n), m),
    decreases m,
{
    if m == 0 {
        assert(m * n == 0) by (nonlinear_arith)
            requires
                m == 0,
        ;
    } else {
        assert(m * n == (m - 1) * n + n && 0 <= (m - 1) * n) by (nonlinear_arith)
            requires
                m >= 1,
                n >= 0,
        ;
        lemma_total_rows(f, m - 1, n);
        lemma_total_concat(f, (m - 1) * n, n);
    }
}

/// The order of two sums does not matter.
pub proof fn lemma_total_swap(f: spec_fn(int, int) -> nat, m: int, n: int)
    requires
        0 <= m,
        0 <= n,
    ensures
        total(|i: int| total(|j: int| f(i, j), n), m) == total(
            |j: int| total(|i: int| f(i, j), m),
            n,
        ),
    decreases m,
{
    let columns = |j: int| total(|i: int| f(i, j), m);
    if m == 0 {
        lemma_total_zero(columns, n);
    } else {
        let before = |j: int| total(|i: int| f(i, j), m - 1);
        let last = |j: int| f(m - 1, j);
        lemma_total_swap(f, m - 1, n);
        lemma_total_plus(before, last, n);
        lemma_total_same(columns, |j: int| before(j) + last(j), n);
    }
}

} // verus!
