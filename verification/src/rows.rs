//! Flat arrays seen as rows of equal width.
//!
//! Every feature map and matrix of the model is one flat row-major array. A map `(C, T, F)` has
//! `C * T` rows of width `F`, row `c * T + t` being channel `c` at frame `t`.
use vstd::arithmetic::mul::*;
use vstd::prelude::*;

verus! {

/// `row(0)`, `row(1)`, .., `row(n - 1)`, one after the other.
pub open spec fn rows<A>(n: nat, row: spec_fn(int) -> Seq<A>) -> Seq<A>
    decreases n,
{
    if n == 0 {
        Seq::empty()
    } else {
        rows((n - 1) as nat, row) + row(n - 1)
    }
}

/// Row `r` of an array whose rows have width `f`.
pub open spec fn row_of<A>(x: Seq<A>, r: int, f: int) -> Seq<A> {
    x.subrange(r * f, (r + 1) * f)
}

/// Place `(a, b)` of an `n` by `m` grid lies in the grid, and rows before it end before it.
pub proof fn lemma_place(a: int, b: int, n: int, m: int)
    requires
        0 <= a < n,
        0 <= b < m,
    ensures
        0 <= a * m + b < n * m,
        0 <= a * m <= a * m + b,
        (a + 1) * m <= n * m,
        (a + 1) * m == a * m + m,
{
    lemma_mul_inequality(a + 1, n, m);
    lemma_mul_is_distributive_add_other_way(m, a, 1);
    lemma_mul_nonnegative(a, m);
}

/// Row `a` of an array of `n` rows of width `m` lies in the array.
pub proof fn lemma_row_fits(a: int, n: int, m: int)
    requires
        0 <= a < n,
        0 <= m,
    ensures
        0 <= a * m <= (a + 1) * m <= n * m,
        (a + 1) * m == a * m + m,
{
    lemma_mul_inequality(a + 1, n, m);
    lemma_mul_is_distributive_add_other_way(m, a, 1);
    lemma_mul_nonnegative(a, m);
}

/// Rows of one width make an array of that width.
pub proof fn lemma_rows_len<A>(n: nat, f: int, row: spec_fn(int) -> Seq<A>)
    requires
        forall|i: int| 0 <= i < n ==> (#[trigger] row(i)).len() == f,
    ensures
        rows(n, row).len() == n * f,
    decreases n,
{
    if n == 0 {
        lemma_mul_basics(f);
    } else {
        lemma_rows_len((n - 1) as nat, f, row);
        lemma_mul_is_distributive_add_other_way(f, n - 1, 1);
        assert(row(n - 1).len() == f);
    }
}

/// Reading a row gives back the row that was put there.
pub proof fn lemma_row_of_rows<A>(n: nat, f: int, row: spec_fn(int) -> Seq<A>, r: int)
    requires
        forall|i: int| 0 <= i < n ==> (#[trigger] row(i)).len() == f,
        0 <= r < n,
        0 <= f,
    ensures
        row_of(rows(n, row), r, f) == row(r),
        rows(n, row).len() == n * f,
    decreases n,
{
    lemma_rows_len(n, f, row);
    lemma_rows_len((n - 1) as nat, f, row);
    lemma_row_fits(r, n as int, f);
    assert(row(n - 1).len() == f);
    let before = rows((n - 1) as nat, row);
    if r < n - 1 {
        lemma_row_of_rows((n - 1) as nat, f, row, r);
        lemma_row_fits(r, n - 1, f);
        assert(row_of(rows(n, row), r, f) =~= row_of(before, r, f));
    } else {
        assert(row_of(rows(n, row), r, f) =~= row(r));
    }
}

/// Equal rows make equal arrays.
pub proof fn lemma_rows_eq<A>(n: nat, a: spec_fn(int) -> Seq<A>, b: spec_fn(int) -> Seq<A>)
    requires
        forall|i: int| 0 <= i < n ==> #[trigger] a(i) == b(i),
    ensures
        rows(n, a) == rows(n, b),
    decreases n,
{
    if n > 0 {
        lemma_rows_eq((n - 1) as nat, a, b);
        assert(a(n - 1) == b(n - 1));
    }
}

/// The first rows come first.
pub proof fn lemma_rows_prefix<A>(k: nat, n: nat, f: int, row: spec_fn(int) -> Seq<A>)
    requires
        k <= n,
        0 <= f,
        forall|i: int| 0 <= i < n ==> (#[trigger] row(i)).len() == f,
    ensures
        0 <= k * f <= rows(n, row).len(),
        rows(n, row).take(k * f) == rows(k, row),
    decreases n,
{
    lemma_rows_len(k, f, row);
    lemma_rows_len(n, f, row);
    lemma_mul_inequality(k as int, n as int, f);
    lemma_mul_nonnegative(k as int, f);
    if k == n {
        assert(rows(n, row).take(k * f) =~= rows(k, row));
    } else {
        lemma_rows_prefix(k, (n - 1) as nat, f, row);
        lemma_mul_inequality(k as int, n - 1, f);
        lemma_rows_len((n - 1) as nat, f, row);
        assert(rows(n, row).take(k * f) =~= rows((n - 1) as nat, row).take(k * f));
    }
}

/// Row `r` of an array whose rows have width `f`.
pub fn row_at<A>(x: &[A], r: usize, f: usize) -> (s: &[A])
    requires
        (r + 1) * f <= x@.len(),
    ensures
        s@ == row_of(x@, r as int, f as int),
        s@.len() == f,
{
    let n = x.len();
    proof {
        lemma_row_fits(r as int, r + 1, f as int);
    }
    &x[r * f..r * f + f]
}

} // verus!
