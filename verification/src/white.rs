//! White's auxiliary design: every square and cross-product of the original
//! columns, the pairs `(a, b)` with `a <= b` taken in upper-triangular
//! row-major order `(0,0), (0,1), …, (0,p−1), (1,1), (1,2), …`.

use vstd::prelude::*;

use crate::io::{lemma_row_fits, lemma_row_of_append, row_of};

verus! {

/// Number of pairs `(a, b)` with `a <= b < n`: `n·(n+1)/2`.
pub open spec fn pair_count(n: int) -> int {
    n * (n + 1) / 2
}

/// `c` is a column of the auxiliary design of an `n`-wide original design.
pub open spec fn is_aux_column(n: int, c: int) -> bool {
    0 <= c < pair_count(n)
}

/// Number of auxiliary columns that come before the pairs whose first
/// member is `a`: the rows `0..a` of the upper triangle, of lengths
/// `n, n−1, …, n−a+1`.
pub open spec fn triu_offset(n: int, a: int) -> int
    decreases a,
{
    if a <= 0 {
        0
    } else {
        triu_offset(n, a - 1) + (n - (a - 1))
    }
}

/// The auxiliary column that holds the product of original columns `a` and `b`
/// (`a <= b`).
pub open spec fn triu_column(n: int, a: int, b: int) -> int {
    triu_offset(n, a) + (b - a)
}

/// `block` is the auxiliary row built from the original row `row` (`n` wide):
/// it has one entry per pair `a <= b`, and the entry of column
/// `triu_column(n, a, b)` is a result of `product(row[a], row[b])`.
pub open spec fn is_aux_row<T, F: Fn(T, T) -> T>(block: Seq<T>, row: Seq<T>, n: int, product: F) -> bool {
    &&& block.len() == pair_count(n)
    &&& forall|a: int, b: int|
        0 <= a <= b < n ==> call_ensures(product, (row[a], row[b]), #[trigger] block[triu_column(n, a, b)])
}

/// Auxiliary design column count for a `ncols`-wide original design:
/// `ncols·(ncols+1)/2` upper-triangle products.
pub fn aux_ncols(ncols: usize) -> (res: usize)
    requires
        ncols * (ncols + 1) <= usize::MAX,
    ensures
        res == ncols * (ncols + 1) / 2,
        res == pair_count(ncols as int),
{
    assert(ncols < usize::MAX) by (nonlinear_arith)
        requires
            ncols * (ncols + 1) <= usize::MAX,
    ;
    ncols * (ncols + 1) / 2
}

/// Build the White auxiliary design (row-major `nobs × aux_ncols(ncols)`) from
/// the original row-major `nobs × ncols` design `x`: auxiliary row `i` holds,
/// for every pair of original columns `a <= b` in upper-triangular row-major
/// order, the product `product(x[i][a], x[i][b])`.
pub fn white_design<T: Copy, F: Fn(T, T) -> T>(x: &[T], nobs: usize, ncols: usize, product: F) -> (out: Vec<T>)
    requires
        nobs * ncols <= x@.len(),
        ncols * (ncols + 1) <= usize::MAX,
        nobs * pair_count(ncols as int) <= usize::MAX,
        forall|u: T, v: T| call_requires(product, (u, v)),
    ensures
        out@.len() == nobs * pair_count(ncols as int),
        forall|i: int|
            0 <= i < nobs ==> is_aux_row(
                #[trigger] row_of(out@, i, pair_count(ncols as int)),
                row_of(x@, i, ncols as int),
                ncols as int,
                product,
            ),
{
    let acols = aux_ncols(ncols);
    let ghost n = ncols as int;
    let ghost w = acols as int;
    proof {
        lemma_triu_offset_full(n);
    }
    let xlen = x.len();
    let mut out: Vec<T> = Vec::new();
    let mut i: usize = 0;
    while i < nobs
        invariant
            i <= nobs,
            w == pair_count(n),
            n == ncols,
            acols == w,
            triu_offset(n, n) == w,
            nobs * ncols <= xlen,
            xlen == x@.len(),
            nobs * w <= usize::MAX,
            forall|u: T, v: T| call_requires(product, (u, v)),
            out@.len() == i * w,
            forall|i2: int|
                0 <= i2 < i ==> is_aux_row(#[trigger] row_of(out@, i2, w), row_of(x@, i2, n), n, product),
        decreases nobs - i,
    {
        proof {
            lemma_row_fits(i as int, nobs as int, n);
        }
        let base = i * ncols;
        let ghost prefix = out@;
        let ghost row = row_of(x@, i as int, n);
        let ghost mut cur: Seq<T> = Seq::empty();
        let mut a: usize = 0;
        while a < ncols
            invariant
                a <= ncols,
                n == ncols,
                i < nobs,
                base == i * n,
                base + n <= x@.len(),
                row == x@.subrange(base as int, base + n),
                forall|u: T, v: T| call_requires(product, (u, v)),
                out@ == prefix + cur,
                cur.len() == triu_offset(n, a as int),
                forall|a2: int, b2: int|
                    0 <= a2 < a && a2 <= b2 < n ==> call_ensures(
                        product,
                        (row[a2], row[b2]),
                        #[trigger] cur[triu_column(n, a2, b2)],
                    ),
            decreases ncols - a,
        {
            let mut b: usize = a;
            proof {
                lemma_triu_offset_step(n, a as int);
                lemma_triu_offset_monotone(n, 0, a as int);
            }
            while b < ncols
                invariant
                    a <= b <= ncols,
                    a < ncols,
                    n == ncols,
                    base + n <= x@.len(),
                    row == x@.subrange(base as int, base + n),
                    forall|u: T, v: T| call_requires(product, (u, v)),
                    out@ == prefix + cur,
                    cur.len() == triu_offset(n, a as int) + (b - a),
                    0 <= triu_offset(n, a as int),
                    triu_offset(n, a + 1) == triu_offset(n, a as int) + (n - a),
                    forall|a2: int, b2: int|
                        0 <= a2 < a && a2 <= b2 < n ==> call_ensures(
                            product,
                            (row[a2], row[b2]),
                            #[trigger] cur[triu_column(n, a2, b2)],
                        ),
                    forall|b2: int|
                        a <= b2 < b ==> call_ensures(
                            product,
                            (row[a as int], row[b2]),
                            #[trigger] cur[triu_column(n, a as int, b2)],
                        ),
                decreases ncols - b,
            {
                let v = product(x[base + a], x[base + b]);
                let ghost old_cur = cur;
                out.push(v);
                proof {
                    cur = cur.push(v);
                    assert forall|a2: int, b2: int|
                        0 <= a2 < a && a2 <= b2 < n implies call_ensures(
                            product,
                            (row[a2], row[b2]),
                            #[trigger] cur[triu_column(n, a2, b2)],
                        ) by {
                        lemma_triu_column_bounds(n, a2, b2);
                        lemma_triu_offset_monotone(n, a2 + 1, a as int);
                        assert(cur[triu_column(n, a2, b2)] == old_cur[triu_column(n, a2, b2)]);
                    }
                    assert forall|b2: int|
                        a <= b2 < b + 1 implies call_ensures(
                            product,
                            (row[a as int], row[b2]),
                            #[trigger] cur[triu_column(n, a as int, b2)],
                        ) by {
                        if b2 < b {
                            assert(cur[triu_column(n, a as int, b2)] == old_cur[triu_column(
                                n,
                                a as int,
                                b2,
                            )]);
                        }
                    }
                }
                b = b + 1;
            }
            a = a + 1;
        }
        proof {
            assert(cur.len() == w);
            assert((i + 1) * w == i * w + w) by (nonlinear_arith);
            assert(is_aux_row(cur, row, n, product));
            lemma_row_of_append(prefix, cur, i as int, w);
            assert(row_of(out@, i as int, w) == cur);
            assert(row_of(x@, i as int, n) == row);
            assert forall|i2: int| 0 <= i2 < i + 1 implies is_aux_row(
                #[trigger] row_of(out@, i2, w),
                row_of(x@, i2, n),
                n,
                product,
            ) by {
                if i2 < i {
                    assert((i2 + 1) * w <= i * w) by (nonlinear_arith)
                        requires
                            i2 + 1 <= i,
                            0 <= w,
                    ;
                    lemma_row_of_append(prefix, cur, i2, w);
                }
            }
        }
        i = i + 1;
    }
    out
}

/// With a constant first column (a value that `product` leaves every other
/// value unchanged by), the first `n` auxiliary columns, the products
/// `const·x_b`, repeat the original columns: the auxiliary design then holds
/// the original design as well as every square and cross-product.
pub proof fn lemma_constant_column_repeats_design<T, F: Fn(T, T) -> T>(
    block: Seq<T>,
    row: Seq<T>,
    n: int,
    product: F,
)
    requires
        1 <= n,
        is_aux_row(block, row, n, product),
        forall|v: T, r: T| #[trigger] call_ensures(product, (row[0], v), r) ==> r == v,
    ensures
        forall|b: int| 0 <= b < n ==> #[trigger] block[b] == row[b],
{
    assert forall|b: int| 0 <= b < n implies #[trigger] block[b] == row[b] by {
        assert(triu_column(n, 0, b) == b);
        assert(call_ensures(product, (row[0], row[b]), block[triu_column(n, 0, b)]));
    }
}

proof fn lemma_triu_offset_step(n: int, a: int)
    requires
        0 <= a,
    ensures
        triu_offset(n, a + 1) == triu_offset(n, a) + (n - a),
{
}

/// `2·triu_offset(n, a) == a·(2n − a + 1)`.
proof fn lemma_triu_offset_closed(n: int, a: int)
    requires
        0 <= a,
    ensures
        2 * triu_offset(n, a) == a * (2 * n - a + 1),
    decreases a,
{
    if a > 0 {
        lemma_triu_offset_closed(n, a - 1);
        assert(a * (2 * n - a + 1) == (a - 1) * (2 * n - (a - 1) + 1) + 2 * (n - (a - 1)))
            by (nonlinear_arith);
    } else {
        assert(a * (2 * n - a + 1) == 0) by (nonlinear_arith)
            requires
                a == 0,
        ;
    }
}

/// The whole triangle has `pair_count(n)` entries.
proof fn lemma_triu_offset_full(n: int)
    requires
        0 <= n,
    ensures
        triu_offset(n, n) == pair_count(n),
{
    lemma_triu_offset_closed(n, n);
    assert(n * (2 * n - n + 1) == n * (n + 1)) by (nonlinear_arith);
}

/// Offsets grow with `a` while `a <= n`.
proof fn lemma_triu_offset_monotone(n: int, a1: int, a2: int)
    requires
        0 <= a1 <= a2 <= n,
    ensures
        triu_offset(n, a1) + (a2 - a1) <= triu_offset(n, a2),
    decreases a2 - a1,
{
    if a1 < a2 {
        lemma_triu_offset_monotone(n, a1, a2 - 1);
        lemma_triu_offset_step(n, a2 - 1);
    }
}

/// The column of a pair lies inside the block of its first member.
proof fn lemma_triu_column_bounds(n: int, a: int, b: int)
    requires
        0 <= a <= b < n,
    ensures
        triu_offset(n, a) <= triu_column(n, a, b) < triu_offset(n, a + 1),
        0 <= triu_column(n, a, b) < pair_count(n),
{
    lemma_triu_offset_step(n, a);
    lemma_triu_offset_monotone(n, 0, a);
    lemma_triu_offset_monotone(n, a + 1, n);
    lemma_triu_offset_full(n);
}

/// The auxiliary columns are exactly the upper-triangular pairs, in row-major
/// order: every pair `a <= b < n` has a column in `0..n·(n+1)/2`, a pair that
/// comes first in lexicographic order has the smaller column (so no two pairs
/// share one), and every column in `0..n·(n+1)/2` belongs to some pair.
pub proof fn lemma_white_columns_are_triu_pairs(n: int)
    requires
        0 <= n,
    ensures
        forall|a: int, b: int|
            0 <= a <= b < n ==> 0 <= #[trigger] triu_column(n, a, b) < pair_count(n),
        forall|a1: int, b1: int, a2: int, b2: int|
            0 <= a1 <= b1 < n && 0 <= a2 <= b2 < n && (a1 < a2 || (a1 == a2 && b1 < b2))
                ==> #[trigger] triu_column(n, a1, b1) < #[trigger] triu_column(n, a2, b2),
        forall|c: int|
            #[trigger] is_aux_column(n, c) ==> exists|a: int, b: int|
                0 <= a <= b < n && #[trigger] triu_column(n, a, b) == c,
{
    assert forall|a: int, b: int| 0 <= a <= b < n implies 0 <= #[trigger] triu_column(n, a, b)
        < pair_count(n) by {
        lemma_triu_column_bounds(n, a, b);
    }
    assert forall|a1: int, b1: int, a2: int, b2: int|
        0 <= a1 <= b1 < n && 0 <= a2 <= b2 < n && (a1 < a2 || (a1 == a2 && b1 < b2)) implies
        #[trigger] triu_column(n, a1, b1) < #[trigger] triu_column(n, a2, b2) by {
        lemma_triu_column_bounds(n, a1, b1);
        lemma_triu_column_bounds(n, a2, b2);
        if a1 < a2 {
            lemma_triu_offset_monotone(n, a1 + 1, a2);
        }
    }
    assert forall|c: int| #[trigger] is_aux_column(n, c) implies exists|a: int, b: int|
        0 <= a <= b < n && #[trigger] triu_column(n, a, b) == c by {
        lemma_triu_offset_full(n);
        let a = lemma_find_block(n, c, n);
        lemma_triu_offset_step(n, a);
        assert(triu_column(n, a, a + (c - triu_offset(n, a))) == c);
    }
}

/// The block `a` (with `a < hi`) whose column range holds `c`.
proof fn lemma_find_block(n: int, c: int, hi: int) -> (a: int)
    requires
        0 <= hi <= n,
        0 <= c < triu_offset(n, hi),
    ensures
        0 <= a < hi,
        triu_offset(n, a) <= c < triu_offset(n, a + 1),
    decreases hi,
{
    lemma_triu_offset_step(n, hi - 1);
    if c >= triu_offset(n, hi - 1) {
        hi - 1
    } else {
        lemma_find_block(n, c, hi - 1)
    }
}

} // verus!
