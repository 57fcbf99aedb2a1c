//! What holds of the refinement store as a whole.

use crate::par::row_span;
use crate::refine::{
    appended, batch_code, batch_codes, batch_scales, is_nan, magnitude, max_abs, swap_removed,
    swapped, RefineMode, RefineView, RowEncodings, RowView,
};
use vstd::arithmetic::div_mod::lemma_fundamental_div_mod_converse;
use vstd::prelude::*;

verus! {

/// No magnitude in the row exceeds `max_abs`, which is zero or one of them.
pub proof fn law_max_abs_is_greatest(row: Seq<u32>)
    ensures
        forall|i: int| 0 <= i < row.len() && !is_nan(row[i]) ==> magnitude(row[i]) <= max_abs(row),
        max_abs(row) == 0 || exists|i: int|
            0 <= i < row.len() && !is_nan(row[i]) && magnitude(row[i]) == max_abs(row),
        max_abs(row) <= 0x7f80_0000,
    decreases row.len(),
{
    if row.len() > 0 {
        let front = row.drop_last();
        law_max_abs_is_greatest(front);
        assert forall|i: int| 0 <= i < row.len() && !is_nan(row[i]) implies magnitude(row[i])
            <= max_abs(row) by {
            if i < front.len() {
                assert(front[i] == row[i]);
            }
        }
        if max_abs(row) != 0 {
            if max_abs(row) == max_abs(front) {
                let i = choose|i: int|
                    0 <= i < front.len() && !is_nan(front[i]) && magnitude(front[i]) == max_abs(
                        front,
                    );
                assert(row[i] == front[i]);
            } else {
                assert(row[row.len() - 1] == row.last());
            }
        }
    }
}

/// A row within the first part of a concatenation is that part's row.
proof fn lemma_row_of_first<T>(a: Seq<T>, b: Seq<T>, n: int, i: int, dim: int)
    requires
        0 <= dim,
        0 <= i < n,
        a.len() == n * dim,
    ensures
        row_span(a + b, i, dim) == row_span(a, i, dim),
{
    assert(0 <= i * dim && i * dim + dim <= n * dim) by (nonlinear_arith)
        requires
            0 <= i,
            i + 1 <= n,
            0 <= dim,
    ;
    assert(row_span(a + b, i, dim) =~= row_span(a, i, dim));
}

/// A row behind the first part of a concatenation is a row of the second.
proof fn lemma_row_of_second<T>(a: Seq<T>, b: Seq<T>, n: int, m: int, i: int, dim: int)
    requires
        0 <= dim,
        0 <= n,
        0 <= i < m,
        a.len() == n * dim,
        b.len() == m * dim,
    ensures
        row_span(a + b, n + i, dim) == row_span(b, i, dim),
{
    assert(0 <= i * dim && i * dim + dim <= m * dim && (n + i) * dim == n * dim + i * dim && 0 <= n
        * dim) by (nonlinear_arith)
        requires
            0 <= i,
            0 <= n,
            i + 1 <= m,
            0 <= dim,
    ;
    assert(row_span(a + b, n + i, dim) =~= row_span(b, i, dim));
}

/// What `n` vectors of a batch become in a store of the given mode.
pub open spec fn batch_rows(
    mode: RefineMode,
    vectors: Seq<u32>,
    enc: RowEncodings,
    n: int,
    dim: int,
) -> Seq<RowView> {
    Seq::new(
        n as nat,
        |i: int|
            match mode {
                RefineMode::Int8 => RowView::Int8 {
                    codes: row_span(batch_codes(vectors, enc.codes@, n, dim), i, dim),
                    scale: batch_scales(vectors, enc.scales@, n, dim)[i],
                },
                RefineMode::Float16 => RowView::Float16 { halfs: row_span(enc.halfs@, i, dim) },
                RefineMode::Float32 => RowView::Float32 { floats: row_span(vectors, i, dim) },
            },
    )
}

/// Appending adds the vectors of the batch behind those that are there, which
/// it leaves alone.
pub proof fn law_append_adds_rows(
    store: RefineView,
    vectors: Seq<u32>,
    enc: RowEncodings,
    n: int,
    dim: int,
)
    requires
        0 <= n,
        0 <= dim,
        store.wf(dim),
        n * dim <= vectors.len(),
        store.mode == RefineMode::Float16 ==> n * dim <= enc.halfs@.len(),
    ensures
        appended(store, vectors, enc, n, dim).wf(dim),
        appended(store, vectors, enc, n, dim).rows(dim) == store.rows(dim) + batch_rows(
            store.mode,
            vectors,
            enc,
            n,
            dim,
        ),
{
    let after = appended(store, vectors, enc, n, dim);
    let batch = batch_rows(store.mode, vectors, enc, n, dim);
    let m = store.n as int;
    assert((m + n) * dim == m * dim + n * dim && 0 <= n * dim && 0 <= m * dim) by (nonlinear_arith)
        requires
            0 <= m,
            0 <= n,
            0 <= dim,
    ;
    assert forall|i: int| 0 <= i < m implies after.row(i, dim) == store.row(i, dim) by {
        match store.mode {
            RefineMode::Int8 => {
                lemma_row_of_first(
                    store.codes_i8,
                    batch_codes(vectors, enc.codes@, n, dim),
                    m,
                    i,
                    dim,
                );
            },
            RefineMode::Float16 => {
                lemma_row_of_first(store.halfs, enc.halfs@.take(n * dim), m, i, dim);
            },
            RefineMode::Float32 => {
                lemma_row_of_first(store.floats, vectors.take(n * dim), m, i, dim);
            },
        }
    }
    assert forall|i: int| 0 <= i < n implies #[trigger] after.row(m + i, dim) == batch[i] by {
        assert(0 <= i * dim && i * dim + dim <= n * dim) by (nonlinear_arith)
            requires
                0 <= i,
                i + 1 <= n,
                0 <= dim,
        ;
        match store.mode {
            RefineMode::Int8 => {
                lemma_row_of_second(
                    store.codes_i8,
                    batch_codes(vectors, enc.codes@, n, dim),
                    m,
                    n,
                    i,
                    dim,
                );
            },
            RefineMode::Float16 => {
                lemma_row_of_second(store.halfs, enc.halfs@.take(n * dim), m, n, i, dim);
                assert(row_span(enc.halfs@.take(n * dim), i, dim) =~= row_span(enc.halfs@, i, dim));
            },
            RefineMode::Float32 => {
                lemma_row_of_second(store.floats, vectors.take(n * dim), m, n, i, dim);
                assert(row_span(vectors.take(n * dim), i, dim) =~= row_span(vectors, i, dim));
            },
        }
    }
    assert forall|j: int| 0 <= j < m + n implies after.rows(dim)[j] == (store.rows(dim)
        + batch)[j] by {
        if j >= m {
            assert(after.row(m + (j - m), dim) == batch[j - m]);
        }
    }
    assert(after.rows(dim) =~= store.rows(dim) + batch);
}

/// The rows of an array whose last row replaced row `idx`.
proof fn lemma_swapped_row<T>(s: Seq<T>, idx: int, last: int, i: int, dim: int)
    requires
        0 <= dim,
        0 <= idx <= last,
        0 <= i < last,
        (last + 1) * dim <= s.len(),
    ensures
        row_span(swapped(s, idx, last, dim), i, dim) == (if i == idx {
            row_span(s, last, dim)
        } else {
            row_span(s, i, dim)
        }),
{
    let t = swapped(s, idx, last, dim);
    assert(0 <= i * dim && i * dim + dim <= last * dim && (last + 1) * dim == last * dim + dim)
        by (nonlinear_arith)
        requires
            0 <= i,
            i + 1 <= last,
            0 <= dim,
    ;
    let want = if i == idx {
        row_span(s, last, dim)
    } else {
        row_span(s, i, dim)
    };
    assert forall|k: int| 0 <= k < dim implies row_span(t, i, dim)[k] == want[k] by {
        lemma_fundamental_div_mod_converse(i * dim + k, dim, i, k);
    }
    assert(row_span(t, i, dim) =~= want);
}

/// Two batches appended one after the other are stored as the one batch that
/// they make up: no vector has a part in how another is stored.
pub proof fn law_append_in_batches(
    store: RefineView,
    v1: Seq<u32>,
    v2: Seq<u32>,
    e1: RowEncodings,
    e2: RowEncodings,
    both: RowEncodings,
    n1: int,
    n2: int,
    dim: int,
)
    requires
        0 <= n1,
        0 <= n2,
        0 < dim,
        v1.len() == n1 * dim,
        v2.len() == n2 * dim,
        match store.mode {
            RefineMode::Int8 => {
                &&& e1.codes@.len() == n1 * dim
                &&& e1.scales@.len() == n1
                &&& e2.codes@.len() == n2 * dim
                &&& e2.scales@.len() == n2
                &&& both.codes@ == e1.codes@ + e2.codes@
                &&& both.scales@ == e1.scales@ + e2.scales@
            },
            RefineMode::Float16 => {
                &&& e1.halfs@.len() == n1 * dim
                &&& e2.halfs@.len() == n2 * dim
                &&& both.halfs@ == e1.halfs@ + e2.halfs@
            },
            RefineMode::Float32 => true,
        },
    ensures
        appended(appended(store, v1, e1, n1, dim), v2, e2, n2, dim) == appended(
            store,
            v1 + v2,
            both,
            n1 + n2,
            dim,
        ),
{
    let step = appended(appended(store, v1, e1, n1, dim), v2, e2, n2, dim);
    let once = appended(store, v1 + v2, both, n1 + n2, dim);
    assert((n1 + n2) * dim == n1 * dim + n2 * dim && 0 <= n1 * dim && 0 <= n2 * dim)
        by (nonlinear_arith)
        requires
            0 <= n1,
            0 <= n2,
            0 < dim,
    ;
    if store.mode == RefineMode::Int8 {
        lemma_batches_int8(v1, v2, e1, e2, both, n1, n2, dim);
    }
    assert(step =~= once);
}

/// The encodings of `n` vectors are made row by row: `code_row` and
/// `scale_of` give the codes and the scale of a vector, `half_of` a value in
/// half precision.
pub open spec fn encoded_by(
    enc: RowEncodings,
    vectors: Seq<u32>,
    n: int,
    dim: int,
    code_row: spec_fn(Seq<u32>) -> Seq<i8>,
    scale_of: spec_fn(Seq<u32>) -> u32,
    half_of: spec_fn(u32) -> u16,
) -> bool {
    &&& vectors.len() == n * dim
    &&& enc.codes@.len() == n * dim
    &&& enc.scales@.len() == n
    &&& enc.halfs@.len() == n * dim
    &&& forall|i: int|
        0 <= i < n ==> #[trigger] row_span(enc.codes@, i, dim) == code_row(
            row_span(vectors, i, dim),
        )
    &&& forall|i: int|
        0 <= i < n ==> #[trigger] enc.scales@[i] == scale_of(row_span(vectors, i, dim))
    &&& forall|k: int| 0 <= k < n * dim ==> #[trigger] enc.halfs@[k] == half_of(vectors[k])
}

/// However vectors are encoded, if each is encoded on its own, the boundaries
/// of the batches that they are appended in do not show in the store.
pub proof fn law_batch_boundaries_do_not_matter(
    store: RefineView,
    v1: Seq<u32>,
    v2: Seq<u32>,
    e1: RowEncodings,
    e2: RowEncodings,
    both: RowEncodings,
    n1: int,
    n2: int,
    dim: int,
    code_row: spec_fn(Seq<u32>) -> Seq<i8>,
    scale_of: spec_fn(Seq<u32>) -> u32,
    half_of: spec_fn(u32) -> u16,
)
    requires
        0 <= n1,
        0 <= n2,
        0 < dim,
        encoded_by(e1, v1, n1, dim, code_row, scale_of, half_of),
        encoded_by(e2, v2, n2, dim, code_row, scale_of, half_of),
        encoded_by(both, v1 + v2, n1 + n2, dim, code_row, scale_of, half_of),
    ensures
        appended(appended(store, v1, e1, n1, dim), v2, e2, n2, dim) == appended(
            store,
            v1 + v2,
            both,
            n1 + n2,
            dim,
        ),
{
    let joined = e1.codes@ + e2.codes@;
    assert((n1 + n2) * dim == n1 * dim + n2 * dim && 0 <= n1 * dim && 0 <= n2 * dim)
        by (nonlinear_arith)
        requires
            0 <= n1,
            0 <= n2,
            0 < dim,
    ;
    assert forall|i: int| 0 <= i < n1 + n2 implies #[trigger] row_span(both.codes@, i, dim)
        == row_span(joined, i, dim) by {
        if i < n1 {
            lemma_row_of_first(v1, v2, n1, i, dim);
            lemma_row_of_first(e1.codes@, e2.codes@, n1, i, dim);
            assert(row_span(e1.codes@, i, dim) == code_row(row_span(v1, i, dim)));
        } else {
            lemma_row_of_second(v1, v2, n1, n2, i - n1, dim);
            lemma_row_of_second(e1.codes@, e2.codes@, n1, n2, i - n1, dim);
            assert(row_span(e2.codes@, i - n1, dim) == code_row(row_span(v2, i - n1, dim)));
        }
    }
    lemma_rows_determine(both.codes@, joined, n1 + n2, dim);
    assert forall|i: int| 0 <= i < n1 + n2 implies #[trigger] both.scales@[i] == (e1.scales@
        + e2.scales@)[i] by {
        if i < n1 {
            lemma_row_of_first(v1, v2, n1, i, dim);
            assert(e1.scales@[i] == scale_of(row_span(v1, i, dim)));
        } else {
            lemma_row_of_second(v1, v2, n1, n2, i - n1, dim);
            assert(e2.scales@[i - n1] == scale_of(row_span(v2, i - n1, dim)));
        }
    }
    assert(both.scales@ =~= e1.scales@ + e2.scales@);
    assert(both.halfs@ =~= e1.halfs@ + e2.halfs@);
    law_append_in_batches(store, v1, v2, e1, e2, both, n1, n2, dim);
}

/// A flat array is determined by its rows.
proof fn lemma_rows_determine<T>(a: Seq<T>, b: Seq<T>, n: int, dim: int)
    requires
        0 < dim,
        a.len() == n * dim,
        b.len() == n * dim,
        forall|i: int| 0 <= i < n ==> #[trigger] row_span(a, i, dim) == row_span(b, i, dim),
    ensures
        a == b,
{
    assert forall|k: int| 0 <= k < n * dim implies a[k] == b[k] by {
        let i = k / dim;
        let c = k % dim;
        lemma_row_index(k, n, dim);
        assert(k == i * dim + c && 0 <= c < dim && 0 <= i * dim && i * dim + dim <= n * dim)
            by (nonlinear_arith)
            requires
                i == k / dim,
                c == k % dim,
                0 <= i,
                i + 1 <= n,
                0 < dim,
        ;
        assert(row_span(a, i, dim) == row_span(b, i, dim));
        assert(row_span(a, i, dim)[c] == a[k]);
        assert(row_span(b, i, dim)[c] == b[k]);
    }
    assert(a =~= b);
}

/// The codes and scales of two batches are those of the one batch that they
/// make up.
proof fn lemma_batches_int8(
    v1: Seq<u32>,
    v2: Seq<u32>,
    e1: RowEncodings,
    e2: RowEncodings,
    both: RowEncodings,
    n1: int,
    n2: int,
    dim: int,
)
    requires
        0 <= n1,
        0 <= n2,
        0 < dim,
        v1.len() == n1 * dim,
        v2.len() == n2 * dim,
        e1.codes@.len() == n1 * dim,
        e1.scales@.len() == n1,
        e2.codes@.len() == n2 * dim,
        e2.scales@.len() == n2,
        both.codes@ == e1.codes@ + e2.codes@,
        both.scales@ == e1.scales@ + e2.scales@,
    ensures
        batch_codes(v1 + v2, both.codes@, n1 + n2, dim) == batch_codes(v1, e1.codes@, n1, dim)
            + batch_codes(v2, e2.codes@, n2, dim),
        batch_scales(v1 + v2, both.scales@, n1 + n2, dim) == batch_scales(v1, e1.scales@, n1, dim)
            + batch_scales(v2, e2.scales@, n2, dim),
{
    let v = v1 + v2;
    assert((n1 + n2) * dim == n1 * dim + n2 * dim && 0 <= n1 * dim && 0 <= n2 * dim)
        by (nonlinear_arith)
        requires
            0 <= n1,
            0 <= n2,
            0 < dim,
    ;
    let whole = batch_codes(v, both.codes@, n1 + n2, dim);
    let first = batch_codes(v1, e1.codes@, n1, dim);
    let second = batch_codes(v2, e2.codes@, n2, dim);
    assert forall|k: int| 0 <= k < whole.len() implies whole[k] == #[trigger] (first + second)[k] by {
        if k < n1 * dim {
            lemma_row_index(k, n1, dim);
            lemma_row_of_first(v1, v2, n1, k / dim, dim);
        } else {
            let j = k - n1 * dim;
            lemma_row_index(j, n2, dim);
            assert((n1 + j / dim) * dim == n1 * dim + (j / dim) * dim) by (nonlinear_arith);
            assert(k == (n1 + j / dim) * dim + j % dim) by {
                assert(j == (j / dim) * dim + j % dim) by (nonlinear_arith)
                    requires
                        dim > 0,
                ;
            }
            assert(0 <= j % dim < dim) by (nonlinear_arith)
                requires
                    dim > 0,
            ;
            lemma_fundamental_div_mod_converse(k, dim, n1 + j / dim, j % dim);
            lemma_row_of_second(v1, v2, n1, n2, j / dim, dim);
        }
    }
    assert(whole =~= first + second);
    let scales = batch_scales(v, both.scales@, n1 + n2, dim);
    let scales1 = batch_scales(v1, e1.scales@, n1, dim);
    let scales2 = batch_scales(v2, e2.scales@, n2, dim);
    assert forall|i: int| 0 <= i < n1 + n2 implies scales[i] == #[trigger] (scales1 + scales2)[i] by {
        if i < n1 {
            lemma_row_of_first(v1, v2, n1, i, dim);
        } else {
            lemma_row_of_second(v1, v2, n1, n2, i - n1, dim);
        }
    }
    assert(scales =~= scales1 + scales2);
}

/// The row that a position lies in.
proof fn lemma_row_index(k: int, n: int, dim: int)
    by (nonlinear_arith)
    requires
        0 <= k < n * dim,
        0 < dim,
    ensures
        0 <= k / dim < n,
{
}

/// Removing a vector puts the last one in its place and leaves the others
/// alone.
pub proof fn law_swap_remove_rows(store: RefineView, idx: int, dim: int)
    requires
        0 <= dim,
        store.wf(dim),
        0 <= idx < store.n,
    ensures
        swap_removed(store, idx, store.n as int, dim).wf(dim),
        swap_removed(store, idx, store.n as int, dim).rows(dim) == store.rows(dim).update(
            idx,
            store.rows(dim).last(),
        ).drop_last(),
{
    let last = store.n - 1;
    let after = swap_removed(store, idx, store.n as int, dim);
    assert(0 <= last * dim <= store.n * dim) by (nonlinear_arith)
        requires
            0 <= last,
            last < store.n,
            0 <= dim,
    ;
    assert forall|i: int| 0 <= i < last implies after.row(i, dim) == (if i == idx {
        store.row(last, dim)
    } else {
        store.row(i, dim)
    }) by {
        match store.mode {
            RefineMode::Int8 => {
                lemma_swapped_row(store.codes_i8, idx, last, i, dim);
            },
            RefineMode::Float16 => {
                lemma_swapped_row(store.halfs, idx, last, i, dim);
            },
            RefineMode::Float32 => {
                lemma_swapped_row(store.floats, idx, last, i, dim);
            },
        }
    }
    assert(after.rows(dim) =~= store.rows(dim).update(idx, store.rows(dim).last()).drop_last());
}

/// Removing the vector that was appended last gives the store back.
pub proof fn law_append_then_remove(
    store: RefineView,
    vectors: Seq<u32>,
    enc: RowEncodings,
    dim: int,
)
    requires
        0 <= dim,
        store.wf(dim),
        dim <= vectors.len(),
        store.mode == RefineMode::Float16 ==> dim <= enc.halfs@.len(),
    ensures
        swap_removed(
            appended(store, vectors, enc, 1, dim),
            store.n as int,
            store.n as int + 1,
            dim,
        ) == store,
{
    let m = store.n as int;
    let after = appended(store, vectors, enc, 1, dim);
    let back = swap_removed(after, m, m + 1, dim);
    lemma_swapped_last(store.codes_i8, after.codes_i8, m, dim);
    lemma_swapped_last(store.i8_scales, after.i8_scales, m, 1);
    lemma_swapped_last(store.halfs, after.halfs, m, dim);
    lemma_swapped_last(store.floats, after.floats, m, dim);
    assert(back =~= store);
}

/// Removing the last row cuts the array.
proof fn lemma_swapped_last<T>(s: Seq<T>, t: Seq<T>, last: int, dim: int)
    requires
        0 <= dim,
        0 <= last,
        s.is_prefix_of(t),
    ensures
        s.len() == last * dim ==> swapped(t, last, last, dim) == s,
{
    if s.len() == last * dim {
        assert forall|k: int| 0 <= k < last * dim implies swapped(t, last, last, dim)[k] == s[k] by {
            assert(k / dim < last) by (nonlinear_arith)
                requires
                    0 <= k < last * dim,
                    0 <= dim,
                    0 <= last,
            ;
        }
        assert(swapped(t, last, last, dim) =~= s);
    }
}

/// Every stored code lies in `-127..=127`.
pub open spec fn codes_symmetric(store: RefineView) -> bool {
    forall|k: int| 0 <= k < store.codes_i8.len() ==> -127 <= #[trigger] store.codes_i8[k]
}

/// Appending and removing keep all codes in the symmetric range.
pub proof fn law_codes_stay_symmetric(
    store: RefineView,
    vectors: Seq<u32>,
    enc: RowEncodings,
    n: int,
    idx: int,
    dim: int,
)
    requires
        0 <= n,
        0 <= dim,
        store.wf(dim),
        codes_symmetric(store),
    ensures
        codes_symmetric(appended(store, vectors, enc, n, dim)),
        0 <= idx < store.n ==> codes_symmetric(swap_removed(store, idx, store.n as int, dim)),
{
    let after = appended(store, vectors, enc, n, dim);
    assert forall|k: int| 0 <= k < after.codes_i8.len() implies -127
        <= #[trigger] after.codes_i8[k] by {
        if k < store.codes_i8.len() {
            assert(after.codes_i8[k] == store.codes_i8[k]);
        } else {
            let j = k - store.codes_i8.len();
            assert(after.codes_i8[k] == batch_code(vectors, enc.codes@, j, dim));
        }
    }
    if 0 <= idx < store.n && store.mode == RefineMode::Int8 {
        let last = store.n - 1;
        let less = swap_removed(store, idx, store.n as int, dim);
        assert forall|k: int| 0 <= k < less.codes_i8.len() implies -127
            <= #[trigger] less.codes_i8[k] by {
            assert(dim > 0 && 0 <= k % dim < dim && last * dim + dim == (last + 1) * dim && 0
                <= last * dim) by (nonlinear_arith)
                requires
                    0 <= k < last * dim,
                    0 <= dim,
                    0 <= last,
            ;
            let from = if k / dim == idx {
                last * dim + k % dim
            } else {
                k
            };
            assert(less.codes_i8[k] == store.codes_i8[from]);
        }
    }
}

/// A vector without a non-zero value is stored as zeros, with scale zero.
pub proof fn law_zero_vector_is_stored_as_zeros(
    vectors: Seq<u32>,
    enc: RowEncodings,
    n: int,
    i: int,
    dim: int,
)
    requires
        0 <= i < n,
        0 < dim,
        max_abs(row_span(vectors, i, dim)) == 0,
    ensures
        batch_rows(RefineMode::Int8, vectors, enc, n, dim)[i] == (RowView::Int8 {
            codes: Seq::new(dim as nat, |k: int| 0i8),
            scale: 0,
        }),
{
    let codes = batch_codes(vectors, enc.codes@, n, dim);
    assert(0 <= i * dim && i * dim + dim <= n * dim) by (nonlinear_arith)
        requires
            0 <= i,
            i + 1 <= n,
            0 <= dim,
    ;
    assert forall|k: int| 0 <= k < dim implies row_span(codes, i, dim)[k] == 0 by {
        lemma_fundamental_div_mod_converse(i * dim + k, dim, i, k);
    }
    assert(row_span(codes, i, dim) =~= Seq::new(dim as nat, |k: int| 0i8));
}

} // verus!
