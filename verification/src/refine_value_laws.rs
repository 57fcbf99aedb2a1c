//! The refinement store value by value.
//!
//! The statements are about single values of the arrays, and write every
//! position and every rule on the values out.

use crate::io::{
    calibration_ok, core_load_view, id_map_load_view, refine_ok, refine_view, CoreLoad, IdMapLoad,
};
use crate::par::{chunk_at, chunk_count, row_maxima, row_span, SliceParSeq};
use crate::refine::{
    appended, batch_codes, batch_scales, empty_store, is_nan, magnitude,
    max_abs, swap_removed, swapped, RefineMode, RefineStore, RefineView, RowEncodings, RowView,
    StoredRow,
};
use crate::refine_laws::law_max_abs_is_greatest;
use vstd::arithmetic::div_mod::lemma_fundamental_div_mod_converse;
use vstd::prelude::*;

verus! {

// ---------------------------------------------------------------------------
// Magnitudes
// ---------------------------------------------------------------------------

/// All bits of a pattern but the sign.
proof fn lemma_magnitude(x: u32)
    ensures
        magnitude(x) == x & 0x7fff_ffff,
{
    assert(x & 0x7fff_ffff == x % 0x8000_0000) by (bit_vector);
}

/// The maximum of a row of single-precision patterns, with their sign bits
/// cleared: none that stands for a number exceeds it (a pattern above that of
/// infinity stands for none), and it is one of them, or zero.
pub proof fn law_row_maximum(row: Seq<u32>)
    ensures
        forall|i: int|
            #![trigger row[i]]
            0 <= i < row.len() && row[i] & 0x7fff_ffff <= 0x7f80_0000 ==> row[i] & 0x7fff_ffff
                <= max_abs(row),
        max_abs(row) == 0 || exists|i: int|
            #![trigger row[i]]
            0 <= i < row.len() && row[i] & 0x7fff_ffff == max_abs(row),
        max_abs(row) <= 0x7f80_0000,
{
    law_max_abs_is_greatest(row);
    assert forall|i: int|
        #![trigger row[i]]
        0 <= i < row.len() && row[i] & 0x7fff_ffff <= 0x7f80_0000 implies row[i] & 0x7fff_ffff
        <= max_abs(row) by {
        lemma_magnitude(row[i]);
    }
    if max_abs(row) != 0 {
        let i = choose|i: int|
            0 <= i < row.len() && !is_nan(row[i]) && magnitude(row[i]) == max_abs(row);
        lemma_magnitude(row[i]);
        assert(row[i] & 0x7fff_ffff == max_abs(row));
    }
}

/// The maxima of the rows of a batch, each over its own `dim` values.
pub proof fn law_row_maxima(vectors: Seq<u32>, dim: int, i: int)
    requires
        0 < dim,
        0 <= i < vectors.len() as int / dim,
    ensures
        row_maxima(vectors, dim).len() == vectors.len() as int / dim,
        forall|k: int|
            #![trigger vectors[i * dim + k]]
            0 <= k < dim && vectors[i * dim + k] & 0x7fff_ffff <= 0x7f80_0000 ==> vectors[i * dim
                + k] & 0x7fff_ffff <= row_maxima(vectors, dim)[i],
        row_maxima(vectors, dim)[i] == 0 || exists|k: int|
            #![trigger vectors[i * dim + k]]
            0 <= k < dim && vectors[i * dim + k] & 0x7fff_ffff == row_maxima(vectors, dim)[i],
        row_maxima(vectors, dim)[i] <= 0x7f80_0000,
{
    let row = row_span(vectors, i, dim);
    assert(0 <= i * dim && i * dim + dim <= vectors.len()) by (nonlinear_arith)
        requires
            0 <= i,
            i + 1 <= vectors.len() as int / dim,
            0 < dim,
    ;
    law_row_maximum(row);
    assert forall|k: int|
        #![trigger vectors[i * dim + k]]
        0 <= k < dim && vectors[i * dim + k] & 0x7fff_ffff <= 0x7f80_0000 implies vectors[i * dim
        + k] & 0x7fff_ffff <= row_maxima(vectors, dim)[i] by {
        assert(row[k] == vectors[i * dim + k]);
    }
    if max_abs(row) != 0 {
        let k = choose|k: int|
            #![trigger row[k]]
            0 <= k < row.len() && row[k] & 0x7fff_ffff == max_abs(row);
        assert(vectors[i * dim + k] & 0x7fff_ffff == row_maxima(vectors, dim)[i]);
    }
}

/// A row has no maximum above zero exactly when none of its patterns stands
/// for a number other than zero.
proof fn lemma_zero_row(vectors: Seq<u32>, i: int, dim: int)
    requires
        0 <= i * dim,
        0 <= dim,
        i * dim + dim <= vectors.len(),
    ensures
        max_abs(row_span(vectors, i, dim)) == 0 <==> (forall|t: int|
            #![trigger vectors[i * dim + t]]
            0 <= t < dim ==> vectors[i * dim + t] & 0x7fff_ffff == 0 || vectors[i * dim + t]
                & 0x7fff_ffff > 0x7f80_0000),
{
    let row = row_span(vectors, i, dim);
    law_row_maximum(row);
    law_max_abs_is_greatest(row);
    if max_abs(row) == 0 {
        assert forall|t: int|
            #![trigger vectors[i * dim + t]]
            0 <= t < dim implies vectors[i * dim + t] & 0x7fff_ffff == 0 || vectors[i * dim + t]
            & 0x7fff_ffff > 0x7f80_0000 by {
            assert(row[t] == vectors[i * dim + t]);
        }
    } else {
        let t = choose|t: int|
            0 <= t < row.len() && !is_nan(row[t]) && magnitude(row[t]) == max_abs(row);
        lemma_magnitude(row[t]);
        assert(vectors[i * dim + t] == row[t]);
    }
}

// ---------------------------------------------------------------------------
// The store
// ---------------------------------------------------------------------------

/// A new store holds nothing.
pub proof fn law_new_store(mode: RefineMode)
    ensures
        empty_store(mode).mode == mode,
        empty_store(mode).n == 0,
        empty_store(mode).count() == 0,
        empty_store(mode).codes_i8.len() == 0,
        empty_store(mode).i8_scales.len() == 0,
        empty_store(mode).halfs.len() == 0,
        empty_store(mode).floats.len() == 0,
{
}

/// What a store holds is what its fields hold, and the number of its vectors
/// is that of its scales where it has scales.
pub proof fn law_store_contents(store: RefineStore)
    ensures
        store@.mode == store.mode,
        store@.n == store.n,
        store@.codes_i8 == store.codes_i8@,
        store@.i8_scales == store.i8_scales@,
        store@.halfs == store.halfs@,
        store@.floats == store.floats@,
        store@.count() == (if store.mode == RefineMode::Int8 {
            store.i8_scales@.len()
        } else {
            store.n as nat
        }),
{
}

/// What a stored vector holds is what its fields hold.
pub proof fn law_row_contents(row: StoredRow<'_>)
    ensures
        match row {
            StoredRow::Int8 { codes, scale } => row@ == (RowView::Int8 { codes: codes@, scale }),
            StoredRow::Float16 { halfs } => row@ == (RowView::Float16 { halfs: halfs@ }),
            StoredRow::Float32 { floats } => row@ == (RowView::Float32 { floats: floats@ }),
        },
{
}

/// Appending to a store in single precision: the values that were there stay,
/// those of the batch follow as they are, and nothing else changes.
pub proof fn law_append_float32_values(
    store: RefineView,
    vectors: Seq<u32>,
    enc: RowEncodings,
    n: int,
    dim: int,
)
    requires
        store.mode == RefineMode::Float32,
        0 <= n,
        0 <= dim,
        n * dim <= vectors.len(),
    ensures
        ({
            let after = appended(store, vectors, enc, n, dim);
            let old_len = store.floats.len() as int;
            &&& after.mode == store.mode
            &&& after.n == store.n + n
            &&& after.codes_i8 == store.codes_i8
            &&& after.i8_scales == store.i8_scales
            &&& after.halfs == store.halfs
            &&& after.floats.len() == old_len + n * dim
            &&& forall|k: int|
                0 <= k < old_len ==> after.floats[k] == #[trigger] store.floats[k]
            &&& forall|k: int|
                0 <= k < n * dim ==> after.floats[old_len + k] == #[trigger] vectors[k]
        }),
{
    assert(0 <= n * dim) by (nonlinear_arith)
        requires
            0 <= n,
            0 <= dim,
    ;
}

/// Appending to a store in half precision: the values that were there stay,
/// those of the encodings follow as they are, and nothing else changes.
pub proof fn law_append_float16_values(
    store: RefineView,
    vectors: Seq<u32>,
    enc: RowEncodings,
    n: int,
    dim: int,
)
    requires
        store.mode == RefineMode::Float16,
        0 <= n,
        0 <= dim,
        n * dim <= enc.halfs@.len(),
    ensures
        ({
            let after = appended(store, vectors, enc, n, dim);
            let old_len = store.halfs.len() as int;
            &&& after.mode == store.mode
            &&& after.n == store.n + n
            &&& after.codes_i8 == store.codes_i8
            &&& after.i8_scales == store.i8_scales
            &&& after.floats == store.floats
            &&& after.halfs.len() == old_len + n * dim
            &&& forall|k: int| 0 <= k < old_len ==> after.halfs[k] == #[trigger] store.halfs[k]
            &&& forall|k: int|
                0 <= k < n * dim ==> after.halfs[old_len + k] == #[trigger] enc.halfs@[k]
        }),
{
    assert(0 <= n * dim) by (nonlinear_arith)
        requires
            0 <= n,
            0 <= dim,
    ;
}

/// Appending to a store of signed bytes leaves what was there alone, adds
/// `dim` codes and one scale for each vector, and changes nothing else.
pub proof fn law_append_int8_shape(
    store: RefineView,
    vectors: Seq<u32>,
    enc: RowEncodings,
    n: int,
    dim: int,
)
    requires
        store.mode == RefineMode::Int8,
        0 <= n,
        0 <= dim,
    ensures
        ({
            let after = appended(store, vectors, enc, n, dim);
            &&& after.mode == store.mode
            &&& after.n == store.n + n
            &&& after.halfs == store.halfs
            &&& after.floats == store.floats
            &&& after.codes_i8.len() == store.codes_i8.len() + n * dim
            &&& after.i8_scales.len() == store.i8_scales.len() + n
            &&& forall|k: int|
                0 <= k < store.codes_i8.len() ==> after.codes_i8[k]
                    == #[trigger] store.codes_i8[k]
            &&& forall|k: int|
                0 <= k < store.i8_scales.len() ==> after.i8_scales[k]
                    == #[trigger] store.i8_scales[k]
        }),
{
    assert(0 <= n * dim) by (nonlinear_arith)
        requires
            0 <= n,
            0 <= dim,
    ;
}

/// What value `k` of vector `i` of a batch becomes in a store of signed bytes.
/// If some value of the vector is a number other than zero, its code is stored
/// as it is, save that -128 becomes -127, and so is the scale of the vector.
/// Otherwise the code and the scale are zero.
pub proof fn law_append_int8_values(
    store: RefineView,
    vectors: Seq<u32>,
    enc: RowEncodings,
    n: int,
    dim: int,
    i: int,
    k: int,
)
    requires
        store.mode == RefineMode::Int8,
        0 <= i < n,
        0 <= k < dim,
        n * dim <= vectors.len(),
    ensures
        ({
            let after = appended(store, vectors, enc, n, dim);
            let code = after.codes_i8[store.codes_i8.len() + i * dim + k];
            let scale = after.i8_scales[store.i8_scales.len() + i];
            let given = enc.codes@[i * dim + k];
            let has_value = exists|t: int|
                #![trigger vectors[i * dim + t]]
                0 <= t < dim && 0 < vectors[i * dim + t] & 0x7fff_ffff && vectors[i * dim + t]
                    & 0x7fff_ffff <= 0x7f80_0000;
            &&& has_value && given == -128 ==> code == -127
            &&& has_value && given != -128 ==> code == given
            &&& has_value ==> scale == enc.scales@[i]
            &&& !has_value ==> code == 0 && scale == 0
        }),
{
    assert(0 <= i * dim && i * dim + dim <= n * dim) by (nonlinear_arith)
        requires
            0 <= i,
            i + 1 <= n,
            0 <= dim,
    ;
    let at = i * dim + k;
    lemma_fundamental_div_mod_converse(at, dim, i, k);
    lemma_zero_row(vectors, i, dim);
    let codes = batch_codes(vectors, enc.codes@, n, dim);
    let scales = batch_scales(vectors, enc.scales@, n, dim);
    let after = appended(store, vectors, enc, n, dim);
    assert(after.codes_i8[store.codes_i8.len() + at] == codes[at]);
    assert(after.i8_scales[store.i8_scales.len() + i] == scales[i]);
}

/// Where the value at position `c` of row `i` comes from once row `last` has
/// taken the place of row `idx`.
proof fn lemma_swapped_values<T>(s: Seq<T>, idx: int, last: int, dim: int)
    requires
        0 <= last,
        0 <= dim,
    ensures
        swapped(s, idx, last, dim).len() == (if last * dim <= s.len() {
            last * dim
        } else {
            s.len() as int
        }),
        forall|i: int, c: int|
            0 <= i < last && 0 <= c < dim && i * dim + c < s.len() ==> #[trigger] swapped(
                s,
                idx,
                last,
                dim,
            )[i * dim + c] == s[(if i == idx {
                last
            } else {
                i
            }) * dim + c],
{
    assert(0 <= last * dim) by (nonlinear_arith)
        requires
            0 <= last,
            0 <= dim,
    ;
    assert forall|i: int, c: int|
        0 <= i < last && 0 <= c < dim && i * dim + c < s.len() implies #[trigger] swapped(
        s,
        idx,
        last,
        dim,
    )[i * dim + c] == s[(if i == idx {
        last
    } else {
        i
    }) * dim + c] by {
        assert(0 <= i * dim && i * dim + dim <= last * dim) by (nonlinear_arith)
            requires
                0 <= i,
                i + 1 <= last,
                0 <= dim,
        ;
        lemma_fundamental_div_mod_converse(i * dim + c, dim, i, c);
    }
}

/// Removing vector `idx` of `n_before`, value by value: the array keeps its
/// first `n_before - 1` rows, row `idx` holds what the last one held, and every
/// other row holds what it held before. In a store of signed bytes the scales
/// move along with the codes.
pub proof fn law_remove_values(store: RefineView, idx: int, n_before: int, dim: int)
    requires
        0 < n_before,
        0 <= dim,
    ensures
        ({
            let after = swap_removed(store, idx, n_before, dim);
            let last = n_before - 1;
            &&& after.mode == store.mode
            &&& after.n == (if store.n < last {
                store.n as int
            } else {
                last
            })
            &&& match store.mode {
                RefineMode::Int8 => {
                    &&& after.halfs == store.halfs
                    &&& after.floats == store.floats
                    &&& after.codes_i8.len() == (if last * dim <= store.codes_i8.len() {
                        last * dim
                    } else {
                        store.codes_i8.len() as int
                    })
                    &&& forall|i: int, c: int|
                        0 <= i < last && 0 <= c < dim && i * dim + c < store.codes_i8.len()
                            ==> #[trigger] after.codes_i8[i * dim + c] == store.codes_i8[(if i
                            == idx {
                            last
                        } else {
                            i
                        }) * dim + c]
                    &&& after.i8_scales.len() == (if last <= store.i8_scales.len() {
                        last
                    } else {
                        store.i8_scales.len() as int
                    })
                    &&& forall|i: int|
                        0 <= i < last && i < store.i8_scales.len() ==> #[trigger] after.i8_scales[i]
                            == store.i8_scales[if i == idx {
                            last
                        } else {
                            i
                        }]
                },
                RefineMode::Float16 => {
                    &&& after.codes_i8 == store.codes_i8
                    &&& after.i8_scales == store.i8_scales
                    &&& after.floats == store.floats
                    &&& after.halfs.len() == (if last * dim <= store.halfs.len() {
                        last * dim
                    } else {
                        store.halfs.len() as int
                    })
                    &&& forall|i: int, c: int|
                        0 <= i < last && 0 <= c < dim && i * dim + c < store.halfs.len()
                            ==> #[trigger] after.halfs[i * dim + c] == store.halfs[(if i
                            == idx {
                            last
                        } else {
                            i
                        }) * dim + c]
                },
                RefineMode::Float32 => {
                    &&& after.codes_i8 == store.codes_i8
                    &&& after.i8_scales == store.i8_scales
                    &&& after.halfs == store.halfs
                    &&& after.floats.len() == (if last * dim <= store.floats.len() {
                        last * dim
                    } else {
                        store.floats.len() as int
                    })
                    &&& forall|i: int, c: int|
                        0 <= i < last && 0 <= c < dim && i * dim + c < store.floats.len()
                            ==> #[trigger] after.floats[i * dim + c] == store.floats[(if i
                            == idx {
                            last
                        } else {
                            i
                        }) * dim + c]
                },
            }
        }),
{
    let last = n_before - 1;
    match store.mode {
        RefineMode::Int8 => {
            lemma_swapped_values(store.codes_i8, idx, last, dim);
            let scales = swap_removed(store, idx, n_before, dim).i8_scales;
            assert forall|i: int|
                0 <= i < last && i < store.i8_scales.len() implies #[trigger] scales[i]
                == store.i8_scales[if i == idx {
                last
            } else {
                i
            }] by {
                lemma_fundamental_div_mod_converse(i, 1, i, 0);
            }
        },
        RefineMode::Float16 => {
            lemma_swapped_values(store.halfs, idx, last, dim);
        },
        RefineMode::Float32 => {
            lemma_swapped_values(store.floats, idx, last, dim);
        },
    }
}

/// Vector `idx` as it is handed out, value by value.
pub proof fn law_stored_row_values(store: RefineView, idx: int, dim: int)
    requires
        0 <= idx,
        0 <= dim,
        match store.mode {
            RefineMode::Int8 => (idx + 1) * dim <= store.codes_i8.len(),
            RefineMode::Float16 => (idx + 1) * dim <= store.halfs.len(),
            RefineMode::Float32 => (idx + 1) * dim <= store.floats.len(),
        },
    ensures
        match store.mode {
            RefineMode::Int8 => {
                &&& store.row(idx, dim) is Int8
                &&& store.row(idx, dim)->scale == store.i8_scales[idx]
                &&& store.row(idx, dim)->codes.len() == dim
                &&& forall|c: int|
                    0 <= c < dim ==> #[trigger] store.row(idx, dim)->codes[c]
                        == store.codes_i8[idx * dim + c]
            },
            RefineMode::Float16 => {
                &&& store.row(idx, dim) is Float16
                &&& store.row(idx, dim)->halfs.len() == dim
                &&& forall|c: int|
                    0 <= c < dim ==> #[trigger] store.row(idx, dim)->halfs[c] == store.halfs[idx
                        * dim + c]
            },
            RefineMode::Float32 => {
                &&& store.row(idx, dim) is Float32
                &&& store.row(idx, dim)->floats.len() == dim
                &&& forall|c: int|
                    0 <= c < dim ==> #[trigger] store.row(idx, dim)->floats[c] == store.floats[idx
                        * dim + c]
            },
        },
{
    assert(0 <= idx * dim && (idx + 1) * dim == idx * dim + dim) by (nonlinear_arith)
        requires
            0 <= idx,
            0 <= dim,
    ;
}

// ---------------------------------------------------------------------------
// Chunks and loaded files
// ---------------------------------------------------------------------------

/// Chunks of `size` items cover a slice: chunk `i` starts at item `i * size`,
/// all are full but the last, and none is empty.
pub proof fn law_chunks_cover<T>(s: Seq<T>, size: int, i: int)
    requires
        0 < size,
        0 <= i,
    ensures
        i < chunk_count(s.len() as int, size) <==> i * size < s.len(),
        i * size < s.len() ==> {
            &&& chunk_at(s, i, size).len() == (if s.len() - i * size < size {
                s.len() - i * size
            } else {
                size
            })
            &&& forall|k: int|
                0 <= k < chunk_at(s, i, size).len() ==> #[trigger] chunk_at(s, i, size)[k] == s[i
                    * size + k]
        },
{
    let len = s.len() as int;
    assert(i < (len + size - 1) / size <==> i * size < len) by (nonlinear_arith)
        requires
            0 < size,
            0 <= i,
            0 <= len,
    ;
    assert(0 <= i * size) by (nonlinear_arith)
        requires
            0 < size,
            0 <= i,
    ;
}

/// The items of a slice are its values.
pub proof fn law_slice_items<T>(s: &[T])
    ensures
        s.items() == s@,
{
}

/// What a loaded file holds is what was handed out, each under its own name.
pub proof fn law_load_contents(file: CoreLoad, with_ids: IdMapLoad)
    ensures
        core_load_view(file).bit_width == file.0,
        core_load_view(file).dim == file.1,
        core_load_view(file).n == file.2,
        core_load_view(file).codes == file.3@,
        core_load_view(file).scales == file.4@,
        core_load_view(file).shift == file.5@,
        core_load_view(file).scale == file.6@,
        core_load_view(file).refine is Some <==> file.7 is Some,
        file.7 is Some ==> core_load_view(file).refine->0 == file.7->0@,
        id_map_load_view(with_ids).0.bit_width == with_ids.0,
        id_map_load_view(with_ids).0.dim == with_ids.1,
        id_map_load_view(with_ids).0.n == with_ids.2,
        id_map_load_view(with_ids).0.codes == with_ids.3@,
        id_map_load_view(with_ids).0.scales == with_ids.4@,
        id_map_load_view(with_ids).0.shift == with_ids.5@,
        id_map_load_view(with_ids).0.scale == with_ids.6@,
        id_map_load_view(with_ids).1 == with_ids.7@,
        id_map_load_view(with_ids).0.refine is Some <==> with_ids.8 is Some,
        with_ids.8 is Some ==> id_map_load_view(with_ids).0.refine->0 == with_ids.8->0@,
{
}

/// When a store holds, or reaches, `n` vectors, and which calibrations and
/// stores can be saved.
pub proof fn law_sizes_asked_for(
    store: RefineView,
    n: int,
    dim: int,
    shift: int,
    scale: int,
)
    ensures
        store.holds(n, dim) <==> (store.mode == RefineMode::Int8 && store.i8_scales.len() == n
            && store.codes_i8.len() == n * dim) || (store.mode == RefineMode::Float16
            && store.halfs.len() == n * dim) || (store.mode == RefineMode::Float32
            && store.floats.len() == n * dim),
        store.reaches(n, dim) <==> (store.mode == RefineMode::Int8 && store.i8_scales.len() >= n
            && store.codes_i8.len() >= n * dim) || (store.mode == RefineMode::Float16
            && store.halfs.len() >= n * dim) || (store.mode == RefineMode::Float32
            && store.floats.len() >= n * dim),
        calibration_ok(shift, scale, dim) <==> shift == scale && (shift == 0 || shift == dim),
        refine_ok(None, n, dim),
        refine_ok(Some(store), n, dim) <==> store.holds(n, dim),
{
}

/// An optional store that is to be saved is that store.
pub proof fn law_given_store(given: Option<&RefineStore>)
    ensures
        refine_view(given) is Some <==> given is Some,
        given is Some ==> refine_view(given)->0 == given->0@,
{
}

} // verus!
