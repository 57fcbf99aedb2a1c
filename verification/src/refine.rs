//! Refinement store for cascade re-ranking.
//!
//! The store keeps the input vectors next to the compact codes, so that the
//! shortlist of a coarse scan can be scored again. Floating-point values are
//! held by their IEEE 754 bit patterns: `u32` for single and `u16` for half
//! precision.
//!
//! | Mode | Extra bytes per vector |
//! |------|------------------------|
//! | `Int8` | `dim + 4` |
//! | `Float16` | `dim * 2` |
//! | `Float32` | `dim * 4` |

use crate::par::{par_row_maxima, row_maxima, row_span};
use vstd::arithmetic::div_mod::lemma_fundamental_div_mod_converse;
use vstd::prelude::*;
use vstd::slice::slice_subrange;

verus! {

/// How the input vectors are kept.
#[derive(Clone, Copy, PartialEq, Eq, Debug, Structural)]
pub enum RefineMode {
    /// One signed byte per value and one scale, `max_abs / 127`, per vector.
    Int8,
    /// Half precision.
    Float16,
    /// Single precision, as they came in.
    Float32,
}

/// Per-vector refinement data. Only the arrays of the store's mode are in use.
#[derive(Debug)]
pub struct RefineStore {
    pub mode: RefineMode,
    /// Number of vectors that were appended and not removed.
    pub n: usize,
    /// `Int8`: the codes, `n * dim` of them.
    pub codes_i8: Vec<i8>,
    /// `Int8`: the scale of each vector.
    pub i8_scales: Vec<u32>,
    /// `Float16`: the values, `n * dim` of them.
    pub halfs: Vec<u16>,
    /// `Float32`: the values, `n * dim` of them.
    pub floats: Vec<u32>,
}

/// What a batch of vectors becomes under floating-point arithmetic. A mode
/// reads its own arrays alone.
#[derive(Debug)]
pub struct RowEncodings {
    /// `Int8`: each value divided by the scale of its vector and rounded.
    pub codes: Vec<i8>,
    /// `Int8`: the scale of each vector.
    pub scales: Vec<u32>,
    /// `Float16`: each value rounded to half precision.
    pub halfs: Vec<u16>,
}

/// One vector of the store.
#[derive(Debug)]
pub enum StoredRow<'a> {
    Int8 { codes: &'a [i8], scale: u32 },
    Float16 { halfs: &'a [u16] },
    Float32 { floats: &'a [u32] },
}

// ---------------------------------------------------------------------------
// Model
// ---------------------------------------------------------------------------

/// The contents of a [`RefineStore`].
#[verifier::ext_equal]
pub struct RefineView {
    pub mode: RefineMode,
    pub n: nat,
    pub codes_i8: Seq<i8>,
    pub i8_scales: Seq<u32>,
    pub halfs: Seq<u16>,
    pub floats: Seq<u32>,
}

/// The contents of a [`StoredRow`].
#[verifier::ext_equal]
pub enum RowView {
    Int8 { codes: Seq<i8>, scale: u32 },
    Float16 { halfs: Seq<u16> },
    Float32 { floats: Seq<u32> },
}

impl View for RefineStore {
    type V = RefineView;

    open spec fn view(&self) -> RefineView {
        RefineView {
            mode: self.mode,
            n: self.n as nat,
            codes_i8: self.codes_i8@,
            i8_scales: self.i8_scales@,
            halfs: self.halfs@,
            floats: self.floats@,
        }
    }
}

impl<'a> View for StoredRow<'a> {
    type V = RowView;

    open spec fn view(&self) -> RowView {
        match self {
            StoredRow::Int8 { codes, scale } => RowView::Int8 { codes: codes@, scale: *scale },
            StoredRow::Float16 { halfs } => RowView::Float16 { halfs: halfs@ },
            StoredRow::Float32 { floats } => RowView::Float32 { floats: floats@ },
        }
    }
}

impl RefineView {
    /// A store of `n` vectors of dimension `dim` with no stray data.
    pub open spec fn wf(self, dim: int) -> bool {
        &&& self.holds(self.n as int, dim)
        &&& match self.mode {
            RefineMode::Int8 => {
                &&& self.halfs.len() == 0
                &&& self.floats.len() == 0
            },
            RefineMode::Float16 => {
                &&& self.codes_i8.len() == 0
                &&& self.i8_scales.len() == 0
                &&& self.floats.len() == 0
            },
            RefineMode::Float32 => {
                &&& self.codes_i8.len() == 0
                &&& self.i8_scales.len() == 0
                &&& self.halfs.len() == 0
            },
        }
    }

    /// The number of vectors: one for each scale where there are scales.
    pub open spec fn count(self) -> nat {
        match self.mode {
            RefineMode::Int8 => self.i8_scales.len(),
            RefineMode::Float16 => self.n,
            RefineMode::Float32 => self.n,
        }
    }

    /// The arrays of the store's mode hold exactly `n` vectors.
    pub open spec fn holds(self, n: int, dim: int) -> bool {
        match self.mode {
            RefineMode::Int8 => self.i8_scales.len() == n && self.codes_i8.len() == n * dim,
            RefineMode::Float16 => self.halfs.len() == n * dim,
            RefineMode::Float32 => self.floats.len() == n * dim,
        }
    }

    /// The arrays of the store's mode hold at least `n` vectors.
    pub open spec fn reaches(self, n: int, dim: int) -> bool {
        match self.mode {
            RefineMode::Int8 => n <= self.i8_scales.len() && n * dim <= self.codes_i8.len(),
            RefineMode::Float16 => n * dim <= self.halfs.len(),
            RefineMode::Float32 => n * dim <= self.floats.len(),
        }
    }

    /// Vector `i`.
    pub open spec fn row(self, i: int, dim: int) -> RowView {
        match self.mode {
            RefineMode::Int8 => RowView::Int8 {
                codes: row_span(self.codes_i8, i, dim),
                scale: self.i8_scales[i],
            },
            RefineMode::Float16 => RowView::Float16 { halfs: row_span(self.halfs, i, dim) },
            RefineMode::Float32 => RowView::Float32 { floats: row_span(self.floats, i, dim) },
        }
    }

    /// All vectors.
    pub open spec fn rows(self, dim: int) -> Seq<RowView> {
        Seq::new(self.n, |i: int| self.row(i, dim))
    }
}

/// An empty store.
pub open spec fn empty_store(mode: RefineMode) -> RefineView {
    RefineView {
        mode,
        n: 0,
        codes_i8: Seq::empty(),
        i8_scales: Seq::empty(),
        halfs: Seq::empty(),
        floats: Seq::empty(),
    }
}

/// The magnitude bits of a single-precision pattern: all but the sign.
pub open spec fn magnitude(x: u32) -> u32 {
    x % 0x8000_0000
}

/// The pattern stands for no number.
pub open spec fn is_nan(x: u32) -> bool {
    magnitude(x) > 0x7f80_0000
}

/// The pattern of the largest absolute value in `row`, where patterns that
/// stand for no number are passed over; zero if there is none. Magnitudes
/// order as their patterns do.
pub open spec fn max_abs(row: Seq<u32>) -> u32
    decreases row.len(),
{
    if row.len() == 0 {
        0
    } else {
        let most = max_abs(row.drop_last());
        let last = row.last();
        if !is_nan(last) && magnitude(last) > most {
            magnitude(last)
        } else {
            most
        }
    }
}

/// A code within the symmetric range `-127..=127`.
pub open spec fn clamp_code(c: i8) -> i8 {
    if c < -127 {
        (-127) as i8
    } else {
        c
    }
}

/// What value `k` of a batch is stored as: zero in an all-zero vector.
pub open spec fn batch_code(vectors: Seq<u32>, codes: Seq<i8>, k: int, dim: int) -> i8 {
    if max_abs(row_span(vectors, k / dim, dim)) == 0 {
        0
    } else {
        clamp_code(codes[k])
    }
}

/// The codes that `n` vectors are stored as.
pub open spec fn batch_codes(vectors: Seq<u32>, codes: Seq<i8>, n: int, dim: int) -> Seq<i8> {
    Seq::new((n * dim) as nat, |k: int| batch_code(vectors, codes, k, dim))
}

/// The scales that `n` vectors are stored with: zero for an all-zero vector.
pub open spec fn batch_scales(vectors: Seq<u32>, scales: Seq<u32>, n: int, dim: int) -> Seq<u32> {
    Seq::new(
        n as nat,
        |i: int|
            if max_abs(row_span(vectors, i, dim)) == 0 {
                0
            } else {
                scales[i]
            },
    )
}

/// The store after `n` vectors were appended.
pub open spec fn appended(
    store: RefineView,
    vectors: Seq<u32>,
    enc: RowEncodings,
    n: int,
    dim: int,
) -> RefineView {
    let grown = RefineView { n: (store.n + n) as nat, ..store };
    match store.mode {
        RefineMode::Int8 => RefineView {
            codes_i8: store.codes_i8 + batch_codes(vectors, enc.codes@, n, dim),
            i8_scales: store.i8_scales + batch_scales(vectors, enc.scales@, n, dim),
            ..grown
        },
        RefineMode::Float16 => RefineView { halfs: store.halfs + enc.halfs@.take(n * dim), ..grown },
        RefineMode::Float32 => RefineView { floats: store.floats + vectors.take(n * dim), ..grown },
    }
}

/// `s` cut behind its first `last` rows, with row `last` in place of row `idx`.
pub open spec fn swapped<T>(s: Seq<T>, idx: int, last: int, dim: int) -> Seq<T> {
    Seq::new(
        if last * dim <= s.len() {
            (last * dim) as nat
        } else {
            s.len()
        },
        |k: int|
            if k / dim == idx {
                s[last * dim + k % dim]
            } else {
                s[k]
            },
    )
}

/// The store after vector `idx` of `n_before` was removed.
pub open spec fn swap_removed(
    store: RefineView,
    idx: int,
    n_before: int,
    dim: int,
) -> RefineView {
    let last = n_before - 1;
    let shrunk = RefineView {
        n: if last <= store.n {
            last as nat
        } else {
            store.n
        },
        ..store
    };
    match store.mode {
        RefineMode::Int8 => RefineView {
            codes_i8: swapped(store.codes_i8, idx, last, dim),
            i8_scales: swapped(store.i8_scales, idx, last, 1),
            ..shrunk
        },
        RefineMode::Float16 => RefineView {
            halfs: swapped(store.halfs, idx, last, dim),
            ..shrunk
        },
        RefineMode::Float32 => RefineView {
            floats: swapped(store.floats, idx, last, dim),
            ..shrunk
        },
    }
}

// ---------------------------------------------------------------------------
// Magnitudes
// ---------------------------------------------------------------------------

/// The pattern of the largest absolute value in `row`.
pub fn row_max_abs(row: &[u32]) -> (most: u32)
    ensures
        most == max_abs(row@),
{
    let mut most: u32 = 0;
    let mut i: usize = 0;
    assert(row@.take(0).len() == 0);
    while i < row.len()
        invariant
            i <= row.len(),
            most == max_abs(row@.take(i as int)),
        decreases row.len() - i,
    {
        let x: u32 = row[i];
        let m: u32 = x & 0x7fff_ffff;
        assert(x & 0x7fff_ffff == x % 0x8000_0000) by (bit_vector);
        assert(row@.take(i + 1).drop_last() =~= row@.take(i as int));
        if m <= 0x7f80_0000 && m > most {
            most = m;
        }
        i = i + 1;
    }
    assert(row@.take(row.len() as int) =~= row@);
    most
}

// ---------------------------------------------------------------------------
// Rows of flat arrays
// ---------------------------------------------------------------------------

/// A row below `n` lies within the first `n * dim` values.
proof fn lemma_row_bounds(i: int, n: int, dim: int)
    by (nonlinear_arith)
    requires
        0 <= i < n,
        0 <= dim,
    ensures
        0 <= i * dim,
        i * dim + dim <= n * dim,
{
}

/// Appends the first `len` values of `src`.
fn extend_prefix<T: Copy>(dst: &mut Vec<T>, src: &[T], len: usize)
    requires
        len <= src.len(),
    ensures
        final(dst)@ == old(dst)@ + src@.take(len as int),
{
    let ghost before = dst@;
    let mut k: usize = 0;
    assert(before + src@.take(0) =~= before);
    while k < len
        invariant
            k <= len <= src.len(),
            dst@ == before + src@.take(k as int),
        decreases len - k,
    {
        dst.push(src[k]);
        assert(dst@ =~= before + src@.take(k + 1));
        k = k + 1;
    }
}

/// Moves row `last` over row `idx` and cuts the array behind its first `last`
/// rows.
fn swap_remove_row<T: Copy>(v: &mut Vec<T>, idx: usize, last: usize, dim: usize)
    requires
        last * dim <= usize::MAX,
        idx != last ==> (last + 1) * dim <= old(v).len() && (idx + 1) * dim <= old(v).len(),
    ensures
        final(v)@ == swapped(old(v)@, idx as int, last as int, dim as int),
{
    let ghost before = v@;
    let src: usize = last * dim;
    if idx != last {
        assert((last + 1) * dim == last * dim + dim && (idx + 1) * dim == idx * dim + dim)
            by (nonlinear_arith);
        let dst: usize = idx * dim;
        assert(dst + dim <= src || src + dim <= dst) by (nonlinear_arith)
            requires
                idx != last,
                dst == idx * dim,
                src == last * dim,
                0 <= dim,
        ;
        let mut k: usize = 0;
        while k < dim
            invariant
                k <= dim,
                src == last * dim,
                dst == idx * dim,
                dst + dim <= src || src + dim <= dst,
                src + dim <= v.len(),
                dst + dim <= v.len(),
                v.len() == before.len(),
                forall|j: int|
                    0 <= j < v.len() ==> #[trigger] v[j] == (if dst <= j < dst + k {
                        before[src + (j - dst)]
                    } else {
                        before[j]
                    }),
            decreases dim - k,
        {
            let x: T = v[src + k];
            v[dst + k] = x;
            k = k + 1;
        }
    }
    v.truncate(src);
    proof {
        let want = swapped(before, idx as int, last as int, dim as int);
        assert forall|j: int| 0 <= j < want.len() implies v[j] == #[trigger] want[j] by {
            assert(dim > 0) by (nonlinear_arith)
                requires
                    0 <= j < last * dim,
                    0 <= dim,
            ;
            let q = j / (dim as int);
            let r = j % (dim as int);
            assert(j == dim * q + r && 0 <= r < dim) by (nonlinear_arith)
                requires
                    q == j / (dim as int),
                    r == j % (dim as int),
                    dim > 0,
            ;
            if q == idx {
                assert(dim * q == idx * dim) by (nonlinear_arith)
                    requires
                        q == idx,
                ;
                assert(idx != last) by (nonlinear_arith)
                    requires
                        j == idx * dim + r,
                        j < last * dim,
                        0 <= r,
                ;
            } else if idx * dim <= j < idx * dim + dim {
                assert(q == idx) by (nonlinear_arith)
                    requires
                        idx * dim <= j < idx * dim + dim,
                        j == dim * q + r,
                        0 <= r < dim,
                ;
            }
        }
        assert(v@ =~= want);
    }
}

// ---------------------------------------------------------------------------
// The store
// ---------------------------------------------------------------------------

impl RefineStore {
    /// An empty store.
    pub fn new(mode: RefineMode) -> (store: Self)
        ensures
            store@ == empty_store(mode),
    {
        RefineStore {
            mode,
            n: 0,
            codes_i8: Vec::new(),
            i8_scales: Vec::new(),
            halfs: Vec::new(),
            floats: Vec::new(),
        }
    }

    /// Appends the first `n` vectors of dimension `dim` of a batch.
    pub fn append(&mut self, vectors: &[u32], enc: &RowEncodings, n: usize, dim: usize)
        requires
            n * dim <= vectors.len(),
            old(self).n + n <= usize::MAX,
            match old(self).mode {
                RefineMode::Int8 => {
                    &&& dim > 0
                    &&& n * dim <= enc.codes.len()
                    &&& n <= enc.scales.len()
                },
                RefineMode::Float16 => n * dim <= enc.halfs.len(),
                RefineMode::Float32 => true,
            },
        ensures
            final(self)@ == appended(old(self)@, vectors@, *enc, n as int, dim as int),
    {
        let total: usize = n * dim;
        match self.mode {
            RefineMode::Float32 => {
                extend_prefix(&mut self.floats, vectors, total);
            },
            RefineMode::Float16 => {
                extend_prefix(&mut self.halfs, enc.halfs.as_slice(), total);
            },
            RefineMode::Int8 => {
                let batch = slice_subrange(vectors, 0, total);
                assert(total % dim == 0 && total / dim == n) by (nonlinear_arith)
                    requires
                        total == n * dim,
                        dim > 0,
                ;
                let maxima = par_row_maxima(batch, dim);
                let ghost codes_before = self.codes_i8@;
                let ghost scales_before = self.i8_scales@;
                let mut i: usize = 0;
                while i < n
                    invariant
                        i <= n,
                        dim > 0,
                        n * dim <= vectors.len(),
                        n * dim <= enc.codes.len(),
                        n <= enc.scales.len(),
                        batch@ == vectors@.take(n * dim),
                        maxima@ == row_maxima(batch@, dim as int),
                        maxima.len() == n,
                        self.mode == RefineMode::Int8,
                        self.mode == old(self).mode,
                        self.n == old(self).n,
                        self.halfs@ == old(self).halfs@,
                        self.floats@ == old(self).floats@,
                        self.codes_i8@ == codes_before + batch_codes(
                            vectors@,
                            enc.codes@,
                            i as int,
                            dim as int,
                        ),
                        self.i8_scales@ == scales_before + batch_scales(
                            vectors@,
                            enc.scales@,
                            i as int,
                            dim as int,
                        ),
                    decreases n - i,
                {
                    proof {
                        lemma_row_bounds(i as int, n as int, dim as int);
                        assert(row_span(batch@, i as int, dim as int) =~= row_span(
                            vectors@,
                            i as int,
                            dim as int,
                        ));
                    }
                    let zero: bool = maxima[i] == 0;
                    let start: usize = i * dim;
                    let mut k: usize = 0;
                    while k < dim
                        invariant
                            k <= dim,
                            dim > 0,
                            i < n,
                            start == i * dim,
                            start + dim <= enc.codes.len(),
                            zero == (max_abs(row_span(vectors@, i as int, dim as int)) == 0),
                            self.mode == old(self).mode,
                            self.n == old(self).n,
                            self.halfs@ == old(self).halfs@,
                            self.floats@ == old(self).floats@,
                            self.i8_scales@ == scales_before + batch_scales(
                                vectors@,
                                enc.scales@,
                                i as int,
                                dim as int,
                            ),
                            self.codes_i8.len() == codes_before.len() + start + k,
                            forall|j: int|
                                0 <= j < codes_before.len() ==> #[trigger] self.codes_i8[j]
                                    == codes_before[j],
                            forall|j: int|
                                0 <= j < start + k ==> #[trigger] self.codes_i8@[codes_before.len()
                                    + j] == batch_code(vectors@, enc.codes@, j, dim as int),
                        decreases dim - k,
                    {
                        let c: i8 = enc.codes[start + k];
                        let stored: i8 = if zero {
                            0
                        } else if c < -127 {
                            -127
                        } else {
                            c
                        };
                        proof {
                            lemma_fundamental_div_mod_converse(
                                start + k,
                                dim as int,
                                i as int,
                                k as int,
                            );
                        }
                        self.codes_i8.push(stored);
                        k = k + 1;
                    }
                    self.i8_scales.push(
                        if zero {
                            0
                        } else {
                            enc.scales[i]
                        },
                    );
                    proof {
                        assert((i + 1) * dim == i * dim + dim) by (nonlinear_arith);
                        let grown = codes_before + batch_codes(
                            vectors@,
                            enc.codes@,
                            i + 1,
                            dim as int,
                        );
                        assert forall|t: int| 0 <= t < self.codes_i8.len() implies self.codes_i8@[t]
                            == #[trigger] grown[t] by {
                            if t >= codes_before.len() {
                                let j = t - codes_before.len();
                                assert(self.codes_i8@[codes_before.len() + j] == batch_code(
                                    vectors@,
                                    enc.codes@,
                                    j,
                                    dim as int,
                                ));
                            }
                        }
                        assert(self.codes_i8@ =~= grown);
                        assert(self.i8_scales@ =~= scales_before + batch_scales(
                            vectors@,
                            enc.scales@,
                            i + 1,
                            dim as int,
                        ));
                    }
                    i = i + 1;
                }
            },
        }
        self.n = self.n + n;
        assert(self@ =~= appended(old(self)@, vectors@, *enc, n as int, dim as int));
    }

    /// Removes vector `idx` of `n_before` by moving the last one into its
    /// place.
    pub fn swap_remove(&mut self, idx: usize, n_before: usize, dim: usize)
        requires
            n_before > 0,
            (n_before - 1) * dim <= usize::MAX,
            idx != n_before - 1 ==> old(self)@.reaches(n_before as int, dim as int)
                && old(self)@.reaches(idx + 1, dim as int),
        ensures
            final(self)@ == swap_removed(old(self)@, idx as int, n_before as int, dim as int),
    {
        let last: usize = n_before - 1;
        match self.mode {
            RefineMode::Float32 => {
                swap_remove_row(&mut self.floats, idx, last, dim);
            },
            RefineMode::Float16 => {
                swap_remove_row(&mut self.halfs, idx, last, dim);
            },
            RefineMode::Int8 => {
                swap_remove_row(&mut self.codes_i8, idx, last, dim);
                swap_remove_row(&mut self.i8_scales, idx, last, 1);
            },
        }
        if last < self.n {
            self.n = last;
        }
    }

    /// Vector `idx`, as it is stored.
    pub fn stored_row(&self, idx: usize, dim: usize) -> (row: StoredRow<'_>)
        requires
            self@.reaches(idx + 1, dim as int),
        ensures
            row@ == self@.row(idx as int, dim as int),
    {
        proof {
            lemma_row_bounds(idx as int, idx + 1, dim as int);
        }
        match self.mode {
            RefineMode::Int8 => {
                let codes = self.codes_i8.as_slice();
                assert(codes.len() == self.codes_i8.len());
                StoredRow::Int8 {
                    codes: slice_subrange(codes, idx * dim, idx * dim + dim),
                    scale: self.i8_scales[idx],
                }
            },
            RefineMode::Float16 => {
                let halfs = self.halfs.as_slice();
                assert(halfs.len() == self.halfs.len());
                StoredRow::Float16 { halfs: slice_subrange(halfs, idx * dim, idx * dim + dim) }
            },
            RefineMode::Float32 => {
                let floats = self.floats.as_slice();
                assert(floats.len() == self.floats.len());
                StoredRow::Float32 { floats: slice_subrange(floats, idx * dim, idx * dim + dim) }
            },
        }
    }

    /// Number of vectors in the store.
    pub fn len(&self) -> (n: usize)
        ensures
            n == self@.count(),
    {
        match self.mode {
            RefineMode::Int8 => self.i8_scales.len(),
            RefineMode::Float16 => self.n,
            RefineMode::Float32 => self.n,
        }
    }
}

} // verus!
