//! Row-parallel work.
//!
//! Every parallel section handles the rows of a batch one by one, with no
//! value passed between rows, so the order in which the rows are worked on
//! does not show in the result.

use crate::refine::{max_abs, row_max_abs};
use rayon::iter::ParallelIterator;
use rayon::slice::ParallelSlice;
use vstd::prelude::*;
use vstd::std_specs::iter::IteratorSpec;
use vstd::slice::slice_subrange;

verus! {

/// Row `i` of the rows of `dim` values each that `s` is made of.
pub open spec fn row_span<T>(s: Seq<T>, i: int, dim: int) -> Seq<T> {
    s.subrange(i * dim, i * dim + dim)
}

/// The largest magnitude of each row.
pub open spec fn row_maxima(vectors: Seq<u32>, dim: int) -> Seq<u32> {
    Seq::new((vectors.len() as int / dim) as nat, |i: int| max_abs(row_span(vectors, i, dim)))
}

/// [`row_max_abs`] on each row, spread over the threads of the pool.
///
/// Calls `rayon::slice::ParallelSlice::par_chunks`, `map` and `collect`. Taken
/// on trust: `par_chunks` splits the slice, whose length `dim` divides, into
/// consecutive chunks of `dim` values, and the collected results stand in the
/// order of the chunks.
#[verifier::external_body]
pub(crate) fn par_row_maxima(vectors: &[u32], dim: usize) -> (maxima: Vec<u32>)
    requires
        dim > 0,
        vectors.len() % dim == 0,
    ensures
        maxima@ == row_maxima(vectors@, dim as int),
{
    ParallelSlice::par_chunks(vectors, dim).map(|row| row_max_abs(row)).collect()
}

/// The number of chunks of `size` items that `len` items are split into; the
/// last may be shorter.
pub open spec fn chunk_count(len: int, size: int) -> int {
    (len + size - 1) / size
}

/// Chunk `i` of `s`.
pub open spec fn chunk_at<T>(s: Seq<T>, i: int, size: int) -> Seq<T> {
    s.subrange(i * size, if i * size + size <= s.len() {
        i * size + size
    } else {
        s.len() as int
    })
}

/// The entry points of a parallel slice, each served in order on one thread.
pub trait SliceParSeq<T> {
    /// The items of the slice.
    spec fn items(&self) -> Seq<T>;

    /// The items, one by one.
    fn par_iter(&self) -> (it: core::slice::Iter<'_, T>)
        ensures
            it.remaining() == self.items().as_ref(),
    ;

    /// The items in consecutive chunks.
    fn par_chunks(&self, chunk_size: usize) -> (chunks: Vec<&[T]>)
        requires
            chunk_size > 0,
        ensures
            chunks.len() == chunk_count(self.items().len() as int, chunk_size as int),
            forall|i: int|
                0 <= i < chunks.len() ==> (#[trigger] chunks[i])@ == chunk_at(
                    self.items(),
                    i,
                    chunk_size as int,
                ),
    ;

    /// The items, one by one, each open to change.
    fn par_iter_mut(&mut self) -> (refs: Vec<&mut T>)
        ensures
            refs.len() == old(self).items().len(),
            forall|i: int| 0 <= i < refs.len() ==> *refs[i] == #[trigger] old(self).items()[i],
            final(self).items() == Seq::new(refs@.len(), |i: int| *final(refs@[i])),
    ;

    /// The items in consecutive chunks, each open to change.
    fn par_chunks_mut(&mut self, chunk_size: usize) -> (chunks: Vec<&mut [T]>)
        requires
            chunk_size > 0,
        ensures
            chunks.len() == chunk_count(old(self).items().len() as int, chunk_size as int),
            forall|i: int|
                0 <= i < chunks.len() ==> chunks[i]@ == #[trigger] chunk_at(
                    old(self).items(),
                    i,
                    chunk_size as int,
                ),
            final(self).items() == Seq::new(
                chunks@.len(),
                |i: int| final(chunks@[i])@,
            ).flatten(),
    ;
}

/// The items of a slice, each open to change.
fn items_mut<'a, T>(s: &'a mut [T]) -> (refs: Vec<&'a mut T>)
    ensures
        refs.len() == old(s)@.len(),
        forall|i: int| 0 <= i < refs.len() ==> *refs[i] == #[trigger] old(s)@[i],
        final(s)@ == Seq::new(refs@.len(), |i: int| *final(refs@[i])),
{
    let ghost whole = s@;
    let mut refs: Vec<&'a mut T> = Vec::new();
    let mut rest = s;
    assert(whole.skip(0) =~= whole);
    while rest.len() > 0
        invariant
            refs.len() <= whole.len(),
            rest@ == whole.skip(refs.len() as int),
            forall|i: int| 0 <= i < refs.len() ==> *refs[i] == #[trigger] whole[i],
            final(s)@ == Seq::new(refs@.len(), |i: int| *final(refs@[i])) + final(rest)@,
        decreases rest.len(),
    {
        let ghost before = refs@;
        let ghost k = refs.len() as int;
        let (a, b) = rest.split_at_mut(1);
        if let Some(x) = a.first_mut() {
            refs.push(x);
        }
        rest = b;
        proof {
            assert(rest@ =~= whole.skip(k + 1));
            let ends = Seq::new(refs@.len(), |i: int| *final(refs@[i]));
            let ends_before = Seq::new(before.len(), |i: int| *final(before[i]));
            assert(ends =~= ends_before.push(ends[k]));
        }
    }
    refs
}

/// The chunks of a slice, each open to change.
fn chunks_mut<'a, T>(s: &'a mut [T], size: usize) -> (chunks: Vec<&'a mut [T]>)
    requires
        size > 0,
    ensures
        chunks.len() == chunk_count(old(s)@.len() as int, size as int),
        forall|i: int|
            0 <= i < chunks.len() ==> chunks[i]@ == #[trigger] chunk_at(old(s)@, i, size as int),
        final(s)@ == Seq::new(chunks@.len(), |i: int| final(chunks@[i])@).flatten(),
{
    let ghost whole = s@;
    let ghost n = size as int;
    let mut chunks: Vec<&'a mut [T]> = Vec::new();
    let mut rest = s;
    proof {
        lemma_chunk_count_zero(n);
    }
    assert(Seq::new(chunks@.len(), |i: int| final(chunks@[i])@) =~= Seq::<Seq<T>>::empty());
    assert(chunks.len() * n == 0) by (nonlinear_arith)
        requires
            chunks.len() == 0,
    ;
    assert(whole.skip(0) =~= whole);
    while rest.len() > 0
        invariant
            size > 0,
            n == size,
            forall|i: int| 0 <= i < chunks.len() ==> chunks[i]@ == #[trigger] chunk_at(whole, i, n),
            chunk_count(whole.len() as int, n) == chunks.len() + chunk_count(rest@.len() as int, n),
            rest@.len() > 0 ==> rest@ == whole.skip(chunks.len() * n),
            final(s)@ == Seq::new(chunks@.len(), |i: int| final(chunks@[i])@).flatten() + final(rest)@,
        decreases rest.len(),
    {
        let mid: usize = if rest.len() < size {
            rest.len()
        } else {
            size
        };
        let ghost before = chunks@;
        let ghost k = chunks.len() as int;
        let ghost left = rest@;
        let (a, b) = rest.split_at_mut(mid);
        chunks.push(a);
        rest = b;
        proof {
            lemma_chunk_step(left.len() as int, n);
            lemma_chunk_count_zero(n);
            lemma_chunk_start(whole.len() as int, n, k);
            assert((k + 1) * n == k * n + n) by (nonlinear_arith);
            assert(chunks[k]@ =~= chunk_at(whole, k, n));
            if rest@.len() > 0 {
                assert(rest@ =~= whole.skip((k + 1) * n));
            }
            let ends = Seq::new(chunks@.len(), |i: int| final(chunks@[i])@);
            let ends_before = Seq::new(before.len(), |i: int| final(before[i])@);
            assert(ends =~= ends_before.push(ends[k]));
            ends_before.lemma_flatten_push(ends[k]);
        }
    }
    chunks
}

impl<T> SliceParSeq<T> for [T] {
    open spec fn items(&self) -> Seq<T> {
        self@
    }

    fn par_iter(&self) -> (it: core::slice::Iter<'_, T>) {
        let it = self.iter();
        proof {
            vstd::std_specs::slice::axiom_spec_slice_iter(self);
        }
        it
    }

    fn par_chunks(&self, chunk_size: usize) -> (chunks: Vec<&[T]>) {
        let mut chunks: Vec<&[T]> = Vec::new();
        let mut start: usize = 0;
        proof {
            lemma_chunk_count_zero(chunk_size as int);
        }
        assert(chunks.len() * chunk_size == 0) by (nonlinear_arith)
            requires
                chunks.len() == 0,
        ;
        while start < self.len()
            invariant
                chunk_size > 0,
                start == if chunks.len() * chunk_size <= self.len() {
                    chunks.len() * chunk_size
                } else {
                    self.len() as int
                },
                start == self.len() ==> chunks.len() == chunk_count(
                    self@.len() as int,
                    chunk_size as int,
                ),
                forall|i: int|
                    0 <= i < chunks.len() ==> (#[trigger] chunks[i])@ == chunk_at(
                        self@,
                        i,
                        chunk_size as int,
                    ),
            decreases self.len() - start,
        {
            let end: usize = if self.len() - start < chunk_size {
                self.len()
            } else {
                start + chunk_size
            };
            let ghost k = chunks.len() as int;
            assert((k + 1) * chunk_size == k * chunk_size + chunk_size) by (nonlinear_arith);
            if end == self.len() {
                proof {
                    lemma_chunk_count(self@.len() as int, k, chunk_size as int);
                }
            }
            chunks.push(slice_subrange(self, start, end));
            start = end;
        }
        chunks
    }

    fn par_iter_mut(&mut self) -> (refs: Vec<&mut T>) {
        items_mut(self)
    }

    fn par_chunks_mut(&mut self, chunk_size: usize) -> (chunks: Vec<&mut [T]>) {
        chunks_mut(self, chunk_size)
    }
}

/// [`row_max_abs`] on each row, one after the other.
pub fn seq_row_maxima(vectors: &[u32], dim: usize) -> (maxima: Vec<u32>)
    requires
        dim > 0,
        vectors.len() % dim == 0,
    ensures
        maxima@ == row_maxima(vectors@, dim as int),
{
    let rows = SliceParSeq::par_chunks(vectors, dim);
    let ghost d = dim as int;
    let ghost len = vectors@.len() as int;
    proof {
        lemma_exact_chunks(len, d);
    }
    let mut maxima: Vec<u32> = Vec::new();
    let mut i: usize = 0;
    while i < rows.len()
        invariant
            i <= rows.len(),
            maxima.len() == i,
            forall|j: int| 0 <= j < i ==> #[trigger] maxima[j] == max_abs(rows[j]@),
        decreases rows.len() - i,
    {
        maxima.push(row_max_abs(rows[i]));
        i = i + 1;
    }
    assert forall|j: int| 0 <= j < rows.len() implies #[trigger] maxima[j] == row_maxima(
        vectors@,
        d,
    )[j] by {
        assert(rows[j]@ == chunk_at(vectors@, j, d));
        assert(j * d + d <= len) by (nonlinear_arith)
            requires
                0 <= j,
                j + 1 <= len / d,
                d > 0,
        ;
    }
    assert(maxima@ =~= row_maxima(vectors@, d));
    maxima
}

proof fn lemma_chunk_start(len: int, size: int, i: int)
    by (nonlinear_arith)
    requires
        0 <= i < chunk_count(len, size),
        len >= 0,
        size > 0,
    ensures
        0 <= i * size < len,
{
}

proof fn lemma_chunk_step(len: int, size: int)
    by (nonlinear_arith)
    requires
        len > 0,
        size > 0,
    ensures
        len >= size ==> chunk_count(len, size) == 1 + chunk_count(len - size, size),
        len < size ==> chunk_count(len, size) == 1,
{
}

proof fn lemma_chunk_count(len: int, k: int, size: int)
    by (nonlinear_arith)
    requires
        size > 0,
        k >= 0,
        k * size < len <= k * size + size,
    ensures
        k + 1 == chunk_count(len, size),
{
}

proof fn lemma_chunk_count_zero(size: int)
    by (nonlinear_arith)
    requires
        size > 0,
    ensures
        chunk_count(0, size) == 0,
{
}

proof fn lemma_exact_chunks(len: int, size: int)
    by (nonlinear_arith)
    requires
        len >= 0,
        size > 0,
        len % size == 0,
    ensures
        chunk_count(len, size) == len / size,
{
}

} // verus!
