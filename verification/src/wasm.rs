//! The decisions of the browser-facing index.
//!
//! The engine that encodes and scores lives with the caller. Here stand the
//! checks on what is handed to it, the choice of the search to run, the shape
//! of the results and the size figures. Single-precision values are held by
//! their bit patterns.

use crate::refine::{magnitude, RefineMode};
use crate::text::{debug_quoted, decimal, push_decimal, quote_for_debug};
use vstd::prelude::*;
use vstd::string::*;

verus! {

/// Why a call is refused.
#[derive(Debug)]
pub enum WasmError {
    /// No refine mode has this name.
    UnknownRefineMode(String),
    /// No index has this dimension and this bit width.
    IndexShape { dim: usize, bit_width: usize },
    /// The input is not made of whole vectors.
    InputLength { len: usize, dim: usize },
    /// The value at this position is no finite number below `1e16`.
    InputValue { position: usize },
    /// The query is not one vector.
    QueryLength { len: usize, dim: usize },
}

/// The search that the engine is to run.
#[derive(Clone, Copy, PartialEq, Eq, Debug, Structural)]
pub enum SearchAction {
    /// The `k` best by coarse score.
    Coarse { k: usize },
    /// The `k` best by stored vectors out of `k * rerank_factor` by coarse
    /// score.
    Rerank { k: usize, rerank_factor: usize },
}

/// Result of a search: slot indices and scores, aligned with each other.
#[derive(Debug)]
pub struct WasmSearchResults {
    indices: Vec<i32>,
    scores: Vec<u32>,
}

/// An index as the browser sees it.
#[derive(Debug)]
pub struct WasmIndex {
    dim: usize,
    bit_width: usize,
    refine: Option<RefineMode>,
    n: usize,
}

/// The contents of a [`WasmIndex`].
pub struct WasmIndexView {
    pub dim: nat,
    pub bit_width: nat,
    pub refine: Option<RefineMode>,
    pub n: nat,
}

impl View for WasmIndex {
    type V = WasmIndexView;

    closed spec fn view(&self) -> WasmIndexView {
        WasmIndexView {
            dim: self.dim as nat,
            bit_width: self.bit_width as nat,
            refine: self.refine,
            n: self.n as nat,
        }
    }
}

// ---------------------------------------------------------------------------
// Rules
// ---------------------------------------------------------------------------

/// The refine mode that a name stands for, `None` where it stands for none.
pub open spec fn mode_named(name: Seq<char>) -> Option<Option<RefineMode>> {
    if name == ""@ || name == "none"@ {
        Some(None)
    } else if name == "int8"@ {
        Some(Some(RefineMode::Int8))
    } else if name == "float16"@ || name == "fp16"@ || name == "half"@ {
        Some(Some(RefineMode::Float16))
    } else if name == "float32"@ || name == "f32"@ {
        Some(Some(RefineMode::Float32))
    } else {
        None
    }
}

/// An index can have this shape: the dimension is a positive multiple of 8 and
/// codes have 2, 3 or 4 bits.
pub open spec fn shape_allowed(dim: nat, bit_width: nat) -> bool {
    &&& dim > 0
    &&& dim % 8 == 0
    &&& 2 <= bit_width <= 4
}

/// The refine mode that an optional name stands for, `None` where it stands
/// for none.
pub open spec fn mode_requested(refine: Option<Seq<char>>) -> Option<Option<RefineMode>> {
    match refine {
        None => Some(None),
        Some(name) => mode_named(name),
    }
}

/// The single-precision pattern nearest to `1e16`.
pub const VALUE_LIMIT: u32 = 0x5a0e_1bca;

/// The pattern stands for no finite number below the limit in magnitude.
pub open spec fn out_of_range(x: u32) -> bool {
    magnitude(x) >= VALUE_LIMIT
}

/// Bytes of the packed codes of `n` vectors and of one scale for each.
pub open spec fn coarse_size(n: nat, dim: nat, bit_width: nat) -> nat {
    n * ((dim * bit_width + 7) / 8 + 4)
}

/// Bytes of the refine store of `n` vectors.
pub open spec fn refine_size(refine: Option<RefineMode>, n: nat, dim: nat) -> nat {
    match refine {
        Some(RefineMode::Int8) => n * (dim + 4),
        Some(RefineMode::Float16) => n * dim * 2,
        Some(RefineMode::Float32) => n * dim * 4,
        None => 0,
    }
}

/// Bytes of `n` vectors in single precision.
pub open spec fn raw_size(n: nat, dim: nat) -> nat {
    n * dim * 4
}

/// The batch can be added: it is made of whole vectors, and every value is in
/// range.
pub open spec fn batch_fits(index: WasmIndexView, flat: Seq<u32>) -> bool {
    &&& index.dim > 0
    &&& flat.len() % index.dim == 0
    &&& forall|i: int| 0 <= i < flat.len() ==> !out_of_range(#[trigger] flat[i])
}

/// The index once the batch was offered to it.
pub open spec fn index_after(index: WasmIndexView, flat: Seq<u32>) -> WasmIndexView {
    if batch_fits(index, flat) {
        WasmIndexView { n: index.n + flat.len() / index.dim, ..index }
    } else {
        index
    }
}

/// The error with which the batch is refused.
pub open spec fn batch_refused_for(index: WasmIndexView, flat: Seq<u32>, e: WasmError) -> bool {
    match e {
        WasmError::InputLength { len, dim } => {
            &&& index.dim == 0 || flat.len() % index.dim != 0
            &&& len == flat.len()
            &&& dim == index.dim
        },
        WasmError::InputValue { position } => {
            &&& index.dim > 0
            &&& flat.len() % index.dim == 0
            &&& position < flat.len()
            &&& out_of_range(flat[position as int])
            &&& forall|i: int| 0 <= i < position ==> !out_of_range(#[trigger] flat[i])
        },
        _ => false,
    }
}

/// The search that a query of `query_len` values leads to, or why there is
/// none.
pub open spec fn search_plan(
    index: WasmIndexView,
    query_len: nat,
    k: usize,
    rerank_factor: usize,
) -> Result<SearchAction, WasmError> {
    if query_len != index.dim {
        Err(WasmError::QueryLength { len: query_len as usize, dim: index.dim as usize })
    } else if rerank_factor > 1 && index.refine is Some {
        Ok(SearchAction::Rerank { k, rerank_factor })
    } else {
        Ok(SearchAction::Coarse { k })
    }
}

/// A slot index as it is handed out.
pub open spec fn slot_index(i: i64) -> i32 {
    i as i32
}

/// The text of an error.
pub open spec fn wasm_error_text(e: WasmError) -> Seq<char> {
    match e {
        WasmError::UnknownRefineMode(name) => unknown_mode_text(debug_quoted(name@)),
        WasmError::IndexShape { dim, bit_width } => "dim "@ + decimal(dim as nat)
            + " must be a positive multiple of 8 and bit_width "@ + decimal(bit_width as nat)
            + " must be 2, 3, or 4"@,
        WasmError::InputLength { len, dim } => "input length "@ + decimal(len as nat)
            + " is not a multiple of dim "@ + decimal(dim as nat),
        WasmError::InputValue { position } => "input value at position "@ + decimal(position as nat)
            + " is non-finite or out of range"@,
        WasmError::QueryLength { len, dim } => "query length "@ + decimal(len as nat) + " != dim "@
            + decimal(dim as nat),
    }
}

/// The text for a refine mode that is not known.
pub open spec fn unknown_mode_text(quoted: Seq<char>) -> Seq<char> {
    "unknown refine mode "@ + quoted + " (use none/int8/float16/float32)"@
}

/// The characters of an optional name.
pub open spec fn name_view(name: Option<String>) -> Option<Seq<char>> {
    match name {
        None => None,
        Some(s) => Some(s@),
    }
}

// ---------------------------------------------------------------------------
// Errors
// ---------------------------------------------------------------------------

/// The message for a refine mode that is not known, given its quoted name.
pub fn unknown_mode_message(quoted: &str) -> (s: String)
    ensures
        s@ == unknown_mode_text(quoted@),
{
    let mut s = "unknown refine mode ".to_owned();
    s.append(quoted);
    s.append(" (use none/int8/float16/float32)");
    s
}

impl WasmError {
    /// What the error says.
    pub fn message(&self) -> (s: String)
        ensures
            s@ == wasm_error_text(*self),
    {
        match self {
            WasmError::UnknownRefineMode(name) => {
                let quoted = quote_for_debug(name.as_str());
                unknown_mode_message(quoted.as_str())
            },
            WasmError::IndexShape { dim, bit_width } => {
                let mut s = "dim ".to_owned();
                push_decimal(&mut s, *dim as u64);
                s.append(" must be a positive multiple of 8 and bit_width ");
                push_decimal(&mut s, *bit_width as u64);
                s.append(" must be 2, 3, or 4");
                s
            },
            WasmError::InputLength { len, dim } => {
                let mut s = "input length ".to_owned();
                push_decimal(&mut s, *len as u64);
                s.append(" is not a multiple of dim ");
                push_decimal(&mut s, *dim as u64);
                s
            },
            WasmError::InputValue { position } => {
                let mut s = "input value at position ".to_owned();
                push_decimal(&mut s, *position as u64);
                s.append(" is non-finite or out of range");
                s
            },
            WasmError::QueryLength { len, dim } => {
                let mut s = "query length ".to_owned();
                push_decimal(&mut s, *len as u64);
                s.append(" != dim ");
                push_decimal(&mut s, *dim as u64);
                s
            },
        }
    }
}

// ---------------------------------------------------------------------------
// Results
// ---------------------------------------------------------------------------

impl WasmSearchResults {
    pub closed spec fn spec_indices(&self) -> Seq<i32> {
        self.indices@
    }

    pub closed spec fn spec_scores(&self) -> Seq<u32> {
        self.scores@
    }

    /// Takes over what the engine found; an index keeps its 32 low bits.
    pub fn new(indices: &[i64], scores: &[u32]) -> (r: Self)
        ensures
            r.spec_indices() == indices@.map_values(|i: i64| i as i32),
            r.spec_indices().len() == indices@.len(),
            forall|j: int|
                0 <= j < indices@.len() ==> #[trigger] r.spec_indices()[j] == slot_index(
                    indices@[j],
                ),
            r.spec_scores() == scores@,
    {
        let mut out: Vec<i32> = Vec::new();
        let mut k: usize = 0;
        while k < indices.len()
            invariant
                k <= indices.len(),
                out@ == indices@.take(k as int).map_values(|i: i64| i as i32),
            decreases indices.len() - k,
        {
            let i: i64 = indices[k];
            out.push(#[verifier::truncate] (i as i32));
            assert(out@ =~= indices@.take(k + 1).map_values(|i: i64| i as i32));
            k = k + 1;
        }
        assert(indices@.take(indices.len() as int) =~= indices@);
        WasmSearchResults { indices: out, scores: vstd::slice::slice_to_vec(scores) }
    }

    /// Slot indices, best first. `-1` fills slots for which there is no result.
    pub fn indices(&self) -> (r: Vec<i32>)
        ensures
            r@ == self.spec_indices(),
    {
        vstd::slice::slice_to_vec(self.indices.as_slice())
    }

    /// The scores of [`indices`](Self::indices), one for one.
    pub fn scores(&self) -> (r: Vec<u32>)
        ensures
            r@ == self.spec_scores(),
    {
        vstd::slice::slice_to_vec(self.scores.as_slice())
    }
}

// ---------------------------------------------------------------------------
// The index
// ---------------------------------------------------------------------------

fn parse_mode(name: &String) -> (r: Option<Option<RefineMode>>)
    ensures
        r == mode_named(name@),
{
    if *name == "".to_owned() || *name == "none".to_owned() {
        Some(None)
    } else if *name == "int8".to_owned() {
        Some(Some(RefineMode::Int8))
    } else if *name == "float16".to_owned() || *name == "fp16".to_owned() || *name
        == "half".to_owned() {
        Some(Some(RefineMode::Float16))
    } else if *name == "float32".to_owned() || *name == "f32".to_owned() {
        Some(Some(RefineMode::Float32))
    } else {
        None
    }
}

impl WasmIndex {
    /// Every index has an allowed shape.
    #[verifier::type_invariant]
    spec fn well_shaped(self) -> bool {
        shape_allowed(self.dim as nat, self.bit_width as nat)
    }

    /// An empty index of the given shape.
    ///
    /// * `dim` is the dimension of the vectors, a positive multiple of 8.
    /// * `bit_width` is 2, 3 or 4.
    /// * `refine` is `"int8"`, `"float16"` (also `"fp16"`, `"half"`) or
    ///   `"float32"` (also `"f32"`); nothing, `""` and `"none"` stand for no
    ///   refine store.
    ///
    /// The name is looked at before the shape.
    pub fn new(dim: usize, bit_width: usize, refine: Option<String>) -> (r: Result<
        WasmIndex,
        WasmError,
    >)
        ensures
            match r {
                Ok(index) => {
                    &&& shape_allowed(dim as nat, bit_width as nat)
                    &&& index@.dim == dim
                    &&& index@.bit_width == bit_width
                    &&& index@.n == 0
                    &&& mode_requested(name_view(refine)) == Some(index@.refine)
                },
                Err(WasmError::UnknownRefineMode(other)) => {
                    &&& mode_requested(name_view(refine)) is None
                    &&& name_view(refine) == Some(other@)
                },
                Err(e) => {
                    &&& mode_requested(name_view(refine)) is Some
                    &&& !shape_allowed(dim as nat, bit_width as nat)
                    &&& e == (WasmError::IndexShape { dim, bit_width })
                },
            },
    {
        let mode = match refine {
            None => None,
            Some(name) => match parse_mode(&name) {
                Some(mode) => mode,
                None => {
                    return Err(WasmError::UnknownRefineMode(name));
                },
            },
        };
        if dim == 0 || dim % 8 != 0 || bit_width < 2 || bit_width > 4 {
            return Err(WasmError::IndexShape { dim, bit_width });
        }
        Ok(WasmIndex { dim, bit_width, refine: mode, n: 0 })
    }

    /// The refine mode, if the index has a refine store.
    pub fn refine_mode(&self) -> (r: Option<RefineMode>)
        ensures
            r == self@.refine,
    {
        self.refine
    }

    /// Checks a batch of `flat.len() / dim` vectors, row by row, and counts
    /// them in if there is nothing wrong with it.
    pub fn add(&mut self, flat: &[u32]) -> (r: Result<(), WasmError>)
        requires
            old(self)@.dim > 0 ==> old(self)@.n + flat@.len() / old(self)@.dim <= usize::MAX,
        ensures
            r is Ok <==> batch_fits(old(self)@, flat@),
            final(self)@ == index_after(old(self)@, flat@),
            r matches Err(e) ==> batch_refused_for(old(self)@, flat@, e),
            r is Err ==> *final(self) == *old(self),
            final(self)@.dim == old(self)@.dim,
            final(self)@.bit_width == old(self)@.bit_width,
            final(self)@.refine == old(self)@.refine,
            match r {
                Ok(_) => {
                    &&& old(self)@.dim > 0
                    &&& flat@.len() % old(self)@.dim == 0
                    &&& forall|i: int| 0 <= i < flat.len() ==> !out_of_range(#[trigger] flat[i])
                    &&& final(self)@.n == old(self)@.n + flat@.len() / old(self)@.dim
                },
                Err(WasmError::InputLength { len, dim }) => {
                    &&& old(self)@.dim == 0 || flat@.len() % old(self)@.dim != 0
                    &&& len == flat.len()
                    &&& dim == old(self)@.dim
                },
                Err(WasmError::InputValue { position }) => {
                    &&& old(self)@.dim > 0
                    &&& flat@.len() % old(self)@.dim == 0
                    &&& position < flat.len()
                    &&& out_of_range(flat[position as int])
                    &&& forall|i: int| 0 <= i < position ==> !out_of_range(#[trigger] flat[i])
                },
                Err(_) => false,
            },
    {
        if self.dim == 0 || flat.len() % self.dim != 0 {
            return Err(WasmError::InputLength { len: flat.len(), dim: self.dim });
        }
        let mut i: usize = 0;
        while i < flat.len()
            invariant
                i <= flat.len(),
                *self == *old(self),
                self.dim > 0,
                flat.len() % self.dim == 0,
                forall|j: int| 0 <= j < i ==> !out_of_range(#[trigger] flat[j]),
            decreases flat.len() - i,
        {
            let x: u32 = flat[i];
            assert(x & 0x7fff_ffff == x % 0x8000_0000) by (bit_vector);
            if x & 0x7fff_ffff >= VALUE_LIMIT {
                return Err(WasmError::InputValue { position: i });
            }
            i = i + 1;
        }
        proof {
            use_type_invariant(&*self);
        }
        self.n = self.n + flat.len() / self.dim;
        Ok(())
    }

    /// Checks a query and picks the search to run: the cascade where there is
    /// a refine store and more than `k` candidates are asked for, the coarse
    /// search otherwise.
    pub fn search(&self, query: &[u32], k: usize, rerank_factor: usize) -> (r: Result<
        SearchAction,
        WasmError,
    >)
        ensures
            r == search_plan(self@, query@.len(), k, rerank_factor),
            match r {
                Ok(action) => {
                    &&& query.len() == self@.dim
                    &&& action == (if rerank_factor > 1 && self@.refine is Some {
                        SearchAction::Rerank { k, rerank_factor }
                    } else {
                        SearchAction::Coarse { k }
                    })
                },
                Err(e) => {
                    &&& query.len() != self@.dim
                    &&& e == (WasmError::QueryLength {
                        len: query@.len() as usize,
                        dim: self@.dim as usize,
                    })
                },
            },
    {
        if query.len() != self.dim {
            return Err(WasmError::QueryLength { len: query.len(), dim: self.dim });
        }
        if rerank_factor > 1 && self.refine.is_some() {
            Ok(SearchAction::Rerank { k, rerank_factor })
        } else {
            Ok(SearchAction::Coarse { k })
        }
    }

    /// Number of vectors in the index.
    pub fn len(&self) -> (n: usize)
        ensures
            n == self@.n,
    {
        self.n
    }

    /// The index holds no vector.
    pub fn is_empty(&self) -> (r: bool)
        ensures
            r == (self@.n == 0),
    {
        self.n == 0
    }

    /// Bytes of the packed codes and of one scale per vector.
    pub fn coarse_bytes(&self) -> (bytes: u128)
        requires
            self@.dim * self@.bit_width + 7 <= usize::MAX,
        ensures
            bytes == coarse_size(self@.n, self@.dim, self@.bit_width),
    {
        let row: usize = (self.dim * self.bit_width + 7) / 8;
        assert(0 <= self.n * (row + 4) <= 0xffff_ffff_ffff_ffff * (0x1fff_ffff_ffff_ffff + 4))
            by (nonlinear_arith)
            requires
                0 <= self.n <= 0xffff_ffff_ffff_ffff,
                0 <= row <= 0x1fff_ffff_ffff_ffff,
        ;
        self.n as u128 * (row as u128 + 4)
    }

    /// Bytes of the refine store.
    pub fn refine_bytes(&self) -> (bytes: u128)
        requires
            refine_size(self@.refine, self@.n, self@.dim) <= u128::MAX,
        ensures
            bytes == refine_size(self@.refine, self@.n, self@.dim),
    {
        let n: u128 = self.n as u128;
        let d: u128 = self.dim as u128;
        assert(0 <= n * d <= n * d * 2 <= n * d * 4) by (nonlinear_arith)
            requires
                n >= 0,
                d >= 0,
        ;
        match self.refine {
            Some(RefineMode::Int8) => n * (d + 4),
            Some(RefineMode::Float16) => n * d * 2,
            Some(RefineMode::Float32) => n * d * 4,
            None => 0,
        }
    }

    /// Bytes that the vectors would take in single precision.
    pub fn fp32_bytes(&self) -> (bytes: u128)
        requires
            raw_size(self@.n, self@.dim) <= u128::MAX,
        ensures
            bytes == raw_size(self@.n, self@.dim),
    {
        assert(0 <= self.n * self.dim <= self.n * self.dim * 4) by (nonlinear_arith);
        self.n as u128 * self.dim as u128 * 4
    }
}

} // verus!
