//! What the decisions and the size figures of an index mean.

use crate::io::{codes_len, refine_bytes};
use crate::refine::{RefineMode, RefineView};
use crate::text::{debug_quoted, decimal};
use crate::wasm::{
    batch_fits, batch_refused_for, coarse_size, index_after, mode_named, mode_requested, name_view, out_of_range,
    raw_size, refine_size, search_plan, shape_allowed, slot_index, wasm_error_text, SearchAction, WasmError,
    WasmIndexView,
};
use vstd::prelude::*;
use vstd::string::*;

verus! {

/// The coarse figure is what the codes and the scales take up in an index
/// file.
pub proof fn law_coarse_size_is_stored_size(n: nat, dim: nat, bit_width: nat)
    requires
        dim % 8 == 0,
    ensures
        coarse_size(n, dim, bit_width) == codes_len(bit_width as int, dim as int, n as int) + 4 * n,
{
    let g = dim / 8;
    let row = g * bit_width;
    assert(dim * bit_width == 8 * row) by (nonlinear_arith)
        requires
            dim == 8 * g,
            row == g * bit_width,
    ;
    assert(n * (row + 4) == row * n + 4 * n) by (nonlinear_arith);
}

/// The refine figure is what the arrays of the refine store take up in an
/// index file, where a mode byte precedes them.
pub proof fn law_refine_size_is_stored_size(r: RefineView, dim: nat)
    requires
        r.wf(dim as int),
    ensures
        refine_bytes(r).len() == 1 + refine_size(Some(r.mode), r.n, dim),
{
    let n = r.n;
    assert(n * (dim + 4) == n * dim + 4 * n) by (nonlinear_arith);
}

/// Full precision costs what the vectors themselves take up, half precision
/// half of it, and no mode costs more from dimension 2 on.
pub proof fn law_refine_size_against_raw(n: nat, dim: nat)
    ensures
        refine_size(Some(RefineMode::Float32), n, dim) == raw_size(n, dim),
        2 * refine_size(Some(RefineMode::Float16), n, dim) == raw_size(n, dim),
        dim >= 2 ==> refine_size(Some(RefineMode::Int8), n, dim) <= raw_size(n, dim),
{
    if dim >= 2 {
        assert(n * (dim + 4) <= n * dim * 4) by (nonlinear_arith)
            requires
                dim >= 2,
        ;
    }
}

/// The size figures in bytes: `n` rows of codes, rounded up to whole bytes, and
/// four bytes of scale for each; a byte for each value and four of scale, two
/// bytes for each value or four bytes for each value in the refine store.
pub proof fn law_size_figures(n: nat, dim: nat, bit_width: nat)
    ensures
        exists|row: nat|
            #![trigger n * (row + 4)]
            dim * bit_width <= 8 * row < dim * bit_width + 8 && coarse_size(n, dim, bit_width) == n
                * (row + 4),
        refine_size(None, n, dim) == 0,
        refine_size(Some(RefineMode::Int8), n, dim) == n * dim + 4 * n,
        refine_size(Some(RefineMode::Float16), n, dim) == 2 * (n * dim),
        refine_size(Some(RefineMode::Float32), n, dim) == 4 * (n * dim),
        raw_size(n, dim) == 4 * (n * dim),
{
    let row = (dim * bit_width + 7) / 8;
    assert(dim * bit_width >= 0) by (nonlinear_arith);
    assert(coarse_size(n, dim, bit_width) == n * (row + 4));
    assert(n * (dim + 4) == n * dim + 4 * n) by (nonlinear_arith);
}

/// An index has a dimension of 8, 16, 24 and so on, and codes of 2, 3 or 4
/// bits, and every such shape is allowed.
pub proof fn law_allowed_shapes(dim: nat, bit_width: nat)
    ensures
        shape_allowed(dim, bit_width) <==> dim >= 8 && dim == dim / 8 * 8 && (bit_width == 2
            || bit_width == 3 || bit_width == 4),
{
}

/// The names of the refine modes: no other name stands for one, and nothing
/// at all stands for no refine store.
pub proof fn law_mode_names(name: Seq<char>)
    ensures
        mode_named(name) == Some(None::<RefineMode>) <==> name == ""@ || name == "none"@,
        mode_named(name) == Some(Some(RefineMode::Int8)) <==> name == "int8"@,
        mode_named(name) == Some(Some(RefineMode::Float16)) <==> name == "float16"@ || name
            == "fp16"@ || name == "half"@,
        mode_named(name) == Some(Some(RefineMode::Float32)) <==> name == "float32"@ || name
            == "f32"@,
        mode_named(name) is None <==> name != ""@ && name != "none"@ && name != "int8"@ && name
            != "float16"@ && name != "fp16"@ && name != "half"@ && name != "float32"@ && name
            != "f32"@,
        mode_requested(Some(name)) == mode_named(name),
        mode_requested(None) == Some(None::<RefineMode>),
{
    reveal_strlit("");
    reveal_strlit("none");
    reveal_strlit("int8");
    reveal_strlit("float16");
    reveal_strlit("fp16");
    reveal_strlit("half");
    reveal_strlit("float32");
    reveal_strlit("f32");
    assert(""@.len() == 0 && "none"@.len() == 4 && "int8"@.len() == 4 && "fp16"@.len() == 4
        && "half"@.len() == 4 && "float16"@.len() == 7 && "float32"@.len() == 7 && "f32"@.len()
        == 3);
    assert("none"@[0] == 'n' && "int8"@[0] == 'i' && "fp16"@[0] == 'f' && "half"@[0] == 'h');
    assert("float16"@[5] == '1' && "float32"@[5] == '3');
    assert("none"@ != "int8"@ && "none"@ != "fp16"@ && "none"@ != "half"@ && "int8"@ != "fp16"@
        && "int8"@ != "half"@ && "float16"@ != "float32"@);
}

/// The characters of an optional name are those of the name.
pub proof fn law_name_contents(name: Option<String>)
    ensures
        name is Some ==> name_view(name) == Some(name->0@),
        name is None ==> name_view(name) is None,
{
}

/// A value is out of range exactly when its pattern, with the sign bit
/// cleared, is at least that of `1e16`. So the sign does not matter, no value
/// of a smaller magnitude than one in range is out of range, and neither
/// infinity nor a pattern that stands for no number is in range.
pub proof fn law_value_range(x: u32, y: u32)
    ensures
        out_of_range(x) <==> x & 0x7fff_ffff >= 0x5a0e_1bca,
        out_of_range(x) == out_of_range(x ^ 0x8000_0000),
        !out_of_range(x) && y & 0x7fff_ffff <= x & 0x7fff_ffff ==> !out_of_range(y),
        x & 0x7f80_0000 == 0x7f80_0000 ==> out_of_range(x),
{
    assert(x & 0x7fff_ffff == x % 0x8000_0000) by (bit_vector);
    assert(y & 0x7fff_ffff == y % 0x8000_0000) by (bit_vector);
    assert((x ^ 0x8000_0000) % 0x8000_0000 == x % 0x8000_0000) by (bit_vector);
    assert(x & 0x7f80_0000 == 0x7f80_0000 ==> x % 0x8000_0000 >= 0x7f80_0000) by (bit_vector);
}

/// A batch of whole vectors is added if and only if every pattern, with its
/// sign bit cleared, is below that of `1e16`. If it is, the index has that many
/// vectors more; if not, it stays as it is.
pub proof fn law_added_batches(index: WasmIndexView, flat: Seq<u32>, m: nat)
    requires
        index.dim > 0,
        flat.len() == m * index.dim,
    ensures
        batch_fits(index, flat) <==> (forall|i: int|
            0 <= i < flat.len() ==> #[trigger] flat[i] & 0x7fff_ffff < 0x5a0e_1bca),
        batch_fits(index, flat) ==> index_after(index, flat).n == index.n + m,
        !batch_fits(index, flat) ==> index_after(index, flat).n == index.n,
        index_after(index, flat).dim == index.dim,
        index_after(index, flat).bit_width == index.bit_width,
        index_after(index, flat).refine == index.refine,
{
    let dim = index.dim;
    assert((m * dim) % dim == 0 && (m * dim) / dim == m) by (nonlinear_arith)
        requires
            dim > 0,
    ;
    assert forall|x: u32| #[trigger] out_of_range(x) <==> x & 0x7fff_ffff >= 0x5a0e_1bca by {
        law_value_range(x, x);
    }
    if batch_fits(index, flat) {
        assert forall|i: int| 0 <= i < flat.len() implies #[trigger] flat[i] & 0x7fff_ffff
            < 0x5a0e_1bca by {
            assert(!out_of_range(flat[i]));
        }
    }
}

/// A batch that is not made of whole vectors is not added.
pub proof fn law_partial_batches(index: WasmIndexView, flat: Seq<u32>, m: nat, rest: nat)
    requires
        0 < rest < index.dim,
        flat.len() == m * index.dim + rest,
    ensures
        !batch_fits(index, flat),
        index_after(index, flat) == index,
{
    let dim = index.dim;
    assert((m * dim + rest) % dim == rest) by (nonlinear_arith)
        requires
            0 < rest < dim,
    ;
}

/// A batch that is refused is refused for its length if it is not made of whole
/// vectors, and otherwise for the first value whose pattern, with its sign bit
/// cleared, is not below that of `1e16`.
pub proof fn law_refused_batches(index: WasmIndexView, flat: Seq<u32>, e: WasmError)
    requires
        index.dim > 0,
        batch_refused_for(index, flat, e),
    ensures
        !batch_fits(index, flat),
        match e {
            WasmError::InputLength { len, dim } => {
                &&& flat.len() % index.dim != 0
                &&& len == flat.len()
                &&& dim == index.dim
            },
            WasmError::InputValue { position } => {
                &&& flat.len() % index.dim == 0
                &&& position < flat.len()
                &&& flat[position as int] & 0x7fff_ffff >= 0x5a0e_1bca
                &&& forall|i: int|
                    0 <= i < position ==> #[trigger] flat[i] & 0x7fff_ffff < 0x5a0e_1bca
            },
            _ => false,
        },
{
    if let WasmError::InputValue { position } = e {
        law_value_range(flat[position as int], 0);
        assert forall|i: int| 0 <= i < position implies #[trigger] flat[i] & 0x7fff_ffff
            < 0x5a0e_1bca by {
            law_value_range(flat[i], 0);
        }
    }
}

/// A query is searched for if and only if it has the dimension of the index.
/// The cascade is run if and only if more candidates than `k` are asked for
/// and there is a refine store, and either search is for `k` results.
pub proof fn law_search_choice(
    index: WasmIndexView,
    query_len: usize,
    k: usize,
    rerank_factor: usize,
)
    requires
        index.dim <= usize::MAX,
    ensures
        match search_plan(index, query_len as nat, k, rerank_factor) {
            Ok(SearchAction::Rerank { k: found, rerank_factor: factor }) => {
                &&& query_len == index.dim
                &&& rerank_factor >= 2
                &&& index.refine is Some
                &&& found == k
                &&& factor == rerank_factor
            },
            Ok(SearchAction::Coarse { k: found }) => {
                &&& query_len == index.dim
                &&& rerank_factor < 2 || index.refine is None
                &&& found == k
            },
            Err(WasmError::QueryLength { len, dim }) => {
                &&& query_len != index.dim
                &&& len == query_len
                &&& dim == index.dim
            },
            Err(_) => false,
        },
{
}

/// A slot index that fits in 32 bits is handed out as it is, -1 included, and
/// any other differs from what is handed out by a multiple of `2^32`.
pub proof fn law_slot_indices(i: i64)
    ensures
        -0x8000_0000 <= i <= 0x7fff_ffff ==> slot_index(i) == i,
        (i - slot_index(i)) % 0x1_0000_0000 == 0,
{
    let s = i as i32;
    assert(-0x8000_0000 <= i <= 0x7fff_ffff ==> s == i) by (bit_vector)
        requires
            s == i as i32,
    ;
    assert((i - s) % 0x1_0000_0000 == 0) by (bit_vector)
        requires
            s == i as i32,
    ;
}

/// What the errors of the index say.
pub proof fn law_index_error_texts(name: String, a: usize, b: usize)
    ensures
        wasm_error_text(WasmError::UnknownRefineMode(name)) == "unknown refine mode "@
            + debug_quoted(name@) + " (use none/int8/float16/float32)"@,
        wasm_error_text(WasmError::IndexShape { dim: a, bit_width: b }) == "dim "@ + decimal(
            a as nat,
        ) + " must be a positive multiple of 8 and bit_width "@ + decimal(b as nat)
            + " must be 2, 3, or 4"@,
        wasm_error_text(WasmError::InputLength { len: a, dim: b }) == "input length "@ + decimal(
            a as nat,
        ) + " is not a multiple of dim "@ + decimal(b as nat),
        wasm_error_text(WasmError::InputValue { position: a }) == "input value at position "@
            + decimal(a as nat) + " is non-finite or out of range"@,
        wasm_error_text(WasmError::QueryLength { len: a, dim: b }) == "query length "@ + decimal(
            a as nat,
        ) + " != dim "@ + decimal(b as nat),
{
}

} // verus!
