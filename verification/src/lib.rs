//! Storage layer of a quantized vector index.
//!
//! * [`pack`] turns bit-plane codes into the blocked layout that the scoring
//!   kernels read;
//! * [`refine`] keeps the original vectors, in full or reduced, so that a
//!   shortlist can be scored again;
//! * [`io`] writes and reads index files as byte strings, and [`messages`] says
//!   what is wrong with a file that cannot be read;
//! * [`wasm`] holds the decisions of the browser-facing index;
//! * [`par`] holds the row-parallel work.
//!
//! Floating-point values are held by their IEEE bit patterns: `u32` for single
//! and `u16` for half precision. What has to be computed in floating point is
//! handed in by the caller.
//!
//! The modules whose names end in `_laws` state what holds of several
//! operations together. [`bits`], [`le`], [`sums`] and [`text`] are about single
//! bits, little-endian integers, finite sums and decimal numbers.

pub mod bits;
pub mod io;
pub mod io_byte_laws;
pub mod io_laws;
pub mod le;
pub mod messages;
pub mod pack;
pub mod pack_count_laws;
pub mod pack_laws;
pub mod pack_place_laws;
pub mod par;
pub mod refine;
pub mod refine_laws;
pub mod refine_value_laws;
pub mod sums;
pub mod text;
pub mod text_laws;
pub mod wasm;
pub mod wasm_laws;

use vstd::prelude::*;

verus! {

/// Number of vectors that share one block of the blocked layout.
pub const BLOCK: usize = 32;

} // verus!
