//! Repacking of bit-plane codes into the blocked layout.
//!
//! A vector of `dim` codes of `bits` bits each is stored as `bits` planes of
//! `dim / 8` bytes: bit `7 - j % 8` of byte `j / 8` of plane `p` is bit `p` of
//! code `j`. The blocked layout groups the vectors by [`BLOCK`] and
//! stores, block by block and byte group by byte group, one byte for each of
//! the block's vectors.

use crate::bits::{
    bit, byte_of, lemma_is_byte_of, lemma_mask_tests_bit, lemma_one_shl_bits, lemma_or_bits,
    lemma_shl_bits, lemma_zero_bits,
};
use crate::BLOCK;
use vstd::arithmetic::div_mod::{
    lemma_div_is_ordered, lemma_fundamental_div_mod, lemma_fundamental_div_mod_converse,
};
use vstd::arithmetic::mul::{
    lemma_mul_is_associative, lemma_mul_is_commutative, lemma_mul_is_distributive_add,
};
use vstd::prelude::*;

verus! {

/// How the bytes of the vectors of one block are arranged within a byte group.
#[derive(Clone, Copy, PartialEq, Eq, Debug, Structural)]
pub enum Layout {
    /// Nibble-split and interleaved, as the x86-64 kernels read it: sixteen
    /// bytes of high nibbles, then sixteen bytes of low nibbles, where byte
    /// `j` of either half joins the vectors `interleave(j)` and
    /// `interleave(j) + 16` of the block.
    Interleaved,
    /// One whole byte for each vector, in order, as the NEON kernels read it.
    Sequential,
}

// ---------------------------------------------------------------------------
// What the layouts are
// ---------------------------------------------------------------------------

/// Codes that share one byte of the blocked layout.
pub open spec fn codes_per_byte(bits: int) -> int {
    8int / bits
}

/// Bits that one code takes up in a byte of the blocked layout: a 3-bit code
/// takes a whole nibble.
pub open spec fn code_width(bits: int) -> int {
    if bits == 3 {
        4
    } else {
        bits
    }
}

/// Bytes of one bit-plane row.
pub open spec fn row_bytes(bits: int, dim: int) -> int {
    bits * (dim / 8)
}

/// The bit-plane row of vector `v`.
pub open spec fn row_of(codes: Seq<u8>, bits: int, dim: int, v: int) -> Seq<u8> {
    codes.subrange(
        v * row_bytes(bits, dim),
        v * row_bytes(bits, dim) + row_bytes(bits, dim),
    )
}

/// The rows of the vectors of the blocks `first_block..`.
pub open spec fn range_codes(
    codes: Seq<u8>,
    n: int,
    bits: int,
    dim: int,
    first_block: int,
) -> Seq<u8> {
    if first_block * BLOCK < n {
        codes.subrange(first_block * BLOCK * row_bytes(bits, dim), n * row_bytes(bits, dim))
    } else {
        Seq::empty()
    }
}

/// Plane `p` of the bit-plane row of vector `v`.
pub open spec fn plane_of(codes: Seq<u8>, bits: int, dim: int, v: int, p: int) -> Seq<u8> {
    codes.subrange(
        v * row_bytes(bits, dim) + p * (dim / 8),
        v * row_bytes(bits, dim) + p * (dim / 8) + dim / 8,
    )
}

/// Byte groups of one vector in the blocked layout.
pub open spec fn byte_groups(bits: int, dim: int) -> int {
    dim / codes_per_byte(bits)
}

/// Blocks that `n` vectors fill.
pub open spec fn block_count(n: int) -> int {
    (n + BLOCK - 1) / BLOCK as int
}

/// Bytes of one block in the blocked layout.
pub open spec fn block_bytes(bits: int, dim: int) -> int {
    byte_groups(bits, dim) * BLOCK
}

/// Bit `p` of code `j` of the row that starts at `row` and has planes of
/// `plane` bytes.
pub open spec fn plane_bit(codes: Seq<u8>, row: int, plane: int, p: int, j: int) -> bool {
    bit(codes[row + p * plane + j / 8], 7 - j % 8)
}

/// Byte group `g` of the row that starts at `row`: `per_byte` consecutive
/// codes, the first one in the most significant place, each of `planes` bits
/// in a field `width` bits wide.
pub open spec fn group_byte(
    codes: Seq<u8>,
    row: int,
    plane: int,
    planes: int,
    width: int,
    per_byte: int,
    g: int,
) -> u8 {
    byte_of(
        |k: int|
            k / width < per_byte && k % width < planes && plane_bit(
                codes,
                row,
                plane,
                k % width,
                g * per_byte + (per_byte - 1 - k / width),
            ),
    )
}

/// Byte group `g` of vector `v`; zero for the lanes past the last vector.
pub open spec fn vector_byte(
    codes: Seq<u8>,
    n: int,
    bits: int,
    dim: int,
    v: int,
    g: int,
) -> u8 {
    if v < n {
        group_byte(
            codes,
            v * row_bytes(bits, dim),
            dim / 8,
            bits,
            code_width(bits),
            codes_per_byte(bits),
            g,
        )
    } else {
        0
    }
}

/// The vector of a block whose nibbles stand in the low half of byte `j`:
/// 0, 8, 1, 9, 2, 10 and so on.
pub open spec fn interleave(j: int) -> int {
    if j % 2 == 0 {
        j / 2
    } else {
        8 + j / 2
    }
}

/// The byte with the nibbles `low` and `high`.
pub open spec fn join_nibbles(low: u8, high: u8) -> u8 {
    (low + 16 * high) as u8
}

/// Byte `lane` of byte group `g` of block `block`, where `row(v, g)` is byte
/// group `g` of vector `v`.
pub open spec fn arrange(
    layout: Layout,
    row: spec_fn(int, int) -> u8,
    block: int,
    g: int,
    lane: int,
) -> u8 {
    match layout {
        Layout::Sequential => row(block * BLOCK + lane, g),
        Layout::Interleaved => {
            let a = row(block * BLOCK + interleave(lane % 16), g);
            let b = row(block * BLOCK + interleave(lane % 16) + 16, g);
            if lane < 16 {
                join_nibbles(a / 16, b / 16)
            } else {
                join_nibbles(a % 16, b % 16)
            }
        },
    }
}

/// Byte `lane` of byte group `g` of block `block` of the packed codes.
pub open spec fn blocked_at(
    layout: Layout,
    codes: Seq<u8>,
    n: int,
    bits: int,
    dim: int,
    block: int,
    g: int,
    lane: int,
) -> u8 {
    arrange(layout, |v: int, h: int| vector_byte(codes, n, bits, dim, v, h), block, g, lane)
}

/// The blocked bytes of the blocks `first_block..block_count(n)`.
pub open spec fn blocked(
    layout: Layout,
    codes: Seq<u8>,
    n: int,
    bits: int,
    dim: int,
    first_block: int,
) -> Seq<u8> {
    Seq::new(
        if first_block * BLOCK < n {
            ((block_count(n) - first_block) * block_bytes(bits, dim)) as nat
        } else {
            0
        },
        |i: int|
            blocked_at(
                layout,
                codes,
                n,
                bits,
                dim,
                first_block + i / BLOCK as int / byte_groups(bits, dim),
                i / BLOCK as int % byte_groups(bits, dim),
                i % BLOCK as int,
            ),
    )
}

/// The `len` bytes of codes hold every byte that packing `n` vectors reads.
pub open spec fn codes_in_range(len: int, n: int, bits: int, dim: int) -> bool {
    n > 0 && byte_groups(bits, dim) > 0 ==> (n - 1) * row_bytes(bits, dim) + (bits - 1) * (dim / 8)
        + (byte_groups(bits, dim) * codes_per_byte(bits) - 1) / 8 < len
}

/// What [`repack_range_as`] asks of its arguments.
pub open spec fn repack_ready(len: int, n: int, bits: int, dim: int, first_block: int) -> bool {
    &&& 1 <= bits <= 8
    &&& n + BLOCK <= usize::MAX
    &&& first_block * BLOCK <= usize::MAX
    &&& first_block * BLOCK < n ==> {
        &&& codes_in_range(len, n, bits, dim)
        &&& (block_count(n) - first_block) * block_bytes(bits, dim) <= isize::MAX
    }
}

// ---------------------------------------------------------------------------
// Gathering the codes of one byte group
// ---------------------------------------------------------------------------

/// Gathers byte group `g` of the row that starts at `row`.
fn gather_group(
    packed_codes: &[u8],
    row: usize,
    plane: usize,
    planes: usize,
    width: usize,
    per_byte: usize,
    g: usize,
) -> (byte_val: u8)
    requires
        1 <= planes <= width,
        1 <= per_byte,
        per_byte * width <= 8,
        row + (planes - 1) * plane + (g * per_byte + per_byte - 1) / 8 < packed_codes.len(),
        g * per_byte + per_byte <= usize::MAX,
    ensures
        byte_val == group_byte(
            packed_codes@,
            row as int,
            plane as int,
            planes as int,
            width as int,
            per_byte as int,
            g as int,
        ),
{
    assert(width <= 8 && per_byte <= 8) by (nonlinear_arith)
        requires
            1 <= width,
            1 <= per_byte,
            per_byte * width <= 8,
    ;
    let ghost f = |k: int|
        k / (width as int) < per_byte && k % (width as int) < planes && plane_bit(
            packed_codes@,
            row as int,
            plane as int,
            k % (width as int),
            g * per_byte + (per_byte - 1 - k / (width as int)),
        );
    let dim_start: usize = g * per_byte;
    let mut byte_val: u8 = 0;
    let mut c: usize = 0;
    proof {
        lemma_zero_bits();
        assert forall|k: int| 0 <= k < 8 implies #[trigger] bit(byte_val, k) == (per_byte - c <= k
            / (width as int) && f(k)) by {}
    }
    while c < per_byte
        invariant
            c <= per_byte,
            1 <= planes <= width <= 8,
            1 <= per_byte <= 8,
            per_byte * width <= 8,
            row + (planes - 1) * plane + (g * per_byte + per_byte - 1) / 8 < packed_codes.len(),
            g * per_byte + per_byte <= usize::MAX,
            dim_start == g * per_byte,
            f == (|k: int|
                k / (width as int) < per_byte && k % (width as int) < planes && plane_bit(
                    packed_codes@,
                    row as int,
                    plane as int,
                    k % (width as int),
                    g * per_byte + (per_byte - 1 - k / (width as int)),
                )),
            forall|k: int|
                0 <= k < 8 ==> #[trigger] bit(byte_val, k) == (per_byte - c <= k / (width as int)
                    && f(k)),
        decreases per_byte - c,
    {
        let j: usize = dim_start + c;
        let byte_in_plane: usize = j / 8;
        let bit_in_byte: usize = 7 - (j % 8);
        let mask: u8 = 1u8 << (bit_in_byte as u8);
        let mut code: u8 = 0;
        let mut p: usize = 0;
        proof {
            lemma_zero_bits();
        }
        while p < planes
            invariant
                p <= planes,
                1 <= planes <= 8,
                row + (planes - 1) * plane + (g * per_byte + per_byte - 1) / 8
                    < packed_codes.len(),
                dim_start == g * per_byte,
                c < per_byte,
                j == dim_start + c,
                byte_in_plane == j / 8,
                bit_in_byte == 7 - (j % 8),
                mask == 1u8 << (bit_in_byte as u8),
                forall|k: int|
                    0 <= k < 8 ==> #[trigger] bit(code, k) == (k < p && plane_bit(
                        packed_codes@,
                        row as int,
                        plane as int,
                        k,
                        j as int,
                    )),
            decreases planes - p,
        {
            assert(0 <= p * plane <= (planes - 1) * plane) by (nonlinear_arith)
                requires
                    0 <= p <= planes - 1,
                    0 <= plane,
            ;
            let plane_byte: u8 = packed_codes[row + p * plane + byte_in_plane];
            proof {
                lemma_mask_tests_bit(plane_byte, bit_in_byte as u8);
                lemma_one_shl_bits(p as u8);
                lemma_or_bits(code, 1u8 << (p as u8));
            }
            if plane_byte & mask != 0 {
                code = code | (1u8 << (p as u8));
            }
            p = p + 1;
        }
        assert((per_byte - 1 - c) * width <= 7 && (per_byte - 1 - c) * width >= 0)
            by (nonlinear_arith)
            requires
                0 <= c < per_byte,
                per_byte * width <= 8,
                1 <= width,
        ;
        let shift: usize = (per_byte - 1 - c) * width;
        proof {
            lemma_shl_bits(code, shift as u8);
            lemma_or_bits(byte_val, code << (shift as u8));
            let lane = per_byte - 1 - c;
            assert forall|k: int| 0 <= k < 8 implies #[trigger] bit(
                byte_val | (code << (shift as u8)),
                k,
            ) == (per_byte - (c + 1) <= k / (width as int) && f(k)) by {
                lemma_fundamental_div_mod(k, width as int);
                let q = k / (width as int);
                let r = k % (width as int);
                assert(k == width * q + r);
                assert(bit(byte_val, k) == (per_byte - c <= q && f(k)));
                if q == lane {
                    assert(width * q == shift) by (nonlinear_arith)
                        requires
                            q == lane,
                            shift == lane * width,
                    ;
                    assert(k - shift == r);
                    assert(bit(code, r) == (r < planes && plane_bit(
                        packed_codes@,
                        row as int,
                        plane as int,
                        r,
                        j as int,
                    )));
                    assert(j == g * per_byte + (per_byte - 1 - q));
                } else if q < lane {
                    assert(width * q + width <= shift) by (nonlinear_arith)
                        requires
                            q + 1 <= lane,
                            shift == lane * width,
                            width >= 1,
                    ;
                    assert(k < shift);
                } else {
                    assert(width * q >= shift + width) by (nonlinear_arith)
                        requires
                            q >= lane + 1,
                            shift == lane * width,
                            width >= 1,
                    ;
                    assert(k - shift >= width);
                    assert(!bit(code, k - shift));
                }
            }
        }
        byte_val = byte_val | (code << (shift as u8));
        c = c + 1;
    }
    proof {
        assert forall|k: int| 0 <= k < 8 implies #[trigger] bit(byte_val, k) == f(k) by {
            assert(k / (width as int) >= 0) by (nonlinear_arith)
                requires
                    k >= 0,
                    width >= 1,
            ;
        }
        lemma_is_byte_of(byte_val, f);
    }
    byte_val
}

// ---------------------------------------------------------------------------
// Arranging gathered rows in blocks
// ---------------------------------------------------------------------------

/// Byte group `g` of gathered row `v`; zero past the first `n` rows.
spec fn flat_byte(flat: Seq<Vec<u8>>, n: int, v: int, g: int) -> u8 {
    if v < n {
        flat[v]@[g]
    } else {
        0
    }
}

/// Byte `i` of the blocked form of the first `n` gathered rows.
spec fn flat_blocked(layout: Layout, flat: Seq<Vec<u8>>, n: int, groups: int, i: int) -> u8 {
    arrange(
        layout,
        |v: int, h: int| flat_byte(flat, n, v, h),
        i / BLOCK as int / groups,
        i / BLOCK as int % groups,
        i % BLOCK as int,
    )
}

/// Position `(block * groups + g) * BLOCK + lane` belongs to `block`, `g` and `lane`.
pub proof fn lemma_position(groups: int, block: int, g: int, lane: int)
    requires
        0 <= block,
        0 <= g < groups,
        0 <= lane < BLOCK,
    ensures
        ((block * groups + g) * BLOCK + lane) / BLOCK as int / groups == block,
        ((block * groups + g) * BLOCK + lane) / BLOCK as int % groups == g,
        ((block * groups + g) * BLOCK + lane) % BLOCK as int == lane,
{
    let slot = block * groups + g;
    lemma_fundamental_div_mod_converse(slot * BLOCK + lane, BLOCK as int, slot, lane);
    lemma_fundamental_div_mod_converse(slot, groups, block, g);
}

/// A slot of a block below `blocks` is below `blocks * groups`.
pub proof fn lemma_slot_bound(groups: int, blocks: int, block: int, g: int)
    by (nonlinear_arith)
    requires
        0 <= block < blocks,
        0 <= g < groups,
    ensures
        block * groups + g + 1 <= blocks * groups,
{
}

/// Joins the nibbles of two bytes of one lane.
fn interleaved_byte(ba: u8, bb: u8, high: bool) -> (r: u8)
    ensures
        high ==> r == join_nibbles(ba / 16, bb / 16),
        !high ==> r == join_nibbles(ba % 16, bb % 16),
{
    assert((ba >> 4u8) | ((bb >> 4u8) << 4u8) == (ba / 16) + 16 * (bb / 16)) by (bit_vector);
    assert((ba & 0x0F) | ((bb & 0x0F) << 4u8) == (ba % 16) + 16 * (bb % 16)) by (bit_vector);
    if high {
        (ba >> 4u8) | ((bb >> 4u8) << 4u8)
    } else {
        (ba & 0x0F) | ((bb & 0x0F) << 4u8)
    }
}

/// Packs the first `range_n` gathered rows into `range_blocks` blocks of the
/// given layout. Lanes past those rows are zero, and of each row the first
/// `n_byte_groups` bytes are taken.
fn pack_blocked_range(
    layout: Layout,
    range_n: usize,
    range_blocks: usize,
    n_byte_groups: usize,
    codes_flat: &Vec<Vec<u8>>,
) -> (blocked: Vec<u8>)
    requires
        range_n <= codes_flat.len(),
        forall|v: int| 0 <= v < range_n ==> (#[trigger] codes_flat[v]).len() >= n_byte_groups,
        range_blocks * BLOCK <= usize::MAX,
    ensures
        blocked.len() == range_blocks * n_byte_groups * BLOCK,
        forall|i: int|
            0 <= i < blocked.len() ==> #[trigger] blocked[i] == flat_blocked(
                layout,
                codes_flat@,
                range_n as int,
                n_byte_groups as int,
                i,
            ),
{
    let mut blocked: Vec<u8> = Vec::new();
    let mut rel_block: usize = 0;
    while rel_block < range_blocks
        invariant
            rel_block <= range_blocks,
            range_n <= codes_flat.len(),
            forall|v: int| 0 <= v < range_n ==> (#[trigger] codes_flat[v]).len() >= n_byte_groups,
            range_blocks * BLOCK <= usize::MAX,
            blocked.len() == rel_block * n_byte_groups * BLOCK,
            forall|i: int|
                0 <= i < blocked.len() ==> #[trigger] blocked[i] == flat_blocked(
                    layout,
                    codes_flat@,
                    range_n as int,
                    n_byte_groups as int,
                    i,
                ),
        decreases range_blocks - rel_block,
    {
        let base_vec: usize = rel_block * BLOCK;
        let mut g: usize = 0;
        while g < n_byte_groups
            invariant
                g <= n_byte_groups,
                rel_block < range_blocks,
                base_vec == rel_block * BLOCK,
                range_n <= codes_flat.len(),
                range_blocks * BLOCK <= usize::MAX,
                forall|v: int|
                    0 <= v < range_n ==> (#[trigger] codes_flat[v]).len() >= n_byte_groups,
                blocked.len() == (rel_block * n_byte_groups + g) * BLOCK,
                forall|i: int|
                    0 <= i < blocked.len() ==> #[trigger] blocked[i] == flat_blocked(
                        layout,
                        codes_flat@,
                        range_n as int,
                        n_byte_groups as int,
                        i,
                    ),
            decreases n_byte_groups - g,
        {
            let mut lane: usize = 0;
            while lane < BLOCK
                invariant
                    lane <= BLOCK,
                    g < n_byte_groups,
                    rel_block < range_blocks,
                    base_vec == rel_block * BLOCK,
                    range_n <= codes_flat.len(),
                    range_blocks * BLOCK <= usize::MAX,
                    forall|v: int|
                        0 <= v < range_n ==> (#[trigger] codes_flat[v]).len() >= n_byte_groups,
                    blocked.len() == (rel_block * n_byte_groups + g) * BLOCK + lane,
                    forall|i: int|
                        0 <= i < blocked.len() ==> #[trigger] blocked[i] == flat_blocked(
                            layout,
                            codes_flat@,
                            range_n as int,
                            n_byte_groups as int,
                            i,
                        ),
                decreases BLOCK - lane,
            {
                proof {
                    lemma_position(n_byte_groups as int, rel_block as int, g as int, lane as int);
                }
                let byte_val: u8 = match layout {
                    Layout::Sequential => {
                        let v: usize = base_vec + lane;
                        if v < range_n {
                            codes_flat[v][g]
                        } else {
                            0
                        }
                    },
                    Layout::Interleaved => {
                        let j: usize = lane % 16;
                        let va: usize = base_vec + (if j % 2 == 0 {
                            j / 2
                        } else {
                            8 + j / 2
                        });
                        let vb: usize = va + 16;
                        let ba: u8 = if va < range_n {
                            codes_flat[va][g]
                        } else {
                            0
                        };
                        let bb: u8 = if vb < range_n {
                            codes_flat[vb][g]
                        } else {
                            0
                        };
                        interleaved_byte(ba, bb, lane < 16)
                    },
                };
                blocked.push(byte_val);
                lane = lane + 1;
            }
            g = g + 1;
        }
        assert(rel_block * n_byte_groups + n_byte_groups == (rel_block + 1) * n_byte_groups)
            by (nonlinear_arith);
        rel_block = rel_block + 1;
    }
    blocked
}

// ---------------------------------------------------------------------------
// Repacking
// ---------------------------------------------------------------------------

/// Whatever `bits` is, the codes of one byte fit in it, field by field.
pub proof fn lemma_field_fits(bits: int)
    requires
        1 <= bits <= 8,
    ensures
        1 <= codes_per_byte(bits) <= 8,
        bits <= code_width(bits) <= 8,
        codes_per_byte(bits) * code_width(bits) <= 8,
{
    let per_byte = codes_per_byte(bits);
    let width = code_width(bits);
    if bits == 1 {
        lemma_fundamental_div_mod_converse(8, bits, 8, 0);
        assert(per_byte * width == 8) by (nonlinear_arith)
            requires
                per_byte == 8,
                width == 1,
        ;
    } else if bits == 2 {
        lemma_fundamental_div_mod_converse(8, bits, 4, 0);
        assert(per_byte * width == 8) by (nonlinear_arith)
            requires
                per_byte == 4,
                width == 2,
        ;
    } else if bits == 3 {
        lemma_fundamental_div_mod_converse(8, bits, 2, 2);
        assert(per_byte * width == 8) by (nonlinear_arith)
            requires
                per_byte == 2,
                width == 4,
        ;
    } else if bits == 4 {
        lemma_fundamental_div_mod_converse(8, bits, 2, 0);
        assert(per_byte * width == 8) by (nonlinear_arith)
            requires
                per_byte == 2,
                width == 4,
        ;
    } else if bits == 5 {
        lemma_fundamental_div_mod_converse(8, bits, 1, 3);
        assert(per_byte * width == 5) by (nonlinear_arith)
            requires
                per_byte == 1,
                width == 5,
        ;
    } else if bits == 6 {
        lemma_fundamental_div_mod_converse(8, bits, 1, 2);
        assert(per_byte * width == 6) by (nonlinear_arith)
            requires
                per_byte == 1,
                width == 6,
        ;
    } else if bits == 7 {
        lemma_fundamental_div_mod_converse(8, bits, 1, 1);
        assert(per_byte * width == 7) by (nonlinear_arith)
            requires
                per_byte == 1,
                width == 7,
        ;
    } else {
        lemma_fundamental_div_mod_converse(8, bits, 1, 0);
        assert(per_byte * width == 8) by (nonlinear_arith)
            requires
                per_byte == 1,
                width == 8,
        ;
    }
}

/// The last byte that gathering group `g` of vector `v` reads is in range.
pub proof fn lemma_group_in_range(len: int, n: int, bits: int, dim: int, v: int, g: int)
    requires
        1 <= bits <= 8,
        0 <= dim,
        0 <= v < n,
        0 <= g < byte_groups(bits, dim),
        codes_in_range(len, n, bits, dim),
    ensures
        v * row_bytes(bits, dim) + (bits - 1) * (dim / 8) + (g * codes_per_byte(bits)
            + codes_per_byte(bits) - 1) / 8 < len,
        0 <= v * row_bytes(bits, dim),
        0 <= (bits - 1) * (dim / 8),
        0 <= g * codes_per_byte(bits),
        g * codes_per_byte(bits) + codes_per_byte(bits) <= dim,
{
    lemma_field_fits(bits);
    let cpb = codes_per_byte(bits);
    let groups = byte_groups(bits, dim);
    let row = row_bytes(bits, dim);
    assert(row >= 0) by (nonlinear_arith)
        requires
            row == bits * (dim / 8),
            bits >= 1,
            dim / 8 >= 0,
    ;
    assert(0 <= v * row <= (n - 1) * row) by (nonlinear_arith)
        requires
            0 <= v <= n - 1,
            row >= 0,
    ;
    assert(0 <= (bits - 1) * (dim / 8)) by (nonlinear_arith)
        requires
            bits >= 1,
            dim / 8 >= 0,
    ;
    assert(g * cpb + cpb <= groups * cpb && 0 <= g * cpb) by (nonlinear_arith)
        requires
            0 <= g,
            g + 1 <= groups,
            cpb >= 1,
    ;
    lemma_fundamental_div_mod(dim, cpb);
    lemma_mul_is_commutative(groups, cpb);
    lemma_div_is_ordered(g * cpb + cpb - 1, groups * cpb - 1, 8);
}

/// Gathers the byte groups of the vectors `range_start..n_vectors`.
fn gather_rows(
    packed_codes: &[u8],
    n_vectors: usize,
    bits: usize,
    dim: usize,
    range_start: usize,
) -> (codes_flat: Vec<Vec<u8>>)
    requires
        1 <= bits <= 8,
        range_start < n_vectors,
        codes_in_range(packed_codes.len() as int, n_vectors as int, bits as int, dim as int),
    ensures
        codes_flat.len() == n_vectors - range_start,
        forall|v: int|
            0 <= v < codes_flat.len() ==> (#[trigger] codes_flat[v]).len() == byte_groups(
                bits as int,
                dim as int,
            ),
        forall|v: int, g: int|
            0 <= v < codes_flat.len() && 0 <= g < byte_groups(bits as int, dim as int)
                ==> #[trigger] codes_flat[v]@[g] == vector_byte(
                packed_codes@,
                n_vectors as int,
                bits as int,
                dim as int,
                range_start + v,
                g,
            ),
{
    let bytes_per_plane: usize = dim / 8;
    let codes_per_byte: usize = 8 / bits;
    proof {
        lemma_field_fits(bits as int);
    }
    let n_byte_groups: usize = dim / codes_per_byte;
    assert(bits * bytes_per_plane <= dim) by (nonlinear_arith)
        requires
            bits <= 8,
            bytes_per_plane == dim / 8,
    ;
    let bytes_per_row: usize = bits * bytes_per_plane;
    let width: usize = if bits == 3 {
        4
    } else {
        bits
    };
    let mut codes_flat: Vec<Vec<u8>> = Vec::new();
    let mut vec_idx: usize = range_start;
    while vec_idx < n_vectors
        invariant
            range_start <= vec_idx <= n_vectors,
            1 <= bits <= 8,
            codes_in_range(packed_codes.len() as int, n_vectors as int, bits as int, dim as int),
            bytes_per_plane == dim / 8,
            codes_per_byte == self::codes_per_byte(bits as int),
            n_byte_groups == byte_groups(bits as int, dim as int),
            bytes_per_row == row_bytes(bits as int, dim as int),
            width == code_width(bits as int),
            codes_flat.len() == vec_idx - range_start,
            forall|v: int|
                0 <= v < codes_flat.len() ==> (#[trigger] codes_flat[v]).len() == n_byte_groups,
            forall|v: int, g: int|
                0 <= v < codes_flat.len() && 0 <= g < n_byte_groups ==> #[trigger] codes_flat[v]@[g]
                    == vector_byte(
                    packed_codes@,
                    n_vectors as int,
                    bits as int,
                    dim as int,
                    range_start + v,
                    g,
                ),
        decreases n_vectors - vec_idx,
    {
        let mut row: Vec<u8> = Vec::new();
        let mut g: usize = 0;
        while g < n_byte_groups
            invariant
                g <= n_byte_groups,
                vec_idx < n_vectors,
                1 <= bits <= 8,
                codes_in_range(packed_codes.len() as int, n_vectors as int, bits as int, dim as int),
                bytes_per_plane == dim / 8,
                codes_per_byte == self::codes_per_byte(bits as int),
                n_byte_groups == byte_groups(bits as int, dim as int),
                bytes_per_row == row_bytes(bits as int, dim as int),
                width == code_width(bits as int),
                row.len() == g,
                forall|h: int|
                    0 <= h < g ==> #[trigger] row[h] == vector_byte(
                        packed_codes@,
                        n_vectors as int,
                        bits as int,
                        dim as int,
                        vec_idx as int,
                        h,
                    ),
            decreases n_byte_groups - g,
        {
            proof {
                lemma_field_fits(bits as int);
                lemma_group_in_range(
                    packed_codes.len() as int,
                    n_vectors as int,
                    bits as int,
                    dim as int,
                    vec_idx as int,
                    g as int,
                );
            }
            row.push(
                gather_group(
                    packed_codes,
                    vec_idx * bytes_per_row,
                    bytes_per_plane,
                    bits,
                    width,
                    codes_per_byte,
                    g,
                ),
            );
            g = g + 1;
        }
        codes_flat.push(row);
        vec_idx = vec_idx + 1;
    }
    codes_flat
}

/// Repacks the codes of the blocks `first_block..` into the given layout.
///
/// After vectors were appended, only the blocks from `old_n / BLOCK` on are
/// stale: the returned bytes belong behind the first
/// `first_block * n_byte_groups * BLOCK` bytes of the blocked form that was
/// there before.
pub fn repack_range_as(
    layout: Layout,
    packed_codes: &[u8],
    n_vectors: usize,
    bits: usize,
    dim: usize,
    first_block: usize,
) -> (data: Vec<u8>)
    requires
        repack_ready(
            packed_codes.len() as int,
            n_vectors as int,
            bits as int,
            dim as int,
            first_block as int,
        ),
    ensures
        data@ == blocked(
            layout,
            packed_codes@,
            n_vectors as int,
            bits as int,
            dim as int,
            first_block as int,
        ),
{
    let codes_per_byte: usize = 8 / bits;
    proof {
        lemma_field_fits(bits as int);
    }
    let n_byte_groups: usize = dim / codes_per_byte;
    let n_blocks: usize = (n_vectors + BLOCK - 1) / BLOCK;
    let range_start: usize = first_block * BLOCK;
    if n_vectors <= range_start {
        return Vec::new();
    }
    let range_blocks: usize = n_blocks - first_block;
    let codes_flat = gather_rows(packed_codes, n_vectors, bits, dim, range_start);
    let data = pack_blocked_range(
        layout,
        n_vectors - range_start,
        range_blocks,
        n_byte_groups,
        &codes_flat,
    );
    proof {
        let groups = n_byte_groups as int;
        let range_n = n_vectors - range_start;
        let want = blocked(
            layout,
            packed_codes@,
            n_vectors as int,
            bits as int,
            dim as int,
            first_block as int,
        );
        lemma_mul_is_associative(range_blocks as int, groups, BLOCK as int);
        assert forall|i: int| 0 <= i < data.len() implies #[trigger] data[i] == want[i] by {
            assert(groups > 0) by (nonlinear_arith)
                requires
                    0 <= i < range_blocks * groups * BLOCK,
                    range_blocks >= 0,
                    groups >= 0,
                    BLOCK == 32,
            ;
            let block = i / BLOCK as int / groups;
            let g = i / BLOCK as int % groups;
            let lane = i % BLOCK as int;
            lemma_fundamental_div_mod(i / BLOCK as int, groups);
            assert(0 <= g < groups);
            assert(block >= 0) by (nonlinear_arith)
                requires
                    block == i / BLOCK as int / groups,
                    i / BLOCK as int >= 0,
                    groups > 0,
            ;
            assert forall|l: int| 0 <= l < BLOCK implies flat_byte(
                codes_flat@,
                range_n,
                #[trigger] (block * BLOCK + l),
                g,
            ) == vector_byte(
                packed_codes@,
                n_vectors as int,
                bits as int,
                dim as int,
                (first_block + block) * BLOCK + l,
                g,
            ) by {
                if block * BLOCK + l < codes_flat.len() {
                    assert(codes_flat[block * BLOCK + l]@[g] == vector_byte(
                        packed_codes@,
                        n_vectors as int,
                        bits as int,
                        dim as int,
                        range_start + (block * BLOCK + l),
                        g,
                    ));
                }
            }
            assert(data[i] == flat_blocked(layout, codes_flat@, range_n, groups, i));
            match layout {
                Layout::Sequential => {
                    assert(flat_byte(codes_flat@, range_n, block * BLOCK + lane, g) == want[i]);
                },
                Layout::Interleaved => {
                    let l = interleave(lane % 16);
                    let a = flat_byte(codes_flat@, range_n, block * BLOCK + l, g);
                    let b = flat_byte(codes_flat@, range_n, block * BLOCK + (l + 16), g);
                    assert(block * BLOCK + l + 16 == block * BLOCK + (l + 16));
                },
            }
        }
        assert(data@ =~= want);
    }
    data
}

/// Repacks the codes of the blocks `first_block..` into the x86-64 layout.
pub fn repack_range(
    packed_codes: &[u8],
    n_vectors: usize,
    bits: usize,
    dim: usize,
    first_block: usize,
) -> (data: Vec<u8>)
    requires
        repack_ready(
            packed_codes.len() as int,
            n_vectors as int,
            bits as int,
            dim as int,
            first_block as int,
        ),
    ensures
        data@ == blocked(
            Layout::Interleaved,
            packed_codes@,
            n_vectors as int,
            bits as int,
            dim as int,
            first_block as int,
        ),
{
    repack_range_as(Layout::Interleaved, packed_codes, n_vectors, bits, dim, first_block)
}

/// Repacks all codes into the given layout and counts the blocks.
pub fn repack_as(
    layout: Layout,
    packed_codes: &[u8],
    n_vectors: usize,
    bits: usize,
    dim: usize,
) -> (res: (Vec<u8>, usize))
    requires
        repack_ready(packed_codes.len() as int, n_vectors as int, bits as int, dim as int, 0),
    ensures
        res.0@ == blocked(layout, packed_codes@, n_vectors as int, bits as int, dim as int, 0),
        res.1 == block_count(n_vectors as int),
{
    let n_blocks: usize = (n_vectors + BLOCK - 1) / BLOCK;
    let data = repack_range_as(layout, packed_codes, n_vectors, bits, dim, 0);
    (data, n_blocks)
}

/// Repacks all codes into the x86-64 layout and counts the blocks.
pub fn repack(packed_codes: &[u8], n_vectors: usize, bits: usize, dim: usize) -> (res: (
    Vec<u8>,
    usize,
))
    requires
        repack_ready(packed_codes.len() as int, n_vectors as int, bits as int, dim as int, 0),
    ensures
        res.0@ == blocked(
            Layout::Interleaved,
            packed_codes@,
            n_vectors as int,
            bits as int,
            dim as int,
            0,
        ),
        res.1 == block_count(n_vectors as int),
{
    repack_as(Layout::Interleaved, packed_codes, n_vectors, bits, dim)
}

// ---------------------------------------------------------------------------
// Three-bit codes in two parts
// ---------------------------------------------------------------------------

/// The bytes of `blocks` blocks of `groups` byte groups each, where
/// `row(v, g)` is byte group `g` of vector `v`.
pub open spec fn arranged(
    layout: Layout,
    row: spec_fn(int, int) -> u8,
    blocks: int,
    groups: int,
) -> Seq<u8> {
    Seq::new(
        (blocks * groups * BLOCK) as nat,
        |i: int|
            arrange(
                layout,
                row,
                i / BLOCK as int / groups,
                i / BLOCK as int % groups,
                i % BLOCK as int,
            ),
    )
}

/// Four codes of vector `v`, of which the two low bits alone are taken.
pub open spec fn low_planes_byte(codes: Seq<u8>, n: int, dim: int, v: int, g: int) -> u8 {
    if v < n {
        group_byte(codes, v * row_bytes(3, dim), dim / 8, 2, 2, 4, g)
    } else {
        0
    }
}

/// Byte `g` of the third plane of vector `v`.
pub open spec fn high_plane_byte(codes: Seq<u8>, n: int, dim: int, v: int, g: int) -> u8 {
    if v < n {
        codes[v * row_bytes(3, dim) + 2 * (dim / 8) + g]
    } else {
        0
    }
}

/// The two low bits of all codes, four codes to a byte.
pub open spec fn low_array(codes: Seq<u8>, n: int, dim: int) -> Seq<u8> {
    arranged(
        Layout::Sequential,
        |v: int, g: int| low_planes_byte(codes, n, dim, v, g),
        block_count(n),
        dim / 4,
    )
}

/// The bytes of the third plane of all vectors.
pub open spec fn high_array(codes: Seq<u8>, n: int, dim: int) -> Seq<u8> {
    arranged(
        Layout::Sequential,
        |v: int, g: int| high_plane_byte(codes, n, dim, v, g),
        block_count(n),
        dim / 8,
    )
}

/// What [`repack_3bit`] asks of its arguments.
pub open spec fn repack_3bit_ready(len: int, n: int, dim: int) -> bool {
    &&& n + BLOCK <= usize::MAX
    &&& n > 0 && dim / 4 > 0 ==> (n - 1) * row_bytes(3, dim) + dim / 8 + (4 * (dim / 4) - 1) / 8 < len
    &&& n * row_bytes(3, dim) <= len
    &&& block_count(n) * (dim / 4) * BLOCK <= isize::MAX
    &&& block_count(n) * (dim / 8) * BLOCK <= isize::MAX
}

/// The reads of one vector of three planes are in range.
proof fn lemma_3bit_in_range(len: int, n: int, dim: int, v: int, g: int)
    requires
        0 <= dim,
        0 <= v < n,
        repack_3bit_ready(len, n, dim),
    ensures
        0 <= v * row_bytes(3, dim),
        v * row_bytes(3, dim) + row_bytes(3, dim) <= len,
        0 <= g < dim / 4 ==> v * row_bytes(3, dim) + dim / 8 + (g * 4 + 4 - 1) / 8 < len,
{
    let row = row_bytes(3, dim);
    assert(0 <= v * row <= (n - 1) * row && (n - 1) * row + row == n * row) by (nonlinear_arith)
        requires
            0 <= v <= n - 1,
            row >= 0,
    ;
    if 0 <= g < dim / 4 {
        lemma_div_is_ordered(g * 4 + 4 - 1, 4 * (dim / 4) - 1, 8);
    }
}

/// Repacks 3-bit codes into two blocked arrays: the two low bits of the codes,
/// four codes to a byte, and the bytes of the third plane. Also counts the
/// blocks.
pub fn repack_3bit(packed_codes: &[u8], n_vectors: usize, dim: usize) -> (res: (
    Vec<u8>,
    Vec<u8>,
    usize,
))
    requires
        repack_3bit_ready(packed_codes.len() as int, n_vectors as int, dim as int),
    ensures
        res.0@ == low_array(packed_codes@, n_vectors as int, dim as int),
        res.1@ == high_array(packed_codes@, n_vectors as int, dim as int),
        res.2 == block_count(n_vectors as int),
{
    let bytes_per_plane: usize = dim / 8;
    let bytes_per_row: usize = 3 * bytes_per_plane;
    let n_blocks: usize = (n_vectors + BLOCK - 1) / BLOCK;
    let sub_byte_groups: usize = dim / 4;
    let ghost low = |v: int, g: int|
        low_planes_byte(packed_codes@, n_vectors as int, dim as int, v, g);
    let ghost high = |v: int, g: int|
        high_plane_byte(packed_codes@, n_vectors as int, dim as int, v, g);
    let ghost want_sub = arranged(
        Layout::Sequential,
        low,
        n_blocks as int,
        sub_byte_groups as int,
    );
    let ghost want_plane2 = arranged(
        Layout::Sequential,
        high,
        n_blocks as int,
        bytes_per_plane as int,
    );
    let mut sub_codes: Vec<u8> = Vec::new();
    let mut plane2_blocked: Vec<u8> = Vec::new();
    let mut block_idx: usize = 0;
    while block_idx < n_blocks
        invariant
            block_idx <= n_blocks,
            n_blocks == block_count(n_vectors as int),
            repack_3bit_ready(packed_codes.len() as int, n_vectors as int, dim as int),
            bytes_per_plane == dim / 8,
            bytes_per_row == row_bytes(3, dim as int),
            sub_byte_groups == dim / 4,
            low == (|v: int, g: int|
                low_planes_byte(packed_codes@, n_vectors as int, dim as int, v, g)),
            high == (|v: int, g: int|
                high_plane_byte(packed_codes@, n_vectors as int, dim as int, v, g)),
            want_sub == arranged(
                Layout::Sequential,
                low,
                n_blocks as int,
                sub_byte_groups as int,
            ),
            want_plane2 == arranged(
                Layout::Sequential,
                high,
                n_blocks as int,
                bytes_per_plane as int,
            ),
            sub_codes.len() == block_idx * sub_byte_groups * BLOCK,
            forall|i: int| 0 <= i < sub_codes.len() ==> #[trigger] sub_codes[i] == want_sub[i],
            plane2_blocked.len() == block_idx * bytes_per_plane * BLOCK,
            forall|i: int|
                0 <= i < plane2_blocked.len() ==> #[trigger] plane2_blocked[i] == want_plane2[i],
        decreases n_blocks - block_idx,
    {
        let base_vec: usize = block_idx * BLOCK;
        let mut g: usize = 0;
        while g < sub_byte_groups
            invariant
                g <= sub_byte_groups,
                block_idx < n_blocks,
                n_blocks == block_count(n_vectors as int),
                base_vec == block_idx * BLOCK,
                repack_3bit_ready(packed_codes.len() as int, n_vectors as int, dim as int),
                bytes_per_plane == dim / 8,
                bytes_per_row == row_bytes(3, dim as int),
                sub_byte_groups == dim / 4,
                low == (|v: int, g: int|
                    low_planes_byte(packed_codes@, n_vectors as int, dim as int, v, g)),
                want_sub == arranged(
                    Layout::Sequential,
                    low,
                    n_blocks as int,
                    sub_byte_groups as int,
                ),
                sub_codes.len() == (block_idx * sub_byte_groups + g) * BLOCK,
                forall|i: int| 0 <= i < sub_codes.len() ==> #[trigger] sub_codes[i] == want_sub[i],
            decreases sub_byte_groups - g,
        {
            let mut lane: usize = 0;
            while lane < BLOCK
                invariant
                    lane <= BLOCK,
                    g < sub_byte_groups,
                    block_idx < n_blocks,
                    n_blocks == block_count(n_vectors as int),
                    base_vec == block_idx * BLOCK,
                    repack_3bit_ready(packed_codes.len() as int, n_vectors as int, dim as int),
                    bytes_per_plane == dim / 8,
                    bytes_per_row == row_bytes(3, dim as int),
                    sub_byte_groups == dim / 4,
                    low == (|v: int, g: int|
                        low_planes_byte(packed_codes@, n_vectors as int, dim as int, v, g)),
                    want_sub == arranged(
                        Layout::Sequential,
                        low,
                        n_blocks as int,
                        sub_byte_groups as int,
                    ),
                    sub_codes.len() == (block_idx * sub_byte_groups + g) * BLOCK + lane,
                    forall|i: int|
                        0 <= i < sub_codes.len() ==> #[trigger] sub_codes[i] == want_sub[i],
                decreases BLOCK - lane,
            {
                let vec_idx: usize = base_vec + lane;
                let mut byte_val: u8 = 0;
                if vec_idx < n_vectors {
                    proof {
                        lemma_3bit_in_range(
                            packed_codes.len() as int,
                            n_vectors as int,
                            dim as int,
                            vec_idx as int,
                            g as int,
                        );
                    }
                    byte_val =
                    gather_group(
                        packed_codes,
                        vec_idx * bytes_per_row,
                        bytes_per_plane,
                        2,
                        2,
                        4,
                        g,
                    );
                }
                proof {
                    lemma_position(
                        sub_byte_groups as int,
                        block_idx as int,
                        g as int,
                        lane as int,
                    );
                    lemma_slot_bound(
                        sub_byte_groups as int,
                        n_blocks as int,
                        block_idx as int,
                        g as int,
                    );
                }
                sub_codes.push(byte_val);
                lane = lane + 1;
            }
            g = g + 1;
        }
        let mut h: usize = 0;
        while h < bytes_per_plane
            invariant
                h <= bytes_per_plane,
                block_idx < n_blocks,
                n_blocks == block_count(n_vectors as int),
                base_vec == block_idx * BLOCK,
                repack_3bit_ready(packed_codes.len() as int, n_vectors as int, dim as int),
                bytes_per_plane == dim / 8,
                bytes_per_row == row_bytes(3, dim as int),
                high == (|v: int, g: int|
                    high_plane_byte(packed_codes@, n_vectors as int, dim as int, v, g)),
                want_plane2 == arranged(
                    Layout::Sequential,
                    high,
                    n_blocks as int,
                    bytes_per_plane as int,
                ),
                plane2_blocked.len() == (block_idx * bytes_per_plane + h) * BLOCK,
                forall|i: int|
                    0 <= i < plane2_blocked.len() ==> #[trigger] plane2_blocked[i]
                        == want_plane2[i],
            decreases bytes_per_plane - h,
        {
            let mut lane: usize = 0;
            while lane < BLOCK
                invariant
                    lane <= BLOCK,
                    h < bytes_per_plane,
                    block_idx < n_blocks,
                    n_blocks == block_count(n_vectors as int),
                    base_vec == block_idx * BLOCK,
                    repack_3bit_ready(packed_codes.len() as int, n_vectors as int, dim as int),
                    bytes_per_plane == dim / 8,
                    bytes_per_row == row_bytes(3, dim as int),
                    high == (|v: int, g: int|
                        high_plane_byte(packed_codes@, n_vectors as int, dim as int, v, g)),
                    want_plane2 == arranged(
                        Layout::Sequential,
                        high,
                        n_blocks as int,
                        bytes_per_plane as int,
                    ),
                    plane2_blocked.len() == (block_idx * bytes_per_plane + h) * BLOCK + lane,
                    forall|i: int|
                        0 <= i < plane2_blocked.len() ==> #[trigger] plane2_blocked[i]
                            == want_plane2[i],
                decreases BLOCK - lane,
            {
                let vec_idx: usize = base_vec + lane;
                let mut byte_val: u8 = 0;
                if vec_idx < n_vectors {
                    proof {
                        lemma_3bit_in_range(
                            packed_codes.len() as int,
                            n_vectors as int,
                            dim as int,
                            vec_idx as int,
                            h as int,
                        );
                    }
                    byte_val = packed_codes[vec_idx * bytes_per_row + 2 * bytes_per_plane + h];
                }
                proof {
                    lemma_position(
                        bytes_per_plane as int,
                        block_idx as int,
                        h as int,
                        lane as int,
                    );
                    lemma_slot_bound(
                        bytes_per_plane as int,
                        n_blocks as int,
                        block_idx as int,
                        h as int,
                    );
                }
                plane2_blocked.push(byte_val);
                lane = lane + 1;
            }
            h = h + 1;
        }
        proof {
            lemma_mul_is_distributive_add(sub_byte_groups as int, block_idx as int, 1);
            lemma_mul_is_distributive_add(bytes_per_plane as int, block_idx as int, 1);
            lemma_mul_is_commutative(sub_byte_groups as int, block_idx as int);
            lemma_mul_is_commutative(sub_byte_groups as int, block_idx + 1);
            lemma_mul_is_commutative(bytes_per_plane as int, block_idx as int);
            lemma_mul_is_commutative(bytes_per_plane as int, block_idx + 1);
        }
        block_idx = block_idx + 1;
    }
    assert(sub_codes@ =~= want_sub);
    assert(plane2_blocked@ =~= want_plane2);
    (sub_codes, plane2_blocked, n_blocks)
}

} // verus!
