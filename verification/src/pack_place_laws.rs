//! Where every bit of the codes stands in the blocked layout.
//!
//! The statements are about single bits of the packed bytes and of the codes,
//! and write every position out.

use crate::bits::{bit, byte_of, lemma_byte_of_bits, lemma_zero_bits};
use crate::pack::{
    arrange, arranged, block_count, blocked, blocked_at, byte_groups, code_width, codes_per_byte,
    group_byte, high_array, high_plane_byte, interleave, join_nibbles, lemma_field_fits,
    lemma_position, lemma_slot_bound, low_array, low_planes_byte, plane_bit, repack_3bit_ready,
    repack_ready, row_bytes, vector_byte, Layout,
};
use crate::pack_count_laws::{lemma_high_bits, lemma_low_bits};
use crate::pack_laws::lemma_groups_cover;
use crate::BLOCK;
use vstd::prelude::*;

verus! {

/// Blocks hold 32 vectors, and the last one of them at least one.
pub proof fn law_blocks_hold_all_vectors(n: int)
    requires
        0 <= n,
    ensures
        n <= 32 * block_count(n) < n + 32,
{
}

/// The length of the blocked form.
pub proof fn law_blocked_length(
    layout: Layout,
    codes: Seq<u8>,
    n: int,
    bits: int,
    dim: int,
    first_block: int,
)
    requires
        1 <= bits <= 8,
        0 <= dim,
        0 <= first_block,
    ensures
        blocked(layout, codes, n, bits, dim, first_block).len() == (if first_block * 32 < n {
            ((n + 31) / 32 - first_block) * (dim / (8int / bits)) * 32
        } else {
            0
        }),
{
    lemma_field_fits(bits);
    let groups = byte_groups(bits, dim);
    let blocks = block_count(n) - first_block;
    assert(groups >= 0) by (nonlinear_arith)
        requires
            groups == dim / codes_per_byte(bits),
            dim >= 0,
            codes_per_byte(bits) >= 1,
    ;
    assert(blocks * (groups * BLOCK) == blocks * groups * BLOCK) by (nonlinear_arith);
    if first_block * 32 < n {
        assert(blocks * groups * BLOCK >= 0) by (nonlinear_arith)
            requires
                blocks >= 0,
                groups >= 0,
                BLOCK == 32,
        ;
    }
}

/// Codes that hold the rows of `n` vectors can be repacked, if the result can
/// be addressed at all.
pub proof fn law_repack_takes_all_rows(len: int, n: int, bits: int, dim: int, first_block: int)
    requires
        1 <= bits <= 8,
        0 <= dim,
        dim % 8 == 0,
        0 <= n,
        0 <= first_block,
        n * (bits * (dim / 8)) <= len,
        n + 32 <= usize::MAX,
        first_block * 32 <= usize::MAX,
        (n + 31) / 32 * (dim / (8int / bits)) * 32 <= isize::MAX,
    ensures
        repack_ready(len, n, bits, dim, first_block),
{
    lemma_field_fits(bits);
    let groups = byte_groups(bits, dim);
    let cpb = codes_per_byte(bits);
    let plane = dim / 8;
    let blocks = block_count(n);
    lemma_groups_cover(bits, dim);
    assert((blocks - first_block) * (groups * BLOCK) <= blocks * groups * BLOCK) by (nonlinear_arith)
        requires
            0 <= first_block,
            0 <= groups,
            BLOCK == 32,
    ;
    if n > 0 && groups > 0 {
        assert(dim > 0) by (nonlinear_arith)
            requires
                groups * cpb == dim,
                groups > 0,
                cpb >= 1,
        ;
        assert((dim - 1) / 8 < plane);
        assert((n - 1) * (bits * plane) + (bits - 1) * plane + plane == n * (bits * plane))
            by (nonlinear_arith);
    }
}

/// 3-bit codes that hold the rows of `n` vectors can be repacked, if the
/// results can be addressed at all.
pub proof fn law_3bit_takes_all_rows(len: int, n: int, dim: int)
    requires
        0 <= dim,
        dim % 8 == 0,
        0 <= n,
        n * (3 * (dim / 8)) <= len,
        n + 32 <= usize::MAX,
        (n + 31) / 32 * (dim / 4) * 32 <= isize::MAX,
    ensures
        repack_3bit_ready(len, n, dim),
{
    let blocks = block_count(n);
    let plane = dim / 8;
    assert(blocks * plane * BLOCK <= blocks * (dim / 4) * BLOCK) by (nonlinear_arith)
        requires
            0 <= blocks,
            0 <= plane <= dim / 4,
            BLOCK == 32,
    ;
    assert((n - 1) * (3 * plane) + 3 * plane == n * (3 * plane)) by (nonlinear_arith);
}

/// The byte of the blocked form at a place.
proof fn lemma_blocked_place(
    layout: Layout,
    codes: Seq<u8>,
    n: int,
    bits: int,
    dim: int,
    first_block: int,
    block: int,
    g: int,
    lane: int,
)
    requires
        1 <= bits <= 8,
        0 <= first_block <= block,
        block * 32 < n,
        0 <= g < byte_groups(bits, dim),
        0 <= lane < 32,
    ensures
        ({
            let out = blocked(layout, codes, n, bits, dim, first_block);
            let at = ((block - first_block) * byte_groups(bits, dim) + g) * 32 + lane;
            &&& 0 <= at < out.len()
            &&& out[at] == blocked_at(layout, codes, n, bits, dim, block, g, lane)
        }),
{
    let groups = byte_groups(bits, dim);
    let blocks = block_count(n) - first_block;
    let rel = block - first_block;
    lemma_position(groups, rel, g, lane);
    lemma_slot_bound(groups, blocks, rel, g);
    assert(blocks * (groups * BLOCK) == blocks * groups * BLOCK) by (nonlinear_arith);
    assert(0 <= rel * groups + g) by (nonlinear_arith)
        requires
            0 <= rel,
            0 <= g < groups,
    ;
}

/// A bit of a byte group is a bit of the codes.
proof fn lemma_group_bit(
    codes: Seq<u8>,
    row: int,
    plane: int,
    planes: int,
    width: int,
    per_byte: int,
    g: int,
    q: int,
)
    requires
        0 <= q < 8,
    ensures
        bit(group_byte(codes, row, plane, planes, width, per_byte, g), q) == (q / width < per_byte
            && q % width < planes && bit(
            codes[row + (q % width) * plane + (g * per_byte + (per_byte - 1 - q / width)) / 8],
            7 - (g * per_byte + (per_byte - 1 - q / width)) % 8,
        )),
{
    let f = |k: int|
        k / width < per_byte && k % width < planes && plane_bit(
            codes,
            row,
            plane,
            k % width,
            g * per_byte + (per_byte - 1 - k / width),
        );
    lemma_byte_of_bits(f);
    assert(bit(byte_of(f), q) == f(q));
}

/// A bit of a byte group of a vector, or of a lane past the last vector.
proof fn lemma_vector_bit(codes: Seq<u8>, n: int, bits: int, dim: int, v: int, g: int, q: int)
    requires
        1 <= bits <= 8,
        0 <= q < 8,
    ensures
        ({
            let per = 8int / bits;
            let width = if bits == 3 {
                4
            } else {
                bits
            };
            let j = g * per + (per - 1 - q / width);
            bit(vector_byte(codes, n, bits, dim, v, g), q) == (v < n && q / width < per && q % width
                < bits && (codes[v * (bits * (dim / 8)) + (q % width) * (dim / 8) + j / 8] >> ((7 - j
                % 8) as u8)) & 1 == 1)
        }),
{
    if v < n {
        lemma_group_bit(
            codes,
            v * row_bytes(bits, dim),
            dim / 8,
            bits,
            code_width(bits),
            codes_per_byte(bits),
            g,
            q,
        );
    } else {
        lemma_zero_bits();
    }
}

/// In the sequential layout, byte `l` of byte group `g` of a block belongs to
/// vector `block * 32 + l`. It holds the `8 / bits` codes from coordinate
/// `g * (8 / bits)` on, the first one in the most significant place, each in a
/// field as wide as a code (4 bits for a 3-bit code); bit `p` of a code is its
/// bit in plane `p`. All other bits are zero, and so are the lanes past the
/// last vector.
pub proof fn law_sequential_places(
    codes: Seq<u8>,
    n: int,
    bits: int,
    dim: int,
    first_block: int,
    block: int,
    g: int,
    l: int,
    q: int,
)
    requires
        1 <= bits <= 8,
        0 <= first_block <= block,
        block * 32 < n,
        0 <= g < dim / (8int / bits),
        0 <= l < 32,
        0 <= q < 8,
    ensures
        ({
            let out = blocked(Layout::Sequential, codes, n, bits, dim, first_block);
            let per = 8int / bits;
            let width = if bits == 3 {
                4
            } else {
                bits
            };
            let at = ((block - first_block) * (dim / per) + g) * 32 + l;
            let v = block * 32 + l;
            let j = g * per + (per - 1 - q / width);
            &&& 0 <= at < out.len()
            &&& (out[at] >> (q as u8)) & 1 == 1 <==> v < n && q / width < per && q % width < bits
                && (codes[v * (bits * (dim / 8)) + (q % width) * (dim / 8) + j / 8] >> ((7 - j
                % 8) as u8)) & 1 == 1
        }),
{
    lemma_blocked_place(Layout::Sequential, codes, n, bits, dim, first_block, block, g, l);
    lemma_vector_bit(codes, n, bits, dim, block * 32 + l, g, q);
    let out = blocked(Layout::Sequential, codes, n, bits, dim, first_block);
    let at = ((block - first_block) * (dim / (8int / bits)) + g) * 32 + l;
    assert(out[at] == vector_byte(codes, n, bits, dim, block * 32 + l, g));
    assert(bit(out[at], q) == ((out[at] >> (q as u8)) & 1 == 1));
}

/// In the interleaved layout, byte `s` of byte group `g` of a block holds high
/// nibbles and byte `16 + s` low nibbles: in their low halves those of vector
/// `block * 32 + m`, in their high halves those of vector
/// `block * 32 + m + 16`, where `m` is number `s` of 0, 8, 1, 9, 2, 10, 3, 11,
/// 4, 12, 5, 13, 6, 14, 7, 15. The nibbles are those of the byte that holds the
/// vector's `8 / bits` codes from coordinate `g * (8 / bits)` on, as in the
/// sequential layout.
pub proof fn law_interleaved_places(
    codes: Seq<u8>,
    n: int,
    bits: int,
    dim: int,
    first_block: int,
    block: int,
    g: int,
    s: int,
    k: int,
    high: bool,
    upper: bool,
)
    requires
        1 <= bits <= 8,
        0 <= first_block <= block,
        block * 32 < n,
        0 <= g < dim / (8int / bits),
        0 <= s < 16,
        0 <= k < 4,
    ensures
        ({
            let out = blocked(Layout::Interleaved, codes, n, bits, dim, first_block);
            let per = 8int / bits;
            let width = if bits == 3 {
                4
            } else {
                bits
            };
            let m = seq![0int, 8, 1, 9, 2, 10, 3, 11, 4, 12, 5, 13, 6, 14, 7, 15][s];
            let at = ((block - first_block) * (dim / per) + g) * 32 + (if high {
                s
            } else {
                16 + s
            });
            let v = block * 32 + m + (if upper {
                16int
            } else {
                0
            });
            let q = if high {
                k + 4
            } else {
                k
            };
            let j = g * per + (per - 1 - q / width);
            &&& 0 <= at < out.len()
            &&& (out[at] >> ((if upper {
                k + 4
            } else {
                k
            }) as u8)) & 1 == 1 <==> v < n && q / width < per && q % width < bits && (codes[v * (
            bits * (dim / 8)) + (q % width) * (dim / 8) + j / 8] >> ((7 - j % 8) as u8)) & 1 == 1
        }),
{
    lemma_order(s);
    lemma_interleaved_bit(codes, n, bits, dim, first_block, block, g, s, k, high, upper);
    let m = interleave(s);
    let v = block * 32 + m + (if upper {
        16int
    } else {
        0
    });
    let q = if high {
        k + 4
    } else {
        k
    };
    lemma_vector_bit(codes, n, bits, dim, v, g, q);
}

/// A bit of two bytes whose nibbles were joined.
proof fn lemma_joined_bit(a: u8, b: u8, k: int, high: bool, upper: bool)
    requires
        0 <= k < 4,
    ensures
        bit(
            if high {
                join_nibbles(a / 16, b / 16)
            } else {
                join_nibbles(a % 16, b % 16)
            },
            if upper {
                k + 4
            } else {
                k
            },
        ) == bit(
            if upper {
                b
            } else {
                a
            },
            if high {
                k + 4
            } else {
                k
            },
        ),
{
    if high {
        lemma_high_bits(a, b, join_nibbles(a / 16, b / 16));
    } else {
        lemma_low_bits(a, b, join_nibbles(a % 16, b % 16));
    }
}

/// A bit of an interleaved arrangement is a bit of a byte group of a vector.
proof fn lemma_arranged_bit(
    row: spec_fn(int, int) -> u8,
    block: int,
    g: int,
    s: int,
    k: int,
    high: bool,
    upper: bool,
)
    requires
        0 <= s < 16,
        0 <= k < 4,
    ensures
        bit(
            arrange(
                Layout::Interleaved,
                row,
                block,
                g,
                if high {
                    s
                } else {
                    16 + s
                },
            ),
            if upper {
                k + 4
            } else {
                k
            },
        ) == bit(
            row(
                block * 32 + interleave(s) + (if upper {
                    16int
                } else {
                    0
                }),
                g,
            ),
            if high {
                k + 4
            } else {
                k
            },
        ),
{
    let a = row(block * 32 + interleave(s), g);
    let b = row(block * 32 + interleave(s) + 16, g);
    let lane = if high {
        s
    } else {
        16 + s
    };
    assert(lane % 16 == s);
    assert(block * 32 + interleave(s) + 0 == block * 32 + interleave(s));
    lemma_joined_bit(a, b, k, high, upper);
}

/// A bit of the interleaved layout is a bit of the byte group of a vector.
proof fn lemma_interleaved_bit(
    codes: Seq<u8>,
    n: int,
    bits: int,
    dim: int,
    first_block: int,
    block: int,
    g: int,
    s: int,
    k: int,
    high: bool,
    upper: bool,
)
    requires
        1 <= bits <= 8,
        0 <= first_block <= block,
        block * 32 < n,
        0 <= g < byte_groups(bits, dim),
        0 <= s < 16,
        0 <= k < 4,
    ensures
        ({
            let out = blocked(Layout::Interleaved, codes, n, bits, dim, first_block);
            let at = ((block - first_block) * byte_groups(bits, dim) + g) * 32 + (if high {
                s
            } else {
                16 + s
            });
            let v = block * 32 + interleave(s) + (if upper {
                16int
            } else {
                0
            });
            &&& 0 <= at < out.len()
            &&& bit(
                out[at],
                if upper {
                    k + 4
                } else {
                    k
                },
            ) == bit(
                vector_byte(codes, n, bits, dim, v, g),
                if high {
                    k + 4
                } else {
                    k
                },
            )
        }),
{
    let lane = if high {
        s
    } else {
        16 + s
    };
    let row = |v: int, h: int| vector_byte(codes, n, bits, dim, v, h);
    lemma_blocked_place(Layout::Interleaved, codes, n, bits, dim, first_block, block, g, lane);
    lemma_arranged_bit(row, block, g, s, k, high, upper);
}

/// The order of the interleaving.
proof fn lemma_order(s: int)
    requires
        0 <= s < 16,
    ensures
        seq![0int, 8, 1, 9, 2, 10, 3, 11, 4, 12, 5, 13, 6, 14, 7, 15][s] == interleave(s),
        0 <= interleave(s) < 16,
{
}

// ---------------------------------------------------------------------------
// Three-bit codes in two parts
// ---------------------------------------------------------------------------

/// The byte of an array that was arranged in order.
proof fn lemma_arranged_place(
    row: spec_fn(int, int) -> u8,
    n: int,
    groups: int,
    block: int,
    g: int,
    l: int,
)
    requires
        0 <= block,
        block * 32 < n,
        0 <= g < groups,
        0 <= l < 32,
    ensures
        ({
            let out = arranged(Layout::Sequential, row, block_count(n), groups);
            let at = (block * groups + g) * 32 + l;
            &&& 0 <= at < out.len()
            &&& out[at] == row(block * 32 + l, g)
        }),
{
    lemma_position(groups, block, g, l);
    lemma_slot_bound(groups, block_count(n), block, g);
    assert(0 <= block * groups + g) by (nonlinear_arith)
        requires
            0 <= block,
            0 <= g < groups,
    ;
}

/// The lengths of the two arrays.
pub proof fn law_3bit_lengths(codes: Seq<u8>, n: int, dim: int)
    requires
        0 <= n,
        0 <= dim,
    ensures
        low_array(codes, n, dim).len() == (n + 31) / 32 * (dim / 4) * 32,
        high_array(codes, n, dim).len() == (n + 31) / 32 * (dim / 8) * 32,
{
    assert(block_count(n) * (dim / 4) * BLOCK >= 0 && block_count(n) * (dim / 8) * BLOCK >= 0)
        by (nonlinear_arith)
        requires
            block_count(n) >= 0,
            dim >= 0,
            BLOCK == 32,
    ;
}

/// Byte `l` of byte group `g` of a block of the low array holds four codes of
/// vector `block * 32 + l`, from coordinate `4 * g` on, the first one in the
/// most significant place: of each its bits in planes 0 and 1. Lanes past the
/// last vector are zero.
pub proof fn law_3bit_low_places(
    codes: Seq<u8>,
    n: int,
    dim: int,
    block: int,
    g: int,
    l: int,
    c: int,
    p: int,
)
    requires
        0 <= block,
        block * 32 < n,
        0 <= g < dim / 4,
        0 <= l < 32,
        0 <= c < 4,
        0 <= p < 2,
    ensures
        ({
            let out = low_array(codes, n, dim);
            let at = (block * (dim / 4) + g) * 32 + l;
            let v = block * 32 + l;
            let j = 4 * g + c;
            &&& 0 <= at < out.len()
            &&& (out[at] >> ((2 * (3 - c) + p) as u8)) & 1 == 1 <==> v < n && (codes[v * (3 * (dim
                / 8)) + p * (dim / 8) + j / 8] >> ((7 - j % 8) as u8)) & 1 == 1
        }),
{
    let row = |v: int, h: int| low_planes_byte(codes, n, dim, v, h);
    let v = block * 32 + l;
    let q = 2 * (3 - c) + p;
    lemma_arranged_place(row, n, dim / 4, block, g, l);
    let at = (block * (dim / 4) + g) * 32 + l;
    let byte = low_array(codes, n, dim)[at];
    assert(byte == low_planes_byte(codes, n, dim, v, g));
    if v < n {
        lemma_group_bit(codes, v * row_bytes(3, dim), dim / 8, 2, 2, 4, g, q);
        assert(q / 2 == 3 - c && q % 2 == p);
    } else {
        lemma_zero_bits();
    }
    assert(bit(byte, q) == ((byte >> (q as u8)) & 1 == 1));
}

/// Byte `l` of byte group `g` of a block of the high array is byte `g` of the
/// third plane of vector `block * 32 + l`. Lanes past the last vector are zero.
pub proof fn law_3bit_high_places(
    codes: Seq<u8>,
    n: int,
    dim: int,
    block: int,
    g: int,
    l: int,
)
    requires
        0 <= block,
        block * 32 < n,
        0 <= g < dim / 8,
        0 <= l < 32,
    ensures
        ({
            let out = high_array(codes, n, dim);
            let at = (block * (dim / 8) + g) * 32 + l;
            let v = block * 32 + l;
            &&& 0 <= at < out.len()
            &&& out[at] == (if v < n {
                codes[v * (3 * (dim / 8)) + 2 * (dim / 8) + g]
            } else {
                0
            })
        }),
{
    let row = |v: int, h: int| high_plane_byte(codes, n, dim, v, h);
    lemma_arranged_place(row, n, dim / 8, block, g, l);
}

} // verus!
