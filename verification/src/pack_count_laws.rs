//! Repacking neither loses nor adds a set bit.

use crate::bits::{bit, byte_of, count_ones, lemma_byte_of_bits, lemma_zero_bits, ones, weight};
use crate::pack::{
    arrange, arranged, block_count, blocked, byte_groups, code_width, codes_per_byte, group_byte,
    high_array, high_plane_byte, interleave, join_nibbles, lemma_field_fits, lemma_position,
    lemma_slot_bound, low_array, low_planes_byte, plane_bit, range_codes, row_bytes, vector_byte,
    Layout,
};
use crate::pack_laws::lemma_groups_cover;
use crate::sums::{
    lemma_total_concat, lemma_total_plus, lemma_total_reverse, lemma_total_rows, lemma_total_same,
    lemma_total_swap, lemma_total_tail, lemma_total_zero, total,
};
use crate::BLOCK;
use vstd::arithmetic::div_mod::lemma_fundamental_div_mod_converse;
use vstd::prelude::*;

verus! {

// ---------------------------------------------------------------------------
// Bits of bytes
// ---------------------------------------------------------------------------

/// Bit `k` of `b` as a number.
#[verifier::opaque]
spec fn digit(b: u8, k: int) -> nat {
    weight(bit(b, k), 1)
}

/// Bits that are the same are the same as numbers.
proof fn lemma_digit(a: u8, i: int, b: u8, j: int)
    requires
        bit(a, i) == bit(b, j),
    ensures
        digit(a, i) == digit(b, j),
{
    reveal(digit);
}

/// The set bits of a byte, bit by bit.
proof fn lemma_ones(b: u8)
    ensures
        ones(b) == digit(b, 0) + digit(b, 1) + digit(b, 2) + digit(b, 3) + digit(b, 4) + digit(
            b,
            5,
        ) + digit(b, 6) + digit(b, 7),
{
    reveal(digit);
    reveal_with_fuel(total, 9);
}

/// Where the bits of two bytes stand once their high nibbles are joined.
pub proof fn lemma_high_bits(a: u8, b: u8, h: u8)
    requires
        h == a / 16 + 16 * (b / 16),
    ensures
        forall|k: int|
            0 <= k < 8 ==> #[trigger] bit(h, k) == (if k < 4 {
                bit(a, k + 4)
            } else {
                bit(b, k)
            }),
{
    assert forall|k: int| 0 <= k < 8 implies #[trigger] bit(h, k) == (if k < 4 {
        bit(a, k + 4)
    } else {
        bit(b, k)
    }) by {
        let t = k as u8;
        if t < 4 {
            let u = (t + 4) as u8;
            assert((h >> t) & 1 == (a >> u) & 1) by (bit_vector)
                requires
                    h == a / 16 + 16 * (b / 16),
                    t < 4,
                    u == t + 4,
            ;
        } else {
            assert((h >> t) & 1 == (b >> t) & 1) by (bit_vector)
                requires
                    h == a / 16 + 16 * (b / 16),
                    4 <= t < 8,
            ;
        }
    }
}

/// Where the bits of two bytes stand once their low nibbles are joined.
pub proof fn lemma_low_bits(a: u8, b: u8, l: u8)
    requires
        l == a % 16 + 16 * (b % 16),
    ensures
        forall|k: int|
            0 <= k < 8 ==> #[trigger] bit(l, k) == (if k < 4 {
                bit(a, k)
            } else {
                bit(b, k - 4)
            }),
{
    assert forall|k: int| 0 <= k < 8 implies #[trigger] bit(l, k) == (if k < 4 {
        bit(a, k)
    } else {
        bit(b, k - 4)
    }) by {
        let t = k as u8;
        if t < 4 {
            assert((l >> t) & 1 == (a >> t) & 1) by (bit_vector)
                requires
                    l == a % 16 + 16 * (b % 16),
                    t < 4,
            ;
        } else {
            let u = (t - 4) as u8;
            assert((l >> t) & 1 == (b >> u) & 1) by (bit_vector)
                requires
                    l == a % 16 + 16 * (b % 16),
                    4 <= t < 8,
                    u == t - 4,
            ;
        }
    }
}

/// Joining the nibbles of two bytes keeps their set bits.
proof fn lemma_nibbles_keep_ones(a: u8, b: u8)
    ensures
        ones(join_nibbles(a / 16, b / 16)) + ones(join_nibbles(a % 16, b % 16)) == ones(a) + ones(
            b,
        ),
{
    let h = join_nibbles(a / 16, b / 16);
    let l = join_nibbles(a % 16, b % 16);
    assert forall|k: int| 0 <= k < 4 implies #[trigger] digit(h, k) == digit(a, k + 4) by {
        lemma_high_bits(a, b, h);
        lemma_digit(h, k, a, k + 4);
    }
    assert forall|k: int| 4 <= k < 8 implies #[trigger] digit(h, k) == digit(b, k) by {
        lemma_high_bits(a, b, h);
        lemma_digit(h, k, b, k);
    }
    assert forall|k: int| 0 <= k < 4 implies #[trigger] digit(l, k) == digit(a, k) by {
        lemma_low_bits(a, b, l);
        lemma_digit(l, k, a, k);
    }
    assert forall|k: int| 4 <= k < 8 implies #[trigger] digit(l, k) == digit(b, k - 4) by {
        lemma_low_bits(a, b, l);
        lemma_digit(l, k, b, k - 4);
    }
    lemma_ones(a);
    lemma_ones(b);
    lemma_ones(h);
    lemma_ones(l);
}

/// The set bits of zero.
proof fn lemma_ones_of_zero()
    ensures
        ones(0) == 0,
{
    lemma_zero_bits();
    lemma_total_zero(|k: int| weight(bit(0, k), 1), 8);
}

// ---------------------------------------------------------------------------
// Arranging
// ---------------------------------------------------------------------------

/// A sum over sixteen terms, in the order of the interleaving.
proof fn lemma_interleaved_total(k: spec_fn(int) -> nat)
    ensures
        total(|j: int| k(interleave(j)), 16) == total(k, 16),
{
    reveal_with_fuel(total, 17);
}

/// A byte group of a block has the set bits of its vectors.
proof fn lemma_lanes_keep_ones(
    layout: Layout,
    row: spec_fn(int, int) -> u8,
    block: int,
    g: int,
)
    ensures
        total(|lane: int| ones(arrange(layout, row, block, g, lane)), BLOCK as int) == total(
            |l: int| ones(row(block * BLOCK + l, g)),
            BLOCK as int,
        ),
{
    let f = |lane: int| ones(arrange(layout, row, block, g, lane));
    let h = |l: int| ones(row(block * BLOCK + l, g));
    match layout {
        Layout::Sequential => {
            lemma_total_same(f, h, BLOCK as int);
        },
        Layout::Interleaved => {
            let f_up = |j: int| f(16 + j);
            let h_up = |j: int| h(16 + j);
            let k = |m: int| h(m) + h_up(m);
            lemma_total_concat(f, 16, 16);
            lemma_total_concat(h, 16, 16);
            lemma_total_plus(f, f_up, 16);
            lemma_total_plus(h, h_up, 16);
            assert forall|j: int| 0 <= j < 16 implies #[trigger] f(j) + f_up(j) == k(
                interleave(j),
            ) by {
                let l = interleave(j);
                let a = row(block * BLOCK + l, g);
                let b = row(block * BLOCK + l + 16, g);
                assert(block * BLOCK + (16 + l) == block * BLOCK + l + 16);
                assert((16 + j) % 16 == j);
                lemma_nibbles_keep_ones(a, b);
            }
            lemma_total_same(|j: int| f(j) + f_up(j), |j: int| k(interleave(j)), 16);
            lemma_interleaved_total(k);
        },
    }
}

/// Blocks have the set bits of their vectors.
proof fn lemma_blocks_keep_ones(
    layout: Layout,
    row: spec_fn(int, int) -> u8,
    blocks: int,
    groups: int,
)
    requires
        0 <= blocks,
        0 <= groups,
    ensures
        count_ones(arranged(layout, row, blocks, groups)) == total(
            |v: int| total(|g: int| ones(row(v, g)), groups),
            blocks * BLOCK,
        ),
{
    let s = arranged(layout, row, blocks, groups);
    let at = |i: int| ones(s[i]);
    let slot = |t: int| total(|lane: int| at(t * BLOCK + lane), BLOCK as int);
    let vector = |v: int| total(|g: int| ones(row(v, g)), groups);
    assert(0 <= blocks * groups && 0 <= blocks * groups * BLOCK) by (nonlinear_arith)
        requires
            0 <= blocks,
            0 <= groups,
            BLOCK == 32,
    ;
    lemma_total_rows(at, blocks * groups, BLOCK as int);
    lemma_total_rows(slot, blocks, groups);
    lemma_total_rows(vector, blocks, BLOCK as int);
    let by_slot = |b: int| total(|g: int| slot(b * groups + g), groups);
    let by_vector = |b: int| total(|l: int| vector(b * BLOCK + l), BLOCK as int);
    assert forall|b: int| 0 <= b < blocks implies #[trigger] by_slot(b) == by_vector(b) by {
        let cell = |g: int, l: int| ones(row(b * BLOCK + l, g));
        let column = |g: int| total(|l: int| cell(g, l), BLOCK as int);
        let line = |l: int| total(|g: int| cell(g, l), groups);
        assert forall|g: int| 0 <= g < groups implies #[trigger] slot(b * groups + g) == column(
            g,
        ) by {
            let t = b * groups + g;
            let here = |lane: int| at(t * BLOCK + lane);
            let want = |lane: int| ones(arrange(layout, row, b, g, lane));
            assert forall|lane: int| 0 <= lane < BLOCK implies #[trigger] here(lane) == want(
                lane,
            ) by {
                lemma_position(groups, b, g, lane);
                lemma_slot_bound(groups, blocks, b, g);
                assert(0 <= t) by (nonlinear_arith)
                    requires
                        t == b * groups + g,
                        0 <= b,
                        0 <= g < groups,
                ;
            }
            lemma_total_same(here, want, BLOCK as int);
            lemma_lanes_keep_ones(layout, row, b, g);
            lemma_total_same(
                |l: int| ones(row(b * BLOCK + l, g)),
                |l: int| cell(g, l),
                BLOCK as int,
            );
        }
        lemma_total_same(|g: int| slot(b * groups + g), column, groups);
        lemma_total_swap(cell, groups, BLOCK as int);
        assert forall|l: int| 0 <= l < BLOCK implies #[trigger] vector(b * BLOCK + l) == line(
            l,
        ) by {
            lemma_total_same(
                |g: int| ones(row(b * BLOCK + l, g)),
                |g: int| cell(g, l),
                groups,
            );
        }
        lemma_total_same(|l: int| vector(b * BLOCK + l), line, BLOCK as int);
    }
    lemma_total_same(by_slot, by_vector, blocks);
}

// ---------------------------------------------------------------------------
// Byte groups
// ---------------------------------------------------------------------------

/// Bit `p` of code `j` as a number.
spec fn code_bit(codes: Seq<u8>, row: int, plane: int, p: int, j: int) -> nat {
    weight(plane_bit(codes, row, plane, p, j), 1)
}

/// The set bits of the `planes` low bits of code `j`.
spec fn code_ones(codes: Seq<u8>, row: int, plane: int, planes: int, j: int) -> nat {
    total(|p: int| code_bit(codes, row, plane, p, j), planes)
}

/// A byte group has the set bits of its codes.
proof fn lemma_group_ones(
    codes: Seq<u8>,
    row: int,
    plane: int,
    planes: int,
    width: int,
    per_byte: int,
    g: int,
)
    requires
        1 <= planes <= width,
        1 <= per_byte,
        per_byte * width <= 8,
    ensures
        ones(group_byte(codes, row, plane, planes, width, per_byte, g)) == total(
            |c: int| code_ones(codes, row, plane, planes, g * per_byte + c),
            per_byte,
        ),
{
    let f = |k: int|
        k / width < per_byte && k % width < planes && plane_bit(
            codes,
            row,
            plane,
            k % width,
            g * per_byte + (per_byte - 1 - k / width),
        );
    let place = |k: int| weight(f(k), 1);
    let byte = byte_of(f);
    let of_byte = |k: int| weight(bit(byte, k), 1);
    lemma_byte_of_bits(f);
    assert forall|k: int| 0 <= k < 8 implies #[trigger] of_byte(k) == place(k) by {
        assert(bit(byte, k) == f(k));
    }
    lemma_total_same(of_byte, place, 8);
    assert(0 <= per_byte * width) by (nonlinear_arith)
        requires
            1 <= per_byte,
            1 <= width,
    ;
    assert forall|k: int| per_byte * width <= k < 8 implies #[trigger] place(k) == 0 by {
        assert(k / width >= per_byte) by (nonlinear_arith)
            requires
                per_byte * width <= k,
                width >= 1,
        ;
    }
    lemma_total_tail(place, per_byte * width, 8);
    lemma_total_rows(place, per_byte, width);
    let code = |c: int| code_ones(codes, row, plane, planes, g * per_byte + c);
    let field = |q: int| total(|r: int| place(q * width + r), width);
    let back = |q: int| code(per_byte - 1 - q);
    assert forall|q: int| 0 <= q < per_byte implies #[trigger] field(q) == back(q) by {
        let j = g * per_byte + (per_byte - 1 - q);
        let here = |r: int| place(q * width + r);
        let want = |p: int| code_bit(codes, row, plane, p, j);
        assert forall|r: int| 0 <= r < width implies #[trigger] here(r) == (if r < planes {
            want(r)
        } else {
            0
        }) by {
            lemma_fundamental_div_mod_converse(q * width + r, width, q, r);
        }
        lemma_total_tail(here, planes, width);
        lemma_total_same(here, want, planes);
    }
    lemma_total_same(field, back, per_byte);
    lemma_total_reverse(code, per_byte);
}

/// A byte of a plane has the set bits that it gives eight codes.
proof fn lemma_plane_byte_ones(codes: Seq<u8>, row: int, plane: int, p: int, q: int)
    ensures
        total(|t: int| code_bit(codes, row, plane, p, q * 8 + t), 8) == ones(
            codes[row + p * plane + q],
        ),
{
    let byte = codes[row + p * plane + q];
    let up = |k: int| weight(bit(byte, k), 1);
    let down = |t: int| up(8 - 1 - t);
    let here = |t: int| code_bit(codes, row, plane, p, q * 8 + t);
    assert forall|t: int| 0 <= t < 8 implies #[trigger] here(t) == down(t) by {
        assert((q * 8 + t) / 8 == q && (q * 8 + t) % 8 == t);
    }
    lemma_total_same(here, down, 8);
    lemma_total_reverse(up, 8);
}

/// The byte groups of a vector have the set bits of the planes they are made
/// of.
proof fn lemma_vector_ones(
    codes: Seq<u8>,
    row: int,
    dim: int,
    planes: int,
    width: int,
    per_byte: int,
    groups: int,
)
    requires
        0 <= dim,
        dim % 8 == 0,
        1 <= planes <= width,
        1 <= per_byte,
        per_byte * width <= 8,
        0 <= groups,
        groups * per_byte == dim,
    ensures
        total(
            |g: int| ones(group_byte(codes, row, dim / 8, planes, width, per_byte, g)),
            groups,
        ) == total(|k: int| ones(codes[row + k]), planes * (dim / 8)),
{
    let plane = dim / 8;
    let code = |j: int| code_ones(codes, row, plane, planes, j);
    let group = |g: int| ones(group_byte(codes, row, plane, planes, width, per_byte, g));
    let group_codes = |g: int| total(|c: int| code(g * per_byte + c), per_byte);
    assert forall|g: int| 0 <= g < groups implies #[trigger] group(g) == group_codes(g) by {
        lemma_group_ones(codes, row, plane, planes, width, per_byte, g);
        lemma_total_same(
            |c: int| code_ones(codes, row, plane, planes, g * per_byte + c),
            |c: int| code(g * per_byte + c),
            per_byte,
        );
    }
    lemma_total_same(group, group_codes, groups);
    lemma_total_rows(code, groups, per_byte);
    let cell = |j: int, p: int| code_bit(codes, row, plane, p, j);
    let line = |j: int| total(|p: int| cell(j, p), planes);
    let column = |p: int| total(|j: int| cell(j, p), dim);
    assert forall|j: int| 0 <= j < dim implies #[trigger] code(j) == line(j) by {
        lemma_total_same(
            |p: int| code_bit(codes, row, plane, p, j),
            |p: int| cell(j, p),
            planes,
        );
    }
    lemma_total_same(code, line, dim);
    lemma_total_swap(cell, dim, planes);
    let byte = |k: int| ones(codes[row + k]);
    let plane_bytes = |p: int| total(|q: int| byte(p * plane + q), plane);
    assert forall|p: int| 0 <= p < planes implies #[trigger] column(p) == plane_bytes(p) by {
        let along = |j: int| cell(j, p);
        let eight = |q: int| total(|t: int| along(q * 8 + t), 8);
        lemma_total_rows(along, plane, 8);
        assert(plane * 8 == dim);
        assert forall|q: int| 0 <= q < plane implies #[trigger] eight(q) == byte(
            p * plane + q,
        ) by {
            lemma_plane_byte_ones(codes, row, plane, p, q);
            lemma_total_same(
                |t: int| along(q * 8 + t),
                |t: int| code_bit(codes, row, plane, p, q * 8 + t),
                8,
            );
            assert(row + (p * plane + q) == row + p * plane + q);
        }
        lemma_total_same(eight, |q: int| byte(p * plane + q), plane);
    }
    lemma_total_same(column, plane_bytes, planes);
    lemma_total_rows(byte, planes, plane);
}

// ---------------------------------------------------------------------------
// All vectors
// ---------------------------------------------------------------------------

/// A range of rows has the set bits of each of them.
proof fn lemma_rows_ones(codes: Seq<u8>, start: int, n: int, size: int)
    requires
        0 <= start <= n,
        0 <= size,
        n * size <= codes.len(),
    ensures
        count_ones(codes.subrange(start * size, n * size)) == total(
            |v: int| total(|k: int| ones(codes[(start + v) * size + k]), size),
            n - start,
        ),
{
    let s = codes.subrange(start * size, n * size);
    assert(0 <= start * size <= n * size && (n - start) * size == n * size - start * size)
        by (nonlinear_arith)
        requires
            0 <= start <= n,
            0 <= size,
    ;
    let at = |i: int| ones(s[i]);
    let rows = |v: int| total(|k: int| at(v * size + k), size);
    let want = |v: int| total(|k: int| ones(codes[(start + v) * size + k]), size);
    lemma_total_rows(at, n - start, size);
    assert forall|v: int| 0 <= v < n - start implies #[trigger] rows(v) == want(v) by {
        let here = |k: int| at(v * size + k);
        let there = |k: int| ones(codes[(start + v) * size + k]);
        assert((start + v) * size == start * size + v * size && 0 <= v * size && v * size + size
            <= (n - start) * size) by (nonlinear_arith)
            requires
                0 <= v,
                v + 1 <= n - start,
                0 <= size,
        ;
        assert forall|k: int| 0 <= k < size implies #[trigger] here(k) == there(k) by {}
        lemma_total_same(here, there, size);
    }
    lemma_total_same(rows, want, n - start);
}

/// The blocks from `first_block` on, as an arrangement of their own.
proof fn lemma_blocked_is_arranged(
    layout: Layout,
    codes: Seq<u8>,
    n: int,
    bits: int,
    dim: int,
    first_block: int,
)
    requires
        0 <= byte_groups(bits, dim),
        0 <= first_block,
        first_block * BLOCK < n,
    ensures
        blocked(layout, codes, n, bits, dim, first_block) == arranged(
            layout,
            |v: int, g: int| vector_byte(codes, n, bits, dim, first_block * BLOCK + v, g),
            block_count(n) - first_block,
            byte_groups(bits, dim),
        ),
{
    let groups = byte_groups(bits, dim);
    let blocks = block_count(n) - first_block;
    let whole = |v: int, g: int| vector_byte(codes, n, bits, dim, v, g);
    let part = |v: int, g: int| vector_byte(codes, n, bits, dim, first_block * BLOCK + v, g);
    let a = blocked(layout, codes, n, bits, dim, first_block);
    let b = arranged(layout, part, blocks, groups);
    assert(blocks * (groups * BLOCK) == blocks * groups * BLOCK) by (nonlinear_arith);
    assert forall|i: int| 0 <= i < a.len() implies a[i] == b[i] by {
        let block = i / BLOCK as int / groups;
        let g = i / BLOCK as int % groups;
        let lane = i % BLOCK as int;
        let l = interleave(lane % 16);
        assert((first_block + block) * BLOCK == first_block * BLOCK + block * BLOCK);
        assert(whole((first_block + block) * BLOCK + lane, g) == part(block * BLOCK + lane, g));
        assert(whole((first_block + block) * BLOCK + l, g) == part(block * BLOCK + l, g));
        assert(whole((first_block + block) * BLOCK + l + 16, g) == part(
            block * BLOCK + l + 16,
            g,
        ));
        assert(arrange(layout, whole, first_block + block, g, lane) == arrange(
            layout,
            part,
            block,
            g,
            lane,
        ));
    }
    assert(a =~= b);
}

/// Vectors past the last one add nothing.
proof fn lemma_past_vectors_add_nothing(
    row: spec_fn(int, int) -> u8,
    vectors: int,
    lanes: int,
    groups: int,
)
    requires
        0 <= vectors <= lanes,
        forall|v: int, g: int| vectors <= v ==> #[trigger] row(v, g) == 0,
    ensures
        total(|v: int| total(|g: int| ones(row(v, g)), groups), lanes) == total(
            |v: int| total(|g: int| ones(row(v, g)), groups),
            vectors,
        ),
{
    let vector = |v: int| total(|g: int| ones(row(v, g)), groups);
    assert forall|v: int| vectors <= v < lanes implies #[trigger] vector(v) == 0 by {
        let cells = |g: int| ones(row(v, g));
        assert forall|g: int| 0 <= g < groups implies #[trigger] cells(g) == 0 by {
            assert(row(v, g) == 0);
            lemma_ones_of_zero();
        }
        lemma_total_zero(cells, groups);
    }
    lemma_total_tail(vector, vectors, lanes);
}

/// Repacking keeps the number of set bits: the blocks from `first_block` on
/// have as many as the codes of their vectors.
pub proof fn law_repack_keeps_set_bits(
    layout: Layout,
    codes: Seq<u8>,
    n: int,
    bits: int,
    dim: int,
    first_block: int,
)
    requires
        1 <= bits <= 8,
        0 <= dim,
        dim % 8 == 0,
        0 <= first_block,
        n * row_bytes(bits, dim) <= codes.len(),
    ensures
        count_ones(blocked(layout, codes, n, bits, dim, first_block)) == count_ones(
            range_codes(codes, n, bits, dim, first_block),
        ),
{
    let start = first_block * BLOCK;
    let groups = byte_groups(bits, dim);
    let blocks = block_count(n) - first_block;
    let size = row_bytes(bits, dim);
    lemma_field_fits(bits);
    lemma_groups_cover(bits, dim);
    if start < n {
        assert(0 <= size) by (nonlinear_arith)
            requires
                size == bits * (dim / 8),
                bits >= 1,
                dim / 8 >= 0,
        ;
        let row = |v: int, g: int| vector_byte(codes, n, bits, dim, start + v, g);
        let vector = |v: int| total(|g: int| ones(row(v, g)), groups);
        let bytes = |v: int| total(|k: int| ones(codes[(start + v) * size + k]), size);
        lemma_blocked_is_arranged(layout, codes, n, bits, dim, first_block);
        lemma_blocks_keep_ones(layout, row, blocks, groups);
        lemma_past_vectors_add_nothing(row, n - start, blocks * BLOCK, groups);
        assert forall|v: int| 0 <= v < n - start implies #[trigger] vector(v) == bytes(v) by {
            let at = (start + v) * size;
            lemma_vector_ones(
                codes,
                at,
                dim,
                bits,
                code_width(bits),
                codes_per_byte(bits),
                groups,
            );
            lemma_total_same(
                |g: int| ones(row(v, g)),
                |g: int|
                    ones(
                        group_byte(
                            codes,
                            at,
                            dim / 8,
                            bits,
                            code_width(bits),
                            codes_per_byte(bits),
                            g,
                        ),
                    ),
                groups,
            );
            lemma_total_same(
                |k: int| ones(codes[at + k]),
                |k: int| ones(codes[(start + v) * size + k]),
                size,
            );
        }
        lemma_total_same(vector, bytes, n - start);
        lemma_rows_ones(codes, start, n, size);
    }
}

/// Splitting 3-bit codes into their two parts keeps the number of set bits:
/// the two arrays together have as many as the codes of the `n` vectors.
pub proof fn law_3bit_keeps_set_bits(codes: Seq<u8>, n: int, dim: int)
    requires
        0 <= n,
        0 <= dim,
        dim % 8 == 0,
        n * row_bytes(3, dim) <= codes.len(),
    ensures
        count_ones(low_array(codes, n, dim)) + count_ones(high_array(codes, n, dim)) == count_ones(
            codes.take(n * row_bytes(3, dim)),
        ),
{
    let plane = dim / 8;
    let size = row_bytes(3, dim);
    let blocks = block_count(n);
    let low = |v: int, g: int| low_planes_byte(codes, n, dim, v, g);
    let high = |v: int, g: int| high_plane_byte(codes, n, dim, v, g);
    let low_ones = |v: int| total(|g: int| ones(low(v, g)), dim / 4);
    let high_ones = |v: int| total(|g: int| ones(high(v, g)), plane);
    let bytes = |v: int| total(|k: int| ones(codes[(0 + v) * size + k]), size);
    lemma_blocks_keep_ones(Layout::Sequential, low, blocks, dim / 4);
    lemma_blocks_keep_ones(Layout::Sequential, high, blocks, plane);
    lemma_past_vectors_add_nothing(low, n, blocks * BLOCK, dim / 4);
    lemma_past_vectors_add_nothing(high, n, blocks * BLOCK, plane);
    assert forall|v: int| 0 <= v < n implies #[trigger] low_ones(v) + high_ones(v) == bytes(
        v,
    ) by {
        let at = v * size;
        let byte = |k: int| ones(codes[at + k]);
        lemma_vector_ones(codes, at, dim, 2, 2, 4, dim / 4);
        lemma_total_same(
            |g: int| ones(low(v, g)),
            |g: int| ones(group_byte(codes, at, plane, 2, 2, 4, g)),
            dim / 4,
        );
        lemma_total_concat(byte, 2 * plane, plane);
        let above = |i: int| byte(2 * plane + i);
        assert forall|g: int| 0 <= g < plane implies #[trigger] above(g) == ones(high(v, g)) by {
            assert(at + (2 * plane + g) == at + 2 * plane + g);
        }
        lemma_total_same(above, |g: int| ones(high(v, g)), plane);
        assert(2 * plane + plane == size);
        assert((0 + v) * size == at);
        lemma_total_same(byte, |k: int| ones(codes[(0 + v) * size + k]), size);
    }
    lemma_total_plus(low_ones, high_ones, n);
    lemma_total_same(|v: int| low_ones(v) + high_ones(v), bytes, n);
    lemma_rows_ones(codes, 0, n, size);
    assert(0 * size == 0);
    assert(codes.subrange(0, n * size) =~= codes.take(n * size));
}

} // verus!
