//! What holds of the blocked layout as a whole.

use crate::bits::{bit, byte_of, lemma_byte_of_bits, lemma_is_byte_of, lemma_same_bits};
use crate::pack::{
    arrange, arranged, block_bytes, block_count, blocked, blocked_at, byte_groups, code_width,
    codes_in_range, codes_per_byte, group_byte, high_array, high_plane_byte, interleave,
    join_nibbles, lemma_field_fits, lemma_group_in_range, lemma_position, lemma_slot_bound,
    low_array, low_planes_byte, plane_bit, plane_of, range_codes, row_bytes, row_of, vector_byte,
    Layout,
};
use crate::BLOCK;
use vstd::arithmetic::div_mod::{
    lemma_div_is_ordered, lemma_fundamental_div_mod, lemma_fundamental_div_mod_converse,
};
use vstd::prelude::*;

verus! {

/// The parts of a position below `blocks * groups * BLOCK`.
proof fn lemma_parts(i: int, blocks: int, groups: int)
    requires
        0 <= i < blocks * groups * BLOCK,
        0 <= blocks,
        0 <= groups,
    ensures
        0 < groups,
        0 <= i / BLOCK as int / groups < blocks,
        0 <= i / BLOCK as int % groups < groups,
        0 <= i % (BLOCK as int) < BLOCK,
        i == (i / BLOCK as int / groups * groups + i / BLOCK as int % groups) * BLOCK + i
            % BLOCK as int,
{
    assert(groups > 0) by (nonlinear_arith)
        requires
            0 <= i < blocks * groups * BLOCK,
            0 <= groups,
            BLOCK == 32,
    ;
    let slot = i / BLOCK as int;
    lemma_fundamental_div_mod(slot, groups);
    assert(0 <= slot < blocks * groups);
    assert(0 <= slot / groups < blocks) by (nonlinear_arith)
        requires
            slot == groups * (slot / groups) + slot % groups,
            0 <= slot % groups < groups,
            0 <= slot < blocks * groups,
    ;
    assert(groups * (slot / groups) == slot / groups * groups) by (nonlinear_arith);
}

/// Skipping whole blocks shifts a position's block and nothing else.
proof fn lemma_shifted_position(i: int, groups: int, first: int)
    requires
        0 <= i,
        0 < groups,
        0 <= first,
    ensures
        (i + first * (groups * BLOCK)) / BLOCK as int / groups == first + i / BLOCK as int / groups,
        (i + first * (groups * BLOCK)) / BLOCK as int % groups == i / BLOCK as int % groups,
        (i + first * (groups * BLOCK)) % BLOCK as int == i % BLOCK as int,
{
    let slot = i / BLOCK as int;
    let lane = i % BLOCK as int;
    lemma_fundamental_div_mod(slot, groups);
    let block = slot / groups;
    let g = slot % groups;
    assert(block >= 0) by (nonlinear_arith)
        requires
            slot == groups * block + g,
            slot >= 0,
            g < groups,
            groups > 0,
    ;
    assert(groups * block == block * groups) by (nonlinear_arith);
    assert(i + first * (groups * BLOCK) == ((first + block) * groups + g) * BLOCK + lane)
        by (nonlinear_arith)
        requires
            i == slot * BLOCK + lane,
            slot == block * groups + g,
    ;
    lemma_position(groups, first + block, g, lane);
}

/// Repacking from a block on gives what a full repack gives from that block on.
pub proof fn law_range_is_suffix(
    layout: Layout,
    codes: Seq<u8>,
    n: int,
    bits: int,
    dim: int,
    first_block: int,
)
    requires
        1 <= bits <= 8,
        0 <= dim,
        0 <= n,
        0 <= first_block <= block_count(n),
    ensures
        blocked(layout, codes, n, bits, dim, first_block) == blocked(
            layout,
            codes,
            n,
            bits,
            dim,
            0,
        ).skip(first_block * block_bytes(bits, dim)),
{
    lemma_field_fits(bits);
    let groups = byte_groups(bits, dim);
    let per = block_bytes(bits, dim);
    let full = blocked(layout, codes, n, bits, dim, 0);
    let part = blocked(layout, codes, n, bits, dim, first_block);
    assert(groups >= 0) by (nonlinear_arith)
        requires
            groups == dim / codes_per_byte(bits),
            dim >= 0,
            codes_per_byte(bits) >= 1,
    ;
    assert(0 <= first_block * per <= block_count(n) * per) by (nonlinear_arith)
        requires
            0 <= first_block <= block_count(n),
            per == groups * BLOCK,
            groups >= 0,
            BLOCK == 32,
    ;
    assert((block_count(n) - first_block) * per == block_count(n) * per - first_block * per)
        by (nonlinear_arith);
    assert(part.len() == full.len() - first_block * per);
    assert forall|i: int| 0 <= i < part.len() implies part[i] == full.skip(first_block * per)[i] by {
        assert(groups > 0) by (nonlinear_arith)
            requires
                0 <= i < (block_count(n) - first_block) * per,
                per == groups * BLOCK,
                groups >= 0,
        ;
        lemma_shifted_position(i, groups, first_block);
    }
    assert(part =~= full.skip(first_block * per));
}

/// Rows that agree on every byte of a group give the same group.
proof fn lemma_group_congruent(
    a: Seq<u8>,
    b: Seq<u8>,
    row: int,
    plane: int,
    planes: int,
    width: int,
    per_byte: int,
    g: int,
)
    requires
        1 <= width,
        forall|p: int, j: int|
            0 <= p < planes && g * per_byte <= j < g * per_byte + per_byte ==> #[trigger] plane_bit(
                a,
                row,
                plane,
                p,
                j,
            ) == plane_bit(b, row, plane, p, j),
    ensures
        group_byte(a, row, plane, planes, width, per_byte, g) == group_byte(
            b,
            row,
            plane,
            planes,
            width,
            per_byte,
            g,
        ),
{
    let fa = |k: int|
        k / width < per_byte && k % width < planes && plane_bit(
            a,
            row,
            plane,
            k % width,
            g * per_byte + (per_byte - 1 - k / width),
        );
    let fb = |k: int|
        k / width < per_byte && k % width < planes && plane_bit(
            b,
            row,
            plane,
            k % width,
            g * per_byte + (per_byte - 1 - k / width),
        );
    lemma_byte_of_bits(fa);
    assert forall|k: int| 0 <= k < 8 implies #[trigger] bit(byte_of(fa), k) == fb(k) by {
        assert(bit(byte_of(fa), k) == fa(k));
        assert(k / width >= 0 && k % width >= 0) by (nonlinear_arith)
            requires
                k >= 0,
                width >= 1,
        ;
        if k / width < per_byte && k % width < planes {
            let j = g * per_byte + (per_byte - 1 - k / width);
            assert(plane_bit(a, row, plane, k % width, j) == plane_bit(b, row, plane, k % width, j));
        }
    }
    lemma_is_byte_of(byte_of(fa), fb);
}

/// Two code arrays whose vectors have the same bytes on a block give the same
/// blocked bytes there.
proof fn lemma_block_congruent(
    layout: Layout,
    a: Seq<u8>,
    b: Seq<u8>,
    na: int,
    nb: int,
    bits: int,
    dim: int,
    block: int,
    g: int,
    lane: int,
)
    requires
        0 <= lane < BLOCK,
        forall|l: int|
            0 <= l < BLOCK ==> vector_byte(a, na, bits, dim, #[trigger] (block * BLOCK + l), g)
                == vector_byte(b, nb, bits, dim, block * BLOCK + l, g),
    ensures
        blocked_at(layout, a, na, bits, dim, block, g, lane) == blocked_at(
            layout,
            b,
            nb,
            bits,
            dim,
            block,
            g,
            lane,
        ),
{
    match layout {
        Layout::Sequential => {
            assert(vector_byte(a, na, bits, dim, block * BLOCK + lane, g) == vector_byte(
                b,
                nb,
                bits,
                dim,
                block * BLOCK + lane,
                g,
            ));
        },
        Layout::Interleaved => {
            let l = interleave(lane % 16);
            assert(vector_byte(a, na, bits, dim, block * BLOCK + l, g) == vector_byte(
                b,
                nb,
                bits,
                dim,
                block * BLOCK + l,
                g,
            ));
            assert(vector_byte(a, na, bits, dim, block * BLOCK + (l + 16), g) == vector_byte(
                b,
                nb,
                bits,
                dim,
                block * BLOCK + (l + 16),
                g,
            ));
            assert(block * BLOCK + l + 16 == block * BLOCK + (l + 16));
        },
    }
}

/// Codes that were appended behind the codes of `n_old` vectors leave the
/// bytes of those vectors as they were.
proof fn lemma_append_keeps_vector(
    old_codes: Seq<u8>,
    new_codes: Seq<u8>,
    n_old: int,
    n_new: int,
    bits: int,
    dim: int,
    v: int,
    g: int,
)
    requires
        1 <= bits <= 8,
        0 <= dim,
        0 <= v < n_old <= n_new,
        0 <= g < byte_groups(bits, dim),
        codes_in_range(old_codes.len() as int, n_old, bits, dim),
        old_codes.is_prefix_of(new_codes),
    ensures
        vector_byte(old_codes, n_old, bits, dim, v, g) == vector_byte(
            new_codes,
            n_new,
            bits,
            dim,
            v,
            g,
        ),
{
    lemma_field_fits(bits);
    lemma_group_in_range(old_codes.len() as int, n_old, bits, dim, v, g);
    let row = v * row_bytes(bits, dim);
    let plane = dim / 8;
    let cpb = codes_per_byte(bits);
    assert forall|p: int, j: int|
        0 <= p < bits && g * cpb <= j < g * cpb + cpb implies #[trigger] plane_bit(
        old_codes,
        row,
        plane,
        p,
        j,
    ) == plane_bit(new_codes, row, plane, p, j) by {
        assert(0 <= p * plane <= (bits - 1) * plane) by (nonlinear_arith)
            requires
                0 <= p <= bits - 1,
                0 <= plane,
        ;
        lemma_div_is_ordered(j, g * cpb + cpb - 1, 8);
        let at = row + p * plane + j / 8;
        assert(0 <= at < old_codes.len());
        assert(old_codes[at] == new_codes[at]);
    }
    lemma_group_congruent(old_codes, new_codes, row, plane, bits, code_width(bits), cpb, g);
}

/// After vectors were appended, the blocked form of all of them is the old
/// one, cut at the last full block, followed by the repacked tail.
pub proof fn law_incremental_repack(
    layout: Layout,
    old_codes: Seq<u8>,
    new_codes: Seq<u8>,
    n_old: int,
    n_new: int,
    bits: int,
    dim: int,
)
    requires
        1 <= bits <= 8,
        0 <= dim,
        0 <= n_old <= n_new,
        codes_in_range(old_codes.len() as int, n_old, bits, dim),
        old_codes.is_prefix_of(new_codes),
    ensures
        blocked(layout, new_codes, n_new, bits, dim, 0) == blocked(
            layout,
            old_codes,
            n_old,
            bits,
            dim,
            0,
        ).take(n_old / BLOCK as int * block_bytes(bits, dim)) + blocked(
            layout,
            new_codes,
            n_new,
            bits,
            dim,
            n_old / BLOCK as int,
        ),
{
    let first = n_old / BLOCK as int;
    let per = block_bytes(bits, dim);
    let groups = byte_groups(bits, dim);
    let was = blocked(layout, old_codes, n_old, bits, dim, 0);
    let full = blocked(layout, new_codes, n_new, bits, dim, 0);
    let tail = blocked(layout, new_codes, n_new, bits, dim, first);
    law_range_is_suffix(layout, new_codes, n_new, bits, dim, first);
    lemma_field_fits(bits);
    assert(groups >= 0) by (nonlinear_arith)
        requires
            groups == dim / codes_per_byte(bits),
            dim >= 0,
            codes_per_byte(bits) >= 1,
    ;
    assert(0 <= first * per <= block_count(n_old) * per && first * per <= block_count(n_new) * per)
        by (nonlinear_arith)
        requires
            0 <= first <= block_count(n_old),
            first <= block_count(n_new),
            per == groups * BLOCK,
            groups >= 0,
            BLOCK == 32,
    ;
    assert(first * per == first * groups * BLOCK) by (nonlinear_arith)
        requires
            per == groups * BLOCK,
    ;
    assert(first * per <= was.len() && first * per <= full.len()) by {
        if n_old == 0 {
            assert(first * per == 0) by (nonlinear_arith)
                requires
                    first == 0,
            ;
        }
    }
    assert forall|i: int| 0 <= i < first * per implies was[i] == full[i] by {
        lemma_parts(i, first, groups);
        let block = i / BLOCK as int / groups;
        let g = i / BLOCK as int % groups;
        let lane = i % BLOCK as int;
        assert forall|l: int| 0 <= l < BLOCK implies vector_byte(
            old_codes,
            n_old,
            bits,
            dim,
            #[trigger] (block * BLOCK + l),
            g,
        ) == vector_byte(new_codes, n_new, bits, dim, block * BLOCK + l, g) by {
            lemma_append_keeps_vector(
                old_codes,
                new_codes,
                n_old,
                n_new,
                bits,
                dim,
                block * BLOCK + l,
                g,
            );
        }
        lemma_block_congruent(
            layout,
            old_codes,
            new_codes,
            n_old,
            n_new,
            bits,
            dim,
            block,
            g,
            lane,
        );
    }
    assert(full =~= was.take(first * per) + tail);
}

/// The last code of byte group `g` is a code of the vector.
proof fn lemma_group_within(bits: int, dim: int, g: int)
    requires
        1 <= bits <= 8,
        0 <= dim,
        0 <= g < byte_groups(bits, dim),
    ensures
        0 <= g * codes_per_byte(bits),
        g * codes_per_byte(bits) + codes_per_byte(bits) <= dim,
{
    lemma_field_fits(bits);
    let cpb = codes_per_byte(bits);
    let groups = byte_groups(bits, dim);
    assert(g * cpb >= 0 && g * cpb + cpb <= groups * cpb) by (nonlinear_arith)
        requires
            0 <= g,
            g + 1 <= groups,
            cpb >= 1,
    ;
    lemma_fundamental_div_mod(dim, cpb);
    assert(groups * cpb == cpb * groups) by (nonlinear_arith);
}

/// Byte `q` of plane `p` lies within its row.
proof fn lemma_within_row(bits: int, plane: int, p: int, q: int)
    by (nonlinear_arith)
    requires
        0 <= p < bits,
        0 <= q < plane,
    ensures
        0 <= p * plane,
        0 <= p * plane + q < bits * plane,
{
}

/// The row of vector `v` lies within the rows of `n` vectors.
proof fn lemma_row_within(v: int, n: int, size: int)
    by (nonlinear_arith)
    requires
        0 <= v < n,
        0 <= size,
    ensures
        0 <= v * size,
        v * size + size <= n * size,
{
}

/// Vectors with the same row have the same byte groups.
proof fn lemma_same_row(
    a: Seq<u8>,
    b: Seq<u8>,
    na: int,
    nb: int,
    bits: int,
    dim: int,
    v: int,
    g: int,
)
    requires
        1 <= bits <= 8,
        0 <= dim,
        dim % 8 == 0,
        0 <= v < na,
        v < nb,
        0 <= g < byte_groups(bits, dim),
        na * row_bytes(bits, dim) <= a.len(),
        nb * row_bytes(bits, dim) <= b.len(),
        row_of(a, bits, dim, v) == row_of(b, bits, dim, v),
    ensures
        vector_byte(a, na, bits, dim, v, g) == vector_byte(b, nb, bits, dim, v, g),
{
    lemma_field_fits(bits);
    lemma_group_within(bits, dim, g);
    let size = row_bytes(bits, dim);
    let plane = dim / 8;
    let cpb = codes_per_byte(bits);
    let row = v * size;
    let ra = row_of(a, bits, dim, v);
    let rb = row_of(b, bits, dim, v);
    assert(0 <= size) by (nonlinear_arith)
        requires
            size == bits * plane,
            bits >= 1,
            plane >= 0,
    ;
    lemma_row_within(v, na, size);
    lemma_row_within(v, nb, size);
    assert forall|p: int, j: int|
        0 <= p < bits && g * cpb <= j < g * cpb + cpb implies #[trigger] plane_bit(
        a,
        row,
        plane,
        p,
        j,
    ) == plane_bit(b, row, plane, p, j) by {
        let at = p * plane + j / 8;
        lemma_within_row(bits, plane, p, j / 8);
        assert(ra[at] == a[row + at]);
        assert(rb[at] == b[row + at]);
    }
    lemma_group_congruent(a, b, row, plane, bits, code_width(bits), cpb, g);
}

/// The bytes of a block depend on the rows of its own vectors alone.
pub proof fn law_block_depends_on_its_vectors(
    layout: Layout,
    a: Seq<u8>,
    b: Seq<u8>,
    na: int,
    nb: int,
    bits: int,
    dim: int,
    block: int,
)
    requires
        1 <= bits <= 8,
        0 <= dim,
        dim % 8 == 0,
        0 <= block < block_count(na),
        block < block_count(nb),
        na * row_bytes(bits, dim) <= a.len(),
        nb * row_bytes(bits, dim) <= b.len(),
        forall|v: int|
            block * BLOCK <= v < block * BLOCK + BLOCK ==> (v < na <==> v < nb) && (v < na
                ==> #[trigger] row_of(a, bits, dim, v) == row_of(b, bits, dim, v)),
    ensures
        blocked(layout, a, na, bits, dim, 0).subrange(
            block * block_bytes(bits, dim),
            block * block_bytes(bits, dim) + block_bytes(bits, dim),
        ) == blocked(layout, b, nb, bits, dim, 0).subrange(
            block * block_bytes(bits, dim),
            block * block_bytes(bits, dim) + block_bytes(bits, dim),
        ),
{
    lemma_field_fits(bits);
    let per = block_bytes(bits, dim);
    let groups = byte_groups(bits, dim);
    let cpb = codes_per_byte(bits);
    let fa = blocked(layout, a, na, bits, dim, 0);
    let fb = blocked(layout, b, nb, bits, dim, 0);
    assert(groups >= 0) by (nonlinear_arith)
        requires
            groups == dim / cpb,
            dim >= 0,
            cpb >= 1,
    ;
    assert(0 <= block * per && block * per + per <= block_count(na) * per && block * per + per
        <= block_count(nb) * per) by (nonlinear_arith)
        requires
            0 <= block,
            block + 1 <= block_count(na),
            block + 1 <= block_count(nb),
            per == groups * BLOCK,
            groups >= 0,
            BLOCK == 32,
    ;
    let sa = fa.subrange(block * per, block * per + per);
    let sb = fb.subrange(block * per, block * per + per);
    assert forall|i: int| 0 <= i < per implies sa[i] == sb[i] by {
        assert(1 * groups * BLOCK == per);
        lemma_parts(i, 1, groups);
        lemma_shifted_position(i, groups, block);
        let g = i / BLOCK as int % groups;
        let lane = i % BLOCK as int;
        assert forall|l: int| 0 <= l < BLOCK implies vector_byte(
            a,
            na,
            bits,
            dim,
            #[trigger] (block * BLOCK + l),
            g,
        ) == vector_byte(b, nb, bits, dim, block * BLOCK + l, g) by {
            let v = block * BLOCK + l;
            let ra = row_of(a, bits, dim, v);
            let rb = row_of(b, bits, dim, v);
            if v < na {
                assert(ra == rb);
                lemma_same_row(a, b, na, nb, bits, dim, v, g);
            }
        }
        lemma_block_congruent(layout, a, b, na, nb, bits, dim, block, g, lane);
    }
    assert(sa =~= sb);
}

/// Every code bit stands in its byte group.
proof fn lemma_group_holds_code(
    codes: Seq<u8>,
    row: int,
    plane: int,
    planes: int,
    width: int,
    per_byte: int,
    g: int,
    c: int,
    p: int,
)
    requires
        1 <= planes <= width,
        per_byte * width <= 8,
        0 <= c < per_byte,
        0 <= p < planes,
    ensures
        0 <= (per_byte - 1 - c) * width + p < 8,
        bit(
            group_byte(codes, row, plane, planes, width, per_byte, g),
            (per_byte - 1 - c) * width + p,
        ) == plane_bit(codes, row, plane, p, g * per_byte + c),
{
    let f = |k: int|
        k / width < per_byte && k % width < planes && plane_bit(
            codes,
            row,
            plane,
            k % width,
            g * per_byte + (per_byte - 1 - k / width),
        );
    let k = (per_byte - 1 - c) * width + p;
    assert(0 <= k < 8) by (nonlinear_arith)
        requires
            k == (per_byte - 1 - c) * width + p,
            0 <= c < per_byte,
            0 <= p < width,
            per_byte * width <= 8,
    ;
    lemma_fundamental_div_mod_converse(k, width, per_byte - 1 - c, p);
    lemma_byte_of_bits(f);
    assert(bit(byte_of(f), k) == f(k));
}

/// Two bytes are determined by their joined high and low nibbles.
proof fn lemma_nibbles_determine(xa: u8, ya: u8, xb: u8, yb: u8)
    requires
        join_nibbles(xa / 16, ya / 16) == join_nibbles(xb / 16, yb / 16),
        join_nibbles(xa % 16, ya % 16) == join_nibbles(xb % 16, yb % 16),
    ensures
        xa == xb,
        ya == yb,
{
    assert(xa / 16 + 16 * (ya / 16) == xb / 16 + 16 * (yb / 16));
    assert(xa % 16 + 16 * (ya % 16) == xb % 16 + 16 * (yb % 16));
}

/// Equal blocked forms are equal at each of their places.
proof fn lemma_blocked_places(
    layout: Layout,
    a: Seq<u8>,
    b: Seq<u8>,
    n: int,
    bits: int,
    dim: int,
    first_block: int,
    block: int,
    g: int,
    lane: int,
)
    requires
        1 <= bits <= 8,
        0 <= first_block <= block < block_count(n),
        0 <= g < byte_groups(bits, dim),
        0 <= lane < BLOCK,
        blocked(layout, a, n, bits, dim, first_block) == blocked(
            layout,
            b,
            n,
            bits,
            dim,
            first_block,
        ),
    ensures
        blocked_at(layout, a, n, bits, dim, block, g, lane) == blocked_at(
            layout,
            b,
            n,
            bits,
            dim,
            block,
            g,
            lane,
        ),
{
    let groups = byte_groups(bits, dim);
    let fa = blocked(layout, a, n, bits, dim, first_block);
    let fb = blocked(layout, b, n, bits, dim, first_block);
    let blocks = block_count(n) - first_block;
    let rel = block - first_block;
    let i = (rel * groups + g) * BLOCK + lane;
    lemma_position(groups, rel, g, lane);
    lemma_slot_bound(groups, blocks, rel, g);
    assert(blocks * (groups * BLOCK) == blocks * groups * BLOCK) by (nonlinear_arith);
    assert(0 <= rel * groups + g) by (nonlinear_arith)
        requires
            0 <= rel,
            0 <= g < groups,
    ;
    assert(0 <= i < fa.len());
    assert(fa[i] == fb[i]);
    assert(fa[i] == blocked_at(layout, a, n, bits, dim, block, g, lane));
    assert(fb[i] == blocked_at(layout, b, n, bits, dim, block, g, lane));
}

/// The byte of a half in which the nibbles of vector `m` stand.
spec fn interleave_inverse(m: int) -> int {
    if m < 8 {
        2 * m
    } else {
        2 * (m - 8) + 1
    }
}

proof fn lemma_interleave_inverse(m: int)
    requires
        0 <= m < 16,
    ensures
        0 <= interleave_inverse(m) < 16,
        interleave(interleave_inverse(m)) == m,
        interleave_inverse(m) % 16 == interleave_inverse(m),
        (interleave_inverse(m) + 16) % 16 == interleave_inverse(m),
{
}

/// The bytes of a group of a block determine the bytes of its vectors.
proof fn lemma_arrange_determines(
    layout: Layout,
    ra: spec_fn(int, int) -> u8,
    rb: spec_fn(int, int) -> u8,
    block: int,
    g: int,
    l: int,
)
    requires
        0 <= l < BLOCK,
        forall|lane: int|
            0 <= lane < BLOCK ==> #[trigger] arrange(layout, ra, block, g, lane) == arrange(
                layout,
                rb,
                block,
                g,
                lane,
            ),
    ensures
        ra(block * BLOCK + l, g) == rb(block * BLOCK + l, g),
{
    match layout {
        Layout::Sequential => {
            assert(arrange(layout, ra, block, g, l) == arrange(layout, rb, block, g, l));
        },
        Layout::Interleaved => {
            let m = l % 16;
            let j = interleave_inverse(m);
            lemma_interleave_inverse(m);
            assert(arrange(layout, ra, block, g, j) == arrange(layout, rb, block, g, j));
            assert(arrange(layout, ra, block, g, j + 16) == arrange(layout, rb, block, g, j + 16));
            lemma_nibbles_determine(
                ra(block * BLOCK + m, g),
                ra(block * BLOCK + m + 16, g),
                rb(block * BLOCK + m, g),
                rb(block * BLOCK + m + 16, g),
            );
            assert(l == m || block * BLOCK + l == block * BLOCK + m + 16);
        },
    }
}

/// The byte groups of every vector can be read off its blocked form.
proof fn lemma_blocked_holds_vector(
    layout: Layout,
    a: Seq<u8>,
    b: Seq<u8>,
    n: int,
    bits: int,
    dim: int,
    first_block: int,
    v: int,
    g: int,
)
    requires
        1 <= bits <= 8,
        0 <= first_block,
        first_block * BLOCK <= v < n,
        0 <= g < byte_groups(bits, dim),
        blocked(layout, a, n, bits, dim, first_block) == blocked(
            layout,
            b,
            n,
            bits,
            dim,
            first_block,
        ),
    ensures
        vector_byte(a, n, bits, dim, v, g) == vector_byte(b, n, bits, dim, v, g),
{
    let block = v / BLOCK as int;
    let l = v % BLOCK as int;
    let ra = |w: int, h: int| vector_byte(a, n, bits, dim, w, h);
    let rb = |w: int, h: int| vector_byte(b, n, bits, dim, w, h);
    assert forall|lane: int| 0 <= lane < BLOCK implies #[trigger] arrange(
        layout,
        ra,
        block,
        g,
        lane,
    ) == arrange(layout, rb, block, g, lane) by {
        lemma_blocked_places(layout, a, b, n, bits, dim, first_block, block, g, lane);
    }
    lemma_arrange_determines(layout, ra, rb, block, g, l);
    assert(block * BLOCK + l == v);
    assert(ra(v, g) == rb(v, g));
}

/// Codes with the same blocked form agree on every bit of every code that was
/// packed, whatever the dimension is.
pub proof fn law_repack_keeps_code_bits(
    layout: Layout,
    a: Seq<u8>,
    b: Seq<u8>,
    n: int,
    bits: int,
    dim: int,
    first_block: int,
    v: int,
    p: int,
    j: int,
)
    requires
        1 <= bits <= 8,
        0 <= first_block,
        first_block * BLOCK <= v < n,
        0 <= p < bits,
        0 <= j < byte_groups(bits, dim) * codes_per_byte(bits),
        blocked(layout, a, n, bits, dim, first_block) == blocked(
            layout,
            b,
            n,
            bits,
            dim,
            first_block,
        ),
    ensures
        plane_bit(a, v * row_bytes(bits, dim), dim / 8, p, j) == plane_bit(
            b,
            v * row_bytes(bits, dim),
            dim / 8,
            p,
            j,
        ),
{
    lemma_field_fits(bits);
    let cpb = codes_per_byte(bits);
    let groups = byte_groups(bits, dim);
    let g = j / cpb;
    let c = j % cpb;
    lemma_fundamental_div_mod(j, cpb);
    assert(0 <= g < groups) by (nonlinear_arith)
        requires
            0 <= j < groups * cpb,
            j == cpb * g + c,
            0 <= c < cpb,
    ;
    assert(cpb * g == g * cpb) by (nonlinear_arith);
    lemma_blocked_holds_vector(layout, a, b, n, bits, dim, first_block, v, g);
    let row = v * row_bytes(bits, dim);
    lemma_group_holds_code(a, row, dim / 8, bits, code_width(bits), cpb, g, c, p);
    lemma_group_holds_code(b, row, dim / 8, bits, code_width(bits), cpb, g, c, p);
}

/// Byte groups take up whole vectors whose dimension is a multiple of 8.
pub proof fn lemma_groups_cover(bits: int, dim: int)
    requires
        1 <= bits <= 8,
        0 <= dim,
        dim % 8 == 0,
    ensures
        byte_groups(bits, dim) * codes_per_byte(bits) == dim,
        0 <= byte_groups(bits, dim),
{
    lemma_field_fits(bits);
    let cpb = codes_per_byte(bits);
    let groups = byte_groups(bits, dim);
    lemma_fundamental_div_mod(8, bits);
    assert(cpb == 1 || cpb == 2 || cpb == 4 || cpb == 8) by (nonlinear_arith)
        requires
            8 == bits * cpb + 8int % bits,
            0 <= 8int % bits < bits,
            1 <= bits <= 8,
            1 <= cpb <= 8,
    ;
    assert(dim % cpb == 0) by {
        if cpb == 1 {
        } else if cpb == 2 {
        } else if cpb == 4 {
        } else {
            assert(cpb == 8);
        }
    }
    lemma_fundamental_div_mod(dim, cpb);
    assert(groups * cpb == cpb * groups) by (nonlinear_arith);
    assert(groups >= 0) by (nonlinear_arith)
        requires
            groups == dim / cpb,
            dim >= 0,
            cpb >= 1,
    ;
}

/// A plane is determined by the bits of its codes.
proof fn lemma_plane_of_bits(a: Seq<u8>, b: Seq<u8>, bits: int, dim: int, v: int, p: int)
    requires
        0 <= dim,
        dim % 8 == 0,
        0 <= v * row_bytes(bits, dim) + p * (dim / 8),
        v * row_bytes(bits, dim) + p * (dim / 8) + dim / 8 <= a.len(),
        v * row_bytes(bits, dim) + p * (dim / 8) + dim / 8 <= b.len(),
        forall|j: int|
            0 <= j < dim ==> #[trigger] plane_bit(a, v * row_bytes(bits, dim), dim / 8, p, j)
                == plane_bit(b, v * row_bytes(bits, dim), dim / 8, p, j),
    ensures
        plane_of(a, bits, dim, v, p) == plane_of(b, bits, dim, v, p),
{
    let row = v * row_bytes(bits, dim);
    let plane = dim / 8;
    let pa = plane_of(a, bits, dim, v, p);
    let pb = plane_of(b, bits, dim, v, p);
    assert forall|q: int| 0 <= q < plane implies pa[q] == pb[q] by {
        let x = a[row + p * plane + q];
        let y = b[row + p * plane + q];
        assert forall|k: int| 0 <= k < 8 implies bit(x, k) == bit(y, k) by {
            let j = 8 * q + (7 - k);
            assert(j / 8 == q && 7 - j % 8 == k);
            assert(plane_bit(a, row, plane, p, j) == plane_bit(b, row, plane, p, j));
        }
        lemma_same_bits(x, y);
    }
    assert(pa =~= pb);
}

/// A row is determined by its planes.
proof fn lemma_row_of_planes(a: Seq<u8>, b: Seq<u8>, bits: int, dim: int, v: int)
    requires
        0 <= dim,
        1 <= bits,
        0 <= v * row_bytes(bits, dim),
        v * row_bytes(bits, dim) + row_bytes(bits, dim) <= a.len(),
        v * row_bytes(bits, dim) + row_bytes(bits, dim) <= b.len(),
    ensures
        row_of(a, bits, dim, v) == row_of(b, bits, dim, v) <==> (forall|p: int|
            0 <= p < bits ==> #[trigger] plane_of(a, bits, dim, v, p) == plane_of(
                b,
                bits,
                dim,
                v,
                p,
            )),
{
    let row = v * row_bytes(bits, dim);
    let size = row_bytes(bits, dim);
    let plane = dim / 8;
    let ra = row_of(a, bits, dim, v);
    let rb = row_of(b, bits, dim, v);
    if ra == rb {
        assert forall|p: int| 0 <= p < bits implies #[trigger] plane_of(a, bits, dim, v, p)
            == plane_of(b, bits, dim, v, p) by {
            let pa = plane_of(a, bits, dim, v, p);
            let pb = plane_of(b, bits, dim, v, p);
            assert(0 <= p * plane && p * plane + plane <= size) by (nonlinear_arith)
                requires
                    0 <= p,
                    p + 1 <= bits,
                    0 <= plane,
                    size == bits * plane,
            ;
            assert forall|q: int| 0 <= q < plane implies pa[q] == pb[q] by {
                assert(ra[p * plane + q] == rb[p * plane + q]);
            }
            assert(pa =~= pb);
        }
    }
    if forall|p: int|
        0 <= p < bits ==> #[trigger] plane_of(a, bits, dim, v, p) == plane_of(b, bits, dim, v, p) {
        assert forall|k: int| 0 <= k < size implies ra[k] == rb[k] by {
            assert(plane > 0) by (nonlinear_arith)
                requires
                    0 <= k < bits * plane,
                    0 <= plane,
            ;
            let p = k / plane;
            let q = k % plane;
            lemma_fundamental_div_mod(k, plane);
            assert(0 <= p < bits) by (nonlinear_arith)
                requires
                    0 <= k < bits * plane,
                    k == plane * p + q,
                    0 <= q < plane,
            ;
            assert(plane * p == p * plane) by (nonlinear_arith);
            assert(0 <= p * plane && p * plane + plane <= size) by (nonlinear_arith)
                requires
                    0 <= p,
                    p + 1 <= bits,
                    0 <= plane,
                    size == bits * plane,
            ;
            let pa = plane_of(a, bits, dim, v, p);
            let pb = plane_of(b, bits, dim, v, p);
            assert(pa == pb);
            assert(pa[q] == a[row + k]);
            assert(pb[q] == b[row + k]);
        }
        assert(ra =~= rb);
    }
}

/// The rows of a range are the same if and only if each of them is.
proof fn lemma_range_of_rows(
    a: Seq<u8>,
    b: Seq<u8>,
    n: int,
    bits: int,
    dim: int,
    first_block: int,
)
    requires
        1 <= bits <= 8,
        0 <= dim,
        0 <= first_block,
        n * row_bytes(bits, dim) <= a.len(),
        n * row_bytes(bits, dim) <= b.len(),
    ensures
        range_codes(a, n, bits, dim, first_block) == range_codes(b, n, bits, dim, first_block)
            <==> (forall|v: int|
            first_block * BLOCK <= v < n ==> #[trigger] row_of(a, bits, dim, v) == row_of(
                b,
                bits,
                dim,
                v,
            )),
{
    let size = row_bytes(bits, dim);
    let start = first_block * BLOCK;
    let ca = range_codes(a, n, bits, dim, first_block);
    let cb = range_codes(b, n, bits, dim, first_block);
    assert(0 <= size) by (nonlinear_arith)
        requires
            size == bits * (dim / 8),
            bits >= 1,
            dim / 8 >= 0,
    ;
    if start < n {
        lemma_row_within(start, n, size);
        if ca == cb {
            assert forall|v: int| start <= v < n implies #[trigger] row_of(a, bits, dim, v)
                == row_of(b, bits, dim, v) by {
                lemma_row_within(v, n, size);
                assert(start * size <= v * size) by (nonlinear_arith)
                    requires
                        start <= v,
                        0 <= size,
                ;
                let ra = row_of(a, bits, dim, v);
                let rb = row_of(b, bits, dim, v);
                assert forall|k: int| 0 <= k < size implies ra[k] == rb[k] by {
                    let at = v * size - start * size + k;
                    assert(ca[at] == a[v * size + k]);
                    assert(cb[at] == b[v * size + k]);
                }
                assert(ra =~= rb);
            }
        }
        if forall|v: int|
            start <= v < n ==> #[trigger] row_of(a, bits, dim, v) == row_of(b, bits, dim, v) {
            assert forall|i: int| 0 <= i < n * size - start * size implies ca[i] == cb[i] by {
                let at = start * size + i;
                assert(size > 0) by (nonlinear_arith)
                    requires
                        0 <= i < n * size - start * size,
                        0 <= size,
                ;
                let v = at / size;
                let k = at % size;
                lemma_fundamental_div_mod(at, size);
                assert(start <= v < n) by (nonlinear_arith)
                    requires
                        start * size <= at < n * size,
                        at == size * v + k,
                        0 <= k < size,
                ;
                assert(size * v == v * size) by (nonlinear_arith);
                lemma_row_within(v, n, size);
                let ra = row_of(a, bits, dim, v);
                let rb = row_of(b, bits, dim, v);
                assert(ra == rb);
                assert(ra[k] == a[at]);
                assert(rb[k] == b[at]);
            }
            assert(ca =~= cb);
        }
    }
}

/// Repacking loses nothing: two arrays of codes give the same blocks from
/// `first_block` on if and only if the codes of those blocks are the same.
pub proof fn law_repack_lossless(
    layout: Layout,
    a: Seq<u8>,
    b: Seq<u8>,
    n: int,
    bits: int,
    dim: int,
    first_block: int,
)
    requires
        1 <= bits <= 8,
        0 <= dim,
        dim % 8 == 0,
        0 <= first_block,
        n * row_bytes(bits, dim) <= a.len(),
        n * row_bytes(bits, dim) <= b.len(),
    ensures
        blocked(layout, a, n, bits, dim, first_block) == blocked(
            layout,
            b,
            n,
            bits,
            dim,
            first_block,
        ) <==> range_codes(a, n, bits, dim, first_block) == range_codes(
            b,
            n,
            bits,
            dim,
            first_block,
        ),
{
    let start = first_block * BLOCK;
    let size = row_bytes(bits, dim);
    let fa = blocked(layout, a, n, bits, dim, first_block);
    let fb = blocked(layout, b, n, bits, dim, first_block);
    lemma_range_of_rows(a, b, n, bits, dim, first_block);
    lemma_groups_cover(bits, dim);
    assert(0 <= size) by (nonlinear_arith)
        requires
            size == bits * (dim / 8),
            bits >= 1,
            dim / 8 >= 0,
    ;
    if fa == fb {
        assert forall|v: int| start <= v < n implies #[trigger] row_of(a, bits, dim, v) == row_of(
            b,
            bits,
            dim,
            v,
        ) by {
            lemma_row_within(v, n, size);
            assert forall|p: int| 0 <= p < bits implies #[trigger] plane_of(a, bits, dim, v, p)
                == plane_of(b, bits, dim, v, p) by {
                assert(0 <= p * (dim / 8) && p * (dim / 8) + dim / 8 <= size) by (nonlinear_arith)
                    requires
                        0 <= p,
                        p + 1 <= bits,
                        0 <= dim / 8,
                        size == bits * (dim / 8),
                ;
                assert forall|j: int| 0 <= j < dim implies #[trigger] plane_bit(
                    a,
                    v * size,
                    dim / 8,
                    p,
                    j,
                ) == plane_bit(b, v * size, dim / 8, p, j) by {
                    law_repack_keeps_code_bits(layout, a, b, n, bits, dim, first_block, v, p, j);
                }
                lemma_plane_of_bits(a, b, bits, dim, v, p);
            }
            lemma_row_of_planes(a, b, bits, dim, v);
        }
    }
    if forall|v: int|
        start <= v < n ==> #[trigger] row_of(a, bits, dim, v) == row_of(b, bits, dim, v) {
        lemma_same_rows_same_blocks(layout, a, b, n, bits, dim, first_block);
    }
}

/// Codes whose rows are the same from a block on give the same blocks.
proof fn lemma_same_rows_same_blocks(
    layout: Layout,
    a: Seq<u8>,
    b: Seq<u8>,
    n: int,
    bits: int,
    dim: int,
    first_block: int,
)
    requires
        1 <= bits <= 8,
        0 <= dim,
        dim % 8 == 0,
        0 <= first_block,
        n * row_bytes(bits, dim) <= a.len(),
        n * row_bytes(bits, dim) <= b.len(),
        forall|v: int|
            first_block * BLOCK <= v < n ==> #[trigger] row_of(a, bits, dim, v) == row_of(
                b,
                bits,
                dim,
                v,
            ),
    ensures
        blocked(layout, a, n, bits, dim, first_block) == blocked(
            layout,
            b,
            n,
            bits,
            dim,
            first_block,
        ),
{
    let groups = byte_groups(bits, dim);
    let blocks = block_count(n) - first_block;
    let fa = blocked(layout, a, n, bits, dim, first_block);
    let fb = blocked(layout, b, n, bits, dim, first_block);
    lemma_groups_cover(bits, dim);
    assert(blocks * (groups * BLOCK) == blocks * groups * BLOCK) by (nonlinear_arith);
    assert forall|i: int| 0 <= i < fa.len() implies fa[i] == fb[i] by {
        lemma_parts(i, blocks, groups);
        let block = first_block + i / BLOCK as int / groups;
        let g = i / BLOCK as int % groups;
        let lane = i % BLOCK as int;
        assert forall|l: int| 0 <= l < BLOCK implies vector_byte(
            a,
            n,
            bits,
            dim,
            #[trigger] (block * BLOCK + l),
            g,
        ) == vector_byte(b, n, bits, dim, block * BLOCK + l, g) by {
            let v = block * BLOCK + l;
            if v < n {
                assert(row_of(a, bits, dim, v) == row_of(b, bits, dim, v));
                lemma_same_row(a, b, n, n, bits, dim, v, g);
            }
        }
        lemma_block_congruent(layout, a, b, n, n, bits, dim, block, g, lane);
    }
    assert(fa =~= fb);
}

// ---------------------------------------------------------------------------
// Three-bit codes in two parts
// ---------------------------------------------------------------------------

/// Arrays that were arranged in order are the same if and only if the byte
/// groups of all vectors are.
proof fn lemma_arranged_of_rows(
    ra: spec_fn(int, int) -> u8,
    rb: spec_fn(int, int) -> u8,
    n: int,
    groups: int,
)
    requires
        0 <= groups,
        forall|v: int, g: int| n <= v ==> #[trigger] ra(v, g) == rb(v, g),
    ensures
        arranged(Layout::Sequential, ra, block_count(n), groups) == arranged(
            Layout::Sequential,
            rb,
            block_count(n),
            groups,
        ) <==> (forall|v: int, g: int|
            0 <= v < n && 0 <= g < groups ==> #[trigger] ra(v, g) == rb(v, g)),
{
    let fa = arranged(Layout::Sequential, ra, block_count(n), groups);
    let fb = arranged(Layout::Sequential, rb, block_count(n), groups);
    if fa == fb {
        assert forall|v: int, g: int| 0 <= v < n && 0 <= g < groups implies #[trigger] ra(v, g)
            == rb(v, g) by {
            let block = v / BLOCK as int;
            let lane = v % BLOCK as int;
            let i = (block * groups + g) * BLOCK + lane;
            lemma_position(groups, block, g, lane);
            lemma_slot_bound(groups, block_count(n), block, g);
            assert(0 <= block * groups + g) by (nonlinear_arith)
                requires
                    0 <= block,
                    0 <= g < groups,
            ;
            assert(0 <= i < fa.len());
            assert(fa[i] == fb[i]);
            assert(fa[i] == ra(v, g));
            assert(fb[i] == rb(v, g));
        }
    }
    if forall|v: int, g: int|
        0 <= v < n && 0 <= g < groups ==> #[trigger] ra(v, g) == rb(v, g) {
        assert forall|i: int| 0 <= i < fa.len() implies fa[i] == fb[i] by {
            if block_count(n) > 0 {
                lemma_parts(i, block_count(n), groups);
                let v = i / BLOCK as int / groups * BLOCK + i % BLOCK as int;
                let g = i / BLOCK as int % groups;
                assert(ra(v, g) == rb(v, g));
            } else {
                assert(block_count(n) * groups * BLOCK <= 0) by (nonlinear_arith)
                    requires
                        block_count(n) <= 0,
                        groups >= 0,
                        BLOCK == 32,
                ;
            }
        }
        assert(fa =~= fb);
    }
}

/// The planes of all vectors are within the codes.
proof fn lemma_3bit_planes_within(len: int, n: int, dim: int, v: int, p: int)
    requires
        0 <= dim,
        0 <= v < n,
        0 <= p < 3,
        n * row_bytes(3, dim) <= len,
    ensures
        0 <= v * row_bytes(3, dim),
        0 <= p * (dim / 8),
        v * row_bytes(3, dim) + p * (dim / 8) + dim / 8 <= len,
{
    lemma_row_within(v, n, row_bytes(3, dim));
    assert(0 <= p * (dim / 8) && p * (dim / 8) + dim / 8 <= 3 * (dim / 8)) by (nonlinear_arith)
        requires
            0 <= p <= 2,
            0 <= dim / 8,
    ;
}

/// The low array depends on the two low planes alone and loses nothing of
/// them: it is the same for two arrays of codes if and only if those planes
/// are.
pub proof fn law_3bit_low_array_is_two_planes(a: Seq<u8>, b: Seq<u8>, n: int, dim: int)
    requires
        0 <= dim,
        dim % 8 == 0,
        n * row_bytes(3, dim) <= a.len(),
        n * row_bytes(3, dim) <= b.len(),
    ensures
        low_array(a, n, dim) == low_array(b, n, dim) <==> (forall|v: int, p: int|
            0 <= v < n && 0 <= p < 2 ==> #[trigger] plane_of(a, 3, dim, v, p) == plane_of(
                b,
                3,
                dim,
                v,
                p,
            )),
{
    let plane = dim / 8;
    let ra = |v: int, g: int| low_planes_byte(a, n, dim, v, g);
    let rb = |v: int, g: int| low_planes_byte(b, n, dim, v, g);
    lemma_arranged_of_rows(ra, rb, n, dim / 4);
    if low_array(a, n, dim) == low_array(b, n, dim) {
        assert forall|v: int, p: int| 0 <= v < n && 0 <= p < 2 implies #[trigger] plane_of(
            a,
            3,
            dim,
            v,
            p,
        ) == plane_of(b, 3, dim, v, p) by {
            let row = v * row_bytes(3, dim);
            lemma_3bit_planes_within(a.len() as int, n, dim, v, p);
            lemma_3bit_planes_within(b.len() as int, n, dim, v, p);
            assert forall|j: int| 0 <= j < dim implies #[trigger] plane_bit(a, row, plane, p, j)
                == plane_bit(b, row, plane, p, j) by {
                assert(ra(v, j / 4) == rb(v, j / 4));
                lemma_group_holds_code(a, row, plane, 2, 2, 4, j / 4, j % 4, p);
                lemma_group_holds_code(b, row, plane, 2, 2, 4, j / 4, j % 4, p);
            }
            lemma_plane_of_bits(a, b, 3, dim, v, p);
        }
    }
    if forall|v: int, p: int|
        0 <= v < n && 0 <= p < 2 ==> #[trigger] plane_of(a, 3, dim, v, p) == plane_of(
            b,
            3,
            dim,
            v,
            p,
        ) {
        assert forall|v: int, g: int| 0 <= v < n && 0 <= g < dim / 4 implies #[trigger] ra(v, g)
            == rb(v, g) by {
            let row = v * row_bytes(3, dim);
            assert forall|p: int, j: int|
                0 <= p < 2 && g * 4 <= j < g * 4 + 4 implies #[trigger] plane_bit(
                a,
                row,
                plane,
                p,
                j,
            ) == plane_bit(b, row, plane, p, j) by {
                lemma_3bit_planes_within(a.len() as int, n, dim, v, p);
                lemma_3bit_planes_within(b.len() as int, n, dim, v, p);
                let pa = plane_of(a, 3, dim, v, p);
                let pb = plane_of(b, 3, dim, v, p);
                assert(pa == pb);
                assert(pa[j / 8] == a[row + p * plane + j / 8]);
                assert(pb[j / 8] == b[row + p * plane + j / 8]);
            }
            lemma_group_congruent(a, b, row, plane, 2, 2, 4, g);
        }
    }
}

/// The high array depends on the third plane alone and loses nothing of it: it
/// is the same for two arrays of codes if and only if that plane is.
pub proof fn law_3bit_high_array_is_third_plane(a: Seq<u8>, b: Seq<u8>, n: int, dim: int)
    requires
        0 <= dim,
        dim % 8 == 0,
        n * row_bytes(3, dim) <= a.len(),
        n * row_bytes(3, dim) <= b.len(),
    ensures
        high_array(a, n, dim) == high_array(b, n, dim) <==> (forall|v: int|
            0 <= v < n ==> #[trigger] plane_of(a, 3, dim, v, 2) == plane_of(b, 3, dim, v, 2)),
{
    let plane = dim / 8;
    let ra = |v: int, g: int| high_plane_byte(a, n, dim, v, g);
    let rb = |v: int, g: int| high_plane_byte(b, n, dim, v, g);
    lemma_arranged_of_rows(ra, rb, n, plane);
    assert forall|v: int, g: int| 0 <= v < n && 0 <= g < plane implies #[trigger] ra(v, g)
        == plane_of(a, 3, dim, v, 2)[g] && rb(v, g) == plane_of(b, 3, dim, v, 2)[g] by {
        lemma_3bit_planes_within(a.len() as int, n, dim, v, 2);
        lemma_3bit_planes_within(b.len() as int, n, dim, v, 2);
    }
    if high_array(a, n, dim) == high_array(b, n, dim) {
        assert forall|v: int| 0 <= v < n implies #[trigger] plane_of(a, 3, dim, v, 2) == plane_of(
            b,
            3,
            dim,
            v,
            2,
        ) by {
            lemma_3bit_planes_within(a.len() as int, n, dim, v, 2);
            lemma_3bit_planes_within(b.len() as int, n, dim, v, 2);
            let pa = plane_of(a, 3, dim, v, 2);
            let pb = plane_of(b, 3, dim, v, 2);
            assert forall|g: int| 0 <= g < plane implies pa[g] == pb[g] by {
                assert(ra(v, g) == rb(v, g));
            }
            assert(pa =~= pb);
        }
    }
    if forall|v: int|
        0 <= v < n ==> #[trigger] plane_of(a, 3, dim, v, 2) == plane_of(b, 3, dim, v, 2) {
        assert forall|v: int, g: int| 0 <= v < n && 0 <= g < plane implies #[trigger] ra(v, g)
            == rb(v, g) by {
            assert(plane_of(a, 3, dim, v, 2) == plane_of(b, 3, dim, v, 2));
        }
    }
}

/// Splitting 3-bit codes into their two parts loses nothing: two arrays of
/// codes give the same two parts if and only if the codes of the `n` vectors
/// are the same.
pub proof fn law_3bit_lossless(a: Seq<u8>, b: Seq<u8>, n: int, dim: int)
    requires
        0 <= n,
        0 <= dim,
        dim % 8 == 0,
        n * row_bytes(3, dim) <= a.len(),
        n * row_bytes(3, dim) <= b.len(),
    ensures
        low_array(a, n, dim) == low_array(b, n, dim) && high_array(a, n, dim) == high_array(
            b,
            n,
            dim,
        ) <==> a.take(n * row_bytes(3, dim)) == b.take(n * row_bytes(3, dim)),
{
    let size = row_bytes(3, dim);
    law_3bit_low_array_is_two_planes(a, b, n, dim);
    law_3bit_high_array_is_third_plane(a, b, n, dim);
    lemma_range_of_rows(a, b, n, 3, dim, 0);
    assert forall|v: int| 0 <= v < n implies (#[trigger] row_of(a, 3, dim, v) == row_of(
        b,
        3,
        dim,
        v,
    ) <==> (forall|p: int|
        0 <= p < 3 ==> #[trigger] plane_of(a, 3, dim, v, p) == plane_of(b, 3, dim, v, p))) by {
        lemma_row_within(v, n, size);
        lemma_row_of_planes(a, b, 3, dim, v);
    }
    assert(0 * size == 0);
    assert(0 <= n * size) by (nonlinear_arith)
        requires
            0 <= n,
            0 <= size,
    ;
    if n > 0 {
        assert(range_codes(a, n, 3, dim, 0) =~= a.take(n * size));
        assert(range_codes(b, n, 3, dim, 0) =~= b.take(n * size));
    } else {
        assert(a.take(n * size) =~= b.take(n * size));
    }
    if low_array(a, n, dim) == low_array(b, n, dim) && high_array(a, n, dim) == high_array(
        b,
        n,
        dim,
    ) {
        assert forall|v: int| 0 <= v < n implies #[trigger] row_of(a, 3, dim, v) == row_of(
            b,
            3,
            dim,
            v,
        ) by {
            assert forall|p: int| 0 <= p < 3 implies #[trigger] plane_of(a, 3, dim, v, p)
                == plane_of(b, 3, dim, v, p) by {
                if p == 2 {
                    assert(plane_of(a, 3, dim, v, 2) == plane_of(b, 3, dim, v, 2));
                }
            }
        }
    }
    if a.take(n * size) == b.take(n * size) {
        assert forall|v: int, p: int| 0 <= v < n && 0 <= p < 3 implies #[trigger] plane_of(
            a,
            3,
            dim,
            v,
            p,
        ) == plane_of(b, 3, dim, v, p) by {
            assert(row_of(a, 3, dim, v) == row_of(b, 3, dim, v));
        }
    }
}

} // verus!
