use turbovec::pack;

#[test]
fn repack_range_matches_full_repack_for_suffix() {
    let dim = 64;
    let bits = 4;
    let n = 75; // 2 full blocks + partial third

    // All zeros is fine for structural tests.
    let bytes_per_vec = dim * bits / 8;
    let packed_codes = vec![0u8; n * bytes_per_vec];

    let (full, n_blocks) = pack::repack(&packed_codes, n, bits, dim);
    let codes_per_byte = 8 / bits;
    let n_byte_groups = dim / codes_per_byte;
    let block_bytes = n_byte_groups * 32;

    for first_block in 0..=n_blocks {
        let partial = pack::repack_range(&packed_codes, n, bits, dim, first_block);
        let expected = &full[first_block * block_bytes..];
        assert_eq!(
            partial.len(),
            expected.len(),
            "repack_range length mismatch for first_block={first_block}"
        );
        assert_eq!(
            partial, expected,
            "repack_range data mismatch for first_block={first_block}"
        );
    }
}

/// A fixed stream of bytes.
fn noise(len: usize, seed: u32) -> Vec<u8> {
    let mut state = seed;
    let mut out = Vec::with_capacity(len);
    for _ in 0..len {
        state = state.wrapping_mul(1_664_525).wrapping_add(1_013_904_223);
        out.push((state >> 24) as u8);
    }
    out
}

/// The code of coordinate `j` of vector `v`.
fn code(codes: &[u8], bits: usize, dim: usize, v: usize, j: usize) -> u8 {
    let mut c = 0u8;
    for p in 0..bits {
        let byte = codes[v * bits * (dim / 8) + p * (dim / 8) + j / 8];
        c |= ((byte >> (7 - j % 8)) & 1) << p;
    }
    c
}

/// The byte that holds the codes of group `g` of vector `v`.
fn group(codes: &[u8], n: usize, bits: usize, dim: usize, v: usize, g: usize) -> u8 {
    if v >= n {
        return 0;
    }
    let per = 8 / bits;
    let width = if bits == 3 { 4 } else { bits };
    let mut b = 0u8;
    for c in 0..per {
        b |= code(codes, bits, dim, v, g * per + c) << ((per - 1 - c) * width);
    }
    b
}

/// Grows an index batch by batch, repacking dirty blocks only, and compares
/// the result with a full repack after each batch.
fn check_incremental_identity(dim: usize, bits: usize, batches: &[usize]) {
    let row = bits * (dim / 8);
    let total: usize = batches.iter().sum();
    let all = noise(total * row, 7);
    for layout in [pack::Layout::Interleaved, pack::Layout::Sequential] {
        let mut cache: Vec<u8> = Vec::new();
        let mut n = 0;
        for batch in batches {
            let first_block = n / 32;
            n += batch;
            let codes = &all[..n * row];
            cache.truncate(first_block * (dim / (8 / bits)) * 32);
            cache.extend(pack::repack_range_as(layout, codes, n, bits, dim, first_block));
            let (full, n_blocks) = pack::repack_as(layout, codes, n, bits, dim);
            assert_eq!(n_blocks, (n + 31) / 32);
            assert_eq!(cache, full);
        }
    }
}

#[test]
fn incremental_pack_4bit_block_aligned_batches() {
    // 32 vectors per batch = perfectly block-aligned.
    check_incremental_identity(64, 4, &[32, 32, 32]);
}

#[test]
fn incremental_pack_4bit_non_aligned_batches() {
    // 10, 17, 5, 33 — spans partial tail blocks and exact boundaries.
    check_incremental_identity(64, 4, &[10, 17, 5, 33]);
}

#[test]
fn incremental_pack_4bit_large_dim() {
    check_incremental_identity(256, 4, &[15, 40, 1, 32]);
}

#[test]
fn incremental_pack_2bit_partial_blocks() {
    check_incremental_identity(64, 2, &[7, 31, 32, 3]);
}

#[test]
fn incremental_pack_3bit_mixed() {
    check_incremental_identity(64, 3, &[5, 32, 11]);
}

#[test]
fn interleaved_layout_splits_nibbles() {
    let perm = [0, 8, 1, 9, 2, 10, 3, 11, 4, 12, 5, 13, 6, 14, 7, 15];
    for (bits, dim, n) in [(1, 16, 33), (2, 32, 40), (3, 24, 64), (4, 64, 75), (8, 8, 5)] {
        let codes = noise(n * bits * (dim / 8), 3);
        let (data, n_blocks) = pack::repack(&codes, n, bits, dim);
        let groups = dim / (8 / bits);
        assert_eq!(n_blocks, (n + 31) / 32);
        assert_eq!(data.len(), n_blocks * groups * 32);
        for block in 0..n_blocks {
            for g in 0..groups {
                let at = (block * groups + g) * 32;
                for lane in 0..16 {
                    let a = group(&codes, n, bits, dim, block * 32 + perm[lane], g);
                    let b = group(&codes, n, bits, dim, block * 32 + perm[lane] + 16, g);
                    assert_eq!(data[at + lane], (a >> 4) | (b & 0xf0));
                    assert_eq!(data[at + 16 + lane], (a & 0x0f) | (b << 4));
                }
            }
        }
    }
}

#[test]
fn sequential_layout_keeps_bytes() {
    for (bits, dim, n) in [(2, 32, 40), (3, 24, 64), (4, 64, 75)] {
        let codes = noise(n * bits * (dim / 8), 5);
        let (data, n_blocks) = pack::repack_as(pack::Layout::Sequential, &codes, n, bits, dim);
        let groups = dim / (8 / bits);
        for v in 0..n_blocks * 32 {
            for g in 0..groups {
                assert_eq!(
                    data[(v / 32 * groups + g) * 32 + v % 32],
                    group(&codes, n, bits, dim, v, g)
                );
            }
        }
    }
}

#[test]
fn one_vector_packed_by_hand() {
    // Planes 0 and 3 are set at coordinate 0, plane 1 at coordinate 1: codes
    // 9 and 2, which share the byte 0x92.
    let codes = [0x80, 0x40, 0x00, 0x80];
    let (data, n_blocks) = pack::repack_as(pack::Layout::Sequential, &codes, 1, 4, 8);
    assert_eq!(n_blocks, 1);
    assert_eq!(data.len(), 4 * 32);
    assert_eq!(data[0], 0x92);
    assert_eq!(data.iter().map(|&b| b as u32).sum::<u32>(), 0x92);
    let (data, _) = pack::repack(&codes, 1, 4, 8);
    assert_eq!(data[0], 0x09);
    assert_eq!(data[16], 0x02);
    assert_eq!(data.iter().map(|&b| b as u32).sum::<u32>(), 0x0b);
}

#[test]
fn nothing_to_repack() {
    assert_eq!(pack::repack(&[], 0, 4, 64), (Vec::new(), 0));
    let codes = noise(64 * 32, 1);
    assert_eq!(pack::repack_range(&codes, 64, 4, 64, 2), Vec::<u8>::new());
    assert_eq!(pack::repack_range(&codes, 64, 4, 64, 9), Vec::<u8>::new());
}

#[test]
fn a_block_reads_its_own_vectors_alone() {
    let (bits, dim, n) = (4, 64, 96);
    let row = bits * (dim / 8);
    let a = noise(n * row, 11);
    let mut b = noise(n * row, 12);
    b[32 * row..64 * row].copy_from_slice(&a[32 * row..64 * row]);
    let block = dim / 2 * 32;
    let (pa, _) = pack::repack(&a, n, bits, dim);
    let (pb, _) = pack::repack(&b, n, bits, dim);
    assert_eq!(pa[block..2 * block], pb[block..2 * block]);
    assert_ne!(pa[..block], pb[..block]);
}

#[test]
fn different_codes_pack_differently() {
    let (bits, dim, n) = (3, 64, 40);
    let row = bits * (dim / 8);
    let a = noise(n * row, 21);
    let (pa, _) = pack::repack(&a, n, bits, dim);
    let (la, ha, _) = pack::repack_3bit(&a, n, dim);
    for at in [0, 5, 8, 17, n * row - 1] {
        let mut b = a.clone();
        b[at] ^= 0x10;
        let (pb, _) = pack::repack(&b, n, bits, dim);
        assert_ne!(pa, pb);
        let (lb, hb, _) = pack::repack_3bit(&b, n, dim);
        assert_ne!((la.clone(), ha.clone()), (lb, hb));
    }
}

#[test]
fn three_bit_codes_split_into_planes() {
    let (dim, n) = (64, 40);
    let codes = noise(n * 3 * (dim / 8), 31);
    let (low, high, n_blocks) = pack::repack_3bit(&codes, n, dim);
    assert_eq!(n_blocks, 2);
    assert_eq!(low.len(), 2 * (dim / 4) * 32);
    assert_eq!(high.len(), 2 * (dim / 8) * 32);
    for v in 0..64 {
        for g in 0..dim / 4 {
            let mut want = 0u8;
            if v < n {
                for c in 0..4 {
                    want |= (code(&codes, 3, dim, v, g * 4 + c) & 3) << ((3 - c) * 2);
                }
            }
            assert_eq!(low[(v / 32 * (dim / 4) + g) * 32 + v % 32], want);
        }
        for g in 0..dim / 8 {
            let want = if v < n { codes[v * 24 + 16 + g] } else { 0 };
            assert_eq!(high[(v / 32 * (dim / 8) + g) * 32 + v % 32], want);
        }
    }
}

fn set_bits(bytes: &[u8]) -> u32 {
    bytes.iter().map(|b| b.count_ones()).sum()
}

#[test]
fn set_bits_are_kept() {
    for (bits, dim, n) in [(1, 16, 33), (2, 32, 40), (3, 24, 70), (4, 64, 75), (5, 8, 40), (8, 8, 5)] {
        let row = bits * (dim / 8);
        let codes = noise(n * row, 41);
        for layout in [pack::Layout::Interleaved, pack::Layout::Sequential] {
            for first_block in 0..=(n + 31) / 32 {
                let data = pack::repack_range_as(layout, &codes, n, bits, dim, first_block);
                let start = (first_block * 32).min(n);
                assert_eq!(set_bits(&data), set_bits(&codes[start * row..]));
            }
        }
    }
    let codes = noise(40 * 24, 43);
    let (low, high, _) = pack::repack_3bit(&codes, 40, 64);
    assert_eq!(set_bits(&low) + set_bits(&high), set_bits(&codes));
}

#[test]
fn a_range_tells_its_own_codes_apart_and_no_others() {
    let (bits, dim, n) = (4, 64, 75);
    let row = bits * (dim / 8);
    let a = noise(n * row, 51);
    let part = pack::repack_range(&a, n, bits, dim, 1);
    for at in 0..n * row {
        let mut b = a.clone();
        b[at] ^= 1;
        assert_eq!(pack::repack_range(&b, n, bits, dim, 1) == part, at < 32 * row);
    }
}

#[test]
fn three_bit_parts_depend_on_their_own_planes() {
    let (dim, n) = (64, 40);
    let a = noise(n * 24, 61);
    let (low, high, _) = pack::repack_3bit(&a, n, dim);
    for at in 0..n * 24 {
        let mut b = a.clone();
        b[at] ^= 0x80;
        let (low_b, high_b, _) = pack::repack_3bit(&b, n, dim);
        let in_third_plane = at % 24 >= 16;
        assert_eq!(low_b == low, in_third_plane);
        assert_eq!(high_b == high, !in_third_plane);
    }
}
