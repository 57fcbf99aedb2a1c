use turbovec::par::{seq_row_maxima, SliceParSeq};
use turbovec::refine::{row_max_abs, RefineMode, RefineStore, RowEncodings, StoredRow};

fn patterns(values: &[f32]) -> Vec<u32> {
    values.iter().map(|x| x.to_bits()).collect()
}

fn nothing() -> RowEncodings {
    RowEncodings { codes: Vec::new(), scales: Vec::new(), halfs: Vec::new() }
}

/// Two vectors of dimension 3, the second all zero, and one more.
fn batch() -> Vec<u32> {
    patterns(&[1.0, -2.0, 0.5, 0.0, -0.0, 0.0, 4.0, 4.0, -4.0])
}

fn batch_encodings() -> RowEncodings {
    RowEncodings {
        codes: vec![64, -127, 32, 9, 9, 9, 127, 127, -128],
        scales: patterns(&[2.0 / 127.0, 5.0, 4.0 / 127.0]),
        halfs: vec![0x3c00, 0xc000, 0x3800, 0, 0x8000, 0, 0x4400, 0x4400, 0xc400],
    }
}

#[test]
fn new_store_is_empty() {
    for mode in [RefineMode::Int8, RefineMode::Float16, RefineMode::Float32] {
        let store = RefineStore::new(mode);
        assert_eq!(store.mode, mode);
        assert_eq!(store.len(), 0);
        assert!(store.codes_i8.is_empty() && store.i8_scales.is_empty());
        assert!(store.halfs.is_empty() && store.floats.is_empty());
    }
}

#[test]
fn largest_magnitude_matches_float_order() {
    let rows: [&[f32]; 6] = [
        &[],
        &[0.0, -0.0],
        &[1.0, -2.5, 2.25],
        &[f32::NAN, 3.0, -f32::NAN],
        &[f32::NEG_INFINITY, 1e30],
        &[1e-40, -1e-41],
    ];
    for row in rows {
        let want = row.iter().map(|x| x.abs()).fold(0.0_f32, f32::max);
        assert_eq!(row_max_abs(&patterns(row)), want.to_bits());
    }
    assert_eq!(row_max_abs(&patterns(&[f32::NAN])), 0);
    assert_eq!(row_max_abs(&patterns(&[1.0, -2.5, 2.25])), 0x4020_0000);
}

#[test]
fn float32_store_keeps_patterns() {
    let v = batch();
    let mut store = RefineStore::new(RefineMode::Float32);
    store.append(&v, &nothing(), 2, 3);
    assert_eq!(store.len(), 2);
    assert_eq!(store.floats, v[..6].to_vec());
    store.append(&v[6..], &nothing(), 1, 3);
    assert_eq!(store.len(), 3);
    assert_eq!(store.floats, v);
    assert!(store.codes_i8.is_empty() && store.i8_scales.is_empty() && store.halfs.is_empty());
}

#[test]
fn float16_store_keeps_halfs() {
    let mut store = RefineStore::new(RefineMode::Float16);
    store.append(&batch(), &batch_encodings(), 3, 3);
    assert_eq!(store.len(), 3);
    assert_eq!(store.halfs, batch_encodings().halfs);
    assert!(store.floats.is_empty());
}

#[test]
fn int8_store_zeroes_zero_vectors_and_stays_symmetric() {
    let mut store = RefineStore::new(RefineMode::Int8);
    store.append(&batch(), &batch_encodings(), 3, 3);
    assert_eq!(store.len(), 3);
    assert_eq!(store.codes_i8, vec![64, -127, 32, 0, 0, 0, 127, 127, -127]);
    assert_eq!(store.i8_scales, patterns(&[2.0 / 127.0, 0.0, 4.0 / 127.0]));
    assert!(store.floats.is_empty() && store.halfs.is_empty());
}

#[test]
fn appending_keeps_earlier_rows() {
    let mut store = RefineStore::new(RefineMode::Int8);
    store.append(&batch(), &batch_encodings(), 1, 3);
    store.append(&batch(), &batch_encodings(), 0, 3);
    store.append(&batch(), &batch_encodings(), 3, 3);
    assert_eq!(store.len(), 4);
    assert_eq!(store.codes_i8[..3], [64, -127, 32]);
    assert_eq!(store.codes_i8[3..], [64, -127, 32, 0, 0, 0, 127, 127, -127]);
}

#[test]
fn swap_remove_moves_the_last_row() {
    for mode in [RefineMode::Int8, RefineMode::Float16, RefineMode::Float32] {
        let mut store = RefineStore::new(mode);
        store.append(&batch(), &batch_encodings(), 3, 3);
        store.swap_remove(0, 3, 3);
        assert_eq!(store.len(), 2);
        match store.stored_row(0, 3) {
            StoredRow::Int8 { codes, scale } => {
                assert_eq!(codes.to_vec(), vec![127i8, 127, -127]);
                assert_eq!(scale, (4.0f32 / 127.0).to_bits());
            }
            StoredRow::Float16 { halfs } => {
                assert_eq!(halfs.to_vec(), vec![0x4400u16, 0x4400, 0xc400]);
            }
            StoredRow::Float32 { floats } => {
                assert_eq!(floats.to_vec(), patterns(&[4.0, 4.0, -4.0]));
            }
        }
        match store.stored_row(1, 3) {
            StoredRow::Int8 { codes, scale } => {
                assert_eq!(codes.to_vec(), vec![0i8; 3]);
                assert_eq!(scale, 0);
            }
            StoredRow::Float16 { halfs } => assert_eq!(halfs.to_vec(), vec![0u16, 0x8000, 0]),
            StoredRow::Float32 { floats } => {
                assert_eq!(floats.to_vec(), patterns(&[0.0, -0.0, 0.0]));
            }
        }
    }
}

#[test]
fn removing_the_last_row_undoes_an_append() {
    let mut store = RefineStore::new(RefineMode::Int8);
    store.append(&batch(), &batch_encodings(), 2, 3);
    let codes = store.codes_i8.clone();
    let scales = store.i8_scales.clone();
    store.append(&batch()[6..], &batch_encodings(), 1, 3);
    store.swap_remove(2, 3, 3);
    assert_eq!(store.codes_i8, codes);
    assert_eq!(store.i8_scales, scales);
    assert_eq!(store.len(), 2);
    store.swap_remove(1, 2, 3);
    store.swap_remove(0, 1, 3);
    assert_eq!(store.len(), 0);
    assert!(store.codes_i8.is_empty() && store.i8_scales.is_empty());
}

#[test]
fn rows_are_worked_on_alike_in_order_and_in_parallel() {
    // Rows with a maximum of zero are told apart by the store, which works on
    // rows in parallel, just as by the sequential pass.
    let dim = 4;
    let n = 1000;
    let mut v = vec![0u32; n * dim];
    for i in 0..n {
        if i % 3 != 0 {
            v[i * dim + i % dim] = (i as f32).to_bits() | 0x8000_0000;
        }
    }
    let maxima = seq_row_maxima(&v, dim);
    assert_eq!(maxima.len(), n);
    assert_eq!(maxima[7], 7.0f32.to_bits());
    let enc = RowEncodings { codes: vec![1; n * dim], scales: vec![1; n], halfs: Vec::new() };
    let mut store = RefineStore::new(RefineMode::Int8);
    store.append(&v, &enc, n, dim);
    for i in 0..n {
        assert_eq!(maxima[i], if i % 3 == 0 { 0 } else { (i as f32).to_bits() });
        assert_eq!(store.i8_scales[i], if maxima[i] == 0 { 0 } else { 1 });
    }
}

#[test]
fn chunks_cover_the_slice() {
    let v: [u32; 7] = [1, 2, 3, 4, 5, 6, 7];
    let chunks = SliceParSeq::par_chunks(&v[..], 3);
    assert_eq!(chunks, vec![&v[0..3], &v[3..6], &v[6..7]]);
    assert_eq!(SliceParSeq::par_chunks(&v[..], 7), vec![&v[..]]);
    assert_eq!(SliceParSeq::par_chunks(&v[..], usize::MAX), vec![&v[..]]);
    assert!(SliceParSeq::par_chunks(&v[..0], 2).is_empty());
    let total: u32 = SliceParSeq::par_iter(&v[..]).sum();
    assert_eq!(total, 28);
}

#[test]
fn chunks_open_to_change_write_through() {
    let mut v: [u32; 7] = [1, 2, 3, 4, 5, 6, 7];
    for (i, chunk) in SliceParSeq::par_chunks_mut(&mut v[..], 3).into_iter().enumerate() {
        assert_eq!(chunk[0], 3 * i as u32 + 1);
        chunk[0] = 100 + chunk.len() as u32;
    }
    assert_eq!(v, [103, 2, 3, 103, 5, 6, 101]);
    assert!(SliceParSeq::par_chunks_mut(&mut v[..0], 3).is_empty());
}

#[test]
fn items_open_to_change_write_through() {
    let mut v: [u32; 4] = [1, 2, 3, 4];
    let refs = SliceParSeq::par_iter_mut(&mut v[..]);
    assert_eq!(refs.len(), 4);
    for x in refs {
        *x *= 10;
    }
    assert_eq!(v, [10, 20, 30, 40]);
    assert!(SliceParSeq::par_iter_mut(&mut v[..0]).is_empty());
}

#[test]
fn two_batches_are_stored_as_one() {
    for mode in [RefineMode::Int8, RefineMode::Float16, RefineMode::Float32] {
        let enc = batch_encodings();
        let mut once = RefineStore::new(mode);
        once.append(&batch(), &enc, 3, 3);
        let mut twice = RefineStore::new(mode);
        twice.append(&batch(), &enc, 1, 3);
        let rest = RowEncodings {
            codes: enc.codes[3..].to_vec(),
            scales: enc.scales[1..].to_vec(),
            halfs: enc.halfs[3..].to_vec(),
        };
        twice.append(&batch()[3..], &rest, 2, 3);
        assert_eq!(once.len(), twice.len());
        assert_eq!(once.codes_i8, twice.codes_i8);
        assert_eq!(once.i8_scales, twice.i8_scales);
        assert_eq!(once.halfs, twice.halfs);
        assert_eq!(once.floats, twice.floats);
    }
}

#[test]
fn int8_store_counts_its_scales() {
    let mut store = RefineStore::new(RefineMode::Int8);
    store.i8_scales.push(1);
    store.codes_i8.push(1);
    assert_eq!(store.len(), 1);
}
