use turbovec::refine::RefineMode;
use turbovec::wasm::{unknown_mode_message, SearchAction, WasmError, WasmIndex, WasmSearchResults};

fn patterns(values: &[f32]) -> Vec<u32> {
    values.iter().map(|x| x.to_bits()).collect()
}

fn index(dim: usize, bit_width: usize, refine: Option<&str>) -> WasmIndex {
    match WasmIndex::new(dim, bit_width, refine.map(|s| s.to_string())) {
        Ok(index) => index,
        Err(e) => panic!("{}", e.message()),
    }
}

fn refusal(index: &mut WasmIndex, flat: &[u32]) -> String {
    match index.add(flat) {
        Ok(()) => panic!("accepted"),
        Err(e) => e.message(),
    }
}

#[test]
fn refine_modes_have_names() {
    let names = [
        (None, None),
        (Some(""), None),
        (Some("none"), None),
        (Some("int8"), Some(RefineMode::Int8)),
        (Some("float16"), Some(RefineMode::Float16)),
        (Some("fp16"), Some(RefineMode::Float16)),
        (Some("half"), Some(RefineMode::Float16)),
        (Some("float32"), Some(RefineMode::Float32)),
        (Some("f32"), Some(RefineMode::Float32)),
    ];
    for (name, mode) in names {
        let index = index(64, 4, name);
        assert_eq!(index.refine_mode(), mode);
        assert_eq!(index.len(), 0);
        assert!(index.is_empty());
    }
}

#[test]
fn unknown_refine_mode_is_refused() {
    for name in ["Int8", "f16", " none", "a\"b\n"] {
        match WasmIndex::new(64, 4, Some(name.to_string())) {
            Ok(_) => panic!("accepted"),
            Err(e) => {
                assert!(matches!(&e, WasmError::UnknownRefineMode(other) if other == name));
                assert_eq!(
                    e.message(),
                    format!("unknown refine mode {name:?} (use none/int8/float16/float32)")
                );
            }
        }
    }
    assert_eq!(
        unknown_mode_message("\"int4\""),
        "unknown refine mode \"int4\" (use none/int8/float16/float32)"
    );
}

#[test]
fn shapes_that_no_index_has_are_refused() {
    for (dim, bit_width) in [(0, 4), (7, 4), (12, 2), (8, 0), (8, 1), (64, 5), (7, 9)] {
        for refine in [None, Some("none"), Some("int8")] {
            match WasmIndex::new(dim, bit_width, refine.map(|s| s.to_string())) {
                Ok(_) => panic!("accepted"),
                Err(e) => {
                    assert!(matches!(
                        e,
                        WasmError::IndexShape { dim: d, bit_width: b } if d == dim && b == bit_width
                    ));
                    assert_eq!(
                        e.message(),
                        format!(
                            "dim {dim} must be a positive multiple of 8 \
                             and bit_width {bit_width} must be 2, 3, or 4"
                        )
                    );
                }
            }
        }
        // The name is looked at first.
        match WasmIndex::new(dim, bit_width, Some("int4".to_string())) {
            Ok(_) => panic!("accepted"),
            Err(e) => assert!(matches!(e, WasmError::UnknownRefineMode(_))),
        }
    }
    for dim in [8, 16, 1536] {
        for bit_width in [2, 3, 4] {
            assert!(WasmIndex::new(dim, bit_width, None).is_ok());
        }
    }
}

/// A vector of dimension 8 that starts with the given values.
fn vector(start: &[f32]) -> Vec<u32> {
    let mut v = patterns(start);
    v.resize(8, 0);
    v
}

#[test]
fn whole_vectors_are_counted() {
    let mut index = index(8, 4, None);
    let mut two = vector(&[1.0, 2.0]);
    two.extend(vector(&[-3.0, 9.9e15]));
    assert!(index.add(&two).is_ok());
    assert_eq!(index.len(), 2);
    assert!(!index.is_empty());
    assert!(index.add(&[]).is_ok());
    assert!(index.add(&vector(&[])).is_ok());
    assert_eq!(index.len(), 3);
}

#[test]
fn bad_batches_are_refused_and_change_nothing() {
    let mut small = index(8, 4, None);
    assert!(small.add(&vector(&[1.0, 2.0])).is_ok());
    assert_eq!(
        refusal(&mut small, &patterns(&[1.0, 2.0, 3.0])),
        "input length 3 is not a multiple of dim 8"
    );
    for bad in [1e16, -1e16, 2e16, f32::INFINITY, f32::NEG_INFINITY, f32::NAN, -f32::NAN] {
        assert_eq!(
            refusal(&mut small, &vector(&[1.0, bad, bad, 1.0])),
            "input value at position 1 is non-finite or out of range"
        );
    }
    assert_eq!(small.len(), 1);
    // The largest value below the limit.
    assert!(small.add(&[1e16f32.to_bits() - 1, 0, 0, 0, 0, 0, 0, 0]).is_ok());
    assert_eq!(small.len(), 2);
}

#[test]
fn search_picks_the_cascade_only_with_a_refine_store() {
    let query = vector(&[1.0, 2.0]);
    let plain = index(8, 4, None);
    let refined = index(8, 4, Some("int8"));
    for (index, factor, want) in [
        (&plain, 1, SearchAction::Coarse { k: 5 }),
        (&plain, 4, SearchAction::Coarse { k: 5 }),
        (&refined, 0, SearchAction::Coarse { k: 5 }),
        (&refined, 1, SearchAction::Coarse { k: 5 }),
        (&refined, 4, SearchAction::Rerank { k: 5, rerank_factor: 4 }),
    ] {
        match index.search(&query, 5, factor) {
            Ok(action) => assert_eq!(action, want),
            Err(e) => panic!("{}", e.message()),
        }
    }
    match refined.search(&query[..1], 5, 4) {
        Ok(_) => panic!("accepted"),
        Err(e) => assert_eq!(e.message(), "query length 1 != dim 8"),
    }
}

#[test]
fn size_figures() {
    let sizes = [
        (None, 0),
        (Some("int8"), 3 * (1536 + 4)),
        (Some("float16"), 3 * 1536 * 2),
        (Some("float32"), 3 * 1536 * 4),
    ];
    for (mode, refine) in sizes {
        let mut index = index(1536, 4, mode);
        assert!(index.add(&vec![0u32; 3 * 1536]).is_ok());
        assert_eq!(index.coarse_bytes(), 3 * (768 + 4));
        assert_eq!(index.refine_bytes(), refine);
        assert_eq!(index.fp32_bytes(), 18_432);
    }
    let mut three = index(8, 3, None);
    assert!(three.add(&vector(&[])).is_ok());
    assert_eq!(three.coarse_bytes(), 3 + 4);
}

#[test]
fn results_are_aligned() {
    let found = WasmSearchResults::new(&[3, 0, -1, 1 << 32], &patterns(&[0.5, 0.25, 0.0, 0.0]));
    assert_eq!(found.indices(), vec![3, 0, -1, 0]);
    assert_eq!(found.scores(), patterns(&[0.5, 0.25, 0.0, 0.0]));
}
