use turbovec::io;
use turbovec::io::{load, load_id_map, write_id_map, FileKind, LoadError};
use turbovec::refine::{RefineMode, RefineStore};

const CODES: [u8; 12] = [1, 2, 3, 4, 5, 6, 7, 8, 9, 10, 11, 12];
const IDS: [u64; 3] = [7, u64::MAX, 0x0102_0304_0506_0708];

fn scales() -> Vec<u32> {
    [1.0f32, -2.0, 0.5].iter().map(|x| x.to_bits()).collect()
}

fn shift() -> Vec<u32> {
    (0..8u32).collect()
}

fn scale() -> Vec<u32> {
    (0..8u32).map(|x| x << 24).collect()
}

fn store(mode: RefineMode) -> RefineStore {
    let mut s = RefineStore::new(mode);
    s.n = 3;
    match mode {
        RefineMode::Int8 => {
            s.codes_i8 = (-12..12).collect();
            s.i8_scales = vec![1, 0xffff_ffff, 0x0102_0304];
        }
        RefineMode::Float16 => s.halfs = (0..24u16).map(|x| x * 2700).collect(),
        RefineMode::Float32 => s.floats = (0..24u32).map(|x| x * 170_000_000).collect(),
    }
    s
}

/// Three vectors of dimension 8 with codes of 4 bits.
fn tv(refine: Option<&RefineStore>) -> Vec<u8> {
    io::write(4, 8, 3, &CODES, &scales(), &shift(), &scale(), refine)
}

fn tvim(refine: Option<&RefineStore>) -> Vec<u8> {
    write_id_map(4, 8, 3, &CODES, &scales(), &shift(), &scale(), &IDS, refine)
}

fn tv_error(b: &[u8]) -> LoadError {
    match load(b) {
        Ok(_) => panic!("loaded"),
        Err(e) => e,
    }
}

fn tvim_error(b: &[u8]) -> LoadError {
    match load_id_map(b) {
        Ok(_) => panic!("loaded"),
        Err(e) => e,
    }
}

fn same_store(a: &Option<RefineStore>, b: &Option<RefineStore>) -> bool {
    match (a, b) {
        (None, None) => true,
        (Some(a), Some(b)) => {
            a.mode == b.mode
                && a.len() == b.len()
                && a.codes_i8 == b.codes_i8
                && a.i8_scales == b.i8_scales
                && a.halfs == b.halfs
                && a.floats == b.floats
        }
        _ => false,
    }
}

fn stores() -> Vec<Option<RefineStore>> {
    vec![
        None,
        Some(store(RefineMode::Int8)),
        Some(store(RefineMode::Float16)),
        Some(store(RefineMode::Float32)),
    ]
}

#[test]
fn tv_round_trip() {
    for refine in stores() {
        let mut bytes = tv(refine.as_ref());
        bytes.extend([1, 2, 3]); // trailing bytes are not looked at
        match load(&bytes) {
            Ok((bits, dim, n, codes, sc, sh, cs, rs)) => {
                assert_eq!((bits, dim, n), (4, 8, 3));
                assert_eq!(codes, CODES);
                assert_eq!(sc, scales());
                assert_eq!(sh, shift());
                assert_eq!(cs, scale());
                assert!(same_store(&rs, &refine));
                assert_eq!(io::write(bits, dim, n, &codes, &sc, &sh, &cs, rs.as_ref()), tv(refine.as_ref()));
            }
            Err(e) => panic!("{}", e.message()),
        }
    }
}

#[test]
fn tvim_round_trip() {
    for refine in stores() {
        let bytes = tvim(refine.as_ref());
        match load_id_map(&bytes) {
            Ok((bits, dim, n, codes, sc, sh, cs, ids, rs)) => {
                assert_eq!((bits, dim, n), (4, 8, 3));
                assert_eq!(codes, CODES);
                assert_eq!(sc, scales());
                assert_eq!(sh, shift());
                assert_eq!(cs, scale());
                assert_eq!(ids, IDS);
                assert!(same_store(&rs, &refine));
                assert_eq!(
                    write_id_map(bits, dim, n, &codes, &sc, &sh, &cs, &ids, rs.as_ref()),
                    bytes
                );
            }
            Err(e) => panic!("{}", e.message()),
        }
    }
}

#[test]
fn version_4_only_with_a_refine_store() {
    for refine in stores() {
        let version = if refine.is_some() { 4 } else { 3 };
        assert_eq!(tv(refine.as_ref())[4], version);
        assert_eq!(tvim(refine.as_ref())[4], version);
    }
}

#[test]
fn tv_bytes_by_hand() {
    let bytes = io::write(2, 8, 1, &[0xaa, 0xbb], &[0x0403_0201], &[], &[], None);
    assert_eq!(
        bytes,
        vec![
            0x54, 0x56, 0x50, 0x49, 3, 2, 8, 0, 0, 0, 1, 0, 0, 0, 0xaa, 0xbb, 1, 2, 3, 4, 0, 0, 0,
            0
        ]
    );
    let mut s = RefineStore::new(RefineMode::Int8);
    s.n = 1;
    s.codes_i8 = vec![0, 1, -1, 127, -127, 2, -2, 3];
    s.i8_scales = vec![0x0807_0605];
    let bytes = write_id_map(2, 8, 1, &[0xaa, 0xbb], &[0], &[], &[], &[0x1122], Some(&s));
    assert_eq!(bytes[..5], [0x54, 0x56, 0x49, 0x4d, 4]);
    assert_eq!(
        bytes[24..],
        [0x22, 0x11, 0, 0, 0, 0, 0, 0, 1, 5, 6, 7, 8, 0, 1, 255, 127, 129, 2, 254, 3]
    );
}

#[test]
fn trailer_sizes() {
    assert_eq!(tv(Some(&store(RefineMode::Int8))).len() - tv(None).len(), 1 + 3 * (8 + 4));
    assert_eq!(tv(Some(&store(RefineMode::Float16))).len() - tv(None).len(), 1 + 3 * 8 * 2);
    assert_eq!(tv(Some(&store(RefineMode::Float32))).len() - tv(None).len(), 1 + 3 * 8 * 4);
}

#[test]
fn version_2_loads_uncalibrated() {
    let mut bytes = io::write(4, 8, 3, &CODES, &scales(), &[], &[], None);
    bytes[4] = 2;
    bytes.truncate(bytes.len() - 4);
    match load(&bytes) {
        Ok((bits, dim, n, codes, sc, sh, cs, rs)) => {
            assert_eq!((bits, dim, n), (4, 8, 3));
            assert_eq!(codes, CODES);
            assert_eq!(sc, scales());
            assert!(sh.is_empty() && cs.is_empty() && rs.is_none());
            // Saved again, it is a file of version 3 with the same index.
            let again = io::write(bits, dim, n, &codes, &sc, &sh, &cs, None);
            assert_eq!(again, io::write(4, 8, 3, &CODES, &scales(), &[], &[], None));
            assert_eq!(again[4], 3);
        }
        Err(e) => panic!("{}", e.message()),
    }
    bytes[2] = 0x49;
    bytes[3] = 0x4d;
    for id in IDS {
        bytes.extend(id.to_le_bytes());
    }
    match load_id_map(&bytes) {
        Ok((_, _, _, _, _, sh, cs, ids, rs)) => {
            assert!(sh.is_empty() && cs.is_empty() && rs.is_none());
            assert_eq!(ids, IDS);
        }
        Err(e) => panic!("{}", e.message()),
    }
}

#[test]
fn cut_files_are_refused() {
    for refine in stores() {
        let bytes = tv(refine.as_ref());
        for k in 0..bytes.len() {
            assert_eq!(tv_error(&bytes[..k]), LoadError::UnexpectedEof);
        }
        let bytes = tvim(refine.as_ref());
        for k in 0..bytes.len() {
            assert_eq!(tvim_error(&bytes[..k]), LoadError::UnexpectedEof);
        }
    }
    assert!(!LoadError::UnexpectedEof.is_invalid_data());
    assert_eq!(LoadError::UnexpectedEof.message(), "failed to fill whole buffer");
}

#[test]
fn kinds_are_told_apart() {
    let e = tv_error(&tvim(None));
    assert_eq!(e, LoadError::WrongMagic(FileKind::Tv));
    assert!(e.is_invalid_data());
    assert_eq!(e.message(), "not a turbovec .tv file: wrong magic");
    let e = tvim_error(&tv(None));
    assert_eq!(e, LoadError::WrongMagic(FileKind::Tvim));
    assert_eq!(e.message(), "not a TVIM file: wrong magic");
}

#[test]
fn version_1_is_refused_with_a_hint() {
    for first in [2, 3, 4] {
        let e = tv_error(&[first, 0, 0, 0]);
        assert_eq!(e, LoadError::LegacyFormat(FileKind::Tv));
        assert_eq!(
            e.message(),
            "this .tv file was written by turbovec ≤ 0.4.3 (format \
             version 1). It is incompatible with turbovec 0.4.4+ \
             because the per-vector scalar's meaning changed. \
             Rebuild this index from the source vectors using turbovec 0.4.4 or later \
             (no in-place migration is provided; the format version 2 changes the meaning \
             of the per-vector scalar from ||v|| to a length-renormalization correction)."
        );
    }
    assert_eq!(tv_error(&[1, 0, 0, 0]), LoadError::WrongMagic(FileKind::Tv));
    assert_eq!(tv_error(&[5, 0, 0, 0]), LoadError::WrongMagic(FileKind::Tv));
    let mut bytes = tvim(None);
    bytes[4] = 1;
    let e = tvim_error(&bytes);
    assert_eq!(e, LoadError::LegacyFormat(FileKind::Tvim));
    assert!(e.message().starts_with("this .tvim file was written by turbovec ≤ 0.4.3"));
}

#[test]
fn unsupported_versions() {
    for version in [0, 1, 5, 255] {
        let mut bytes = tv(None);
        bytes[4] = version;
        let e = tv_error(&bytes);
        assert_eq!(e, LoadError::UnsupportedVersion { kind: FileKind::Tv, version });
        assert_eq!(
            e.message(),
            format!("unsupported .tv format version: {version} (this build supports versions 2, 3, and 4)")
        );
    }
    for version in [0, 5, 255] {
        let mut bytes = tvim(None);
        bytes[4] = version;
        let e = tvim_error(&bytes);
        assert_eq!(e, LoadError::UnsupportedVersion { kind: FileKind::Tvim, version });
        assert_eq!(
            e.message(),
            format!("unsupported .tvim format version: {version} (this build supports versions 2, 3, and 4)")
        );
    }
}

#[test]
fn calibration_count_must_be_zero_or_dim() {
    let mut bytes = tv(None);
    bytes[5 + 9 + 12 + 12] = 7;
    let e = tv_error(&bytes);
    assert_eq!(e, LoadError::InvalidCalibration { n_calib: 7, dim: 8 });
    assert_eq!(e.message(), "invalid TQ+ n_calib 7: must be 0 or equal to dim 8");
    let mut bytes = tvim(None);
    bytes[5 + 9 + 12 + 12 + 3] = 0xff;
    assert_eq!(tvim_error(&bytes), LoadError::InvalidCalibration { n_calib: 0xff00_0008, dim: 8 });
}

#[test]
fn refine_mode_byte_must_be_known() {
    for mode in [0, 4, 200] {
        let mut bytes = tv(Some(&store(RefineMode::Int8)));
        let at = tv(None).len();
        bytes[at] = mode;
        let e = tv_error(&bytes);
        assert_eq!(e, LoadError::UnknownRefineMode(mode));
        assert_eq!(
            e.message(),
            format!("unknown refine mode byte {mode} in v4 file (expected 1=Int8, 2=Float32, or 3=Float16)")
        );
        let mut bytes = tvim(Some(&store(RefineMode::Int8)));
        let at = tvim(None).len();
        bytes[at] = mode;
        assert_eq!(tvim_error(&bytes), LoadError::UnknownRefineMode(mode));
    }
}

#[test]
fn huge_counts_are_refused() {
    let mut bytes = vec![0x54, 0x56, 0x50, 0x49, 3, 255];
    bytes.extend([0xff; 8]);
    assert_eq!(tv_error(&bytes), LoadError::UnexpectedEof);
}

#[test]
fn empty_index() {
    let bytes = io::write(4, 0, 0, &[], &[], &[], &[], None);
    assert_eq!(bytes.len(), 18);
    match load(&bytes) {
        Ok((bits, dim, n, codes, ..)) => {
            assert_eq!((bits, dim, n), (4, 0, 0));
            assert!(codes.is_empty());
        }
        Err(e) => panic!("{}", e.message()),
    }
}

#[test]
fn counts_keep_their_low_bits() {
    let bytes = io::write(256 + 4, 8, 0, &[], &[], &[], &[], None);
    assert_eq!(bytes[5], 4);
}
