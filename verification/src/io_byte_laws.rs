//! Index files byte by byte.
//!
//! The statements are about single bytes, and write every offset and the value
//! of every group of bytes out.

use crate::io::{
    base_bytes, calibration_bytes, field32, parse_tv, parse_tvim, refine_bytes, trailer_bytes,
    tv_bytes, tv_magic, tvim_bytes, tvim_magic, version_for, FileKind, IndexView, LoadError,
};
use crate::io_laws::{
    laid_out, lemma_base_parts, lemma_five_parts, lemma_nothing_added, lemma_tv_laid_out,
    lemma_tvim_laid_out,
};
use crate::le::{
    i8_of_byte, i8s, le16s, le32s, le64s, lemma_un16s_le16s, lemma_un32_le32, lemma_un32s_le32s,
    lemma_un64s_le64s, lemma_un_i8s_i8s, un16, un16s, un32, un32s, un64,
    un64s, un_i8s,
};
use crate::refine::{RefineMode, RefineView};
use vstd::prelude::*;

verus! {

/// The first four bytes are the magic of a file kind.
proof fn lemma_magic(b: Seq<u8>)
    requires
        4 <= b.len(),
    ensures
        b.take(4) == tv_magic() <==> b[0] == 0x54 && b[1] == 0x56 && b[2] == 0x50 && b[3] == 0x49,
        b.take(4) == tvim_magic() <==> b[0] == 0x54 && b[1] == 0x56 && b[2] == 0x49 && b[3] == 0x4d,
{
    let t = b.take(4);
    assert(t[0] == b[0] && t[1] == b[1] && t[2] == b[2] && t[3] == b[3]);
    if b[0] == 0x54 && b[1] == 0x56 && b[2] == 0x50 && b[3] == 0x49 {
        assert(t =~= tv_magic());
    }
    if b[0] == 0x54 && b[1] == 0x56 && b[2] == 0x49 && b[3] == 0x4d {
        assert(t =~= tvim_magic());
    }
    if t == tv_magic() {
        assert(t[0] == 0x54 && t[1] == 0x56 && t[2] == 0x50 && t[3] == 0x49);
    }
    if t == tvim_magic() {
        assert(t[0] == 0x54 && t[1] == 0x56 && t[2] == 0x49 && t[3] == 0x4d);
    }
}

/// What loading bytes as a `.tv` file gives, byte by byte: which bytes are
/// refused for what, and otherwise which bytes every value is made of.
pub proof fn law_tv_load_by_bytes(b: Seq<u8>)
    ensures
        ({
            let r = parse_tv(b);
            let bits = b[5] as int;
            let dim = b[6] + 256 * b[7] + 65536 * b[8] + 16777216 * b[9];
            let n = b[10] + 256 * b[11] + 65536 * b[12] + 16777216 * b[13];
            let size = dim / 8 * bits * n;
            let scales_at = 14 + size;
            let calib_at = scales_at + 4 * n;
            let m = b[calib_at] + 256 * b[calib_at + 1] + 65536 * b[calib_at + 2]
                + 16777216 * b[calib_at + 3];
            let shift_at = calib_at + 4;
            let scale_at = shift_at + 4 * m;
            let end = if b[4] == 2 {
                calib_at
            } else {
                scale_at + 4 * m
            };
            let total = n * dim;
            let need = if b[end] == 1 {
                4 * n + total
            } else if b[end] == 2 {
                4 * total
            } else {
                2 * total
            };
            if b.len() < 4 {
                r matches Err(e) && e == LoadError::UnexpectedEof
            } else if !(b[0] == 0x54 && b[1] == 0x56 && b[2] == 0x50 && b[3] == 0x49) {
                if 2 <= b[0] <= 4 {
                    r matches Err(e) && e == LoadError::LegacyFormat(FileKind::Tv)
                } else {
                    r matches Err(e) && e == LoadError::WrongMagic(FileKind::Tv)
                }
            } else if b.len() < 5 {
                r matches Err(e) && e == LoadError::UnexpectedEof
            } else if b[4] != 2 && b[4] != 3 && b[4] != 4 {
                r matches Err(e) && e
                    == (LoadError::UnsupportedVersion { kind: FileKind::Tv, version: b[4] })
            } else if b.len() < 14 || b.len() < calib_at || (b[4] != 2 && b.len() < shift_at) {
                r matches Err(e) && e == LoadError::UnexpectedEof
            } else if b[4] != 2 && m != 0 && m != dim {
                r matches Err(e) && e
                    == (LoadError::InvalidCalibration { n_calib: m as u32, dim: dim as u32 })
            } else if b.len() < end || (b[4] == 4 && b.len() < end + 1) {
                r matches Err(e) && e == LoadError::UnexpectedEof
            } else if b[4] == 4 && b[end] != 1 && b[end] != 2 && b[end] != 3 {
                r matches Err(e) && e == LoadError::UnknownRefineMode(b[end])
            } else if b[4] == 4 && b.len() < end + 1 + need {
                r matches Err(e) && e == LoadError::UnexpectedEof
            } else {
                &&& r is Ok
                &&& {
                    let c = r->Ok_0;
                    &&& c.bit_width == bits
                    &&& c.dim == dim
                    &&& c.n == n
                    &&& c.codes.len() == size
                    &&& forall|i: int| 0 <= i < size ==> #[trigger] c.codes[i] == b[14 + i]
                    &&& c.scales.len() == n
                    &&& forall|i: int| 0 <= i < n ==> #[trigger] c.scales[i]
                        == b[scales_at + 4 * i] + 256 * b[scales_at + 4 * i + 1]
                        + 65536 * b[scales_at + 4 * i + 2] + 16777216 * b[scales_at + 4 * i + 3]
                    &&& b[4] == 2 ==> c.shift.len() == 0 && c.scale.len() == 0
                    &&& b[4] != 2 ==> {
                        &&& c.shift.len() == m
                        &&& forall|i: int| 0 <= i < m ==> #[trigger] c.shift[i]
                            == b[shift_at + 4 * i] + 256 * b[shift_at + 4 * i + 1]
                            + 65536 * b[shift_at + 4 * i + 2] + 16777216 * b[shift_at + 4 * i + 3]
                        &&& c.scale.len() == m
                        &&& forall|i: int| 0 <= i < m ==> #[trigger] c.scale[i]
                            == b[scale_at + 4 * i] + 256 * b[scale_at + 4 * i + 1]
                            + 65536 * b[scale_at + 4 * i + 2] + 16777216 * b[scale_at + 4 * i + 3]
                    }
                    &&& b[4] == 4 <==> c.refine is Some
                    &&& b[4] == 4 ==> {
                        let s = c.refine->0;
                        &&& s.n == n
                        &&& b[end] == 1 ==> {
                            &&& s.mode == RefineMode::Int8
                            &&& s.i8_scales.len() == n
                            &&& forall|i: int| 0 <= i < n ==> #[trigger] s.i8_scales[i]
                                == b[end + 1 + 4 * i] + 256 * b[end + 1 + 4 * i + 1]
                                + 65536 * b[end + 1 + 4 * i + 2] + 16777216 * b[end + 1 + 4 * i + 3]
                            &&& s.codes_i8.len() == total
                            &&& forall|i: int|
                            0 <= i < total ==> #[trigger] s.codes_i8[i]
                                == (if b[end + 1 + 4 * n + i] < 128 {
                                    b[end + 1 + 4 * n + i] as int
                                } else {
                                    b[end + 1 + 4 * n + i] - 256
                                })
                            &&& s.halfs.len() == 0
                            &&& s.floats.len() == 0
                        }
                        &&& b[end] == 2 ==> {
                            &&& s.mode == RefineMode::Float32
                            &&& s.floats.len() == total
                            &&& forall|i: int| 0 <= i < total ==> #[trigger] s.floats[i]
                                == b[end + 1 + 4 * i] + 256 * b[end + 1 + 4 * i + 1]
                                + 65536 * b[end + 1 + 4 * i + 2] + 16777216 * b[end + 1 + 4 * i + 3]
                            &&& s.i8_scales.len() == 0
                            &&& s.codes_i8.len() == 0
                            &&& s.halfs.len() == 0
                        }
                        &&& b[end] == 3 ==> {
                            &&& s.mode == RefineMode::Float16
                            &&& s.halfs.len() == total
                            &&& forall|i: int| 0 <= i < total ==> #[trigger] s.halfs[i]
                                == b[end + 1 + 2 * i] + 256 * b[end + 1 + 2 * i + 1]
                            &&& s.i8_scales.len() == 0
                            &&& s.codes_i8.len() == 0
                            &&& s.floats.len() == 0
                        }
                    }
                }
            }
        }),
{
    if b.len() >= 4 {
        lemma_magic(b);
    }
}

/// What loading bytes as a `.tvim` file gives, byte by byte: which bytes are
/// refused for what, and otherwise which bytes every value is made of.
pub proof fn law_tvim_load_by_bytes(b: Seq<u8>)
    ensures
        ({
            let r = parse_tvim(b);
            let bits = b[5] as int;
            let dim = b[6] + 256 * b[7] + 65536 * b[8] + 16777216 * b[9];
            let n = b[10] + 256 * b[11] + 65536 * b[12] + 16777216 * b[13];
            let size = dim / 8 * bits * n;
            let scales_at = 14 + size;
            let calib_at = scales_at + 4 * n;
            let m = b[calib_at] + 256 * b[calib_at + 1] + 65536 * b[calib_at + 2]
                + 16777216 * b[calib_at + 3];
            let shift_at = calib_at + 4;
            let scale_at = shift_at + 4 * m;
            let end = if b[4] == 2 {
                calib_at
            } else {
                scale_at + 4 * m
            };
            let trailer_at = end + 8 * n;
            let total = n * dim;
            let need = if b[trailer_at] == 1 {
                4 * n + total
            } else if b[trailer_at] == 2 {
                4 * total
            } else {
                2 * total
            };
            if b.len() < 4 {
                r matches Err(e) && e == LoadError::UnexpectedEof
            } else if !(b[0] == 0x54 && b[1] == 0x56 && b[2] == 0x49 && b[3] == 0x4d) {
                r matches Err(e) && e == LoadError::WrongMagic(FileKind::Tvim)
            } else if b.len() < 5 {
                r matches Err(e) && e == LoadError::UnexpectedEof
            } else if b[4] == 1 {
                r matches Err(e) && e == LoadError::LegacyFormat(FileKind::Tvim)
            } else if b[4] != 2 && b[4] != 3 && b[4] != 4 {
                r matches Err(e) && e
                    == (LoadError::UnsupportedVersion { kind: FileKind::Tvim, version: b[4] })
            } else if b.len() < 14 || b.len() < calib_at || (b[4] != 2 && b.len() < shift_at) {
                r matches Err(e) && e == LoadError::UnexpectedEof
            } else if b[4] != 2 && m != 0 && m != dim {
                r matches Err(e) && e
                    == (LoadError::InvalidCalibration { n_calib: m as u32, dim: dim as u32 })
            } else if b.len() < trailer_at || (b[4] == 4 && b.len() < trailer_at + 1) {
                r matches Err(e) && e == LoadError::UnexpectedEof
            } else if b[4] == 4 && b[trailer_at] != 1 && b[trailer_at] != 2 && b[trailer_at] != 3 {
                r matches Err(e) && e == LoadError::UnknownRefineMode(b[trailer_at])
            } else if b[4] == 4 && b.len() < trailer_at + 1 + need {
                r matches Err(e) && e == LoadError::UnexpectedEof
            } else {
                &&& r is Ok
                &&& {
                    let c = (r->Ok_0).0;
                    &&& c.bit_width == bits
                    &&& c.dim == dim
                    &&& c.n == n
                    &&& c.codes.len() == size
                    &&& forall|i: int| 0 <= i < size ==> #[trigger] c.codes[i] == b[14 + i]
                    &&& c.scales.len() == n
                    &&& forall|i: int| 0 <= i < n ==> #[trigger] c.scales[i]
                        == b[scales_at + 4 * i] + 256 * b[scales_at + 4 * i + 1]
                        + 65536 * b[scales_at + 4 * i + 2] + 16777216 * b[scales_at + 4 * i + 3]
                    &&& b[4] == 2 ==> c.shift.len() == 0 && c.scale.len() == 0
                    &&& b[4] != 2 ==> {
                        &&& c.shift.len() == m
                        &&& forall|i: int| 0 <= i < m ==> #[trigger] c.shift[i]
                            == b[shift_at + 4 * i] + 256 * b[shift_at + 4 * i + 1]
                            + 65536 * b[shift_at + 4 * i + 2] + 16777216 * b[shift_at + 4 * i + 3]
                        &&& c.scale.len() == m
                        &&& forall|i: int| 0 <= i < m ==> #[trigger] c.scale[i]
                            == b[scale_at + 4 * i] + 256 * b[scale_at + 4 * i + 1]
                            + 65536 * b[scale_at + 4 * i + 2] + 16777216 * b[scale_at + 4 * i + 3]
                    }
                    &&& b[4] == 4 <==> c.refine is Some
                    &&& b[4] == 4 ==> {
                        let s = c.refine->0;
                        &&& s.n == n
                        &&& b[trailer_at] == 1 ==> {
                            &&& s.mode == RefineMode::Int8
                            &&& s.i8_scales.len() == n
                            &&& forall|i: int| 0 <= i < n ==> #[trigger] s.i8_scales[i]
                                == b[trailer_at + 1 + 4 * i] + 256 * b[trailer_at + 1 + 4 * i + 1]
                                + 65536 * b[trailer_at + 1 + 4 * i + 2]
                                + 16777216 * b[trailer_at + 1 + 4 * i + 3]
                            &&& s.codes_i8.len() == total
                            &&& forall|i: int|
                            0 <= i < total ==> #[trigger] s.codes_i8[i]
                                == (if b[trailer_at + 1 + 4 * n + i] < 128 {
                                    b[trailer_at + 1 + 4 * n + i] as int
                                } else {
                                    b[trailer_at + 1 + 4 * n + i] - 256
                                })
                            &&& s.halfs.len() == 0
                            &&& s.floats.len() == 0
                        }
                        &&& b[trailer_at] == 2 ==> {
                            &&& s.mode == RefineMode::Float32
                            &&& s.floats.len() == total
                            &&& forall|i: int| 0 <= i < total ==> #[trigger] s.floats[i]
                                == b[trailer_at + 1 + 4 * i] + 256 * b[trailer_at + 1 + 4 * i + 1]
                                + 65536 * b[trailer_at + 1 + 4 * i + 2]
                                + 16777216 * b[trailer_at + 1 + 4 * i + 3]
                            &&& s.i8_scales.len() == 0
                            &&& s.codes_i8.len() == 0
                            &&& s.halfs.len() == 0
                        }
                        &&& b[trailer_at] == 3 ==> {
                            &&& s.mode == RefineMode::Float16
                            &&& s.halfs.len() == total
                            &&& forall|i: int| 0 <= i < total ==> #[trigger] s.halfs[i]
                                == b[trailer_at + 1 + 2 * i] + 256 * b[trailer_at + 1 + 2 * i + 1]
                            &&& s.i8_scales.len() == 0
                            &&& s.codes_i8.len() == 0
                            &&& s.floats.len() == 0
                        }
                    }
                }
                &&& {
                    let ids = (r->Ok_0).1;
                    &&& ids.len() == n
                    &&& forall|i: int| 0 <= i < n ==> #[trigger] ids[i] == b[end + 8 * i]
                        + 0x100 * b[end + 8 * i + 1] + 0x10000 * b[end + 8 * i + 2]
                        + 0x1000000 * b[end + 8 * i + 3] + 0x100000000 * b[end + 8 * i + 4]
                        + 0x10000000000 * b[end + 8 * i + 5]
                        + 0x1000000000000 * b[end + 8 * i + 6]
                        + 0x100000000000000 * b[end + 8 * i + 7]
                }
            }
        }),
{
    if b.len() >= 4 {
        lemma_magic(b);
    }
}

/// Header, codes and scales, value by value.
proof fn lemma_base_values(b: Seq<u8>, at: int, c: IndexView)
    requires
        0 <= at,
        at + base_bytes(c).len() <= b.len(),
        b.subrange(at, at + base_bytes(c).len()) == base_bytes(c),
    ensures
        base_bytes(c).len() == 9 + c.codes.len() + 4 * c.scales.len(),
        b[at] == c.bit_width % 256,
        un32(b, at + 1) == c.dim % 0x1_0000_0000,
        un32(b, at + 5) == c.n % 0x1_0000_0000,
        b.subrange(at + 9, at + 9 + c.codes.len()) == c.codes,
        un32s(b, at + 9 + c.codes.len(), c.scales.len() as int) == c.scales,
{
    lemma_base_parts(b, at, c);
    assert(b[at] == b.subrange(at, at + 1)[0]);
    lemma_un32_le32(b, at + 1, (c.dim % 0x1_0000_0000) as u32);
    lemma_un32_le32(b, at + 5, (c.n % 0x1_0000_0000) as u32);
    lemma_un32s_le32s(b, at + 9 + c.codes.len(), c.scales);
}

/// A calibration, value by value.
proof fn lemma_calibration_values(b: Seq<u8>, at: int, c: IndexView)
    requires
        0 <= at,
        at + calibration_bytes(c).len() <= b.len(),
        b.subrange(at, at + calibration_bytes(c).len()) == calibration_bytes(c),
    ensures
        calibration_bytes(c).len() == 4 + 4 * c.shift.len() + 4 * c.scale.len(),
        un32(b, at) == c.shift.len() % 0x1_0000_0000,
        un32s(b, at + 4, c.shift.len() as int) == c.shift,
        un32s(b, at + 4 + 4 * c.shift.len(), c.scale.len() as int) == c.scale,
{
    let none = Seq::<u8>::empty();
    let calib = calibration_bytes(c);
    assert(calib + none + none =~= calib);
    lemma_five_parts(b, at, field32(c.shift.len()), le32s(c.shift), le32s(c.scale), none, none);
    lemma_un32_le32(b, at, (c.shift.len() % 0x1_0000_0000) as u32);
    lemma_un32s_le32s(b, at + 4, c.shift);
    lemma_un32s_le32s(b, at + 4 + 4 * c.shift.len(), c.scale);
}

/// A refine trailer, value by value.
proof fn lemma_refine_values(b: Seq<u8>, at: int, s: RefineView)
    requires
        0 <= at,
        at + refine_bytes(s).len() <= b.len(),
        b.subrange(at, at + refine_bytes(s).len()) == refine_bytes(s),
    ensures
        match s.mode {
            RefineMode::Int8 => {
                &&& refine_bytes(s).len() == 1 + 4 * s.i8_scales.len() + s.codes_i8.len()
                &&& b[at] == 1
                &&& un32s(b, at + 1, s.i8_scales.len() as int) == s.i8_scales
                &&& un_i8s(b, at + 1 + 4 * s.i8_scales.len(), s.codes_i8.len() as int)
                == s.codes_i8
            },
            RefineMode::Float16 => {
                &&& refine_bytes(s).len() == 1 + 2 * s.halfs.len()
                &&& b[at] == 3
                &&& un16s(b, at + 1, s.halfs.len() as int) == s.halfs
            },
            RefineMode::Float32 => {
                &&& refine_bytes(s).len() == 1 + 4 * s.floats.len()
                &&& b[at] == 2
                &&& un32s(b, at + 1, s.floats.len() as int) == s.floats
            },
        },
{
    let none = Seq::<u8>::empty();
    let bytes = refine_bytes(s);
    assert(bytes + none + none =~= bytes);
    assert(bytes + none + none + none =~= bytes);
    match s.mode {
        RefineMode::Int8 => {
            lemma_five_parts(b, at, seq![1u8], le32s(s.i8_scales), i8s(s.codes_i8), none, none);
            assert(b.subrange(at, at + 1)[0] == b[at]);
            lemma_un32s_le32s(b, at + 1, s.i8_scales);
            lemma_un_i8s_i8s(b, at + 1 + 4 * s.i8_scales.len(), s.codes_i8);
        },
        RefineMode::Float16 => {
            lemma_five_parts(b, at, seq![3u8], le16s(s.halfs), none, none, none);
            assert(b.subrange(at, at + 1)[0] == b[at]);
            lemma_un16s_le16s(b, at + 1, s.halfs);
        },
        RefineMode::Float32 => {
            lemma_five_parts(b, at, seq![2u8], le32s(s.floats), none, none, none);
            assert(b.subrange(at, at + 1)[0] == b[at]);
            lemma_un32s_le32s(b, at + 1, s.floats);
        },
    }
}

/// The values of the parts of a file, once it is known where the parts stand.
proof fn lemma_file_values(
    b: Seq<u8>,
    magic: Seq<u8>,
    c: IndexView,
    table: Seq<u8>,
    trailer_at: int,
)
    requires
        magic.len() == 4,
        laid_out(
            b,
            magic,
            version_for(c.refine),
            base_bytes(c),
            calibration_bytes(c),
            table,
            trailer_bytes(c.refine),
        ),
        trailer_at == 5 + base_bytes(c).len() + calibration_bytes(c).len() + table.len(),
    ensures
        ({
            let scales_at = 14 + c.codes.len() as int;
            let calib_at = scales_at + 4 * c.scales.len();
            let shift_at = calib_at + 4;
            let scale_at = shift_at + 4 * c.shift.len();
            let end = scale_at + 4 * c.scale.len();
            &&& trailer_at == end + table.len()
            &&& b[5] == c.bit_width % 256
            &&& un32(b, 6) == c.dim % 0x1_0000_0000
            &&& un32(b, 10) == c.n % 0x1_0000_0000
            &&& b.subrange(14, scales_at) == c.codes
            &&& un32s(b, scales_at, c.scales.len() as int) == c.scales
            &&& un32(b, calib_at) == c.shift.len() % 0x1_0000_0000
            &&& un32s(b, shift_at, c.shift.len() as int) == c.shift
            &&& un32s(b, scale_at, c.scale.len() as int) == c.scale
            &&& b.subrange(end, trailer_at) == table
            &&& c.refine matches Some(s) ==> match s.mode {
                RefineMode::Int8 => {
                    &&& refine_bytes(s).len() == 1 + 4 * s.i8_scales.len() + s.codes_i8.len()
                    &&& b[trailer_at] == 1
                    &&& un32s(b, trailer_at + 1, s.i8_scales.len() as int) == s.i8_scales
                    &&& un_i8s(
                        b,
                        trailer_at + 1 + 4 * s.i8_scales.len(),
                        s.codes_i8.len() as int,
                    ) == s.codes_i8
                },
                RefineMode::Float16 => {
                    &&& refine_bytes(s).len() == 1 + 2 * s.halfs.len()
                    &&& b[trailer_at] == 3
                    &&& un16s(b, trailer_at + 1, s.halfs.len() as int) == s.halfs
                },
                RefineMode::Float32 => {
                    &&& refine_bytes(s).len() == 1 + 4 * s.floats.len()
                    &&& b[trailer_at] == 2
                    &&& un32s(b, trailer_at + 1, s.floats.len() as int) == s.floats
                },
            }
        }),
{
    lemma_base_values(b, 5, c);
    lemma_calibration_values(b, 5 + base_bytes(c).len() as int, c);
    if let Some(s) = c.refine {
        lemma_refine_values(b, trailer_at, s);
    }
}

/// The values of an array of four-byte integers, byte by byte.
proof fn lemma_bytes32(b: Seq<u8>, at: int, xs: Seq<u32>)
    requires
        un32s(b, at, xs.len() as int) == xs,
    ensures
        forall|i: int|
        0 <= i < xs.len() ==> b[at + 4 * i] + 256 * b[at + 4 * i + 1] + 65536 * b[at + 4 * i
            + 2] + 16777216 * b[at + 4 * i + 3] == #[trigger] xs[i],
{
    assert forall|i: int| 0 <= i < xs.len() implies b[at + 4 * i] + 256 * b[at + 4 * i + 1] + 65536
    * b[at + 4 * i + 2] + 16777216 * b[at + 4 * i + 3] == #[trigger] xs[i] by {
        assert(un32s(b, at, xs.len() as int)[i] == un32(b, at + 4 * i));
    }
}

/// A refine trailer, byte by byte.
proof fn lemma_trailer_bytes(b: Seq<u8>, at: int, s: RefineView)
    requires
        match s.mode {
            RefineMode::Int8 => {
                &&& un32s(b, at + 1, s.i8_scales.len() as int) == s.i8_scales
                &&& un_i8s(b, at + 1 + 4 * s.i8_scales.len(), s.codes_i8.len() as int)
                == s.codes_i8
            },
            RefineMode::Float16 => un16s(b, at + 1, s.halfs.len() as int) == s.halfs,
            RefineMode::Float32 => un32s(b, at + 1, s.floats.len() as int) == s.floats,
        },
    ensures
        match s.mode {
            RefineMode::Int8 => {
                &&& forall|i: int| 0 <= i < s.i8_scales.len() ==> b[at + 1 + 4 * i]
                    + 256 * b[at + 1 + 4 * i + 1] + 65536 * b[at + 1 + 4 * i + 2]
                    + 16777216 * b[at + 1 + 4 * i + 3] == #[trigger] s.i8_scales[i]
                &&& forall|i: int|
                0 <= i < s.codes_i8.len() ==> b[at + 1 + 4 * s.i8_scales.len() + i]
                    == (if #[trigger] s.codes_i8[i] < 0 {
                        s.codes_i8[i] + 256
                    } else {
                        s.codes_i8[i] as int
                    })
            },
            RefineMode::Float16 => forall|i: int|
            0 <= i < s.halfs.len() ==> b[at + 1 + 2 * i] + 256 * b[at + 1 + 2 * i + 1]
                == #[trigger] s.halfs[i],
            RefineMode::Float32 => forall|i: int|
            0 <= i < s.floats.len() ==> b[at + 1 + 4 * i] + 256 * b[at + 1 + 4 * i + 1]
                + 65536 * b[at + 1 + 4 * i + 2] + 16777216 * b[at + 1 + 4 * i + 3]
                == #[trigger] s.floats[i],
        },
{
    match s.mode {
        RefineMode::Int8 => {
            lemma_bytes32(b, at + 1, s.i8_scales);
            let o = at + 1 + 4 * s.i8_scales.len();
            assert forall|i: int| 0 <= i < s.codes_i8.len() implies b[o + i]
                == (if #[trigger] s.codes_i8[i] < 0 {
                    s.codes_i8[i] + 256
                } else {
                    s.codes_i8[i] as int
                }) by {
                assert(un_i8s(b, o, s.codes_i8.len() as int)[i] == i8_of_byte(b[o + i]));
            }
        },
        RefineMode::Float16 => {
            assert forall|i: int| 0 <= i < s.halfs.len() implies b[at + 1 + 2 * i]
                + 256 * b[at + 1 + 2 * i + 1] == #[trigger] s.halfs[i] by {
                assert(un16s(b, at + 1, s.halfs.len() as int)[i] == un16(b, at + 1 + 2 * i));
            }
        },
        RefineMode::Float32 => {
            lemma_bytes32(b, at + 1, s.floats);
        },
    }
}

/// The bytes of the parts of a file, once it is known where the parts stand.
proof fn lemma_file_bytes(
    b: Seq<u8>,
    magic: Seq<u8>,
    c: IndexView,
    table: Seq<u8>,
    trailer_at: int,
)
    requires
        magic.len() == 4,
        laid_out(
            b,
            magic,
            version_for(c.refine),
            base_bytes(c),
            calibration_bytes(c),
            table,
            trailer_bytes(c.refine),
        ),
        trailer_at == 5 + base_bytes(c).len() + calibration_bytes(c).len() + table.len(),
    ensures
        ({
            let scales_at = 14 + c.codes.len() as int;
            let calib_at = scales_at + 4 * c.scales.len();
            let shift_at = calib_at + 4;
            let scale_at = shift_at + 4 * c.shift.len();
            let end = scale_at + 4 * c.scale.len();
            &&& trailer_at == end + table.len()
            &&& b.subrange(end, trailer_at) == table
            &&& trailer_bytes(c.refine).len() == (match c.refine {
                    None => 0,
                    Some(s) => match s.mode {
                        RefineMode::Int8 => 1 + 4 * s.i8_scales.len() + s.codes_i8.len(),
                        RefineMode::Float16 => 1 + 2 * s.halfs.len(),
                        RefineMode::Float32 => 1 + 4 * s.floats.len(),
                    },
                })
            &&& b[5] == c.bit_width % 256
            &&& b[6] + 256 * b[7] + 65536 * b[8] + 16777216 * b[9] == c.dim % 0x1_0000_0000
            &&& b[10] + 256 * b[11] + 65536 * b[12] + 16777216 * b[13] == c.n % 0x1_0000_0000
            &&& forall|i: int| 0 <= i < c.codes.len() ==> b[14 + i] == #[trigger] c.codes[i]
            &&& forall|i: int| 0 <= i < c.scales.len() ==> b[scales_at + 4 * i]
                + 256 * b[scales_at + 4 * i + 1] + 65536 * b[scales_at + 4 * i + 2]
                + 16777216 * b[scales_at + 4 * i + 3] == #[trigger] c.scales[i]
            &&& b[calib_at] + 256 * b[calib_at + 1] + 65536 * b[calib_at + 2]
                + 16777216 * b[calib_at + 3] == c.shift.len() % 0x1_0000_0000
            &&& forall|i: int| 0 <= i < c.shift.len() ==> b[shift_at + 4 * i]
                + 256 * b[shift_at + 4 * i + 1] + 65536 * b[shift_at + 4 * i + 2]
                + 16777216 * b[shift_at + 4 * i + 3] == #[trigger] c.shift[i]
            &&& forall|i: int| 0 <= i < c.scale.len() ==> b[scale_at + 4 * i]
                + 256 * b[scale_at + 4 * i + 1] + 65536 * b[scale_at + 4 * i + 2]
                + 16777216 * b[scale_at + 4 * i + 3] == #[trigger] c.scale[i]
            &&& c.refine matches Some(s) ==> match s.mode {
                RefineMode::Int8 => {
                    &&& b[trailer_at] == 1
                    &&& forall|i: int| 0 <= i < s.i8_scales.len() ==> b[trailer_at + 1 + 4 * i]
                        + 256 * b[trailer_at + 1 + 4 * i + 1]
                        + 65536 * b[trailer_at + 1 + 4 * i + 2]
                        + 16777216 * b[trailer_at + 1 + 4 * i + 3] == #[trigger] s.i8_scales[i]
                    &&& forall|i: int|
                    0 <= i < s.codes_i8.len() ==> b[trailer_at + 1 + 4 * s.i8_scales.len() + i]
                        == (if #[trigger] s.codes_i8[i] < 0 {
                            s.codes_i8[i] + 256
                        } else {
                            s.codes_i8[i] as int
                        })
                },
                RefineMode::Float16 => {
                    &&& b[trailer_at] == 3
                    &&& forall|i: int|
                    0 <= i < s.halfs.len() ==> b[trailer_at + 1 + 2 * i]
                        + 256 * b[trailer_at + 1 + 2 * i + 1] == #[trigger] s.halfs[i]
                },
                RefineMode::Float32 => {
                    &&& b[trailer_at] == 2
                    &&& forall|i: int| 0 <= i < s.floats.len() ==> b[trailer_at + 1 + 4 * i]
                        + 256 * b[trailer_at + 1 + 4 * i + 1]
                        + 65536 * b[trailer_at + 1 + 4 * i + 2]
                        + 16777216 * b[trailer_at + 1 + 4 * i + 3] == #[trigger] s.floats[i]
                },
            }
        }),
{
    let scales_at = 14 + c.codes.len() as int;
    let shift_at = scales_at + 4 * c.scales.len() + 4;
    lemma_file_values(b, magic, c, table, trailer_at);
    lemma_bytes32(b, scales_at, c.scales);
    lemma_bytes32(b, shift_at, c.shift);
    lemma_bytes32(b, shift_at + 4 * c.shift.len(), c.scale);
    assert(forall|i: int|
        0 <= i < c.codes.len() ==> b.subrange(14, scales_at)[i] == #[trigger] c.codes[i]);
    if let Some(s) = c.refine {
        lemma_trailer_bytes(b, trailer_at, s);
    }
}

/// The values of an array of eight-byte integers, byte by byte.
proof fn lemma_bytes64(b: Seq<u8>, at: int, xs: Seq<u64>)
    requires
        0 <= at,
        at + 8 * xs.len() <= b.len(),
        b.subrange(at, at + 8 * xs.len()) == le64s(xs),
    ensures
        forall|i: int| 0 <= i < xs.len() ==> b[at + 8 * i] + 0x100 * b[at + 8 * i + 1]
            + 0x10000 * b[at + 8 * i + 2] + 0x1000000 * b[at + 8 * i + 3]
            + 0x100000000 * b[at + 8 * i + 4] + 0x10000000000 * b[at + 8 * i + 5]
            + 0x1000000000000 * b[at + 8 * i + 6] + 0x100000000000000 * b[at + 8 * i + 7]
            == #[trigger] xs[i],
{
    lemma_un64s_le64s(b, at, xs);
    assert forall|i: int| 0 <= i < xs.len() implies b[at + 8 * i] + 0x100 * b[at + 8 * i + 1]
        + 0x10000 * b[at + 8 * i + 2] + 0x1000000 * b[at + 8 * i + 3]
        + 0x100000000 * b[at + 8 * i + 4] + 0x10000000000 * b[at + 8 * i + 5]
        + 0x1000000000000 * b[at + 8 * i + 6] + 0x100000000000000 * b[at + 8 * i + 7]
        == #[trigger] xs[i] by {
        assert(un64s(b, at, xs.len() as int)[i] == un64(b, at + 8 * i));
    }
}

/// Which bytes a `.tv` file is made of.
pub proof fn law_tv_written_by_bytes(c: IndexView)
    ensures
        ({
            let b = tv_bytes(c);
            let scales_at = 14 + c.codes.len() as int;
            let calib_at = scales_at + 4 * c.scales.len();
            let shift_at = calib_at + 4;
            let scale_at = shift_at + 4 * c.shift.len();
            let end = scale_at + 4 * c.scale.len();
            &&& b.len() == end + (match c.refine {
                    None => 0,
                    Some(s) => match s.mode {
                        RefineMode::Int8 => 1 + 4 * s.i8_scales.len() + s.codes_i8.len(),
                        RefineMode::Float16 => 1 + 2 * s.halfs.len(),
                        RefineMode::Float32 => 1 + 4 * s.floats.len(),
                    },
                })
            &&& b[0] == 0x54 &&& b[1] == 0x56 &&& b[2] == 0x50 &&& b[3] == 0x49
            &&& b[4] == (if c.refine is Some {
                    4int
                } else {
                    3
                })
            &&& b[5] == c.bit_width % 256
            &&& b[6] + 256 * b[7] + 65536 * b[8] + 16777216 * b[9] == c.dim % 0x1_0000_0000
            &&& b[10] + 256 * b[11] + 65536 * b[12] + 16777216 * b[13] == c.n % 0x1_0000_0000
            &&& forall|i: int| 0 <= i < c.codes.len() ==> b[14 + i] == #[trigger] c.codes[i]
            &&& forall|i: int| 0 <= i < c.scales.len() ==> b[scales_at + 4 * i]
                + 256 * b[scales_at + 4 * i + 1] + 65536 * b[scales_at + 4 * i + 2]
                + 16777216 * b[scales_at + 4 * i + 3] == #[trigger] c.scales[i]
            &&& b[calib_at] + 256 * b[calib_at + 1] + 65536 * b[calib_at + 2]
                + 16777216 * b[calib_at + 3] == c.shift.len() % 0x1_0000_0000
            &&& forall|i: int| 0 <= i < c.shift.len() ==> b[shift_at + 4 * i]
                + 256 * b[shift_at + 4 * i + 1] + 65536 * b[shift_at + 4 * i + 2]
                + 16777216 * b[shift_at + 4 * i + 3] == #[trigger] c.shift[i]
            &&& forall|i: int| 0 <= i < c.scale.len() ==> b[scale_at + 4 * i]
                + 256 * b[scale_at + 4 * i + 1] + 65536 * b[scale_at + 4 * i + 2]
                + 16777216 * b[scale_at + 4 * i + 3] == #[trigger] c.scale[i]
            &&& c.refine matches Some(s) ==> match s.mode {
                RefineMode::Int8 => {
                    &&& b[end] == 1
                    &&& forall|i: int| 0 <= i < s.i8_scales.len() ==> b[end + 1 + 4 * i]
                        + 256 * b[end + 1 + 4 * i + 1] + 65536 * b[end + 1 + 4 * i + 2]
                        + 16777216 * b[end + 1 + 4 * i + 3] == #[trigger] s.i8_scales[i]
                    &&& forall|i: int|
                    0 <= i < s.codes_i8.len() ==> b[end + 1 + 4 * s.i8_scales.len() + i]
                        == (if #[trigger] s.codes_i8[i] < 0 {
                            s.codes_i8[i] + 256
                        } else {
                            s.codes_i8[i] as int
                        })
                },
                RefineMode::Float16 => {
                    &&& b[end] == 3
                    &&& forall|i: int|
                    0 <= i < s.halfs.len() ==> b[end + 1 + 2 * i] + 256 * b[end + 1 + 2 * i + 1]
                        == #[trigger] s.halfs[i]
                },
                RefineMode::Float32 => {
                    &&& b[end] == 2
                    &&& forall|i: int| 0 <= i < s.floats.len() ==> b[end + 1 + 4 * i]
                        + 256 * b[end + 1 + 4 * i + 1] + 65536 * b[end + 1 + 4 * i + 2]
                        + 16777216 * b[end + 1 + 4 * i + 3] == #[trigger] s.floats[i]
                },
            }
        }),
{
    let b = tv_bytes(c);
    let none = Seq::<u8>::empty();
    lemma_nothing_added(b);
    lemma_tv_laid_out(c, none);
    lemma_magic(b);
    lemma_file_bytes(
        b,
        tv_magic(),
        c,
        none,
        5 + base_bytes(c).len() as int + calibration_bytes(c).len(),
    );
}

/// Which bytes a `.tvim` file is made of.
pub proof fn law_tvim_written_by_bytes(c: IndexView, ids: Seq<u64>)
    ensures
        ({
            let b = tvim_bytes(c, ids);
            let scales_at = 14 + c.codes.len() as int;
            let calib_at = scales_at + 4 * c.scales.len();
            let shift_at = calib_at + 4;
            let scale_at = shift_at + 4 * c.shift.len();
            let end = scale_at + 4 * c.scale.len();
            let trailer_at = end + 8 * ids.len();
            &&& b.len() == trailer_at + (match c.refine {
                    None => 0,
                    Some(s) => match s.mode {
                        RefineMode::Int8 => 1 + 4 * s.i8_scales.len() + s.codes_i8.len(),
                        RefineMode::Float16 => 1 + 2 * s.halfs.len(),
                        RefineMode::Float32 => 1 + 4 * s.floats.len(),
                    },
                })
            &&& b[0] == 0x54 &&& b[1] == 0x56 &&& b[2] == 0x49 &&& b[3] == 0x4d
            &&& b[4] == (if c.refine is Some {
                    4int
                } else {
                    3
                })
            &&& b[5] == c.bit_width % 256
            &&& b[6] + 256 * b[7] + 65536 * b[8] + 16777216 * b[9] == c.dim % 0x1_0000_0000
            &&& b[10] + 256 * b[11] + 65536 * b[12] + 16777216 * b[13] == c.n % 0x1_0000_0000
            &&& forall|i: int| 0 <= i < c.codes.len() ==> b[14 + i] == #[trigger] c.codes[i]
            &&& forall|i: int| 0 <= i < c.scales.len() ==> b[scales_at + 4 * i]
                + 256 * b[scales_at + 4 * i + 1] + 65536 * b[scales_at + 4 * i + 2]
                + 16777216 * b[scales_at + 4 * i + 3] == #[trigger] c.scales[i]
            &&& b[calib_at] + 256 * b[calib_at + 1] + 65536 * b[calib_at + 2]
                + 16777216 * b[calib_at + 3] == c.shift.len() % 0x1_0000_0000
            &&& forall|i: int| 0 <= i < c.shift.len() ==> b[shift_at + 4 * i]
                + 256 * b[shift_at + 4 * i + 1] + 65536 * b[shift_at + 4 * i + 2]
                + 16777216 * b[shift_at + 4 * i + 3] == #[trigger] c.shift[i]
            &&& forall|i: int| 0 <= i < c.scale.len() ==> b[scale_at + 4 * i]
                + 256 * b[scale_at + 4 * i + 1] + 65536 * b[scale_at + 4 * i + 2]
                + 16777216 * b[scale_at + 4 * i + 3] == #[trigger] c.scale[i]
            &&& forall|i: int| 0 <= i < ids.len() ==> b[end + 8 * i] + 0x100 * b[end + 8 * i + 1]
                + 0x10000 * b[end + 8 * i + 2] + 0x1000000 * b[end + 8 * i + 3]
                + 0x100000000 * b[end + 8 * i + 4] + 0x10000000000 * b[end + 8 * i + 5]
                + 0x1000000000000 * b[end + 8 * i + 6] + 0x100000000000000 * b[end + 8 * i + 7]
                == #[trigger] ids[i]
            &&& c.refine matches Some(s) ==> match s.mode {
                RefineMode::Int8 => {
                    &&& b[trailer_at] == 1
                    &&& forall|i: int| 0 <= i < s.i8_scales.len() ==> b[trailer_at + 1 + 4 * i]
                        + 256 * b[trailer_at + 1 + 4 * i + 1]
                        + 65536 * b[trailer_at + 1 + 4 * i + 2]
                        + 16777216 * b[trailer_at + 1 + 4 * i + 3] == #[trigger] s.i8_scales[i]
                    &&& forall|i: int|
                    0 <= i < s.codes_i8.len() ==> b[trailer_at + 1 + 4 * s.i8_scales.len() + i]
                        == (if #[trigger] s.codes_i8[i] < 0 {
                            s.codes_i8[i] + 256
                        } else {
                            s.codes_i8[i] as int
                        })
                },
                RefineMode::Float16 => {
                    &&& b[trailer_at] == 3
                    &&& forall|i: int|
                    0 <= i < s.halfs.len() ==> b[trailer_at + 1 + 2 * i]
                        + 256 * b[trailer_at + 1 + 2 * i + 1] == #[trigger] s.halfs[i]
                },
                RefineMode::Float32 => {
                    &&& b[trailer_at] == 2
                    &&& forall|i: int| 0 <= i < s.floats.len() ==> b[trailer_at + 1 + 4 * i]
                        + 256 * b[trailer_at + 1 + 4 * i + 1]
                        + 65536 * b[trailer_at + 1 + 4 * i + 2]
                        + 16777216 * b[trailer_at + 1 + 4 * i + 3] == #[trigger] s.floats[i]
                },
            }
        }),
{
    let b = tvim_bytes(c, ids);
    let end = 5 + base_bytes(c).len() as int + calibration_bytes(c).len();
    lemma_nothing_added(b);
    lemma_tvim_laid_out(c, ids, Seq::empty());
    lemma_magic(b);
    lemma_file_bytes(b, tvim_magic(), c, le64s(ids), end + le64s(ids).len());
    lemma_bytes64(b, end, ids);
}

} // verus!
