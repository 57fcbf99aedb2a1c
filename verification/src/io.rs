//! Index files as byte strings.
//!
//! Two formats share one core:
//!
//! * `.tv` is the magic "TVPI", a version byte, the core and, from version 4
//!   on, the refine trailer;
//! * `.tvim` is the magic "TVIM", a version byte, the core, a table of one
//!   `u64` id per vector and, from version 4 on, the refine trailer.
//!
//! The core is a header (`bit_width` as one byte, `dim` and `n_vectors` as
//! four bytes each), the packed codes, one scale per vector and, from version
//! 3 on, the calibration: a count, which is zero or `dim`, then as many shifts
//! and as many scales. Integers are little-endian, and floating-point values
//! are held by their bit patterns.
//!
//! | Version | Changes |
//! |---------|---------|
//! | 1 | no magic in `.tv`; refused with a rebuild hint |
//! | 2 | no calibration; loads as the identity calibration |
//! | 3 | adds the calibration |
//! | 4 | adds the refine trailer; written only when there is a refine store |

use crate::le::{
    i8s, le16s, le32, le32s, le64s, push_bytes, push_i8s, push_u16s, push_u32, push_u32s,
    push_u64s, read_bytes, read_i8s, read_u16s, read_u32, read_u32s, read_u64s, un16s, un32, un32s,
    un64s, un_i8s,
};
use crate::refine::{RefineMode, RefineStore, RefineView};
use vstd::prelude::*;

verus! {

/// The two kinds of index file.
#[derive(Clone, Copy, PartialEq, Eq, Debug, Structural)]
pub enum FileKind {
    /// A positional index.
    Tv,
    /// A positional index with a table of ids.
    Tvim,
}

/// Why bytes are not an index file that can be read.
#[derive(Clone, Copy, PartialEq, Eq, Debug, Structural)]
pub enum LoadError {
    /// The bytes end before the file does.
    UnexpectedEof,
    /// The bytes do not start with the magic of the file kind.
    WrongMagic(FileKind),
    /// A file of format version 1.
    LegacyFormat(FileKind),
    /// A version that is neither 2, 3 nor 4.
    UnsupportedVersion { kind: FileKind, version: u8 },
    /// A calibration count that is neither zero nor the dimension.
    InvalidCalibration { n_calib: u32, dim: u32 },
    /// A refine mode byte that is neither 1, 2 nor 3.
    UnknownRefineMode(u8),
}

/// A loaded `.tv` file: bit width, dimension, number of vectors, packed codes,
/// scales, calibration shifts, calibration scales, refine store.
pub type CoreLoad = (
    usize,
    usize,
    usize,
    Vec<u8>,
    Vec<u32>,
    Vec<u32>,
    Vec<u32>,
    Option<RefineStore>,
);

/// A loaded `.tvim` file: as [`CoreLoad`], with the ids before the refine
/// store.
pub type IdMapLoad = (
    usize,
    usize,
    usize,
    Vec<u8>,
    Vec<u32>,
    Vec<u32>,
    Vec<u32>,
    Vec<u64>,
    Option<RefineStore>,
);

// ---------------------------------------------------------------------------
// The formats
// ---------------------------------------------------------------------------

/// What an index file holds, apart from ids.
#[verifier::ext_equal]
pub struct IndexView {
    pub bit_width: nat,
    pub dim: nat,
    pub n: nat,
    pub codes: Seq<u8>,
    pub scales: Seq<u32>,
    pub shift: Seq<u32>,
    pub scale: Seq<u32>,
    pub refine: Option<RefineView>,
}

pub open spec fn tv_magic() -> Seq<u8> {
    seq![0x54u8, 0x56, 0x50, 0x49]
}

pub open spec fn tvim_magic() -> Seq<u8> {
    seq![0x54u8, 0x56, 0x49, 0x4d]
}

/// Bytes of the packed codes of `n` vectors.
pub open spec fn codes_len(bit_width: int, dim: int, n: int) -> int {
    dim / 8 * bit_width * n
}

/// The version that is written.
pub open spec fn version_for(refine: Option<RefineView>) -> u8 {
    if refine is Some {
        4
    } else {
        3
    }
}

/// The four-byte field for `x`, which keeps its 32 low bits.
pub open spec fn field32(x: nat) -> Seq<u8> {
    le32((x % 0x1_0000_0000) as u32)
}

/// Header, codes and scales.
pub open spec fn base_bytes(c: IndexView) -> Seq<u8> {
    seq![(c.bit_width % 256) as u8] + field32(c.dim) + field32(c.n) + c.codes + le32s(c.scales)
}

/// The calibration.
pub open spec fn calibration_bytes(c: IndexView) -> Seq<u8> {
    field32(c.shift.len()) + le32s(c.shift) + le32s(c.scale)
}

/// The refine trailer: a mode byte, then the arrays of the mode.
pub open spec fn refine_bytes(r: RefineView) -> Seq<u8> {
    match r.mode {
        RefineMode::Int8 => seq![1u8] + le32s(r.i8_scales) + i8s(r.codes_i8),
        RefineMode::Float32 => seq![2u8] + le32s(r.floats),
        RefineMode::Float16 => seq![3u8] + le16s(r.halfs),
    }
}

/// The refine trailer, if there is one.
pub open spec fn trailer_bytes(refine: Option<RefineView>) -> Seq<u8> {
    match refine {
        Some(r) => refine_bytes(r),
        None => Seq::empty(),
    }
}

/// The `.tv` file.
pub open spec fn tv_bytes(c: IndexView) -> Seq<u8> {
    tv_magic() + seq![version_for(c.refine)] + base_bytes(c) + calibration_bytes(c)
        + trailer_bytes(c.refine)
}

/// The `.tvim` file.
pub open spec fn tvim_bytes(c: IndexView, ids: Seq<u64>) -> Seq<u8> {
    tvim_magic() + seq![version_for(c.refine)] + base_bytes(c) + calibration_bytes(c) + le64s(ids)
        + trailer_bytes(c.refine)
}

/// Reads a core, with or without a calibration, and says where it ends.
pub open spec fn parse_core(b: Seq<u8>, at: int, calibrated: bool) -> Result<
    (IndexView, int),
    LoadError,
> {
    let bit_width = b[at] as nat;
    let dim = un32(b, at + 1);
    let n = un32(b, at + 5) as nat;
    let codes_at = at + 9;
    let scales_at = codes_at + codes_len(bit_width as int, dim as int, n as int);
    let calib_at = scales_at + 4 * n;
    let n_calib = un32(b, calib_at);
    let shift_at = calib_at + 4;
    let scale_at = shift_at + 4 * n_calib;
    let end = scale_at + 4 * n_calib;
    let base = IndexView {
        bit_width,
        dim: dim as nat,
        n,
        codes: b.subrange(codes_at, scales_at),
        scales: un32s(b, scales_at, n as int),
        shift: Seq::empty(),
        scale: Seq::empty(),
        refine: None,
    };
    if b.len() < codes_at || b.len() < calib_at {
        Err(LoadError::UnexpectedEof)
    } else if !calibrated {
        Ok((base, calib_at))
    } else if b.len() < shift_at {
        Err(LoadError::UnexpectedEof)
    } else if n_calib != 0 && n_calib != dim {
        Err(LoadError::InvalidCalibration { n_calib, dim })
    } else if b.len() < end {
        Err(LoadError::UnexpectedEof)
    } else {
        Ok(
            (
                IndexView {
                    shift: un32s(b, shift_at, n_calib as int),
                    scale: un32s(b, scale_at, n_calib as int),
                    ..base
                },
                end,
            ),
        )
    }
}

/// Reads the refine trailer for `n` vectors of dimension `dim`.
pub open spec fn parse_refine(b: Seq<u8>, at: int, n: int, dim: int) -> Result<
    RefineView,
    LoadError,
> {
    let blank = crate::refine::empty_store(RefineMode::Float32);
    if b.len() < at + 1 {
        Err(LoadError::UnexpectedEof)
    } else if b[at] == 1 {
        if b.len() < at + 1 + 4 * n + n * dim {
            Err(LoadError::UnexpectedEof)
        } else {
            Ok(
                RefineView {
                    mode: RefineMode::Int8,
                    n: n as nat,
                    i8_scales: un32s(b, at + 1, n),
                    codes_i8: un_i8s(b, at + 1 + 4 * n, n * dim),
                    ..blank
                },
            )
        }
    } else if b[at] == 2 {
        if b.len() < at + 1 + 4 * (n * dim) {
            Err(LoadError::UnexpectedEof)
        } else {
            Ok(
                RefineView {
                    mode: RefineMode::Float32,
                    n: n as nat,
                    floats: un32s(b, at + 1, n * dim),
                    ..blank
                },
            )
        }
    } else if b[at] == 3 {
        if b.len() < at + 1 + 2 * (n * dim) {
            Err(LoadError::UnexpectedEof)
        } else {
            Ok(
                RefineView {
                    mode: RefineMode::Float16,
                    n: n as nat,
                    halfs: un16s(b, at + 1, n * dim),
                    ..blank
                },
            )
        }
    } else {
        Err(LoadError::UnknownRefineMode(b[at]))
    }
}

/// Adds what the refine trailer at `at` holds, if the version has one.
pub open spec fn parse_trailer(b: Seq<u8>, at: int, version: u8, c: IndexView) -> Result<
    IndexView,
    LoadError,
> {
    if version == 4 {
        match parse_refine(b, at, c.n as int, c.dim as int) {
            Ok(r) => Ok(IndexView { refine: Some(r), ..c }),
            Err(e) => Err(e),
        }
    } else {
        Ok(c)
    }
}

/// Reads a `.tv` file. Bytes behind its end are not looked at.
pub open spec fn parse_tv(b: Seq<u8>) -> Result<IndexView, LoadError> {
    if b.len() < 4 {
        Err(LoadError::UnexpectedEof)
    } else if b.take(4) != tv_magic() {
        if 2 <= b[0] <= 4 {
            Err(LoadError::LegacyFormat(FileKind::Tv))
        } else {
            Err(LoadError::WrongMagic(FileKind::Tv))
        }
    } else if b.len() < 5 {
        Err(LoadError::UnexpectedEof)
    } else if !(2 <= b[4] <= 4) {
        Err(LoadError::UnsupportedVersion { kind: FileKind::Tv, version: b[4] })
    } else {
        match parse_core(b, 5, b[4] != 2) {
            Ok((c, end)) => parse_trailer(b, end, b[4], c),
            Err(e) => Err(e),
        }
    }
}

/// Reads a `.tvim` file. Bytes behind its end are not looked at.
pub open spec fn parse_tvim(b: Seq<u8>) -> Result<(IndexView, Seq<u64>), LoadError> {
    if b.len() < 4 {
        Err(LoadError::UnexpectedEof)
    } else if b.take(4) != tvim_magic() {
        Err(LoadError::WrongMagic(FileKind::Tvim))
    } else if b.len() < 5 {
        Err(LoadError::UnexpectedEof)
    } else if b[4] == 1 {
        Err(LoadError::LegacyFormat(FileKind::Tvim))
    } else if !(2 <= b[4] <= 4) {
        Err(LoadError::UnsupportedVersion { kind: FileKind::Tvim, version: b[4] })
    } else {
        match parse_core(b, 5, b[4] != 2) {
            Ok((c, end)) => {
                if b.len() < end + 8 * c.n {
                    Err(LoadError::UnexpectedEof)
                } else {
                    match parse_trailer(b, end + 8 * c.n, b[4], c) {
                        Ok(full) => Ok((full, un64s(b, end, c.n as int))),
                        Err(e) => Err(e),
                    }
                }
            },
            Err(e) => Err(e),
        }
    }
}

// ---------------------------------------------------------------------------
// Writing
// ---------------------------------------------------------------------------

/// The view of an optional store.
pub open spec fn refine_view(refine: Option<&RefineStore>) -> Option<RefineView> {
    match refine {
        Some(r) => Some(r@),
        None => None,
    }
}

/// The calibration is empty or has a shift and a scale per dimension.
pub open spec fn calibration_ok(shift: int, scale: int, dim: int) -> bool {
    shift == scale && (shift == 0 || shift == dim)
}

/// The refine arrays hold `n` vectors of dimension `dim`.
pub open spec fn refine_ok(refine: Option<RefineView>, n: int, dim: int) -> bool {
    refine matches Some(r) ==> r.holds(n, dim)
}

/// Appends the four-byte field for `x`.
fn push_field32(out: &mut Vec<u8>, x: usize)
    ensures
        final(out)@ == old(out)@ + field32(x as nat),
{
    push_u32(out, (x as u64 % 0x1_0000_0000) as u32);
}

/// Appends the core.
fn write_core(
    out: &mut Vec<u8>,
    bit_width: usize,
    dim: usize,
    n_vectors: usize,
    packed_codes: &[u8],
    scales: &[u32],
    tqplus_shift: &[u32],
    tqplus_scale: &[u32],
    Ghost(c): Ghost<IndexView>,
)
    requires
        calibration_ok(tqplus_shift.len() as int, tqplus_scale.len() as int, dim as int),
        c.bit_width == bit_width,
        c.dim == dim,
        c.n == n_vectors,
        c.codes == packed_codes@,
        c.scales == scales@,
        c.shift == tqplus_shift@,
        c.scale == tqplus_scale@,
    ensures
        final(out)@ == old(out)@ + base_bytes(c) + calibration_bytes(c),
{
    let ghost before = out@;
    out.push((bit_width % 256) as u8);
    push_field32(out, dim);
    push_field32(out, n_vectors);
    push_bytes(out, packed_codes);
    push_u32s(out, scales);
    assert(out@ =~= before + base_bytes(c));
    push_field32(out, tqplus_shift.len());
    push_u32s(out, tqplus_shift);
    push_u32s(out, tqplus_scale);
    assert(out@ =~= before + base_bytes(c) + calibration_bytes(c));
}

/// Appends the refine trailer of `n_vectors` vectors of dimension `dim`.
pub(crate) fn write_refine_trailer(
    out: &mut Vec<u8>,
    rs: &RefineStore,
    n_vectors: usize,
    dim: usize,
)
    requires
        rs@.holds(n_vectors as int, dim as int),
    ensures
        final(out)@ == old(out)@ + refine_bytes(rs@),
{
    let ghost before = out@;
    match rs.mode {
        RefineMode::Int8 => {
            out.push(1);
            push_u32s(out, rs.i8_scales.as_slice());
            push_i8s(out, rs.codes_i8.as_slice());
        },
        RefineMode::Float32 => {
            out.push(2);
            push_u32s(out, rs.floats.as_slice());
        },
        RefineMode::Float16 => {
            out.push(3);
            push_u16s(out, rs.halfs.as_slice());
        },
    }
    assert(out@ =~= before + refine_bytes(rs@));
}

/// The bytes of a `.tv` file.
pub fn write(
    bit_width: usize,
    dim: usize,
    n_vectors: usize,
    packed_codes: &[u8],
    scales: &[u32],
    tqplus_shift: &[u32],
    tqplus_scale: &[u32],
    refine: Option<&RefineStore>,
) -> (bytes: Vec<u8>)
    requires
        calibration_ok(tqplus_shift.len() as int, tqplus_scale.len() as int, dim as int),
        refine_ok(refine_view(refine), n_vectors as int, dim as int),
    ensures
        bytes@ == tv_bytes(
            (IndexView {
                bit_width: bit_width as nat,
                dim: dim as nat,
                n: n_vectors as nat,
                codes: packed_codes@,
                scales: scales@,
                shift: tqplus_shift@,
                scale: tqplus_scale@,
                refine: refine_view(refine),
            }),
        ),
{
    let ghost c = IndexView {
        bit_width: bit_width as nat,
        dim: dim as nat,
        n: n_vectors as nat,
        codes: packed_codes@,
        scales: scales@,
        shift: tqplus_shift@,
        scale: tqplus_scale@,
        refine: refine_view(refine),
    };
    let version: u8 = if refine.is_some() {
        4
    } else {
        3
    };
    let mut f: Vec<u8> = Vec::new();
    push_bytes(&mut f, &[0x54, 0x56, 0x50, 0x49]);
    f.push(version);
    assert(f@ =~= tv_magic() + seq![version]);
    write_core(
        &mut f,
        bit_width,
        dim,
        n_vectors,
        packed_codes,
        scales,
        tqplus_shift,
        tqplus_scale,
        Ghost(c),
    );
    if let Some(rs) = refine {
        write_refine_trailer(&mut f, rs, n_vectors, dim);
    }
    assert(f@ =~= tv_bytes(c));
    f
}

/// The bytes of a `.tvim` file.
pub fn write_id_map(
    bit_width: usize,
    dim: usize,
    n_vectors: usize,
    packed_codes: &[u8],
    scales: &[u32],
    tqplus_shift: &[u32],
    tqplus_scale: &[u32],
    slot_to_id: &[u64],
    refine: Option<&RefineStore>,
) -> (bytes: Vec<u8>)
    requires
        slot_to_id.len() == n_vectors,
        calibration_ok(tqplus_shift.len() as int, tqplus_scale.len() as int, dim as int),
        refine_ok(refine_view(refine), n_vectors as int, dim as int),
    ensures
        bytes@ == tvim_bytes(
            (IndexView {
                bit_width: bit_width as nat,
                dim: dim as nat,
                n: n_vectors as nat,
                codes: packed_codes@,
                scales: scales@,
                shift: tqplus_shift@,
                scale: tqplus_scale@,
                refine: refine_view(refine),
            }),
            slot_to_id@,
        ),
{
    let ghost c = IndexView {
        bit_width: bit_width as nat,
        dim: dim as nat,
        n: n_vectors as nat,
        codes: packed_codes@,
        scales: scales@,
        shift: tqplus_shift@,
        scale: tqplus_scale@,
        refine: refine_view(refine),
    };
    let version: u8 = if refine.is_some() {
        4
    } else {
        3
    };
    let mut f: Vec<u8> = Vec::new();
    push_bytes(&mut f, &[0x54, 0x56, 0x49, 0x4d]);
    f.push(version);
    assert(f@ =~= tvim_magic() + seq![version]);
    write_core(
        &mut f,
        bit_width,
        dim,
        n_vectors,
        packed_codes,
        scales,
        tqplus_shift,
        tqplus_scale,
        Ghost(c),
    );
    push_u64s(&mut f, slot_to_id);
    if let Some(rs) = refine {
        write_refine_trailer(&mut f, rs, n_vectors, dim);
    }
    assert(f@ =~= tvim_bytes(c, slot_to_id@));
    f
}

// ---------------------------------------------------------------------------
// Reading
// ---------------------------------------------------------------------------

/// What a core holds.
struct Core {
    bit_width: usize,
    dim: u32,
    n: u32,
    codes: Vec<u8>,
    scales: Vec<u32>,
    shift: Vec<u32>,
    scale: Vec<u32>,
}

impl Core {
    spec fn index(self) -> IndexView {
        IndexView {
            bit_width: self.bit_width as nat,
            dim: self.dim as nat,
            n: self.n as nat,
            codes: self.codes@,
            scales: self.scales@,
            shift: self.shift@,
            scale: self.scale@,
            refine: None,
        }
    }
}

/// The view of an optional store.
pub open spec fn owned_refine_view(refine: Option<RefineStore>) -> Option<RefineView> {
    match refine {
        Some(r) => Some(r@),
        None => None,
    }
}

/// What a loaded `.tv` file holds.
pub open spec fn core_load_view(load: CoreLoad) -> IndexView {
    IndexView {
        bit_width: load.0 as nat,
        dim: load.1 as nat,
        n: load.2 as nat,
        codes: load.3@,
        scales: load.4@,
        shift: load.5@,
        scale: load.6@,
        refine: owned_refine_view(load.7),
    }
}

/// What a loaded `.tvim` file holds.
pub open spec fn id_map_load_view(load: IdMapLoad) -> (IndexView, Seq<u64>) {
    (
        IndexView {
            bit_width: load.0 as nat,
            dim: load.1 as nat,
            n: load.2 as nat,
            codes: load.3@,
            scales: load.4@,
            shift: load.5@,
            scale: load.6@,
            refine: owned_refine_view(load.8),
        },
        load.7@,
    )
}

/// There are `k` bytes at `at`.
fn reaches(b: &[u8], at: usize, k: u128) -> (r: bool)
    requires
        at <= b.len(),
    ensures
        r == (at + k <= b.len()),
{
    k <= (b.len() - at) as u128
}

/// The product of two 32-bit values.
fn product(x: u32, y: u32) -> (r: u128)
    ensures
        r == x * y,
        r <= 0xffff_fffe_0000_0001,
{
    assert(0 <= x * y <= 0xffff_ffff * 0xffff_ffff) by (nonlinear_arith)
        requires
            0 <= x <= 0xffff_ffff,
            0 <= y <= 0xffff_ffff,
    ;
    x as u128 * y as u128
}

/// Reads the core at `at`, and says where it ends.
fn read_core(b: &[u8], at: usize, calibrated: bool) -> (r: Result<(Core, usize), LoadError>)
    requires
        at <= b.len(),
    ensures
        match r {
            Ok((core, end)) => {
                &&& parse_core(b@, at as int, calibrated) == Ok::<(IndexView, int), LoadError>(
                    (core.index(), end as int),
                )
                &&& end <= b.len()
            },
            Err(e) => parse_core(b@, at as int, calibrated) == Err::<(IndexView, int), LoadError>(e),
        },
{
    if !reaches(b, at, 9) {
        return Err(LoadError::UnexpectedEof);
    }
    let bit_width: u8 = b[at];
    let dim: u32 = read_u32(b, at + 1);
    let n: u32 = read_u32(b, at + 5);
    let codes_at: usize = at + 9;
    let planes: u128 = product(dim / 8, bit_width as u32);
    assert(planes <= 0x1fff_ffff * 255) by (nonlinear_arith)
        requires
            planes == (dim / 8) * (bit_width as u32),
            dim / 8 <= 0x1fff_ffff,
            bit_width <= 255,
    ;
    assert(0 <= planes * n <= 0x1fff_ffff * 255 * 0xffff_ffff) by (nonlinear_arith)
        requires
            0 <= planes <= 0x1fff_ffff * 255,
            0 <= n <= 0xffff_ffff,
    ;
    let packed_bytes: u128 = planes * n as u128;
    assert(packed_bytes == codes_len(bit_width as int, dim as int, n as int));
    if !reaches(b, codes_at, packed_bytes + 4 * n as u128) {
        return Err(LoadError::UnexpectedEof);
    }
    let scales_at: usize = codes_at + packed_bytes as usize;
    let calib_at: usize = scales_at + 4 * n as usize;
    let codes = read_bytes(b, codes_at, packed_bytes as usize);
    let scales = read_u32s(b, scales_at, n as usize);
    if !calibrated {
        let core = Core {
            bit_width: bit_width as usize,
            dim,
            n,
            codes,
            scales,
            shift: Vec::new(),
            scale: Vec::new(),
        };
        return Ok((core, calib_at));
    }
    if !reaches(b, calib_at, 4) {
        return Err(LoadError::UnexpectedEof);
    }
    let n_calib: u32 = read_u32(b, calib_at);
    if n_calib != 0 && n_calib != dim {
        return Err(LoadError::InvalidCalibration { n_calib, dim });
    }
    let shift_at: usize = calib_at + 4;
    if !reaches(b, shift_at, 8 * n_calib as u128) {
        return Err(LoadError::UnexpectedEof);
    }
    let scale_at: usize = shift_at + 4 * n_calib as usize;
    let shift = read_u32s(b, shift_at, n_calib as usize);
    let scale = read_u32s(b, scale_at, n_calib as usize);
    let core = Core { bit_width: bit_width as usize, dim, n, codes, scales, shift, scale };
    Ok((core, scale_at + 4 * n_calib as usize))
}

/// Reads the refine trailer at `at`, and says where it ends.
pub(crate) fn read_refine_trailer(b: &[u8], at: usize, n_vectors: u32, dim: u32) -> (r: Result<
    (RefineStore, usize),
    LoadError,
>)
    requires
        at <= b.len(),
    ensures
        match r {
            Ok((store, end)) => {
                &&& parse_refine(b@, at as int, n_vectors as int, dim as int) == Ok::<
                    RefineView,
                    LoadError,
                >(store@)
                &&& end == at + refine_bytes(store@).len()
                &&& end <= b.len()
            },
            Err(e) => parse_refine(b@, at as int, n_vectors as int, dim as int) == Err::<
                RefineView,
                LoadError,
            >(e),
        },
{
    if !reaches(b, at, 1) {
        return Err(LoadError::UnexpectedEof);
    }
    let mode_byte: u8 = b[at];
    let total: u128 = product(n_vectors, dim);
    let mut store = RefineStore::new(RefineMode::Float32);
    store.n = n_vectors as usize;
    if mode_byte == 1 {
        if !reaches(b, at + 1, 4 * n_vectors as u128 + total) {
            return Err(LoadError::UnexpectedEof);
        }
        store.mode = RefineMode::Int8;
        store.i8_scales = read_u32s(b, at + 1, n_vectors as usize);
        store.codes_i8 = read_i8s(b, at + 1 + 4 * n_vectors as usize, total as usize);
        Ok((store, at + 1 + 4 * n_vectors as usize + total as usize))
    } else if mode_byte == 2 {
        if !reaches(b, at + 1, 4 * total) {
            return Err(LoadError::UnexpectedEof);
        }
        store.floats = read_u32s(b, at + 1, total as usize);
        Ok((store, at + 1 + 4 * total as usize))
    } else if mode_byte == 3 {
        if !reaches(b, at + 1, 2 * total) {
            return Err(LoadError::UnexpectedEof);
        }
        store.mode = RefineMode::Float16;
        store.halfs = read_u16s(b, at + 1, total as usize);
        Ok((store, at + 1 + 2 * total as usize))
    } else {
        Err(LoadError::UnknownRefineMode(mode_byte))
    }
}

/// The bytes start with the four given ones.
fn starts_with(b: &[u8], magic: [u8; 4]) -> (r: bool)
    requires
        b.len() >= 4,
    ensures
        r == (b@.take(4) == magic@),
{
    let r: bool = b[0] == magic[0] && b[1] == magic[1] && b[2] == magic[2] && b[3] == magic[3];
    proof {
        if r {
            assert(b@.take(4) =~= magic@);
        } else {
            assert(b@.take(4)[0] == b[0] && b@.take(4)[1] == b[1] && b@.take(4)[2] == b[2]
                && b@.take(4)[3] == b[3]);
        }
    }
    r
}

/// Reads a `.tv` file. Bytes behind its end are not looked at.
pub fn load(b: &[u8]) -> (r: Result<CoreLoad, LoadError>)
    ensures
        match r {
            Ok(file) => parse_tv(b@) == Ok::<IndexView, LoadError>(core_load_view(file)),
            Err(e) => parse_tv(b@) == Err::<IndexView, LoadError>(e),
        },
{
    if b.len() < 4 {
        return Err(LoadError::UnexpectedEof);
    }
    assert([0x54u8, 0x56, 0x50, 0x49]@ =~= tv_magic());
    if !starts_with(b, [0x54, 0x56, 0x50, 0x49]) {
        if 2 <= b[0] && b[0] <= 4 {
            return Err(LoadError::LegacyFormat(FileKind::Tv));
        }
        return Err(LoadError::WrongMagic(FileKind::Tv));
    }
    if b.len() < 5 {
        return Err(LoadError::UnexpectedEof);
    }
    let version: u8 = b[4];
    if version < 2 || version > 4 {
        return Err(LoadError::UnsupportedVersion { kind: FileKind::Tv, version });
    }
    let (core, end) = match read_core(b, 5, version != 2) {
        Ok(x) => x,
        Err(e) => {
            return Err(e);
        },
    };
    let refine = if version == 4 {
        match read_refine_trailer(b, end, core.n, core.dim) {
            Ok((store, _)) => Some(store),
            Err(e) => {
                return Err(e);
            },
        }
    } else {
        None
    };
    Ok(
        (
            core.bit_width,
            core.dim as usize,
            core.n as usize,
            core.codes,
            core.scales,
            core.shift,
            core.scale,
            refine,
        ),
    )
}

/// Reads a `.tvim` file. Bytes behind its end are not looked at.
pub fn load_id_map(b: &[u8]) -> (r: Result<IdMapLoad, LoadError>)
    ensures
        match r {
            Ok(file) => parse_tvim(b@) == Ok::<(IndexView, Seq<u64>), LoadError>(
                id_map_load_view(file),
            ),
            Err(e) => parse_tvim(b@) == Err::<(IndexView, Seq<u64>), LoadError>(e),
        },
{
    if b.len() < 4 {
        return Err(LoadError::UnexpectedEof);
    }
    assert([0x54u8, 0x56, 0x49, 0x4d]@ =~= tvim_magic());
    if !starts_with(b, [0x54, 0x56, 0x49, 0x4d]) {
        return Err(LoadError::WrongMagic(FileKind::Tvim));
    }
    if b.len() < 5 {
        return Err(LoadError::UnexpectedEof);
    }
    let version: u8 = b[4];
    if version == 1 {
        return Err(LoadError::LegacyFormat(FileKind::Tvim));
    }
    if version < 2 || version > 4 {
        return Err(LoadError::UnsupportedVersion { kind: FileKind::Tvim, version });
    }
    let (core, end) = match read_core(b, 5, version != 2) {
        Ok(x) => x,
        Err(e) => {
            return Err(e);
        },
    };
    if !reaches(b, end, 8 * core.n as u128) {
        return Err(LoadError::UnexpectedEof);
    }
    let slot_to_id = read_u64s(b, end, core.n as usize);
    let refine = if version == 4 {
        match read_refine_trailer(b, end + 8 * core.n as usize, core.n, core.dim) {
            Ok((store, _)) => Some(store),
            Err(e) => {
                return Err(e);
            },
        }
    } else {
        None
    };
    Ok(
        (
            core.bit_width,
            core.dim as usize,
            core.n as usize,
            core.codes,
            core.scales,
            core.shift,
            core.scale,
            slot_to_id,
            refine,
        ),
    )
}

} // verus!
