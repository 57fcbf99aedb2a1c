//! What holds of the file formats as a whole.

use crate::io::{
    base_bytes, calibration_bytes, calibration_ok, codes_len, field32, parse_core, parse_refine,
    parse_tv, parse_tvim, refine_bytes, trailer_bytes, tv_bytes, tv_magic, tvim_bytes, tvim_magic,
    version_for, FileKind, IndexView, LoadError,
};
use crate::le::{
    i8s, le16s, le32s, le64s, lemma_un16s_le16s, lemma_un32_le32, lemma_un32s_le32s,
    lemma_un64s_le64s, lemma_un_i8s_i8s, un32, un32s,
};
use crate::refine::{RefineMode, RefineView};
use vstd::prelude::*;

verus! {

/// An index that a file can hold: every count fits its field, and every array
/// has the length that the counts say.
pub open spec fn storable(c: IndexView) -> bool {
    &&& c.bit_width < 256
    &&& c.dim < 0x1_0000_0000
    &&& c.n < 0x1_0000_0000
    &&& c.codes.len() == codes_len(c.bit_width as int, c.dim as int, c.n as int)
    &&& c.scales.len() == c.n
    &&& calibration_ok(c.shift.len() as int, c.scale.len() as int, c.dim as int)
    &&& c.refine matches Some(r) ==> r.wf(c.dim as int) && r.n == c.n
}

// ---------------------------------------------------------------------------
// Pieces of byte strings
// ---------------------------------------------------------------------------

/// Two neighbouring pieces make up the piece that spans both.
proof fn lemma_span(b: Seq<u8>, i: int, j: int, k: int)
    requires
        0 <= i <= j <= k <= b.len(),
    ensures
        b.subrange(i, j) + b.subrange(j, k) == b.subrange(i, k),
{
    assert(b.subrange(i, j) + b.subrange(j, k) =~= b.subrange(i, k));
}

/// The parts of a piece stand where the lengths of those before them say.
pub proof fn lemma_five_parts(
    b: Seq<u8>,
    at: int,
    p0: Seq<u8>,
    p1: Seq<u8>,
    p2: Seq<u8>,
    p3: Seq<u8>,
    p4: Seq<u8>,
)
    requires
        0 <= at,
        at + (p0 + p1 + p2 + p3 + p4).len() <= b.len(),
        b.subrange(at, at + (p0 + p1 + p2 + p3 + p4).len()) == p0 + p1 + p2 + p3 + p4,
    ensures
        ({
            let a1 = at + p0.len();
            let a2 = a1 + p1.len();
            let a3 = a2 + p2.len();
            let a4 = a3 + p3.len();
            &&& b.subrange(at, a1) == p0
            &&& b.subrange(a1, a2) == p1
            &&& b.subrange(a2, a3) == p2
            &&& b.subrange(a3, a4) == p3
            &&& b.subrange(a4, a4 + p4.len()) == p4
        }),
{
    let s = p0 + p1 + p2 + p3 + p4;
    let a1 = at + p0.len();
    let a2 = a1 + p1.len();
    let a3 = a2 + p2.len();
    let a4 = a3 + p3.len();
    assert forall|i: int| 0 <= i < s.len() implies b[at + i] == s[i] by {
        assert(b.subrange(at, at + s.len())[i] == b[at + i]);
    }
    assert(b.subrange(at, a1) =~= p0) by {
        assert forall|i: int| 0 <= i < p0.len() implies b[at + i] == p0[i] by {
            assert(s[i] == p0[i]);
        }
    }
    assert(b.subrange(a1, a2) =~= p1) by {
        assert forall|i: int| 0 <= i < p1.len() implies b[a1 + i] == p1[i] by {
            assert(s[p0.len() + i] == p1[i]);
        }
    }
    assert(b.subrange(a2, a3) =~= p2) by {
        assert forall|i: int| 0 <= i < p2.len() implies b[a2 + i] == p2[i] by {
            assert(s[p0.len() + p1.len() + i] == p2[i]);
        }
    }
    assert(b.subrange(a3, a4) =~= p3) by {
        assert forall|i: int| 0 <= i < p3.len() implies b[a3 + i] == p3[i] by {
            assert(s[p0.len() + p1.len() + p2.len() + i] == p3[i]);
        }
    }
    assert(b.subrange(a4, a4 + p4.len()) =~= p4) by {
        assert forall|i: int| 0 <= i < p4.len() implies b[a4 + i] == p4[i] by {
            assert(s[p0.len() + p1.len() + p2.len() + p3.len() + i] == p4[i]);
        }
    }
}

/// The bytes of a file whose parts are known.
pub open spec fn laid_out(
    b: Seq<u8>,
    magic: Seq<u8>,
    version: u8,
    core: Seq<u8>,
    calib: Seq<u8>,
    table: Seq<u8>,
    trailer: Seq<u8>,
) -> bool {
    let calib_at = 5 + core.len() as int;
    let table_at = calib_at + calib.len();
    let trailer_at = table_at + table.len();
    let end = trailer_at + trailer.len();
    &&& end <= b.len()
    &&& b.take(4) == magic
    &&& b[4] == version
    &&& b.subrange(5, calib_at) == core
    &&& b.subrange(calib_at, table_at) == calib
    &&& b.subrange(table_at, trailer_at) == table
    &&& b.subrange(trailer_at, end) == trailer
}

/// The parts of a file stand where the lengths of those before them say.
proof fn lemma_laid_out(
    magic: Seq<u8>,
    version: u8,
    core: Seq<u8>,
    calib: Seq<u8>,
    table: Seq<u8>,
    trailer: Seq<u8>,
    rest: Seq<u8>,
)
    requires
        magic.len() == 4,
    ensures
        laid_out(
            magic + seq![version] + core + calib + table + trailer + rest,
            magic,
            version,
            core,
            calib,
            table,
            trailer,
        ),
{
    let b = magic + seq![version] + core + calib + table + trailer + rest;
    let calib_at = 5 + core.len() as int;
    let table_at = calib_at + calib.len();
    let trailer_at = table_at + table.len();
    let end = trailer_at + trailer.len();
    assert(b.take(4) =~= magic);
    assert(b.subrange(5, calib_at) =~= core);
    assert(b.subrange(calib_at, table_at) =~= calib);
    assert(b.subrange(table_at, trailer_at) =~= table);
    assert(b.subrange(trailer_at, end) =~= trailer);
}

/// An empty part can be left out.
pub proof fn lemma_nothing_added(s: Seq<u8>)
    ensures
        s + Seq::<u8>::empty() == s,
{
    assert(s + Seq::<u8>::empty() =~= s);
}

/// The parts of a `.tv` file.
pub proof fn lemma_tv_laid_out(c: IndexView, rest: Seq<u8>)
    ensures
        laid_out(
            tv_bytes(c) + rest,
            tv_magic(),
            version_for(c.refine),
            base_bytes(c),
            calibration_bytes(c),
            Seq::empty(),
            trailer_bytes(c.refine),
        ),
{
    let base = base_bytes(c);
    let calib = calibration_bytes(c);
    lemma_laid_out(
        tv_magic(),
        version_for(c.refine),
        base,
        calib,
        Seq::empty(),
        trailer_bytes(c.refine),
        rest,
    );
    lemma_nothing_added(tv_magic() + seq![version_for(c.refine)] + base + calib);
}

/// The parts of a `.tvim` file.
pub proof fn lemma_tvim_laid_out(c: IndexView, ids: Seq<u64>, rest: Seq<u8>)
    ensures
        laid_out(
            tvim_bytes(c, ids) + rest,
            tvim_magic(),
            version_for(c.refine),
            base_bytes(c),
            calibration_bytes(c),
            le64s(ids),
            trailer_bytes(c.refine),
        ),
{
    lemma_laid_out(
        tvim_magic(),
        version_for(c.refine),
        base_bytes(c),
        calibration_bytes(c),
        le64s(ids),
        trailer_bytes(c.refine),
        rest,
    );
}

// ---------------------------------------------------------------------------
// Cores
// ---------------------------------------------------------------------------

/// Where the parts of a header, codes and scales stand.
pub proof fn lemma_base_parts(b: Seq<u8>, at: int, c: IndexView)
    requires
        0 <= at,
        at + base_bytes(c).len() <= b.len(),
        b.subrange(at, at + base_bytes(c).len()) == base_bytes(c),
    ensures
        base_bytes(c).len() == 9 + c.codes.len() + 4 * c.scales.len(),
        b.subrange(at, at + 1) == seq![(c.bit_width % 256) as u8],
        b.subrange(at + 1, at + 5) == field32(c.dim),
        b.subrange(at + 5, at + 9) == field32(c.n),
        b.subrange(at + 9, at + 9 + c.codes.len()) == c.codes,
        b.subrange(at + 9 + c.codes.len(), at + 9 + c.codes.len() + 4 * c.scales.len()) == le32s(
            c.scales,
        ),
{
    let head = seq![(c.bit_width % 256) as u8];
    lemma_five_parts(b, at, head, field32(c.dim), field32(c.n), c.codes, le32s(c.scales));
}

/// A field holds a value if and only if the value reads back from it.
#[verifier::rlimit(50)]
proof fn lemma_field_reads_back(b: Seq<u8>, at: int, x: nat)
    requires
        0 <= at,
        at + 4 <= b.len(),
        x < 0x1_0000_0000,
    ensures
        b.subrange(at, at + 4) == field32(x) <==> un32(b, at) == x,
{
    let y = x as u32;
    assert((x % 0x1_0000_0000) as u32 == y);
    lemma_un32_le32(b, at, y);
}

/// Header, codes and scales read back as they were written.
#[verifier::rlimit(50)]
proof fn lemma_base_reads_back(b: Seq<u8>, at: int, c: IndexView)
    requires
        0 <= at,
        storable(c),
        at + base_bytes(c).len() <= b.len(),
        b.subrange(at, at + base_bytes(c).len()) == base_bytes(c),
    ensures
        base_bytes(c).len() == 9 + c.codes.len() + 4 * c.n,
        b[at] == c.bit_width,
        un32(b, at + 1) == c.dim,
        un32(b, at + 5) == c.n,
        b.subrange(at + 9, at + 9 + c.codes.len()) == c.codes,
        un32s(b, at + 9 + c.codes.len(), c.n as int) == c.scales,
{
    lemma_base_parts(b, at, c);
    assert(b[at] == b.subrange(at, at + 1)[0]);
    lemma_field_reads_back(b, at + 1, c.dim);
    lemma_field_reads_back(b, at + 5, c.n);
    lemma_un32s_le32s(b, at + 9 + c.codes.len(), c.scales);
}

/// A calibration reads back as it was written.
proof fn lemma_calibration_reads_back(b: Seq<u8>, at: int, c: IndexView)
    requires
        0 <= at,
        storable(c),
        at + calibration_bytes(c).len() <= b.len(),
        b.subrange(at, at + calibration_bytes(c).len()) == calibration_bytes(c),
    ensures
        calibration_bytes(c).len() == 4 + 8 * c.shift.len(),
        un32(b, at) == c.shift.len(),
        un32s(b, at + 4, c.shift.len() as int) == c.shift,
        un32s(b, at + 4 + 4 * c.shift.len(), c.shift.len() as int) == c.scale,
{
    let m = c.shift.len() as int;
    let none = Seq::<u8>::empty();
    let calib = calibration_bytes(c);
    assert(calib + none + none =~= calib);
    lemma_five_parts(b, at, field32(c.shift.len()), le32s(c.shift), le32s(c.scale), none, none);
    lemma_field_reads_back(b, at, c.shift.len());
    lemma_un32s_le32s(b, at + 4, c.shift);
    lemma_un32s_le32s(b, at + 4 + 4 * m, c.scale);
}

/// A core reads back as it was written.
proof fn lemma_core_reads_back(b: Seq<u8>, at: int, c: IndexView)
    requires
        0 <= at,
        storable(c),
        at + base_bytes(c).len() + calibration_bytes(c).len() <= b.len(),
        b.subrange(at, at + base_bytes(c).len()) == base_bytes(c),
        b.subrange(
            at + base_bytes(c).len(),
            at + base_bytes(c).len() + calibration_bytes(c).len(),
        ) == calibration_bytes(c),
    ensures
        parse_core(b, at, true) == Ok::<(IndexView, int), LoadError>(
            (
                IndexView { refine: None, ..c },
                at + base_bytes(c).len() + calibration_bytes(c).len(),
            ),
        ),
{
    lemma_base_reads_back(b, at, c);
    lemma_calibration_reads_back(b, at + base_bytes(c).len(), c);
}

/// A core that was read stands in the bytes as it would be written.
proof fn lemma_core_writes_back(b: Seq<u8>, at: int)
    requires
        0 <= at <= b.len(),
        parse_core(b, at, true) is Ok,
    ensures
        ({
            let (c, end) = parse_core(b, at, true)->Ok_0;
            &&& storable(c)
            &&& c.refine is None
            &&& at <= end <= b.len()
            &&& b.subrange(at, end) == base_bytes(c) + calibration_bytes(c)
        }),
{
    let (c, end) = parse_core(b, at, true)->Ok_0;
    let scales_at = at + 9 + codes_len(c.bit_width as int, c.dim as int, c.n as int);
    let calib_at = scales_at + 4 * c.n;
    let shift_at = calib_at + 4;
    let m = c.shift.len() as int;
    let scale_at = shift_at + 4 * m;
    assert(codes_len(c.bit_width as int, c.dim as int, c.n as int) >= 0) by (nonlinear_arith)
        requires
            codes_len(c.bit_width as int, c.dim as int, c.n as int) == c.dim as int / 8
                * c.bit_width as int * c.n as int,
            c.dim as int / 8 >= 0,
            c.bit_width >= 0,
            c.n >= 0,
    ;
    lemma_base_stands(b, at, c, scales_at, calib_at);
    lemma_calibration_stands(b, calib_at, c);
    lemma_span(b, at, calib_at, end);
}

/// A header, codes and scales that were read stand in the bytes as they would
/// be written.
#[verifier::rlimit(50)]
proof fn lemma_base_stands(b: Seq<u8>, at: int, c: IndexView, scales_at: int, calib_at: int)
    requires
        0 <= at,
        at + 9 <= scales_at,
        calib_at == scales_at + 4 * c.scales.len(),
        calib_at <= b.len(),
        b[at] == c.bit_width,
        un32(b, at + 1) == c.dim,
        un32(b, at + 5) == c.n,
        c.codes == b.subrange(at + 9, scales_at),
        c.scales == un32s(b, scales_at, c.scales.len() as int),
    ensures
        b.subrange(at, calib_at) == base_bytes(c),
{
    lemma_field_reads_back(b, at + 1, c.dim);
    lemma_field_reads_back(b, at + 5, c.n);
    lemma_un32s_le32s(b, scales_at, c.scales);
    assert(b.subrange(at, at + 1) =~= seq![(c.bit_width % 256) as u8]);
    lemma_span(b, at, at + 1, at + 5);
    lemma_span(b, at, at + 5, at + 9);
    lemma_span(b, at, at + 9, scales_at);
    lemma_span(b, at, scales_at, calib_at);
}

/// A calibration that was read stands in the bytes as it would be written.
proof fn lemma_calibration_stands(b: Seq<u8>, at: int, c: IndexView)
    requires
        0 <= at,
        c.scale.len() == c.shift.len(),
        at + 4 + 8 * c.shift.len() <= b.len(),
        un32(b, at) == c.shift.len(),
        c.shift == un32s(b, at + 4, c.shift.len() as int),
        c.scale == un32s(b, at + 4 + 4 * c.shift.len(), c.shift.len() as int),
    ensures
        b.subrange(at, at + 4 + 8 * c.shift.len()) == calibration_bytes(c),
{
    let m = c.shift.len() as int;
    lemma_field_reads_back(b, at, c.shift.len());
    lemma_un32s_le32s(b, at + 4, c.shift);
    lemma_un32s_le32s(b, at + 4 + 4 * m, c.scale);
    lemma_span(b, at, at + 4, at + 4 + 4 * m);
    lemma_span(b, at, at + 4 + 4 * m, at + 4 + 8 * m);
}

// ---------------------------------------------------------------------------
// Refine trailers
// ---------------------------------------------------------------------------

/// A refine trailer reads back as it was written.
proof fn lemma_refine_reads_back(b: Seq<u8>, at: int, r: RefineView, dim: int)
    requires
        0 <= at,
        0 <= dim,
        r.wf(dim),
        at + refine_bytes(r).len() <= b.len(),
        b.subrange(at, at + refine_bytes(r).len()) == refine_bytes(r),
    ensures
        parse_refine(b, at, r.n as int, dim) == Ok::<RefineView, LoadError>(r),
{
    let bytes = refine_bytes(r);
    let s = b.subrange(at, at + bytes.len());
    let n = r.n as int;
    assert(b[at] == s[0]);
    match r.mode {
        RefineMode::Int8 => {
            assert(s[0] == 1);
            assert(s.subrange(1, 1 + 4 * n) =~= le32s(r.i8_scales));
            assert(s.subrange(1 + 4 * n, 1 + 4 * n + n * dim) =~= i8s(r.codes_i8));
            assert(b.subrange(at + 1, at + 1 + 4 * n) =~= s.subrange(1, 1 + 4 * n));
            assert(b.subrange(at + 1 + 4 * n, at + 1 + 4 * n + n * dim) =~= s.subrange(
                1 + 4 * n,
                1 + 4 * n + n * dim,
            ));
            lemma_un32s_le32s(b, at + 1, r.i8_scales);
            lemma_un_i8s_i8s(b, at + 1 + 4 * n, r.codes_i8);
        },
        RefineMode::Float32 => {
            assert(s[0] == 2);
            assert(s.subrange(1, 1 + 4 * (n * dim)) =~= le32s(r.floats));
            assert(b.subrange(at + 1, at + 1 + 4 * (n * dim)) =~= s.subrange(
                1,
                1 + 4 * (n * dim),
            ));
            lemma_un32s_le32s(b, at + 1, r.floats);
        },
        RefineMode::Float16 => {
            assert(s[0] == 3);
            assert(s.subrange(1, 1 + 2 * (n * dim)) =~= le16s(r.halfs));
            assert(b.subrange(at + 1, at + 1 + 2 * (n * dim)) =~= s.subrange(
                1,
                1 + 2 * (n * dim),
            ));
            lemma_un16s_le16s(b, at + 1, r.halfs);
        },
    }
    let got = parse_refine(b, at, n, dim)->Ok_0;
    assert(got =~= r);
}

/// A refine trailer that was read stands in the bytes as it would be written.
proof fn lemma_refine_writes_back(b: Seq<u8>, at: int, n: int, dim: int)
    requires
        0 <= at <= b.len(),
        0 <= n,
        0 <= dim,
        parse_refine(b, at, n, dim) is Ok,
    ensures
        ({
            let r = parse_refine(b, at, n, dim)->Ok_0;
            &&& r.wf(dim)
            &&& r.n == n
            &&& at + refine_bytes(r).len() <= b.len()
            &&& b.subrange(at, at + refine_bytes(r).len()) == refine_bytes(r)
        }),
{
    let r = parse_refine(b, at, n, dim)->Ok_0;
    assert(0 <= n * dim) by (nonlinear_arith)
        requires
            0 <= n,
            0 <= dim,
    ;
    let end = at + refine_bytes(r).len();
    assert(b.subrange(at, at + 1) =~= seq![b[at]]);
    assert(b.subrange(at, end) =~= b.subrange(at, at + 1) + b.subrange(at + 1, end));
    match r.mode {
        RefineMode::Int8 => {
            lemma_un32s_le32s(b, at + 1, r.i8_scales);
            lemma_un_i8s_i8s(b, at + 1 + 4 * n, r.codes_i8);
            assert(b.subrange(at + 1, end) =~= b.subrange(at + 1, at + 1 + 4 * n) + b.subrange(
                at + 1 + 4 * n,
                end,
            ));
        },
        RefineMode::Float32 => {
            lemma_un32s_le32s(b, at + 1, r.floats);
        },
        RefineMode::Float16 => {
            lemma_un16s_le16s(b, at + 1, r.halfs);
        },
    }
    assert(b.subrange(at, end) =~= refine_bytes(r));
}

// ---------------------------------------------------------------------------
// Files
// ---------------------------------------------------------------------------

/// What reading a `.tv` file comes across, whatever follows it.
proof fn lemma_tv_reads(c: IndexView, rest: Seq<u8>)
    requires
        storable(c),
    ensures
        ({
            let b = tv_bytes(c) + rest;
            let end = 5 + base_bytes(c).len() as int + calibration_bytes(c).len();
            &&& tv_bytes(c).len() == end + trailer_bytes(c.refine).len()
            &&& b.take(4) == tv_magic()
            &&& b[4] == version_for(c.refine)
            &&& parse_core(b, 5, true) == Ok::<(IndexView, int), LoadError>(
                (IndexView { refine: None, ..c }, end),
            )
            &&& c.refine matches Some(r) ==> parse_refine(b, end, c.n as int, c.dim as int) == Ok::<
                RefineView,
                LoadError,
            >(r)
        }),
{
    let end = 5 + base_bytes(c).len() as int + calibration_bytes(c).len();
    lemma_tv_laid_out(c, rest);
    lemma_laid_out_reads(
        tv_bytes(c) + rest,
        tv_magic(),
        c,
        Seq::empty(),
        end,
    );
}

/// What reading a `.tvim` file comes across, whatever follows it.
proof fn lemma_tvim_reads(c: IndexView, ids: Seq<u64>, rest: Seq<u8>)
    requires
        storable(c),
        ids.len() == c.n,
    ensures
        ({
            let b = tvim_bytes(c, ids) + rest;
            let end = 5 + base_bytes(c).len() as int + calibration_bytes(c).len();
            let table_end = end + 8 * c.n;
            &&& tvim_bytes(c, ids).len() == table_end + trailer_bytes(c.refine).len()
            &&& b.take(4) == tvim_magic()
            &&& b[4] == version_for(c.refine)
            &&& b.subrange(end, table_end) == le64s(ids)
            &&& parse_core(b, 5, true) == Ok::<(IndexView, int), LoadError>(
                (IndexView { refine: None, ..c }, end),
            )
            &&& c.refine matches Some(r) ==> parse_refine(
                b,
                table_end,
                c.n as int,
                c.dim as int,
            ) == Ok::<RefineView, LoadError>(r)
        }),
{
    let end = 5 + base_bytes(c).len() as int + calibration_bytes(c).len();
    lemma_tvim_laid_out(c, ids, rest);
    lemma_laid_out_reads(
        tvim_bytes(c, ids) + rest,
        tvim_magic(),
        c,
        le64s(ids),
        end + le64s(ids).len(),
    );
}

/// What reading bytes comes across whose parts are those of an index.
proof fn lemma_laid_out_reads(
    b: Seq<u8>,
    magic: Seq<u8>,
    c: IndexView,
    table: Seq<u8>,
    trailer_at: int,
)
    requires
        storable(c),
        trailer_at == 5 + base_bytes(c).len() + calibration_bytes(c).len() + table.len(),
        laid_out(
            b,
            magic,
            version_for(c.refine),
            base_bytes(c),
            calibration_bytes(c),
            table,
            trailer_bytes(c.refine),
        ),
    ensures
        parse_core(b, 5, true) == Ok::<(IndexView, int), LoadError>(
            (
                IndexView { refine: None, ..c },
                5 + base_bytes(c).len() as int + calibration_bytes(c).len(),
            ),
        ),
        c.refine matches Some(r) ==> parse_refine(b, trailer_at, c.n as int, c.dim as int) == Ok::<
            RefineView,
            LoadError,
        >(r),
{
    lemma_core_reads_back(b, 5, c);
    if let Some(r) = c.refine {
        lemma_refine_reads_back(b, trailer_at, r, c.dim as int);
    }
}

/// A `.tv` file loads as what was written, whatever follows it.
pub proof fn law_tv_round_trip(c: IndexView, rest: Seq<u8>)
    requires
        storable(c),
    ensures
        parse_tv(tv_bytes(c) + rest) == Ok::<IndexView, LoadError>(c),
{
    lemma_tv_reads(c, rest);
}

/// A `.tvim` file loads as what was written, ids and refine store included,
/// whatever follows it.
pub proof fn law_tvim_round_trip(c: IndexView, ids: Seq<u64>, rest: Seq<u8>)
    requires
        storable(c),
        ids.len() == c.n,
    ensures
        parse_tvim(tvim_bytes(c, ids) + rest) == Ok::<(IndexView, Seq<u64>), LoadError>((c, ids)),
{
    let end = 5 + base_bytes(c).len() as int + calibration_bytes(c).len();
    lemma_tvim_reads(c, ids, rest);
    lemma_un64s_le64s(tvim_bytes(c, ids) + rest, end, ids);
}

/// Bytes whose parts are known start with those parts.
proof fn lemma_front_of_parts(
    b: Seq<u8>,
    magic: Seq<u8>,
    version: u8,
    core: Seq<u8>,
    calib: Seq<u8>,
    table: Seq<u8>,
    trailer: Seq<u8>,
)
    requires
        magic.len() == 4,
        ({
            let table_at = 5 + core.len() as int + calib.len();
            let trailer_at = table_at + table.len();
            let end = trailer_at + trailer.len();
            &&& end <= b.len()
            &&& b.take(4) == magic
            &&& b[4] == version
            &&& b.subrange(5, table_at) == core + calib
            &&& b.subrange(table_at, trailer_at) == table
            &&& b.subrange(trailer_at, end) == trailer
        }),
    ensures
        (magic + seq![version] + core + calib + table + trailer).is_prefix_of(b),
{
    let table_at = 5 + core.len() as int + calib.len();
    let trailer_at = table_at + table.len();
    let end = trailer_at + trailer.len();
    assert(b.subrange(4, 5) =~= seq![version]);
    assert(b.take(4) =~= b.subrange(0, 4));
    lemma_span(b, 0, 4, 5);
    lemma_span(b, 0, 5, table_at);
    lemma_span(b, 0, table_at, trailer_at);
    lemma_span(b, 0, trailer_at, end);
    let head = magic + seq![version];
    assert(head + (core + calib) =~= head + core + calib);
    assert(magic + seq![version] + core + calib + table + trailer == b.subrange(0, end));
}

/// A `.tv` file of the current versions that loads is, up to trailing bytes,
/// what writing the loaded index gives.
pub proof fn law_tv_rewrites_same(b: Seq<u8>)
    requires
        parse_tv(b) is Ok,
        b[4] != 2,
    ensures
        storable(parse_tv(b)->Ok_0),
        tv_bytes(parse_tv(b)->Ok_0).is_prefix_of(b),
{
    let c = parse_tv(b)->Ok_0;
    lemma_core_writes_back(b, 5);
    let (core, end) = parse_core(b, 5, true)->Ok_0;
    if b[4] == 4 {
        lemma_refine_writes_back(b, end, core.n as int, core.dim as int);
    }
    let none = Seq::<u8>::empty();
    let trailer = trailer_bytes(c.refine);
    let base = base_bytes(c);
    let calib = calibration_bytes(c);
    assert(base == base_bytes(core));
    assert(calib == calibration_bytes(core));
    assert((base + calib).len() == end - 5);
    assert(b.subrange(end, end) =~= none);
    assert(b.subrange(end, end + trailer.len()) =~= trailer);
    lemma_front_of_parts(b, tv_magic(), b[4], base, calib, none, trailer);
    lemma_nothing_added(tv_magic() + seq![b[4]] + base + calib);
}

/// A `.tvim` file of the current versions that loads is, up to trailing bytes,
/// what writing the loaded index and ids gives.
pub proof fn law_tvim_rewrites_same(b: Seq<u8>)
    requires
        parse_tvim(b) is Ok,
        b[4] != 2,
    ensures
        storable((parse_tvim(b)->Ok_0).0),
        (parse_tvim(b)->Ok_0).1.len() == (parse_tvim(b)->Ok_0).0.n,
        tvim_bytes((parse_tvim(b)->Ok_0).0, (parse_tvim(b)->Ok_0).1).is_prefix_of(b),
{
    let (c, ids) = parse_tvim(b)->Ok_0;
    lemma_core_writes_back(b, 5);
    let (core, end) = parse_core(b, 5, true)->Ok_0;
    let table_end = end + 8 * core.n;
    lemma_un64s_le64s(b, end, ids);
    if b[4] == 4 {
        lemma_refine_writes_back(b, table_end, core.n as int, core.dim as int);
    }
    let trailer = trailer_bytes(c.refine);
    let base = base_bytes(c);
    let calib = calibration_bytes(c);
    assert(base == base_bytes(core));
    assert(calib == calibration_bytes(core));
    assert((base + calib).len() == end - 5);
    assert(b.subrange(table_end, table_end + trailer.len()) =~= trailer);
    lemma_front_of_parts(b, tvim_magic(), b[4], base, calib, le64s(ids), trailer);
}

/// Version 4 is written exactly when there is a refine store, and version 3
/// otherwise.
pub proof fn law_version_byte(c: IndexView, ids: Seq<u64>)
    ensures
        tv_bytes(c)[4] == (if c.refine is Some {
            4u8
        } else {
            3u8
        }),
        tvim_bytes(c, ids)[4] == tv_bytes(c)[4],
{
}

/// A core without calibration reads back as it was written.
#[verifier::rlimit(50)]
proof fn lemma_bare_core_reads_back(b: Seq<u8>, at: int, c: IndexView)
    requires
        0 <= at,
        storable(c),
        c.shift.len() == 0,
        c.refine is None,
        at + base_bytes(c).len() <= b.len(),
        b.subrange(at, at + base_bytes(c).len()) == base_bytes(c),
    ensures
        parse_core(b, at, false) == Ok::<(IndexView, int), LoadError>(
            (c, at + base_bytes(c).len()),
        ),
{
    lemma_base_reads_back(b, at, c);
    assert(parse_core(b, at, false)->Ok_0.0 =~= c);
}

/// What reading bytes of version 2 comes across.
proof fn lemma_bare_reads(b: Seq<u8>, magic: Seq<u8>, c: IndexView, table: Seq<u8>)
    requires
        storable(c),
        c.shift.len() == 0,
        c.refine is None,
        laid_out(b, magic, 2, base_bytes(c), Seq::empty(), table, Seq::empty()),
    ensures
        parse_core(b, 5, false) == Ok::<(IndexView, int), LoadError>(
            (c, 5 + base_bytes(c).len() as int),
        ),
        b.subrange(
            5 + base_bytes(c).len() as int,
            5 + base_bytes(c).len() as int + table.len(),
        ) == table,
        5 + base_bytes(c).len() + table.len() <= b.len(),
        b.take(4) == magic,
        b[4] == 2,
{
    lemma_bare_core_reads_back(b, 5, c);
}

/// A `.tv` file of version 2 loads with an empty calibration and no refine
/// store.
#[verifier::rlimit(50)]
pub proof fn law_tv_version_2_loads_uncalibrated(c: IndexView, rest: Seq<u8>)
    requires
        storable(c),
        c.shift.len() == 0,
        c.refine is None,
    ensures
        parse_tv(tv_magic() + seq![2u8] + base_bytes(c) + rest) == Ok::<IndexView, LoadError>(c),
{
    let base = base_bytes(c);
    let none = Seq::<u8>::empty();
    lemma_laid_out(tv_magic(), 2, base, none, none, none, rest);
    lemma_nothing_added(tv_magic() + seq![2u8] + base);
    lemma_bare_reads(tv_magic() + seq![2u8] + base + rest, tv_magic(), c, none);
}

/// A `.tvim` file of version 2 loads with its ids, an empty calibration and no
/// refine store.
#[verifier::rlimit(50)]
pub proof fn law_tvim_version_2_loads_uncalibrated(c: IndexView, ids: Seq<u64>, rest: Seq<u8>)
    requires
        storable(c),
        c.shift.len() == 0,
        c.refine is None,
        ids.len() == c.n,
    ensures
        parse_tvim(tvim_magic() + seq![2u8] + base_bytes(c) + le64s(ids) + rest) == Ok::<
            (IndexView, Seq<u64>),
            LoadError,
        >((c, ids)),
{
    let base = base_bytes(c);
    let table = le64s(ids);
    let none = Seq::<u8>::empty();
    let b = tvim_magic() + seq![2u8] + base + table + rest;
    lemma_laid_out(tvim_magic(), 2, base, none, table, none, rest);
    lemma_nothing_added(tvim_magic() + seq![2u8] + base);
    lemma_nothing_added(tvim_magic() + seq![2u8] + base + table);
    lemma_bare_reads(b, tvim_magic(), c, table);
    lemma_un64s_le64s(b, 5 + base.len() as int, ids);
}

/// A core without calibration that was read can be stored.
proof fn lemma_bare_core_storable(b: Seq<u8>, at: int)
    requires
        0 <= at <= b.len(),
        parse_core(b, at, false) is Ok,
    ensures
        storable((parse_core(b, at, false)->Ok_0).0),
        (parse_core(b, at, false)->Ok_0).0.refine is None,
{
    let c = (parse_core(b, at, false)->Ok_0).0;
    assert(codes_len(c.bit_width as int, c.dim as int, c.n as int) >= 0) by (nonlinear_arith)
        requires
            codes_len(c.bit_width as int, c.dim as int, c.n as int) == c.dim as int / 8
                * c.bit_width as int * c.n as int,
            c.dim as int / 8 >= 0,
            c.bit_width >= 0,
            c.n >= 0,
    ;
}

/// Whatever version a `.tv` file has, saving the index that was loaded from it
/// gives a file that loads as the same index.
pub proof fn law_tv_resaved_loads_same(b: Seq<u8>)
    requires
        parse_tv(b) is Ok,
    ensures
        storable(parse_tv(b)->Ok_0),
        parse_tv(tv_bytes(parse_tv(b)->Ok_0)) == parse_tv(b),
{
    let c = parse_tv(b)->Ok_0;
    if b[4] == 2 {
        lemma_bare_core_storable(b, 5);
    } else {
        law_tv_rewrites_same(b);
    }
    law_tv_round_trip(c, Seq::empty());
    lemma_nothing_added(tv_bytes(c));
}

/// Whatever version a `.tvim` file has, saving the index and the ids that were
/// loaded from it gives a file that loads as the same index and ids.
pub proof fn law_tvim_resaved_loads_same(b: Seq<u8>)
    requires
        parse_tvim(b) is Ok,
    ensures
        storable((parse_tvim(b)->Ok_0).0),
        parse_tvim(tvim_bytes((parse_tvim(b)->Ok_0).0, (parse_tvim(b)->Ok_0).1)) == parse_tvim(b),
{
    let (c, ids) = parse_tvim(b)->Ok_0;
    if b[4] == 2 {
        lemma_bare_core_storable(b, 5);
    } else {
        law_tvim_rewrites_same(b);
    }
    law_tvim_round_trip(c, ids, Seq::empty());
    lemma_nothing_added(tvim_bytes(c, ids));
}

/// Neither kind of file is taken for the other.
pub proof fn law_kinds_are_told_apart(c: IndexView, ids: Seq<u64>, rest: Seq<u8>)
    ensures
        parse_tvim(tv_bytes(c) + rest) == Err::<(IndexView, Seq<u64>), LoadError>(
            LoadError::WrongMagic(FileKind::Tvim),
        ),
        parse_tv(tvim_bytes(c, ids) + rest) == Err::<IndexView, LoadError>(
            LoadError::WrongMagic(FileKind::Tv),
        ),
{
    let a = tv_bytes(c) + rest;
    let b = tvim_bytes(c, ids) + rest;
    lemma_tv_laid_out(c, rest);
    lemma_tvim_laid_out(c, ids, rest);
    assert(a.take(4)[2] == 0x50 && tvim_magic()[2] == 0x49);
    assert(b.take(4)[2] == 0x49 && tv_magic()[2] == 0x50);
    assert(b.take(4)[0] == 0x54);
}

// ---------------------------------------------------------------------------
// Files that were cut short
// ---------------------------------------------------------------------------

/// A core that was cut short is not read; one that was not is read alike.
proof fn lemma_core_cut(b: Seq<u8>, k: int, at: int)
    requires
        0 <= at <= b.len(),
        0 <= k <= b.len(),
        parse_core(b, at, true) is Ok,
    ensures
        k < (parse_core(b, at, true)->Ok_0).1 ==> parse_core(b.take(k), at, true) == Err::<
            (IndexView, int),
            LoadError,
        >(LoadError::UnexpectedEof),
        k >= (parse_core(b, at, true)->Ok_0).1 ==> parse_core(b.take(k), at, true) == parse_core(
            b,
            at,
            true,
        ),
{
    let t = b.take(k);
    let (c, end) = parse_core(b, at, true)->Ok_0;
    lemma_core_writes_back(b, at);
    let scales_at = at + 9 + codes_len(c.bit_width as int, c.dim as int, c.n as int);
    let calib_at = scales_at + 4 * c.n;
    let shift_at = calib_at + 4;
    let m = c.shift.len() as int;
    let scale_at = shift_at + 4 * m;
    if k >= at + 9 {
        assert(un32(t, at + 1) == un32(b, at + 1));
        assert(un32(t, at + 5) == un32(b, at + 5));
        if k >= shift_at {
            assert(un32(t, calib_at) == un32(b, calib_at));
        }
        if k >= end {
            assert(t.subrange(at + 9, scales_at) =~= b.subrange(at + 9, scales_at));
            assert(un32s(t, scales_at, c.n as int) =~= un32s(b, scales_at, c.n as int));
            assert(un32s(t, shift_at, m) =~= un32s(b, shift_at, m));
            assert(un32s(t, scale_at, m) =~= un32s(b, scale_at, m));
        }
    }
}

/// A refine trailer that was cut short is not read.
proof fn lemma_refine_cut(b: Seq<u8>, k: int, at: int, n: int, dim: int)
    requires
        0 <= at <= b.len(),
        0 <= n,
        0 <= dim,
        parse_refine(b, at, n, dim) is Ok,
        0 <= k < at + refine_bytes(parse_refine(b, at, n, dim)->Ok_0).len(),
    ensures
        parse_refine(b.take(k), at, n, dim) == Err::<RefineView, LoadError>(
            LoadError::UnexpectedEof,
        ),
{
    lemma_refine_writes_back(b, at, n, dim);
    if k >= at + 1 {
        assert(b.take(k)[at] == b[at]);
    }
}

/// A refine trailer, wherever it stands and whatever follows it, reads back as
/// the `n` vectors it was written from, and takes up all of its bytes to do so:
/// cut short at any place, it is refused.
pub proof fn law_refine_trailer_round_trip(
    front: Seq<u8>,
    r: RefineView,
    n: nat,
    dim: int,
    rest: Seq<u8>,
    k: int,
)
    requires
        0 <= dim,
        (RefineView { n, ..r }).wf(dim),
    ensures
        parse_refine(front + refine_bytes(r) + rest, front.len() as int, n as int, dim) == Ok::<
            RefineView,
            LoadError,
        >(RefineView { n, ..r }),
        0 <= k < refine_bytes(r).len() ==> parse_refine(
            front + refine_bytes(r).take(k),
            front.len() as int,
            n as int,
            dim,
        ) == Err::<RefineView, LoadError>(LoadError::UnexpectedEof),
{
    let at = front.len() as int;
    let counted = RefineView { n, ..r };
    let trailer = refine_bytes(r);
    let b = front + trailer + rest;
    assert(refine_bytes(counted) == trailer);
    assert(b.subrange(at, at + trailer.len()) =~= trailer);
    lemma_refine_reads_back(b, at, counted, dim);
    if 0 <= k < trailer.len() {
        lemma_refine_cut(b, at + k, at, n as int, dim);
        assert(b.take(at + k) =~= front + trailer.take(k));
    }
}

/// Bytes that were cut within a core or within the trailer behind it give no
/// `.tv` file.
proof fn lemma_tv_cut(b: Seq<u8>, k: int)
    requires
        5 <= b.len(),
        0 <= k <= b.len(),
        b.take(4) == tv_magic(),
        b[4] == 3 || b[4] == 4,
        parse_core(b, 5, true) is Ok,
        ({
            let (c, end) = parse_core(b, 5, true)->Ok_0;
            ||| k < end
            ||| {
                &&& b[4] == 4
                &&& parse_refine(b, end, c.n as int, c.dim as int) is Ok
                &&& k < end + refine_bytes(
                    parse_refine(b, end, c.n as int, c.dim as int)->Ok_0,
                ).len()
            }
        }),
    ensures
        parse_tv(b.take(k)) == Err::<IndexView, LoadError>(LoadError::UnexpectedEof),
{
    let (c, end) = parse_core(b, 5, true)->Ok_0;
    let t = b.take(k);
    lemma_core_cut(b, k, 5);
    lemma_core_writes_back(b, 5);
    if k >= 4 {
        assert(t.take(4) =~= b.take(4));
    }
    if k >= end {
        lemma_refine_cut(b, k, end, c.n as int, c.dim as int);
    }
}

/// Bytes that were cut within a core, within the ids or within the trailer
/// behind them give no `.tvim` file.
proof fn lemma_tvim_cut(b: Seq<u8>, k: int)
    requires
        5 <= b.len(),
        0 <= k <= b.len(),
        b.take(4) == tvim_magic(),
        b[4] == 3 || b[4] == 4,
        parse_core(b, 5, true) is Ok,
        ({
            let (c, end) = parse_core(b, 5, true)->Ok_0;
            let table_end = end + 8 * c.n;
            ||| k < table_end
            ||| {
                &&& b[4] == 4
                &&& table_end <= b.len()
                &&& parse_refine(b, table_end, c.n as int, c.dim as int) is Ok
                &&& k < table_end + refine_bytes(
                    parse_refine(b, table_end, c.n as int, c.dim as int)->Ok_0,
                ).len()
            }
        }),
    ensures
        parse_tvim(b.take(k)) == Err::<(IndexView, Seq<u64>), LoadError>(LoadError::UnexpectedEof),
{
    let (c, end) = parse_core(b, 5, true)->Ok_0;
    let table_end = end + 8 * c.n;
    let t = b.take(k);
    lemma_core_cut(b, k, 5);
    lemma_core_writes_back(b, 5);
    if k >= 4 {
        assert(t.take(4) =~= b.take(4));
    }
    if k >= table_end {
        lemma_refine_cut(b, k, table_end, c.n as int, c.dim as int);
    }
}

/// A `.tv` file that was cut short, wherever that is, is refused for that.
pub proof fn law_tv_cut_short(c: IndexView, k: int)
    requires
        storable(c),
        0 <= k < tv_bytes(c).len(),
    ensures
        parse_tv(tv_bytes(c).take(k)) == Err::<IndexView, LoadError>(LoadError::UnexpectedEof),
{
    lemma_tv_reads(c, Seq::empty());
    lemma_nothing_added(tv_bytes(c));
    lemma_tv_cut(tv_bytes(c), k);
}

/// A `.tvim` file that was cut short, wherever that is, is refused for that.
pub proof fn law_tvim_cut_short(c: IndexView, ids: Seq<u64>, k: int)
    requires
        storable(c),
        ids.len() == c.n,
        0 <= k < tvim_bytes(c, ids).len(),
    ensures
        parse_tvim(tvim_bytes(c, ids).take(k)) == Err::<(IndexView, Seq<u64>), LoadError>(
            LoadError::UnexpectedEof,
        ),
{
    lemma_tvim_reads(c, ids, Seq::empty());
    lemma_nothing_added(tvim_bytes(c, ids));
    lemma_tvim_cut(tvim_bytes(c, ids), k);
}

} // verus!
