//! Little-endian integers in byte strings.

use vstd::prelude::*;
use vstd::slice::slice_subrange;

verus! {

// ---------------------------------------------------------------------------
// Single values
// ---------------------------------------------------------------------------

/// The two bytes of `x`, the least significant one first.
pub open spec fn le16(x: u16) -> Seq<u8> {
    seq![(x % 256) as u8, (x / 256) as u8]
}

/// The four bytes of `x`, the least significant one first.
pub open spec fn le32(x: u32) -> Seq<u8> {
    seq![
        (x % 256) as u8,
        (x / 256 % 256) as u8,
        (x / 65536 % 256) as u8,
        (x / 16777216) as u8,
    ]
}

/// The eight bytes of `x`, the least significant one first.
pub open spec fn le64(x: u64) -> Seq<u8> {
    le32((x % 0x1_0000_0000) as u32) + le32((x / 0x1_0000_0000) as u32)
}

/// The value of the two bytes at `at`.
pub open spec fn un16(b: Seq<u8>, at: int) -> u16 {
    (b[at] + 256 * b[at + 1]) as u16
}

/// The value of the four bytes at `at`.
pub open spec fn un32(b: Seq<u8>, at: int) -> u32 {
    (b[at] + 256 * b[at + 1] + 65536 * b[at + 2] + 16777216 * b[at + 3]) as u32
}

/// The value of the eight bytes at `at`.
pub open spec fn un64(b: Seq<u8>, at: int) -> u64 {
    (un32(b, at) + 0x1_0000_0000 * un32(b, at + 4)) as u64
}

/// The byte that holds the two's complement of `c`.
pub open spec fn byte_of_i8(c: i8) -> u8 {
    if c < 0 {
        (c + 256) as u8
    } else {
        c as u8
    }
}

/// The value whose two's complement is `b`.
pub open spec fn i8_of_byte(b: u8) -> i8 {
    if b < 128 {
        b as i8
    } else {
        (b - 256) as i8
    }
}

pub proof fn lemma_un16_le16(b: Seq<u8>, at: int, x: u16)
    requires
        0 <= at,
        at + 2 <= b.len(),
    ensures
        b.subrange(at, at + 2) == le16(x) <==> un16(b, at) == x,
{
    let s = b.subrange(at, at + 2);
    assert(s[0] == b[at] && s[1] == b[at + 1]);
    if un16(b, at) == x {
        assert(s =~= le16(x));
    }
    if s == le16(x) {
        assert(s[0] == le16(x)[0] && s[1] == le16(x)[1]);
    }
}

/// Four bytes are the base-256 digits of exactly one value.
proof fn lemma_digits32(x: u32, b0: u8, b1: u8, b2: u8, b3: u8)
    by (bit_vector)
    ensures
        (x == b0 + 256 * b1 + 65536 * b2 + 16777216 * b3) == (x % 256 == b0 && x / 256 % 256 == b1
            && x / 65536 % 256 == b2 && x / 16777216 == b3),
{
}

pub proof fn lemma_un32_le32(b: Seq<u8>, at: int, x: u32)
    requires
        0 <= at,
        at + 4 <= b.len(),
    ensures
        b.subrange(at, at + 4) == le32(x) <==> un32(b, at) == x,
{
    let s = b.subrange(at, at + 4);
    lemma_digits32(x, b[at], b[at + 1], b[at + 2], b[at + 3]);
    assert(s[0] == b[at] && s[1] == b[at + 1] && s[2] == b[at + 2] && s[3] == b[at + 3]);
    if un32(b, at) == x {
        assert(s =~= le32(x));
    }
    if s == le32(x) {
        assert(s[0] == le32(x)[0] && s[1] == le32(x)[1] && s[2] == le32(x)[2] && s[3]
            == le32(x)[3]);
    }
}

pub proof fn lemma_un64_le64(b: Seq<u8>, at: int, x: u64)
    requires
        0 <= at,
        at + 8 <= b.len(),
    ensures
        b.subrange(at, at + 8) == le64(x) <==> un64(b, at) == x,
{
    let s = b.subrange(at, at + 8);
    let low = (x % 0x1_0000_0000) as u32;
    let high = (x / 0x1_0000_0000) as u32;
    lemma_un32_le32(b, at, low);
    lemma_un32_le32(b, at + 4, high);
    assert(b.subrange(at, at + 4) =~= s.subrange(0, 4));
    assert(b.subrange(at + 4, at + 8) =~= s.subrange(4, 8));
    if s == le64(x) {
        assert(s.subrange(0, 4) =~= le32(low));
        assert(s.subrange(4, 8) =~= le32(high));
    }
    if un64(b, at) == x {
        assert(un32(b, at) == low && un32(b, at + 4) == high);
        assert(s =~= s.subrange(0, 4) + s.subrange(4, 8));
    }
}

pub proof fn lemma_i8_of_byte(b: u8, c: i8)
    ensures
        b == byte_of_i8(c) <==> i8_of_byte(b) == c,
{
}

// ---------------------------------------------------------------------------
// Arrays
// ---------------------------------------------------------------------------

/// The bytes of the values of `xs`, one after the other.
pub open spec fn le16s(xs: Seq<u16>) -> Seq<u8> {
    Seq::new(2 * xs.len(), |i: int| le16(xs[i / 2])[i % 2])
}

/// The bytes of the values of `xs`, one after the other.
pub open spec fn le32s(xs: Seq<u32>) -> Seq<u8> {
    Seq::new(4 * xs.len(), |i: int| le32(xs[i / 4])[i % 4])
}

/// The bytes of the values of `xs`, one after the other.
pub open spec fn le64s(xs: Seq<u64>) -> Seq<u8> {
    Seq::new(8 * xs.len(), |i: int| le64(xs[i / 8])[i % 8])
}

/// The bytes of the values of `cs`, one after the other.
pub open spec fn i8s(cs: Seq<i8>) -> Seq<u8> {
    Seq::new(cs.len(), |i: int| byte_of_i8(cs[i]))
}

/// The `n` values whose bytes start at `at`.
pub open spec fn un16s(b: Seq<u8>, at: int, n: int) -> Seq<u16> {
    Seq::new(n as nat, |i: int| un16(b, at + 2 * i))
}

/// The `n` values whose bytes start at `at`.
pub open spec fn un32s(b: Seq<u8>, at: int, n: int) -> Seq<u32> {
    Seq::new(n as nat, |i: int| un32(b, at + 4 * i))
}

/// The `n` values whose bytes start at `at`.
pub open spec fn un64s(b: Seq<u8>, at: int, n: int) -> Seq<u64> {
    Seq::new(n as nat, |i: int| un64(b, at + 8 * i))
}

/// The `n` values whose bytes start at `at`.
pub open spec fn un_i8s(b: Seq<u8>, at: int, n: int) -> Seq<i8> {
    Seq::new(n as nat, |i: int| i8_of_byte(b[at + i]))
}

pub proof fn lemma_un16s_le16s(b: Seq<u8>, at: int, xs: Seq<u16>)
    requires
        0 <= at,
        at + 2 * xs.len() <= b.len(),
    ensures
        b.subrange(at, at + 2 * xs.len()) == le16s(xs) <==> un16s(b, at, xs.len() as int) == xs,
{
    let n = xs.len() as int;
    let s = b.subrange(at, at + 2 * n);
    if s == le16s(xs) {
        assert forall|i: int| 0 <= i < n implies un16s(b, at, n)[i] == xs[i] by {
            let t = b.subrange(at + 2 * i, at + 2 * i + 2);
            assert forall|k: int| 0 <= k < 2 implies t[k] == le16(xs[i])[k] by {
                assert(s[2 * i + k] == le16s(xs)[2 * i + k]);
            }
            assert(t =~= le16(xs[i]));
            lemma_un16_le16(b, at + 2 * i, xs[i]);
        }
        assert(un16s(b, at, n) =~= xs);
    }
    if un16s(b, at, n) == xs {
        assert forall|j: int| 0 <= j < 2 * n implies s[j] == le16s(xs)[j] by {
            let i = j / 2;
            assert(un16s(b, at, n)[i] == xs[i]);
            lemma_un16_le16(b, at + 2 * i, xs[i]);
            assert(b.subrange(at + 2 * i, at + 2 * i + 2)[j % 2] == le16(xs[i])[j % 2]);
        }
        assert(s =~= le16s(xs));
    }
}

pub proof fn lemma_un32s_le32s(b: Seq<u8>, at: int, xs: Seq<u32>)
    requires
        0 <= at,
        at + 4 * xs.len() <= b.len(),
    ensures
        b.subrange(at, at + 4 * xs.len()) == le32s(xs) <==> un32s(b, at, xs.len() as int) == xs,
{
    let n = xs.len() as int;
    let s = b.subrange(at, at + 4 * n);
    if s == le32s(xs) {
        assert forall|i: int| 0 <= i < n implies un32s(b, at, n)[i] == xs[i] by {
            let t = b.subrange(at + 4 * i, at + 4 * i + 4);
            assert forall|k: int| 0 <= k < 4 implies t[k] == le32(xs[i])[k] by {
                assert(s[4 * i + k] == le32s(xs)[4 * i + k]);
            }
            assert(t =~= le32(xs[i]));
            lemma_un32_le32(b, at + 4 * i, xs[i]);
        }
        assert(un32s(b, at, n) =~= xs);
    }
    if un32s(b, at, n) == xs {
        assert forall|j: int| 0 <= j < 4 * n implies s[j] == le32s(xs)[j] by {
            let i = j / 4;
            assert(un32s(b, at, n)[i] == xs[i]);
            lemma_un32_le32(b, at + 4 * i, xs[i]);
            assert(b.subrange(at + 4 * i, at + 4 * i + 4)[j % 4] == le32(xs[i])[j % 4]);
        }
        assert(s =~= le32s(xs));
    }
}

pub proof fn lemma_un64s_le64s(b: Seq<u8>, at: int, xs: Seq<u64>)
    requires
        0 <= at,
        at + 8 * xs.len() <= b.len(),
    ensures
        b.subrange(at, at + 8 * xs.len()) == le64s(xs) <==> un64s(b, at, xs.len() as int) == xs,
{
    let n = xs.len() as int;
    let s = b.subrange(at, at + 8 * n);
    if s == le64s(xs) {
        assert forall|i: int| 0 <= i < n implies un64s(b, at, n)[i] == xs[i] by {
            let t = b.subrange(at + 8 * i, at + 8 * i + 8);
            assert forall|k: int| 0 <= k < 8 implies t[k] == le64(xs[i])[k] by {
                assert(s[8 * i + k] == le64s(xs)[8 * i + k]);
            }
            assert(t =~= le64(xs[i]));
            lemma_un64_le64(b, at + 8 * i, xs[i]);
        }
        assert(un64s(b, at, n) =~= xs);
    }
    if un64s(b, at, n) == xs {
        assert forall|j: int| 0 <= j < 8 * n implies s[j] == le64s(xs)[j] by {
            let i = j / 8;
            assert(un64s(b, at, n)[i] == xs[i]);
            lemma_un64_le64(b, at + 8 * i, xs[i]);
            assert(b.subrange(at + 8 * i, at + 8 * i + 8)[j % 8] == le64(xs[i])[j % 8]);
        }
        assert(s =~= le64s(xs));
    }
}

pub proof fn lemma_un_i8s_i8s(b: Seq<u8>, at: int, cs: Seq<i8>)
    requires
        0 <= at,
        at + cs.len() <= b.len(),
    ensures
        b.subrange(at, at + cs.len()) == i8s(cs) <==> un_i8s(b, at, cs.len() as int) == cs,
{
    let n = cs.len() as int;
    let s = b.subrange(at, at + n);
    if s == i8s(cs) {
        assert forall|i: int| 0 <= i < n implies un_i8s(b, at, n)[i] == cs[i] by {
            assert(s[i] == i8s(cs)[i]);
            lemma_i8_of_byte(b[at + i], cs[i]);
        }
        assert(un_i8s(b, at, n) =~= cs);
    }
    if un_i8s(b, at, n) == cs {
        assert forall|i: int| 0 <= i < n implies s[i] == i8s(cs)[i] by {
            assert(un_i8s(b, at, n)[i] == cs[i]);
            lemma_i8_of_byte(b[at + i], cs[i]);
        }
        assert(s =~= i8s(cs));
    }
}

// ---------------------------------------------------------------------------
// Writing
// ---------------------------------------------------------------------------

/// Appends the bytes of `src`.
pub fn push_bytes(out: &mut Vec<u8>, src: &[u8])
    ensures
        final(out)@ == old(out)@ + src@,
{
    let ghost before = out@;
    let mut i: usize = 0;
    assert(before + src@.take(0) =~= before);
    while i < src.len()
        invariant
            i <= src.len(),
            out@ == before + src@.take(i as int),
        decreases src.len() - i,
    {
        out.push(src[i]);
        assert(out@ =~= before + src@.take(i + 1));
        i = i + 1;
    }
    assert(src@.take(src.len() as int) =~= src@);
}

/// Appends the bytes of `x`.
pub fn push_u32(out: &mut Vec<u8>, x: u32)
    ensures
        final(out)@ == old(out)@ + le32(x),
{
    out.push((x % 256) as u8);
    out.push((x / 256 % 256) as u8);
    out.push((x / 65536 % 256) as u8);
    out.push((x / 16777216) as u8);
    assert(out@ =~= old(out)@ + le32(x));
}

/// Appends the bytes of the values of `xs`.
pub fn push_u32s(out: &mut Vec<u8>, xs: &[u32])
    ensures
        final(out)@ == old(out)@ + le32s(xs@),
{
    let ghost before = out@;
    let mut i: usize = 0;
    assert(before + le32s(xs@.take(0)) =~= before);
    while i < xs.len()
        invariant
            i <= xs.len(),
            out@ == before + le32s(xs@.take(i as int)),
        decreases xs.len() - i,
    {
        push_u32(out, xs[i]);
        assert(out@ =~= before + le32s(xs@.take(i + 1)));
        i = i + 1;
    }
    assert(xs@.take(xs.len() as int) =~= xs@);
}

/// Appends the bytes of the values of `xs`.
pub fn push_u64s(out: &mut Vec<u8>, xs: &[u64])
    ensures
        final(out)@ == old(out)@ + le64s(xs@),
{
    let ghost before = out@;
    let mut i: usize = 0;
    assert(before + le64s(xs@.take(0)) =~= before);
    while i < xs.len()
        invariant
            i <= xs.len(),
            out@ == before + le64s(xs@.take(i as int)),
        decreases xs.len() - i,
    {
        let ghost mid = out@;
        let x: u64 = xs[i];
        push_u32(out, (x % 0x1_0000_0000) as u32);
        push_u32(out, (x / 0x1_0000_0000) as u32);
        assert(out@ =~= mid + le64(x));
        assert(out@ =~= before + le64s(xs@.take(i + 1)));
        i = i + 1;
    }
    assert(xs@.take(xs.len() as int) =~= xs@);
}

/// Appends the bytes of the values of `xs`.
pub fn push_u16s(out: &mut Vec<u8>, xs: &[u16])
    ensures
        final(out)@ == old(out)@ + le16s(xs@),
{
    let ghost before = out@;
    let mut i: usize = 0;
    assert(before + le16s(xs@.take(0)) =~= before);
    while i < xs.len()
        invariant
            i <= xs.len(),
            out@ == before + le16s(xs@.take(i as int)),
        decreases xs.len() - i,
    {
        out.push((xs[i] % 256) as u8);
        out.push((xs[i] / 256) as u8);
        assert(out@ =~= before + le16s(xs@.take(i + 1)));
        i = i + 1;
    }
    assert(xs@.take(xs.len() as int) =~= xs@);
}

/// Appends the bytes of the values of `cs`.
pub fn push_i8s(out: &mut Vec<u8>, cs: &[i8])
    ensures
        final(out)@ == old(out)@ + i8s(cs@),
{
    let ghost before = out@;
    let mut i: usize = 0;
    assert(before + i8s(cs@.take(0)) =~= before);
    while i < cs.len()
        invariant
            i <= cs.len(),
            out@ == before + i8s(cs@.take(i as int)),
        decreases cs.len() - i,
    {
        let c: i8 = cs[i];
        let byte: u8 = if c < 0 {
            (c as i16 + 256) as u8
        } else {
            c as u8
        };
        out.push(byte);
        assert(out@ =~= before + i8s(cs@.take(i + 1)));
        i = i + 1;
    }
    assert(cs@.take(cs.len() as int) =~= cs@);
}

// ---------------------------------------------------------------------------
// Reading
// ---------------------------------------------------------------------------

/// Reads the `n` bytes at `at`.
pub fn read_bytes(b: &[u8], at: usize, n: usize) -> (r: Vec<u8>)
    requires
        at + n <= b.len(),
    ensures
        r@ == b@.subrange(at as int, at + n),
{
    let mut r: Vec<u8> = Vec::new();
    push_bytes(&mut r, slice_subrange(b, at, at + n));
    assert(r@ =~= b@.subrange(at as int, at + n));
    r
}

/// Reads the value of the four bytes at `at`.
pub fn read_u32(b: &[u8], at: usize) -> (x: u32)
    requires
        at + 4 <= b.len(),
    ensures
        x == un32(b@, at as int),
{
    b[at] as u32 + 256 * (b[at + 1] as u32) + 65536 * (b[at + 2] as u32) + 16777216 * (b[at
        + 3] as u32)
}

/// Reads the `n` values whose bytes start at `at`.
pub fn read_u32s(b: &[u8], at: usize, n: usize) -> (r: Vec<u32>)
    requires
        at + 4 * n <= b.len(),
    ensures
        r@ == un32s(b@, at as int, n as int),
{
    let mut r: Vec<u32> = Vec::new();
    let mut i: usize = 0;
    while i < n
        invariant
            i <= n,
            at + 4 * n <= b.len(),
            r@ == un32s(b@, at as int, i as int),
        decreases n - i,
    {
        r.push(read_u32(b, at + 4 * i));
        assert(r@ =~= un32s(b@, at as int, i + 1));
        i = i + 1;
    }
    r
}

/// Reads the `n` values whose bytes start at `at`.
pub fn read_u64s(b: &[u8], at: usize, n: usize) -> (r: Vec<u64>)
    requires
        at + 8 * n <= b.len(),
    ensures
        r@ == un64s(b@, at as int, n as int),
{
    let mut r: Vec<u64> = Vec::new();
    let mut i: usize = 0;
    while i < n
        invariant
            i <= n,
            at + 8 * n <= b.len(),
            r@ == un64s(b@, at as int, i as int),
        decreases n - i,
    {
        let low: u64 = read_u32(b, at + 8 * i) as u64;
        let high: u64 = read_u32(b, at + 8 * i + 4) as u64;
        r.push(low + 0x1_0000_0000 * high);
        assert(r@ =~= un64s(b@, at as int, i + 1));
        i = i + 1;
    }
    r
}

/// Reads the `n` values whose bytes start at `at`.
pub fn read_u16s(b: &[u8], at: usize, n: usize) -> (r: Vec<u16>)
    requires
        at + 2 * n <= b.len(),
    ensures
        r@ == un16s(b@, at as int, n as int),
{
    let mut r: Vec<u16> = Vec::new();
    let mut i: usize = 0;
    while i < n
        invariant
            i <= n,
            at + 2 * n <= b.len(),
            r@ == un16s(b@, at as int, i as int),
        decreases n - i,
    {
        r.push(b[at + 2 * i] as u16 + 256 * (b[at + 2 * i + 1] as u16));
        assert(r@ =~= un16s(b@, at as int, i + 1));
        i = i + 1;
    }
    r
}

/// Reads the `n` values whose bytes start at `at`.
pub fn read_i8s(b: &[u8], at: usize, n: usize) -> (r: Vec<i8>)
    requires
        at + n <= b.len(),
    ensures
        r@ == un_i8s(b@, at as int, n as int),
{
    let mut r: Vec<i8> = Vec::new();
    let mut i: usize = 0;
    while i < n
        invariant
            i <= n,
            at + n <= b.len(),
            r@ == un_i8s(b@, at as int, i as int),
        decreases n - i,
    {
        let x: u8 = b[at + i];
        r.push(
            if x < 128 {
                x as i8
            } else {
                (x as i16 - 256) as i8
            },
        );
        assert(r@ =~= un_i8s(b@, at as int, i + 1));
        i = i + 1;
    }
    r
}

} // verus!
