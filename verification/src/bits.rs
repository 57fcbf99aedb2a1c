//! Bits of a byte.

use crate::sums::total;
use vstd::prelude::*;

verus! {

/// Bit `k` of `b`, where bit 0 is the least significant one.
pub open spec fn bit(b: u8, k: int) -> bool {
    (b >> (k as u8)) & 1 == 1
}

/// The weight `w` if `set`, and 0 otherwise.
pub open spec fn weight(set: bool, w: nat) -> nat {
    if set {
        w
    } else {
        0
    }
}

/// The byte whose bit `k` is set exactly when `f(k)` holds.
pub open spec fn byte_of(f: spec_fn(int) -> bool) -> u8 {
    (weight(f(0), 1) + weight(f(1), 2) + weight(f(2), 4) + weight(f(3), 8) + weight(f(4), 16)
        + weight(f(5), 32) + weight(f(6), 64) + weight(f(7), 128)) as u8
}

/// The number of set bits of `b`.
pub open spec fn ones(b: u8) -> nat {
    total(|k: int| weight(bit(b, k), 1), 8)
}

/// The number of set bits of all bytes of `s`.
pub open spec fn count_ones(s: Seq<u8>) -> nat {
    total(|i: int| ones(s[i]), s.len() as int)
}

/// Two bytes with the same eight bits are equal.
pub proof fn lemma_same_bits(a: u8, b: u8)
    requires
        forall|k: int| 0 <= k < 8 ==> bit(a, k) == bit(b, k),
    ensures
        a == b,
{
    assert(bit(a, 0) == bit(b, 0));
    assert(bit(a, 1) == bit(b, 1));
    assert(bit(a, 2) == bit(b, 2));
    assert(bit(a, 3) == bit(b, 3));
    assert(bit(a, 4) == bit(b, 4));
    assert(bit(a, 5) == bit(b, 5));
    assert(bit(a, 6) == bit(b, 6));
    assert(bit(a, 7) == bit(b, 7));
    assert(a == b) by (bit_vector)
        requires
            ((a >> 0u8) & 1 == 1) == ((b >> 0u8) & 1 == 1),
            ((a >> 1u8) & 1 == 1) == ((b >> 1u8) & 1 == 1),
            ((a >> 2u8) & 1 == 1) == ((b >> 2u8) & 1 == 1),
            ((a >> 3u8) & 1 == 1) == ((b >> 3u8) & 1 == 1),
            ((a >> 4u8) & 1 == 1) == ((b >> 4u8) & 1 == 1),
            ((a >> 5u8) & 1 == 1) == ((b >> 5u8) & 1 == 1),
            ((a >> 6u8) & 1 == 1) == ((b >> 6u8) & 1 == 1),
            ((a >> 7u8) & 1 == 1) == ((b >> 7u8) & 1 == 1),
    ;
}

/// Bit `k` of `byte_of(f)` is `f(k)`.
pub proof fn lemma_byte_of_bits(f: spec_fn(int) -> bool)
    ensures
        forall|k: int| 0 <= k < 8 ==> #[trigger] bit(byte_of(f), k) == f(k),
{
    let b0: u8 = if f(0) { 1 } else { 0 };
    let b1: u8 = if f(1) { 1 } else { 0 };
    let b2: u8 = if f(2) { 1 } else { 0 };
    let b3: u8 = if f(3) { 1 } else { 0 };
    let b4: u8 = if f(4) { 1 } else { 0 };
    let b5: u8 = if f(5) { 1 } else { 0 };
    let b6: u8 = if f(6) { 1 } else { 0 };
    let b7: u8 = if f(7) { 1 } else { 0 };
    let r = byte_of(f);
    assert(r == b0 + 2 * b1 + 4 * b2 + 8 * b3 + 16 * b4 + 32 * b5 + 64 * b6 + 128 * b7);
    assert((r >> 0u8) & 1 == b0 && (r >> 1u8) & 1 == b1 && (r >> 2u8) & 1 == b2 && (r >> 3u8) & 1
        == b3 && (r >> 4u8) & 1 == b4 && (r >> 5u8) & 1 == b5 && (r >> 6u8) & 1 == b6 && (r >> 7u8)
        & 1 == b7) by (bit_vector)
        requires
            b0 <= 1,
            b1 <= 1,
            b2 <= 1,
            b3 <= 1,
            b4 <= 1,
            b5 <= 1,
            b6 <= 1,
            b7 <= 1,
            r == b0 + 2 * b1 + 4 * b2 + 8 * b3 + 16 * b4 + 32 * b5 + 64 * b6 + 128 * b7,
    ;
    assert forall|k: int| 0 <= k < 8 implies #[trigger] bit(r, k) == f(k) by {
        if k == 0 {
        } else if k == 1 {
        } else if k == 2 {
        } else if k == 3 {
        } else if k == 4 {
        } else if k == 5 {
        } else if k == 6 {
        } else {
            assert(k == 7);
        }
    }
}

/// A byte whose bits are those of `f` is `byte_of(f)`.
pub proof fn lemma_is_byte_of(b: u8, f: spec_fn(int) -> bool)
    requires
        forall|k: int| 0 <= k < 8 ==> #[trigger] bit(b, k) == f(k),
    ensures
        b == byte_of(f),
{
    lemma_byte_of_bits(f);
    assert forall|k: int| 0 <= k < 8 implies bit(b, k) == bit(byte_of(f), k) by {
        assert(bit(b, k) == f(k));
        assert(bit(byte_of(f), k) == f(k));
    }
    lemma_same_bits(b, byte_of(f));
}

/// No bit of zero is set.
pub proof fn lemma_zero_bits()
    ensures
        forall|k: int| 0 <= k < 8 ==> !#[trigger] bit(0, k),
{
    assert forall|k: int| 0 <= k < 8 implies !#[trigger] bit(0, k) by {
        let s = k as u8;
        assert((0u8 >> s) & 1 == 0) by (bit_vector)
            requires
                s < 8,
        ;
    }
}

/// The bits of `a | b` are the union of the bits of `a` and of `b`.
pub proof fn lemma_or_bits(a: u8, b: u8)
    ensures
        forall|k: int| 0 <= k < 8 ==> #[trigger] bit(a | b, k) == (bit(a, k) || bit(b, k)),
{
    assert forall|k: int| 0 <= k < 8 implies #[trigger] bit(a | b, k) == (bit(a, k) || bit(
        b,
        k,
    )) by {
        let s = k as u8;
        assert((((a | b) >> s) & 1 == 1) == ((a >> s) & 1 == 1 || (b >> s) & 1 == 1))
            by (bit_vector)
            requires
                s < 8,
        ;
    }
}

/// Bit `k` of `a << s` is bit `k - s` of `a`.
pub proof fn lemma_shl_bits(a: u8, s: u8)
    requires
        s < 8,
    ensures
        forall|k: int| 0 <= k < 8 ==> #[trigger] bit(a << s, k) == (s <= k && bit(a, k - s)),
{
    assert forall|k: int| 0 <= k < 8 implies #[trigger] bit(a << s, k) == (s <= k && bit(
        a,
        k - s,
    )) by {
        let t = k as u8;
        if s <= t {
            let d = (t - s) as u8;
            assert((((a << s) >> t) & 1 == 1) == ((a >> d) & 1 == 1)) by (bit_vector)
                requires
                    s <= t < 8,
                    d == t - s,
            ;
        } else {
            assert(((a << s) >> t) & 1 == 0) by (bit_vector)
                requires
                    t < s < 8,
            ;
        }
    }
}

/// `1 << p` has bit `p` alone.
pub proof fn lemma_one_shl_bits(p: u8)
    requires
        p < 8,
    ensures
        forall|k: int| 0 <= k < 8 ==> #[trigger] bit(1u8 << p, k) == (k == p),
{
    assert forall|k: int| 0 <= k < 8 implies #[trigger] bit(1u8 << p, k) == (k == p) by {
        let t = k as u8;
        assert((((1u8 << p) >> t) & 1 == 1) == (t == p)) by (bit_vector)
            requires
                p < 8,
                t < 8,
        ;
    }
}

/// Masking with `1 << p` tests bit `p`.
pub proof fn lemma_mask_tests_bit(a: u8, p: u8)
    requires
        p < 8,
    ensures
        (a & (1u8 << p) != 0) == bit(a, p as int),
{
    assert((a & (1u8 << p) != 0) == ((a >> p) & 1 == 1)) by (bit_vector)
        requires
            p < 8,
    ;
}

} // verus!
