//! Little-endian integer decoding and forward-only cursor consumption over a
//! byte slice. Every parser in the stack is built on these primitives.

use vstd::prelude::*;
use vstd::slice::slice_subrange;

verus! {

/// The unsigned integer denoted by `bytes` with the first byte least
/// significant.
pub open spec fn le_int(bytes: Seq<u8>) -> int
    decreases bytes.len(),
{
    if bytes.len() == 0 {
        0
    } else {
        bytes[0] + 0x100 * le_int(bytes.drop_first())
    }
}

/// `0x100^n`, the weight of the byte at position `n` of a little-endian
/// encoding.
pub open spec fn pow256(n: nat) -> int
    decreases n,
{
    if n == 0 {
        1
    } else {
        0x100 * pow256((n - 1) as nat)
    }
}

/// A little-endian value is bounded by the weight of one byte past its end.
pub proof fn lemma_le_int_bound(bytes: Seq<u8>)
    ensures
        0 <= le_int(bytes) < pow256(bytes.len()),
    decreases bytes.len(),
{
    if bytes.len() > 0 {
        lemma_le_int_bound(bytes.drop_first());
    }
}

/// Appending a byte adds it at the most significant position.
pub proof fn lemma_le_int_push(bytes: Seq<u8>, b: u8)
    ensures
        le_int(bytes.push(b)) == le_int(bytes) + b * pow256(bytes.len()),
    decreases bytes.len(),
{
    if bytes.len() == 0 {
        let t = bytes.push(b);
        assert(t.drop_first() =~= Seq::<u8>::empty());
        assert(le_int(Seq::<u8>::empty()) == 0);
        assert(le_int(t) == t[0] + 0x100 * le_int(t.drop_first()));
        assert(t[0] == b);
        assert(le_int(bytes) == 0);
        assert(pow256(0) == 1);
    } else {
        let t = bytes.push(b);
        let w = pow256((bytes.len() - 1) as nat);
        assert(t.drop_first() =~= bytes.drop_first().push(b));
        lemma_le_int_push(bytes.drop_first(), b);
        assert(le_int(t.drop_first()) == le_int(bytes.drop_first()) + b * w);
        assert(le_int(t) == t[0] + 0x100 * le_int(t.drop_first()));
        assert(pow256(bytes.len()) == 0x100 * w);
        assert(0x100 * (le_int(bytes.drop_first()) + b * w) == 0x100 * le_int(
            bytes.drop_first(),
        ) + 0x100 * (b * w)) by (nonlinear_arith);
        assert(0x100 * (b * w) == b * (0x100 * w)) by (nonlinear_arith);
    }
}

/// Composes an unsigned integer from `bytes`, treating the first byte as the
/// least significant. Supports spans of at most 4 bytes; a longer span is a
/// caller precondition violation.
pub fn little_endian_to_int(bytes: &[u8]) -> (r: u32)
    requires
        bytes@.len() <= 4,
    ensures
        r == le_int(bytes@),
{
    let ghost s = bytes@;
    let mut sum: u32 = 0;
    let mut shift_value: u32 = 0;
    let mut i: usize = 0;
    while i < bytes.len()
        invariant
            bytes@ == s,
            s.len() <= 4,
            i <= s.len(),
            shift_value == 8 * i,
            sum == le_int(s.subrange(0, i as int)),
        decreases s.len() - i,
    {
        let b = bytes[i];
        proof {
            lemma_le_int_bound(s.subrange(0, i as int));
            assert(s.subrange(0, i + 1) =~= s.subrange(0, i as int).push(s[i as int]));
            lemma_le_int_push(s.subrange(0, i as int), s[i as int]);
            assert(pow256(0) == 1);
            assert(pow256(1) == 0x100);
            assert(pow256(2) == 0x10000);
            assert(pow256(3) == 0x1000000);
            assert((b as u32) << 0u32 == b && (b as u32) << 8u32 == b * 0x100 && (b
                as u32) << 16u32 == b * 0x10000 && (b as u32) << 24u32 == b * 0x1000000)
                by (bit_vector);
        }
        sum = sum + ((b as u32) << shift_value);
        shift_value = shift_value + 8;
        i = i + 1;
    }
    proof {
        assert(s.subrange(0, s.len() as int) =~= s);
    }
    sum
}

/// Removes the first byte from the front of `bytes` and returns it. The slice
/// must be non-empty.
pub fn take_from_slice(bytes: &mut &[u8]) -> (r: u8)
    requires
        old(bytes)@.len() > 0,
    ensures
        r == old(bytes)@[0],
        final(bytes)@ == old(bytes)@.drop_first(),
{
    let cur: &[u8] = *bytes;
    let r = cur[0];
    let rest = slice_subrange(cur, 1, cur.len());
    *bytes = rest;
    proof {
        assert(rest@ =~= cur@.drop_first());
    }
    r
}

/// Splits off and returns the first `midpoint` bytes of `bytes`, leaving the
/// remainder behind the cursor. `midpoint` must not exceed the slice length.
pub fn taken_from_slice<'a>(bytes: &mut &'a [u8], midpoint: usize) -> (r: &'a [u8])
    requires
        midpoint <= old(bytes)@.len(),
    ensures
        r@ == old(bytes)@.subrange(0, midpoint as int),
        final(bytes)@ == old(bytes)@.subrange(midpoint as int, old(bytes)@.len() as int),
{
    let cur: &'a [u8] = *bytes;
    let taken = slice_subrange(cur, 0, midpoint);
    let rest = slice_subrange(cur, midpoint, cur.len());
    *bytes = rest;
    taken
}

/// `little_endian_to_int` on a four-byte span is the base-256 polynomial
/// `b0 + 256*b1 + 65536*b2 + 16777216*b3`.
pub proof fn lemma_le_int_four_bytes(b0: u8, b1: u8, b2: u8, b3: u8)
    ensures
        le_int(seq![b0, b1, b2, b3]) == b0 + 0x100 * b1 + 0x10000 * b2 + 0x1000000 * b3,
{
    let s = seq![b0, b1, b2, b3];
    assert(s.drop_first() =~= seq![b1, b2, b3]);
    assert(seq![b1, b2, b3].drop_first() =~= seq![b2, b3]);
    assert(seq![b2, b3].drop_first() =~= seq![b3]);
    assert(seq![b3].drop_first() =~= Seq::<u8>::empty());
    assert(le_int(Seq::<u8>::empty()) == 0);
    assert(le_int(seq![b3]) == b3);
    assert(le_int(seq![b2, b3]) == b2 + 0x100 * b3);
    assert(le_int(seq![b1, b2, b3]) == b1 + 0x100 * b2 + 0x10000 * b3);
}

} // verus!
