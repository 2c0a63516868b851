//! Little-endian encoding of `u32` values, as used by the serialised formats.
use vstd::prelude::*;

verus! {

/// The four little-endian bytes of `x`.
pub open spec fn spec_u32_le(x: u32) -> Seq<u8> {
    seq![x as u8, (x >> 8u32) as u8, (x >> 16u32) as u8, (x >> 24u32) as u8]
}

/// The `u32` whose little-endian bytes are `b[at .. at + 4]`.
pub open spec fn spec_u32_from_le(b: Seq<u8>, at: int) -> u32 {
    (b[at] as u32) | ((b[at + 1] as u32) << 8u32) | ((b[at + 2] as u32) << 16u32) | ((b[at + 3] as u32)
        << 24u32)
}

/// Reading back the little-endian bytes of `x` gives `x`.
pub proof fn lemma_u32_le_roundtrip(x: u32)
    ensures
        spec_u32_le(x).len() == 4,
        spec_u32_from_le(spec_u32_le(x), 0) == x,
{
    let b0 = x as u8;
    let b1 = (x >> 8u32) as u8;
    let b2 = (x >> 16u32) as u8;
    let b3 = (x >> 24u32) as u8;
    assert((b0 as u32) | ((b1 as u32) << 8u32) | ((b2 as u32) << 16u32) | ((b3 as u32) << 24u32)
        == x) by (bit_vector)
        requires
            b0 == x as u8,
            b1 == (x >> 8u32) as u8,
            b2 == (x >> 16u32) as u8,
            b3 == (x >> 24u32) as u8,
    ;
}

/// Little-endian, as numbers: the first byte is the least significant, so the
/// four bytes read at `at` stand for `b[at] + 256 * b[at+1] + 65536 * b[at+2] +
/// 16777216 * b[at+3]`, and the bytes written for `x` are its base-256 digits.
pub proof fn lemma_u32_le_value(b: Seq<u8>, at: int, x: u32)
    ensures
        spec_u32_from_le(b, at) as int == b[at] as int + 256 * (b[at + 1] as int) + 65536 * (
        b[at + 2] as int) + 16777216 * (b[at + 3] as int),
        spec_u32_le(x).len() == 4,
        spec_u32_le(x)[0] as int == x % 256,
        spec_u32_le(x)[1] as int == (x / 256) % 256,
        spec_u32_le(x)[2] as int == (x / 65536) % 256,
        spec_u32_le(x)[3] as int == x / 16777216,
{
    let b0 = b[at];
    let b1 = b[at + 1];
    let b2 = b[at + 2];
    let b3 = b[at + 3];
    assert((b0 as u32) | ((b1 as u32) << 8u32) | ((b2 as u32) << 16u32) | ((b3 as u32) << 24u32)
        == b0 as u32 + 256 * (b1 as u32) + 65536 * (b2 as u32) + 16777216 * (b3 as u32))
        by (bit_vector);
    assert(x as u8 == x % 256 && (x >> 8u32) as u8 == (x / 256) % 256 && (x >> 16u32) as u8 == (x
        / 65536) % 256 && (x >> 24u32) as u8 == x / 16777216) by (bit_vector);
}

/// Reading a `u32` at an offset only looks at the four bytes there.
pub proof fn lemma_u32_from_le_frame(a: Seq<u8>, b: Seq<u8>, at: int, bt: int)
    requires
        0 <= at,
        at + 4 <= a.len(),
        0 <= bt,
        bt + 4 <= b.len(),
        a[at] == b[bt],
        a[at + 1] == b[bt + 1],
        a[at + 2] == b[bt + 2],
        a[at + 3] == b[bt + 3],
    ensures
        spec_u32_from_le(a, at) == spec_u32_from_le(b, bt),
{
}

/// Appends the little-endian bytes of `x` to `out`.
pub fn push_u32_le(out: &mut Vec<u8>, x: u32)
    ensures
        final(out)@ == old(out)@ + spec_u32_le(x),
{
    out.push(x as u8);
    out.push((x >> 8) as u8);
    out.push((x >> 16) as u8);
    out.push((x >> 24) as u8);
    assert(final(out)@ =~= old(out)@ + spec_u32_le(x));
}

/// Reads the little-endian `u32` at `bytes[at .. at + 4]`.
pub fn read_u32_le(bytes: &[u8], at: usize) -> (res: u32)
    requires
        at + 4 <= bytes@.len(),
    ensures
        res == spec_u32_from_le(bytes@, at as int),
{
    (bytes[at] as u32) | ((bytes[at + 1] as u32) << 8) | ((bytes[at + 2] as u32) << 16) | ((
    bytes[at + 3] as u32) << 24)
}

/// Reading a `u32` where its little-endian bytes stand gives it back.
pub proof fn lemma_u32_in(b: Seq<u8>, at: int, x: u32)
    requires
        0 <= at,
        at + 4 <= b.len(),
        b.subrange(at, at + 4) == spec_u32_le(x),
    ensures
        spec_u32_from_le(b, at) == x,
{
    lemma_u32_le_roundtrip(x);
    let s = spec_u32_le(x);
    assert(b[at] == s[0] && b[at + 1] == s[1] && b[at + 2] == s[2] && b[at + 3] == s[3]) by {
        assert(b.subrange(at, at + 4)[0] == b[at]);
        assert(b.subrange(at, at + 4)[1] == b[at + 1]);
        assert(b.subrange(at, at + 4)[2] == b[at + 2]);
        assert(b.subrange(at, at + 4)[3] == b[at + 3]);
    }
    lemma_u32_from_le_frame(b, s, at, 0);
}

/// A subrange holding two sequences side by side holds each of them.
pub proof fn lemma_subrange_split(b: Seq<u8>, at: int, x: Seq<u8>, y: Seq<u8>)
    requires
        0 <= at,
        at + x.len() + y.len() <= b.len(),
        b.subrange(at, at + x.len() + y.len()) == x + y,
    ensures
        b.subrange(at, at + x.len()) == x,
        b.subrange(at + x.len(), at + x.len() + y.len()) == y,
{
    let whole = b.subrange(at, at + x.len() + y.len());
    assert forall|i: int| 0 <= i < x.len() implies #[trigger] b.subrange(at, at + x.len())[i] == x[i] by {
        assert(whole[i] == (x + y)[i]);
    }
    assert forall|i: int| 0 <= i < y.len() implies #[trigger] b.subrange(
        at + x.len(),
        at + x.len() + y.len(),
    )[i] == y[i] by {
        assert(whole[x.len() + i] == (x + y)[x.len() + i]);
    }
    assert(b.subrange(at, at + x.len()) =~= x);
    assert(b.subrange(at + x.len(), at + x.len() + y.len()) =~= y);
}

} // verus!
