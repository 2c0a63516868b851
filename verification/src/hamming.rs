//! Hamming(7,4) error correction: nibbles to 7-bit codewords and byte streams
//! to packed code bits, with single-bit error correction.
use vstd::prelude::*;

use crate::error::{MuraError, MuraResult};

verus! {

/// Hamming(7,4) code: every 4-bit nibble becomes a 7-bit codeword
/// `[p1, p2, d1, p3, d2, d3, d4]` that survives any single flipped bit.
pub struct Hamming74;

/// Bit `k` (3 = most significant) of a nibble.
pub open spec fn nibble_bit(n: u8, k: u8) -> bool {
    (n >> k) & 1 == 1
}

/// The codeword `[p1, p2, d1, p3, d2, d3, d4]` of the data bits `d1 d2 d3 d4`,
/// where `p1 = d1^d2^d4`, `p2 = d1^d3^d4`, `p3 = d2^d3^d4`.
pub open spec fn codeword(d1: bool, d2: bool, d3: bool, d4: bool) -> Seq<bool> {
    seq![d1 ^ d2 ^ d4, d1 ^ d3 ^ d4, d1, d2 ^ d3 ^ d4, d2, d3, d4]
}

/// The codeword of the low four bits of `n` (`d1` is bit 3, `d4` is bit 0).
pub open spec fn spec_encode_nibble(n: u8) -> Seq<bool> {
    codeword(nibble_bit(n, 3), nibble_bit(n, 2), nibble_bit(n, 1), nibble_bit(n, 0))
}

/// 1 where two bits differ, 0 where they agree.
pub open spec fn differs(a: bool, b: bool) -> int {
    if a != b {
        1
    } else {
        0
    }
}

/// Number of positions among the first seven at which `a` and `b` differ.
pub open spec fn distance7(a: Seq<bool>, b: Seq<bool>) -> int {
    differs(a[0], b[0]) + differs(a[1], b[1]) + differs(a[2], b[2]) + differs(a[3], b[3])
        + differs(a[4], b[4]) + differs(a[5], b[5]) + differs(a[6], b[6])
}

/// `n` is a nibble whose codeword lies within one flipped bit of `word`.
pub open spec fn corrects_to(word: Seq<bool>, n: u8) -> bool {
    n < 16 && distance7(spec_encode_nibble(n), word) <= 1
}

/// The nibble whose codeword is nearest to a 7-bit word (at distance at most one;
/// see [`lemma_every_word_corrects`] and [`lemma_correction_unique`]).
pub open spec fn spec_decode_nibble(word: Seq<bool>) -> u8 {
    choose|n: u8| corrects_to(word, n)
}

/// The nibble with data bits `d1 d2 d3 d4` (most significant first).
pub open spec fn nibble_of(d1: bool, d2: bool, d3: bool, d4: bool) -> u8 {
    (if d1 { 8u8 } else { 0u8 }) | (if d2 { 4u8 } else { 0u8 }) | (if d3 { 2u8 } else { 0u8 }) | (
    if d4 { 1u8 } else { 0u8 })
}

proof fn lemma_nibble_of_bits(d1: bool, d2: bool, d3: bool, d4: bool)
    ensures
        nibble_of(d1, d2, d3, d4) < 16,
        nibble_bit(nibble_of(d1, d2, d3, d4), 3) == d1,
        nibble_bit(nibble_of(d1, d2, d3, d4), 2) == d2,
        nibble_bit(nibble_of(d1, d2, d3, d4), 1) == d3,
        nibble_bit(nibble_of(d1, d2, d3, d4), 0) == d4,
{
    let n = nibble_of(d1, d2, d3, d4);
    assert(n < 16 && ((n >> 3u8) & 1 == 1) == d1 && ((n >> 2u8) & 1 == 1) == d2 && ((n >> 1u8)
        & 1 == 1) == d3 && ((n >> 0u8) & 1 == 1) == d4) by (bit_vector)
        requires
            n == (if d1 { 8u8 } else { 0u8 }) | (if d2 { 4u8 } else { 0u8 }) | (if d3 {
                2u8
            } else {
                0u8
            }) | (if d4 { 1u8 } else { 0u8 }),
    ;
}

proof fn lemma_nibble_bits_of(n: u8)
    requires
        n < 16,
    ensures
        nibble_of(nibble_bit(n, 3), nibble_bit(n, 2), nibble_bit(n, 1), nibble_bit(n, 0)) == n,
{
    assert(nibble_of((n >> 3u8) & 1 == 1, (n >> 2u8) & 1 == 1, (n >> 1u8) & 1 == 1, (n >> 0u8) & 1
        == 1) == n) by (bit_vector)
        requires
            n < 16,
    ;
}

/// The codeword of a nibble, bit by bit: data bits `d1..d4` (bits 3..0 of the
/// nibble) sit at positions 2, 4, 5, 6, and the parity bits at positions 0, 1, 3
/// are `d1^d2^d4`, `d1^d3^d4` and `d2^d3^d4`.
pub proof fn lemma_codeword_bits(n: u8)
    ensures
        ({
            let w = spec_encode_nibble(n);
            let d1 = (n >> 3u8) & 1u8 == 1u8;
            let d2 = (n >> 2u8) & 1u8 == 1u8;
            let d3 = (n >> 1u8) & 1u8 == 1u8;
            let d4 = n & 1u8 == 1u8;
            &&& w.len() == 7
            &&& w[0] == (d1 ^ d2 ^ d4)
            &&& w[1] == (d1 ^ d3 ^ d4)
            &&& w[2] == d1
            &&& w[3] == (d2 ^ d3 ^ d4)
            &&& w[4] == d2
            &&& w[5] == d3
            &&& w[6] == d4
        }),
{
    assert((n >> 0u8) & 1u8 == n & 1u8) by (bit_vector);
}

/// Two distinct codewords differ in at least three positions.
pub proof fn lemma_codeword_distance(a1: bool, a2: bool, a3: bool, a4: bool, b1: bool, b2: bool, b3: bool, b4: bool)
    requires
        a1 != b1 || a2 != b2 || a3 != b3 || a4 != b4,
    ensures
        distance7(codeword(a1, a2, a3, a4), codeword(b1, b2, b3, b4)) >= 3,
{
}

/// Every 7-bit word lies within one flipped bit of some codeword (the code is perfect).
pub proof fn lemma_every_word_corrects(word: Seq<bool>)
    requires
        word.len() == 7,
    ensures
        corrects_to(word, spec_decode_nibble(word)),
{
    let n = correct_word(word);
    assert(corrects_to(word, n));
}

/// At most one nibble has its codeword within one flipped bit of a given word.
pub proof fn lemma_correction_unique(word: Seq<bool>, n: u8, m: u8)
    requires
        word.len() == 7,
        corrects_to(word, n),
        corrects_to(word, m),
    ensures
        n == m,
{
    if n != m {
        lemma_nibble_bits_of(n);
        lemma_nibble_bits_of(m);
        lemma_codeword_distance(
            nibble_bit(n, 3),
            nibble_bit(n, 2),
            nibble_bit(n, 1),
            nibble_bit(n, 0),
            nibble_bit(m, 3),
            nibble_bit(m, 2),
            nibble_bit(m, 1),
            nibble_bit(m, 0),
        );
        lemma_distance_triangle(spec_encode_nibble(n), word, spec_encode_nibble(m));
    }
}

proof fn lemma_distance_triangle(a: Seq<bool>, b: Seq<bool>, c: Seq<bool>)
    ensures
        distance7(a, c) <= distance7(a, b) + distance7(c, b),
{
}

/// The nibble found by syndrome decoding, with its defining property.
proof fn correct_word(word: Seq<bool>) -> (n: u8)
    requires
        word.len() == 7,
    ensures
        corrects_to(word, n),
        n == syndrome_nibble(word),
{
    let n = syndrome_nibble(word);
    let (d1, d2, d3, d4) = syndrome_bits(word);
    lemma_nibble_of_bits(d1, d2, d3, d4);
    n
}

/// Syndrome `s1 + 2*s2 + 4*s3` of a 7-bit word: 0 for a codeword, else the
/// one-based position of the single flipped bit.
pub open spec fn syndrome(word: Seq<bool>) -> int {
    let s1 = word[0] ^ word[2] ^ word[4] ^ word[6];
    let s2 = word[1] ^ word[2] ^ word[5] ^ word[6];
    let s3 = word[3] ^ word[4] ^ word[5] ^ word[6];
    (if s1 { 1int } else { 0 }) + (if s2 { 2int } else { 0 }) + (if s3 { 4int } else { 0 })
}

/// Data bits of a 7-bit word after flipping the bit that its syndrome points at.
pub open spec fn syndrome_bits(word: Seq<bool>) -> (bool, bool, bool, bool) {
    let s = syndrome(word);
    (word[2] ^ (s == 3), word[4] ^ (s == 5), word[5] ^ (s == 6), word[6] ^ (s == 7))
}

pub open spec fn syndrome_nibble(word: Seq<bool>) -> u8 {
    let (d1, d2, d3, d4) = syndrome_bits(word);
    nibble_of(d1, d2, d3, d4)
}


/// 1 for a set bit, 0 for a clear one.
pub open spec fn b2u(b: bool) -> u8 {
    if b {
        1
    } else {
        0
    }
}

/// The byte whose bits, most significant first, are `b0 .. b7`.
pub open spec fn pack_byte(b0: bool, b1: bool, b2: bool, b3: bool, b4: bool, b5: bool, b6: bool, b7: bool) -> u8 {
    (b2u(b0) << 7u8) | (b2u(b1) << 6u8) | (b2u(b2) << 5u8) | (b2u(b3) << 4u8) | (b2u(b4) << 3u8) | (
    b2u(b5) << 2u8) | (b2u(b6) << 1u8) | b2u(b7)
}

/// Bit `i` of a bit sequence, reading positions past its end as clear.
pub open spec fn bit_at(bits: Seq<bool>, i: int) -> bool {
    0 <= i < bits.len() && bits[i]
}

/// Byte `j` of the packing of `bits`: bits `8j .. 8j+7`, most significant first.
pub open spec fn packed_byte(bits: Seq<bool>, j: int) -> u8 {
    pack_byte(
        bit_at(bits, 8 * j),
        bit_at(bits, 8 * j + 1),
        bit_at(bits, 8 * j + 2),
        bit_at(bits, 8 * j + 3),
        bit_at(bits, 8 * j + 4),
        bit_at(bits, 8 * j + 5),
        bit_at(bits, 8 * j + 6),
        bit_at(bits, 8 * j + 7),
    )
}

/// Bits packed eight to a byte, most significant bit first; the last byte is
/// padded with clear bits.
pub open spec fn spec_bits_to_bytes(bits: Seq<bool>) -> Seq<u8> {
    Seq::new(((bits.len() + 7) / 8) as nat, |j: int| packed_byte(bits, j))
}

/// Bit `t` (0 = most significant) of a byte.
pub open spec fn byte_bit(b: u8, t: int) -> bool {
    (b >> ((7 - t) as u8)) & 1 == 1
}

/// The bits of `bytes`, eight per byte, most significant bit first.
pub open spec fn spec_bytes_to_bits(bytes: Seq<u8>) -> Seq<bool> {
    Seq::new(8 * bytes.len(), |k: int| byte_bit(bytes[k / 8], k % 8))
}

proof fn lemma_pack_byte_bits(b0: bool, b1: bool, b2: bool, b3: bool, b4: bool, b5: bool, b6: bool, b7: bool)
    ensures
        byte_bit(pack_byte(b0, b1, b2, b3, b4, b5, b6, b7), 0) == b0,
        byte_bit(pack_byte(b0, b1, b2, b3, b4, b5, b6, b7), 1) == b1,
        byte_bit(pack_byte(b0, b1, b2, b3, b4, b5, b6, b7), 2) == b2,
        byte_bit(pack_byte(b0, b1, b2, b3, b4, b5, b6, b7), 3) == b3,
        byte_bit(pack_byte(b0, b1, b2, b3, b4, b5, b6, b7), 4) == b4,
        byte_bit(pack_byte(b0, b1, b2, b3, b4, b5, b6, b7), 5) == b5,
        byte_bit(pack_byte(b0, b1, b2, b3, b4, b5, b6, b7), 6) == b6,
        byte_bit(pack_byte(b0, b1, b2, b3, b4, b5, b6, b7), 7) == b7,
{
    let x = pack_byte(b0, b1, b2, b3, b4, b5, b6, b7);
    assert(((x >> 7u8) & 1 == 1) == b0 && ((x >> 6u8) & 1 == 1) == b1 && ((x >> 5u8) & 1 == 1)
        == b2 && ((x >> 4u8) & 1 == 1) == b3 && ((x >> 3u8) & 1 == 1) == b4 && ((x >> 2u8) & 1
        == 1) == b5 && ((x >> 1u8) & 1 == 1) == b6 && ((x >> 0u8) & 1 == 1) == b7) by (bit_vector)
        requires
            x == (b2u(b0) << 7u8) | (b2u(b1) << 6u8) | (b2u(b2) << 5u8) | (b2u(b3) << 4u8) | (b2u(
                b4,
            ) << 3u8) | (b2u(b5) << 2u8) | (b2u(b6) << 1u8) | b2u(b7),
    ;
}


/// Shifts one bit into the low end of an accumulator byte.
pub open spec fn shift_in(acc: u8, b: bool) -> u8 {
    ((acc << 1u8) | b2u(b)) as u8
}

/// The first `t` bits of the byte starting at bit `base`, as a number.
pub open spec fn partial_byte(bits: Seq<bool>, base: int, t: int) -> u8
    decreases t,
{
    if t <= 0 {
        0
    } else {
        shift_in(partial_byte(bits, base, t - 1), bit_at(bits, base + t - 1))
    }
}

proof fn lemma_shift_in_eight(b0: bool, b1: bool, b2: bool, b3: bool, b4: bool, b5: bool, b6: bool, b7: bool)
    ensures
        shift_in(
            shift_in(
                shift_in(
                    shift_in(shift_in(shift_in(shift_in(shift_in(0, b0), b1), b2), b3), b4),
                    b5,
                ),
                b6,
            ),
            b7,
        ) == pack_byte(b0, b1, b2, b3, b4, b5, b6, b7),
{
    let x1 = shift_in(0, b0);
    let x2 = shift_in(x1, b1);
    let x3 = shift_in(x2, b2);
    let x4 = shift_in(x3, b3);
    let x5 = shift_in(x4, b4);
    let x6 = shift_in(x5, b5);
    let x7 = shift_in(x6, b6);
    let x8 = shift_in(x7, b7);
    assert(x8 == pack_byte(b0, b1, b2, b3, b4, b5, b6, b7)) by (bit_vector)
        requires
            x1 == shift_in(0, b0),
            x2 == shift_in(x1, b1),
            x3 == shift_in(x2, b2),
            x4 == shift_in(x3, b3),
            x5 == shift_in(x4, b4),
            x6 == shift_in(x5, b5),
            x7 == shift_in(x6, b6),
            x8 == shift_in(x7, b7),
    ;
}

proof fn lemma_partial_byte_full(bits: Seq<bool>, j: int)
    ensures
        partial_byte(bits, 8 * j, 8) == packed_byte(bits, j),
{
    reveal_with_fuel(partial_byte, 9);
    lemma_shift_in_eight(
        bit_at(bits, 8 * j),
        bit_at(bits, 8 * j + 1),
        bit_at(bits, 8 * j + 2),
        bit_at(bits, 8 * j + 3),
        bit_at(bits, 8 * j + 4),
        bit_at(bits, 8 * j + 5),
        bit_at(bits, 8 * j + 6),
        bit_at(bits, 8 * j + 7),
    );
}

/// Unpacking packed bits gives back the bits, followed by the clear padding bits.
pub proof fn lemma_bits_bytes_roundtrip(bits: Seq<bool>)
    ensures
        spec_bytes_to_bits(spec_bits_to_bytes(bits)).len() == 8 * ((bits.len() + 7) / 8),
        forall|k: int|
            0 <= k < 8 * ((bits.len() + 7) / 8) ==> #[trigger] spec_bytes_to_bits(
                spec_bits_to_bytes(bits),
            )[k] == bit_at(bits, k),
        spec_bytes_to_bits(spec_bits_to_bytes(bits)).subrange(0, bits.len() as int) == bits,
{
    let bytes = spec_bits_to_bytes(bits);
    let out = spec_bytes_to_bits(bytes);
    assert forall|k: int| 0 <= k < 8 * ((bits.len() + 7) / 8) implies #[trigger] out[k] == bit_at(
        bits,
        k,
    ) by {
        let j = k / 8;
        let t = k % 8;
        lemma_pack_byte_bits(
            bit_at(bits, 8 * j),
            bit_at(bits, 8 * j + 1),
            bit_at(bits, 8 * j + 2),
            bit_at(bits, 8 * j + 3),
            bit_at(bits, 8 * j + 4),
            bit_at(bits, 8 * j + 5),
            bit_at(bits, 8 * j + 6),
            bit_at(bits, 8 * j + 7),
        );
        assert(k == 8 * j + t);
    }
    assert(out.subrange(0, bits.len() as int) =~= bits);
}


/// The 14 code bits of a byte: the codeword of its upper nibble, then that of its lower nibble.
pub open spec fn spec_encode_bits(data: Seq<u8>) -> Seq<bool> {
    Seq::new(
        14 * data.len(),
        |k: int|
            {
                let b = data[k / 14];
                let p = k % 14;
                if p < 7 {
                    spec_encode_nibble(b >> 4u8)[p]
                } else {
                    spec_encode_nibble(b & 0x0fu8)[p - 7]
                }
            },
    )
}

/// Hamming encoding of a byte stream: its code bits, packed into bytes.
pub open spec fn spec_hamming_encode(data: Seq<u8>) -> Seq<u8> {
    spec_bits_to_bytes(spec_encode_bits(data))
}

/// The byte whose code bits start at bit `start` of `bits`.
pub open spec fn decoded_byte(bits: Seq<bool>, start: int) -> u8 {
    ((spec_decode_nibble(bits.subrange(start, start + 7)) << 4u8) | spec_decode_nibble(
        bits.subrange(start + 7, start + 14),
    )) as u8
}

/// Hamming decoding of the first `len` bytes from an encoded stream;
/// `None` when the stream holds fewer than `14 * len` bits.
pub open spec fn spec_hamming_decode(encoded: Seq<u8>, len: nat) -> Option<Seq<u8>> {
    let bits = spec_bytes_to_bits(encoded);
    if 14 * len > bits.len() {
        None
    } else {
        Some(Seq::new(len, |i: int| decoded_byte(bits, 14 * i)))
    }
}

/// A nibble survives encoding followed by decoding.
pub proof fn lemma_nibble_roundtrip(n: u8)
    requires
        n < 16,
    ensures
        spec_decode_nibble(spec_encode_nibble(n)) == n,
{
    let w = spec_encode_nibble(n);
    assert(distance7(w, w) == 0);
    lemma_every_word_corrects(w);
    lemma_correction_unique(w, n, spec_decode_nibble(w));
}


/// A nibble survives encoding, any single flipped bit, and decoding.
pub proof fn lemma_nibble_single_error(n: u8, pos: int)
    requires
        n < 16,
        0 <= pos < 7,
    ensures
        spec_decode_nibble(
            spec_encode_nibble(n).update(pos, !spec_encode_nibble(n)[pos]),
        ) == n,
{
    let w = spec_encode_nibble(n).update(pos, !spec_encode_nibble(n)[pos]);
    assert(distance7(spec_encode_nibble(n), w) == 1);
    lemma_every_word_corrects(w);
    lemma_correction_unique(w, n, spec_decode_nibble(w));
}

proof fn lemma_code_bit(data: Seq<u8>, k: int)
    requires
        0 <= k < 14 * data.len(),
    ensures
        spec_bytes_to_bits(spec_hamming_encode(data))[k] == spec_encode_bits(data)[k],
{
    let code = spec_encode_bits(data);
    lemma_bits_bytes_roundtrip(code);
    assert(bit_at(code, k) == code[k]);
}

proof fn lemma_div14(i: int, p: int)
    requires
        0 <= p < 14,
    ensures
        (14 * i + p) / 14 == i,
        (14 * i + p) % 14 == p,
{
    assert((14 * i + p) / 14 == i && (14 * i + p) % 14 == p) by (nonlinear_arith)
        requires
            0 <= p < 14,
    ;
}

proof fn lemma_code_bit_at(data: Seq<u8>, i: int, p: int)
    requires
        0 <= i < data.len(),
        0 <= p < 14,
    ensures
        spec_bytes_to_bits(spec_hamming_encode(data))[14 * i + p] == (if p < 7 {
            spec_encode_nibble(data[i] >> 4u8)[p]
        } else {
            spec_encode_nibble(data[i] & 0x0fu8)[p - 7]
        }),
{
    assert(14 * i + 14 <= 14 * data.len()) by (nonlinear_arith)
        requires
            i < data.len(),
    ;
    lemma_code_bit(data, 14 * i + p);
    lemma_div14(i, p);
}

proof fn lemma_word_slices(bits: Seq<bool>, i: int, hi: Seq<bool>, lo: Seq<bool>)
    requires
        0 <= i,
        14 * i + 14 <= bits.len(),
        hi.len() == 7,
        lo.len() == 7,
        forall|p: int| 0 <= p < 7 ==> #[trigger] bits[14 * i + p] == hi[p],
        forall|p: int| 0 <= p < 7 ==> #[trigger] bits[14 * i + 7 + p] == lo[p],
    ensures
        bits.subrange(14 * i, 14 * i + 7) == hi,
        bits.subrange(14 * i + 7, 14 * i + 14) == lo,
{
    assert forall|p: int| 0 <= p < 7 implies #[trigger] bits.subrange(14 * i, 14 * i + 7)[p]
        == hi[p] by {
        assert(bits[14 * i + p] == hi[p]);
    }
    assert forall|p: int| 0 <= p < 7 implies #[trigger] bits.subrange(14 * i + 7, 14 * i + 14)[p]
        == lo[p] by {
        assert(bits[14 * i + 7 + p] == lo[p]);
    }
    assert(bits.subrange(14 * i, 14 * i + 7) =~= hi);
    assert(bits.subrange(14 * i + 7, 14 * i + 14) =~= lo);
}

proof fn lemma_byte_from_nibbles(b: u8)
    ensures
        b >> 4u8 < 16,
        b & 0x0fu8 < 16,
        (((b >> 4u8) << 4u8) | (b & 0x0fu8)) as u8 == b,
{
    assert(b >> 4u8 < 16 && b & 0x0fu8 < 16 && ((b >> 4u8) << 4u8) | (b & 0x0fu8) == b)
        by (bit_vector);
}

proof fn lemma_decoded_byte_at(data: Seq<u8>, i: int)
    requires
        0 <= i < data.len(),
    ensures
        decoded_byte(spec_bytes_to_bits(spec_hamming_encode(data)), 14 * i) == data[i],
        spec_bytes_to_bits(spec_hamming_encode(data)).subrange(14 * i, 14 * i + 7)
            == spec_encode_nibble(data[i] >> 4u8),
        spec_bytes_to_bits(spec_hamming_encode(data)).subrange(14 * i + 7, 14 * i + 14)
            == spec_encode_nibble(data[i] & 0x0fu8),
{
    let bits = spec_bytes_to_bits(spec_hamming_encode(data));
    let hi = spec_encode_nibble(data[i] >> 4u8);
    let lo = spec_encode_nibble(data[i] & 0x0fu8);
    assert(14 * i + 14 <= 14 * data.len()) by (nonlinear_arith)
        requires
            i < data.len(),
    ;
    lemma_bits_bytes_roundtrip(spec_encode_bits(data));
    assert forall|p: int| 0 <= p < 7 implies #[trigger] bits[14 * i + p] == hi[p] by {
        lemma_code_bit_at(data, i, p);
    }
    assert forall|p: int| 0 <= p < 7 implies #[trigger] bits[14 * i + 7 + p] == lo[p] by {
        lemma_code_bit_at(data, i, p + 7);
    }
    lemma_word_slices(bits, i, hi, lo);
    lemma_byte_from_nibbles(data[i]);
    lemma_nibble_roundtrip(data[i] >> 4u8);
    lemma_nibble_roundtrip(data[i] & 0x0fu8);
}

/// Decoding the Hamming encoding of `data` gives back `data`.
pub proof fn lemma_hamming_roundtrip(data: Seq<u8>)
    ensures
        spec_hamming_decode(spec_hamming_encode(data), data.len()) == Some(data),
{
    let bits = spec_bytes_to_bits(spec_hamming_encode(data));
    lemma_bits_bytes_roundtrip(spec_encode_bits(data));
    assert(14 * data.len() <= bits.len());
    let dec = Seq::new(data.len(), |i: int| decoded_byte(bits, 14 * i));
    assert forall|i: int| 0 <= i < data.len() implies #[trigger] dec[i] == data[i] by {
        lemma_decoded_byte_at(data, i);
    }
    assert(dec =~= data);
}

proof fn lemma_byte_bits_pack(x: u8)
    ensures
        pack_byte(
            byte_bit(x, 0),
            byte_bit(x, 1),
            byte_bit(x, 2),
            byte_bit(x, 3),
            byte_bit(x, 4),
            byte_bit(x, 5),
            byte_bit(x, 6),
            byte_bit(x, 7),
        ) == x,
{
    assert(pack_byte(
        (x >> 7u8) & 1 == 1,
        (x >> 6u8) & 1 == 1,
        (x >> 5u8) & 1 == 1,
        (x >> 4u8) & 1 == 1,
        (x >> 3u8) & 1 == 1,
        (x >> 2u8) & 1 == 1,
        (x >> 1u8) & 1 == 1,
        (x >> 0u8) & 1 == 1,
    ) == x) by (bit_vector);
}

/// Packing the bits of a byte string gives back the byte string.
pub proof fn lemma_bytes_bits_roundtrip(bytes: Seq<u8>)
    ensures
        spec_bits_to_bytes(spec_bytes_to_bits(bytes)) == bytes,
{
    let bits = spec_bytes_to_bits(bytes);
    let out = spec_bits_to_bytes(bits);
    assert((bits.len() + 7) / 8 == bytes.len());
    assert forall|j: int| 0 <= j < bytes.len() implies #[trigger] out[j] == bytes[j] by {
        assert forall|t: int| 0 <= t < 8 implies #[trigger] bit_at(bits, 8 * j + t) == byte_bit(
            bytes[j],
            t,
        ) by {
            assert((8 * j + t) / 8 == j && (8 * j + t) % 8 == t);
        }
        assert(bit_at(bits, 8 * j) == byte_bit(bytes[j], 0));
        lemma_byte_bits_pack(bytes[j]);
    }
    assert(out =~= bytes);
}

proof fn lemma_near_codeword_decodes(n: u8, w: Seq<bool>)
    requires
        n < 16,
        w.len() == 7,
        distance7(spec_encode_nibble(n), w) <= 1,
    ensures
        spec_decode_nibble(w) == n,
{
    lemma_every_word_corrects(w);
    lemma_correction_unique(w, n, spec_decode_nibble(w));
}

proof fn lemma_flip_distance(bits: Seq<bool>, k: int, s: int)
    requires
        0 <= s,
        s + 7 <= bits.len(),
        0 <= k < bits.len(),
    ensures
        distance7(
            bits.update(k, !bits[k]).subrange(s, s + 7),
            bits.subrange(s, s + 7),
        ) <= 1,
{
    let a = bits.update(k, !bits[k]).subrange(s, s + 7);
    let b = bits.subrange(s, s + 7);
    assert forall|p: int| 0 <= p < 7 implies #[trigger] differs(a[p], b[p]) == if s + p == k {
        1int
    } else {
        0int
    } by {}
    assert(differs(a[0], b[0]) == if s == k { 1int } else { 0int });
}

proof fn lemma_flipped_byte_at(data: Seq<u8>, k: int, i: int)
    requires
        0 <= k < 14 * data.len(),
        0 <= i < data.len(),
    ensures
        ({
            let bits = spec_bytes_to_bits(spec_hamming_encode(data));
            decoded_byte(bits.update(k, !bits[k]), 14 * i) == data[i]
        }),
{
    let bits = spec_bytes_to_bits(spec_hamming_encode(data));
    let flipped = bits.update(k, !bits[k]);
    assert(14 * i + 14 <= 14 * data.len()) by (nonlinear_arith)
        requires
            i < data.len(),
    ;
    lemma_bits_bytes_roundtrip(spec_encode_bits(data));
    lemma_decoded_byte_at(data, i);
    let hi = spec_encode_nibble(data[i] >> 4u8);
    let lo = spec_encode_nibble(data[i] & 0x0fu8);
    let w_hi = flipped.subrange(14 * i, 14 * i + 7);
    let w_lo = flipped.subrange(14 * i + 7, 14 * i + 14);
    lemma_byte_from_nibbles(data[i]);
    lemma_flip_distance(bits, k, 14 * i);
    lemma_flip_distance(bits, k, 14 * i + 7);
    lemma_distance_triangle(hi, hi, w_hi);
    lemma_distance_triangle(lo, lo, w_lo);
    assert(distance7(hi, hi) == 0);
    assert(distance7(lo, lo) == 0);
    assert(distance7(w_hi, hi) <= 1);
    assert(distance7(w_lo, lo) <= 1);
    lemma_near_codeword_decodes(data[i] >> 4u8, w_hi);
    lemma_near_codeword_decodes(data[i] & 0x0fu8, w_lo);
}

proof fn lemma_whole_bytes_roundtrip(x: Seq<bool>)
    requires
        x.len() % 8 == 0,
    ensures
        spec_bytes_to_bits(spec_bits_to_bytes(x)) == x,
{
    lemma_bits_bytes_roundtrip(x);
    assert(8 * ((x.len() + 7) / 8) == x.len());
    assert(spec_bytes_to_bits(spec_bits_to_bytes(x)) =~= x);
}

proof fn lemma_flipped_bits(data: Seq<u8>, k: int)
    requires
        0 <= k < 14 * data.len(),
    ensures
        ({
            let bits = spec_bytes_to_bits(spec_hamming_encode(data));
            let flipped = bits.update(k, !bits[k]);
            &&& spec_bytes_to_bits(spec_bits_to_bytes(flipped)) == flipped
            &&& 14 * data.len() <= flipped.len()
        }),
{
    let enc = spec_hamming_encode(data);
    let bits = spec_bytes_to_bits(enc);
    let flipped = bits.update(k, !bits[k]);
    assert(bits.len() == 8 * enc.len());
    assert(flipped.len() % 8 == 0);
    lemma_whole_bytes_roundtrip(flipped);
    lemma_bits_bytes_roundtrip(spec_encode_bits(data));
}

/// A single flipped bit anywhere in the code bits of a Hamming encoding is
/// corrected: the flipped stream still decodes to the original data.
pub proof fn lemma_hamming_corrects_flip(data: Seq<u8>, k: int)
    requires
        0 <= k < 14 * data.len(),
    ensures
        ({
            let bits = spec_bytes_to_bits(spec_hamming_encode(data));
            spec_hamming_decode(spec_bits_to_bytes(bits.update(k, !bits[k])), data.len())
                == Some(data)
        }),
{
    let bits = spec_bytes_to_bits(spec_hamming_encode(data));
    let flipped = bits.update(k, !bits[k]);
    lemma_flipped_bits(data, k);
    let dec = Seq::new(data.len(), |i: int| decoded_byte(flipped, 14 * i));
    assert forall|i: int| 0 <= i < data.len() implies #[trigger] dec[i] == data[i] by {
        lemma_flipped_byte_at(data, k, i);
    }
    assert(dec =~= data);
}

/// Reading bytes as bits goes byte by byte, most significant bit first: bit
/// `8 * j + t` is bit `7 - t` of byte `j`.
pub proof fn lemma_bytes_to_bits_order(bytes: Seq<u8>)
    ensures
        spec_bytes_to_bits(bytes).len() == 8 * bytes.len(),
        forall|j: int, t: int|
            0 <= j < bytes.len() && 0 <= t < 8 ==> #[trigger] spec_bytes_to_bits(bytes)[8 * j + t]
                == ((bytes[j] >> ((7 - t) as u8)) & 1u8 == 1u8),
{
    assert forall|j: int, t: int| 0 <= j < bytes.len() && 0 <= t < 8 implies #[trigger] spec_bytes_to_bits(
        bytes,
    )[8 * j + t] == ((bytes[j] >> ((7 - t) as u8)) & 1u8 == 1u8) by {
        assert((8 * j + t) / 8 == j && (8 * j + t) % 8 == t) by (nonlinear_arith)
            requires
                0 <= t < 8,
        ;
        assert(8 * j + t < 8 * bytes.len()) by (nonlinear_arith)
            requires
                j < bytes.len(),
                t < 8,
        ;
    }
}

/// Packing bits into bytes is the inverse: `(bits.len() + 7) / 8` bytes, bit
/// `7 - t` of byte `j` is bit `8 * j + t` of the input, and the padding of the
/// last byte is clear.
pub proof fn lemma_bits_to_bytes_order(bits: Seq<bool>)
    ensures
        spec_bits_to_bytes(bits).len() == (bits.len() + 7) / 8,
        forall|j: int, t: int|
            #![trigger spec_bits_to_bytes(bits)[j] >> ((7 - t) as u8)]
            0 <= j < spec_bits_to_bytes(bits).len() && 0 <= t < 8 ==> ((spec_bits_to_bytes(bits)[j]
                >> ((7 - t) as u8)) & 1u8 == 1u8) == (8 * j + t < bits.len() && bits[8 * j + t]),
{
    let out = spec_bits_to_bytes(bits);
    lemma_bits_bytes_roundtrip(bits);
    lemma_bytes_to_bits_order(out);
    assert forall|j: int, t: int|
        #![trigger out[j] >> ((7 - t) as u8)]
        0 <= j < out.len() && 0 <= t < 8 implies ((out[j] >> ((7 - t) as u8)) & 1u8 == 1u8) == (8
            * j + t < bits.len() && bits[8 * j + t]) by {
        assert(spec_bytes_to_bits(out)[8 * j + t] == ((out[j] >> ((7 - t) as u8)) & 1u8 == 1u8));
        assert(8 * j + t < 8 * out.len()) by (nonlinear_arith)
            requires
                j < out.len(),
                t < 8,
        ;
        assert(spec_bytes_to_bits(out)[8 * j + t] == bit_at(bits, 8 * j + t));
    }
}

/// The Hamming encoding of `data` in bits: for byte `i`, bits `14 * i` to
/// `14 * i + 6` are the codeword of its upper nibble and the next seven that of
/// its lower nibble; the bits after the last codeword are clear.
pub proof fn lemma_hamming_encode_layout(data: Seq<u8>)
    ensures
        spec_hamming_encode(data).len() == (14 * data.len() + 7) / 8,
        forall|i: int, p: int|
            0 <= i < data.len() && 0 <= p < 7 ==> #[trigger] spec_bytes_to_bits(
                spec_hamming_encode(data),
            )[14 * i + p] == spec_encode_nibble(data[i] >> 4u8)[p],
        forall|i: int, p: int|
            0 <= i < data.len() && 0 <= p < 7 ==> #[trigger] spec_bytes_to_bits(
                spec_hamming_encode(data),
            )[14 * i + 7 + p] == spec_encode_nibble(data[i] & 0x0fu8)[p],
        forall|k: int|
            14 * data.len() <= k < spec_bytes_to_bits(spec_hamming_encode(data)).len()
                ==> !#[trigger] spec_bytes_to_bits(spec_hamming_encode(data))[k],
{
    let code = spec_encode_bits(data);
    lemma_bits_bytes_roundtrip(code);
    assert forall|i: int, p: int| 0 <= i < data.len() && 0 <= p < 7 implies #[trigger] spec_bytes_to_bits(
        spec_hamming_encode(data),
    )[14 * i + p] == spec_encode_nibble(data[i] >> 4u8)[p] by {
        lemma_code_bit_at(data, i, p);
    }
    assert forall|i: int, p: int| 0 <= i < data.len() && 0 <= p < 7 implies #[trigger] spec_bytes_to_bits(
        spec_hamming_encode(data),
    )[14 * i + 7 + p] == spec_encode_nibble(data[i] & 0x0fu8)[p] by {
        lemma_code_bit_at(data, i, p + 7);
    }
    assert forall|k: int|
        14 * data.len() <= k < spec_bytes_to_bits(spec_hamming_encode(data)).len() implies !#[trigger] spec_bytes_to_bits(
        spec_hamming_encode(data),
    )[k] by {
        assert(bit_at(code, k) == spec_bytes_to_bits(spec_hamming_encode(data))[k]);
    }
}

/// The 7-bit word `j` of a bit stream: bits `7 * j` to `7 * j + 6`.
pub open spec fn word_at(bits: Seq<bool>, j: int) -> Seq<bool> {
    bits.subrange(7 * j, 7 * j + 7)
}

/// Each of the first `n` 7-bit words of `received` differs from the same word of
/// `sent` in at most one bit.
pub open spec fn each_word_near(sent: Seq<bool>, received: Seq<bool>, n: nat) -> bool {
    forall|j: int| 0 <= j < n ==> #[trigger] distance7(word_at(sent, j), word_at(received, j)) <= 1
}

proof fn lemma_near_byte_at(data: Seq<u8>, recv: Seq<bool>, i: int)
    requires
        0 <= i < data.len(),
        14 * data.len() <= recv.len(),
        distance7(word_at(spec_bytes_to_bits(spec_hamming_encode(data)), 2 * i), word_at(recv, 2 * i))
            <= 1,
        distance7(
            word_at(spec_bytes_to_bits(spec_hamming_encode(data)), 2 * i + 1),
            word_at(recv, 2 * i + 1),
        ) <= 1,
    ensures
        decoded_byte(recv, 14 * i) == data[i],
{
    let sent = spec_bytes_to_bits(spec_hamming_encode(data));
    assert(14 * i + 14 <= 14 * data.len()) by (nonlinear_arith)
        requires
            i < data.len(),
    ;
    lemma_decoded_byte_at(data, i);
    lemma_byte_from_nibbles(data[i]);
    assert(7 * (2 * i) == 14 * i && 7 * (2 * i + 1) == 14 * i + 7);
    let w_hi = recv.subrange(14 * i, 14 * i + 7);
    let w_lo = recv.subrange(14 * i + 7, 14 * i + 14);
    assert(word_at(sent, 2 * i) == sent.subrange(14 * i, 14 * i + 7));
    assert(word_at(sent, 2 * i + 1) == sent.subrange(14 * i + 7, 14 * i + 14));
    assert(word_at(recv, 2 * i) == w_hi);
    assert(word_at(recv, 2 * i + 1) == w_lo);
    lemma_near_codeword_decodes(data[i] >> 4u8, w_hi);
    lemma_near_codeword_decodes(data[i] & 0x0fu8, w_lo);
}

/// One flipped bit in every codeword at once is corrected: a stream whose first
/// `14 * data.len()` bits lie, codeword by codeword, within one flipped bit of the
/// Hamming encoding of `data` decodes to `data`, whatever follows those bits.
pub proof fn lemma_hamming_corrects_per_codeword(data: Seq<u8>, received: Seq<u8>)
    requires
        14 * data.len() <= spec_bytes_to_bits(received).len(),
        each_word_near(
            spec_bytes_to_bits(spec_hamming_encode(data)),
            spec_bytes_to_bits(received),
            2 * data.len(),
        ),
    ensures
        spec_hamming_decode(received, data.len()) == Some(data),
{
    let sent = spec_bytes_to_bits(spec_hamming_encode(data));
    let recv = spec_bytes_to_bits(received);
    let dec = Seq::new(data.len(), |i: int| decoded_byte(recv, 14 * i));
    assert forall|i: int| 0 <= i < data.len() implies #[trigger] dec[i] == data[i] by {
        assert(distance7(word_at(sent, 2 * i), word_at(recv, 2 * i)) <= 1);
        assert(distance7(word_at(sent, 2 * i + 1), word_at(recv, 2 * i + 1)) <= 1);
        lemma_near_byte_at(data, recv, i);
    }
    assert(dec =~= data);
}

impl Hamming74 {
    /// Encodes each byte as two 7-bit codewords (upper nibble first) and packs
    /// the resulting bits into bytes.
    pub fn encode(data: &[u8]) -> (res: Vec<u8>)
        ensures
            res@ == spec_hamming_encode(data@),
            res@.len() == (14 * data@.len() + 7) / 8,
    {
        let mut bits: Vec<bool> = Vec::new();
        let mut i: usize = 0;
        while i < data.len()
            invariant
                i <= data@.len(),
                bits@ =~= spec_encode_bits(data@).subrange(0, 14 * i as int),
            decreases data.len() - i,
        {
            let byte = data[i];
            let upper_nibble = (byte >> 4) & 0x0F;
            let lower_nibble = byte & 0x0F;
            assert(upper_nibble == byte >> 4u8) by (bit_vector)
                requires
                    upper_nibble == (byte >> 4u8) & 0x0fu8,
            ;
            let upper = Self::encode_nibble(upper_nibble);
            let lower = Self::encode_nibble(lower_nibble);
            let ghost before = bits@;
            let mut p: usize = 0;
            while p < 7
                invariant
                    p <= 7,
                    i < data@.len(),
                    byte == data@[i as int],
                    upper@ == spec_encode_nibble(byte >> 4u8),
                    bits@ =~= spec_encode_bits(data@).subrange(0, 14 * i + p),
                decreases 7 - p,
            {
                bits.push(upper[p]);
                proof {
                    assert((14 * i + p) / 14 == i as int && (14 * i + p) % 14 == p as int);
                }
                p = p + 1;
            }
            let mut p: usize = 0;
            while p < 7
                invariant
                    p <= 7,
                    i < data@.len(),
                    byte == data@[i as int],
                    lower@ == spec_encode_nibble(byte & 0x0fu8),
                    bits@ =~= spec_encode_bits(data@).subrange(0, 14 * i + 7 + p),
                decreases 7 - p,
            {
                bits.push(lower[p]);
                proof {
                    assert((14 * i + 7 + p) / 14 == i as int && (14 * i + 7 + p) % 14 == 7 + p);
                }
                p = p + 1;
            }
            i = i + 1;
        }
        assert(bits@ =~= spec_encode_bits(data@));
        Self::bits_to_bytes(bits.as_slice())
    }

    /// Decodes `original_len` bytes from a Hamming-encoded stream, correcting one
    /// flipped bit per codeword. Fails when the stream is too short.
    pub fn decode(encoded: &[u8], original_len: usize) -> (res: MuraResult<Vec<u8>>)
        ensures
            match spec_hamming_decode(encoded@, original_len as nat) {
                Some(data) => res matches Ok(v) && v@ == data,
                None => res matches Err(MuraError::HammingError(_)),
            },
    {
        let bits = Self::bytes_to_bits(encoded);
        if original_len > bits.len() / 14 {
            return Err(MuraError::HammingError(String::from_str("Hamming too short")));
        }
        assert(14 * original_len <= bits@.len()) by (nonlinear_arith)
            requires
                original_len <= bits@.len() / 14,
        ;
        let mut result: Vec<u8> = Vec::new();
        let mut i: usize = 0;
        while i < original_len
            invariant
                i <= original_len,
                bits@ == spec_bytes_to_bits(encoded@),
                14 * original_len <= bits@.len(),
                14 * original_len <= bits.len(),
                result@ =~= Seq::new(i as nat, |k: int| decoded_byte(bits@, 14 * k)),
            decreases original_len - i,
        {
            assert(14 * i + 14 <= 14 * original_len) by (nonlinear_arith)
                requires
                    i < original_len,
            ;
            let start = i * 14;
            let upper_codeword = [
                bits[start],
                bits[start + 1],
                bits[start + 2],
                bits[start + 3],
                bits[start + 4],
                bits[start + 5],
                bits[start + 6],
            ];
            let lower_codeword = [
                bits[start + 7],
                bits[start + 8],
                bits[start + 9],
                bits[start + 10],
                bits[start + 11],
                bits[start + 12],
                bits[start + 13],
            ];
            assert(upper_codeword@ =~= bits@.subrange(start as int, start + 7));
            assert(lower_codeword@ =~= bits@.subrange(start + 7, start + 14));
            let upper_nibble = match Self::decode_nibble(upper_codeword) {
                Ok(n) => n,
                Err(e) => return Err(e),
            };
            let lower_nibble = match Self::decode_nibble(lower_codeword) {
                Ok(n) => n,
                Err(e) => return Err(e),
            };
            result.push((upper_nibble << 4) | lower_nibble);
            i = i + 1;
        }
        Ok(result)
    }

    /// Packs bits eight to a byte, most significant bit first, padding the last
    /// byte with clear bits.
    pub fn bits_to_bytes(bits: &[bool]) -> (bytes: Vec<u8>)
        ensures
            bytes@ == spec_bits_to_bytes(bits@),
    {
        let n = bits.len();
        let nbytes = n / 8 + if n % 8 == 0 { 0 } else { 1 };
        let mut bytes: Vec<u8> = Vec::new();
        let mut j: usize = 0;
        while j < nbytes
            invariant
                n == bits@.len(),
                nbytes == (n + 7) / 8,
                j <= nbytes,
                bytes@ =~= spec_bits_to_bytes(bits@).subrange(0, j as int),
            decreases nbytes - j,
        {
            let base = 8 * j;
            let rest = n - base;
            let mut byte: u8 = 0;
            let mut t: usize = 0;
            while t < 8
                invariant
                    n == bits@.len(),
                    base == 8 * j,
                    base < n,
                    rest == n - base,
                    t <= 8,
                    byte == partial_byte(bits@, base as int, t as int),
                decreases 8 - t,
            {
                let bit = t < rest && bits[base + t];
                byte = (byte << 1) | (if bit { 1u8 } else { 0u8 });
                t = t + 1;
            }
            proof {
                lemma_partial_byte_full(bits@, j as int);
            }
            bytes.push(byte);
            j = j + 1;
        }
        bytes
    }

    /// Unpacks bytes into bits, eight per byte, most significant bit first.
    pub fn bytes_to_bits(bytes: &[u8]) -> (bits: Vec<bool>)
        ensures
            bits@ == spec_bytes_to_bits(bytes@),
    {
        let mut bits: Vec<bool> = Vec::new();
        let mut j: usize = 0;
        while j < bytes.len()
            invariant
                j <= bytes@.len(),
                bits@ =~= spec_bytes_to_bits(bytes@).subrange(0, 8 * j as int),
            decreases bytes.len() - j,
        {
            let byte = bytes[j];
            let mut t: u8 = 0;
            while t < 8
                invariant
                    j < bytes@.len(),
                    byte == bytes@[j as int],
                    t <= 8,
                    bits@ =~= spec_bytes_to_bits(bytes@).subrange(0, 8 * j + t),
                decreases 8 - t,
            {
                bits.push((byte >> (7 - t)) & 1 == 1);
                t = t + 1;
            }
            j = j + 1;
        }
        bits
    }

    /// Encodes the low four bits of `nibble` as a 7-bit codeword `[p1, p2, d1, p3, d2, d3, d4]`.
    pub fn encode_nibble(nibble: u8) -> (res: [bool; 7])
        ensures
            res@ == spec_encode_nibble(nibble),
    {
        let d1 = (nibble >> 3) & 1 == 1;
        let d2 = (nibble >> 2) & 1 == 1;
        let d3 = (nibble >> 1) & 1 == 1;
        let d4 = (nibble >> 0) & 1 == 1;

        let p1 = d1 ^ d2 ^ d4;
        let p2 = d1 ^ d3 ^ d4;
        let p3 = d2 ^ d3 ^ d4;

        let res = [p1, p2, d1, p3, d2, d3, d4];
        assert(res@ =~= spec_encode_nibble(nibble));
        res
    }

    /// Decodes a 7-bit codeword, correcting a single flipped bit by its syndrome.
    /// Always succeeds: every word is within one bit of exactly one codeword.
    pub fn decode_nibble(codeword: [bool; 7]) -> (res: MuraResult<u8>)
        ensures
            res matches Ok(n) && n == spec_decode_nibble(codeword@) && corrects_to(codeword@, n),
    {
        let p1 = codeword[0];
        let p2 = codeword[1];
        let d1 = codeword[2];
        let p3 = codeword[3];
        let d2 = codeword[4];
        let d3 = codeword[5];
        let d4 = codeword[6];

        let s1 = p1 ^ d1 ^ d2 ^ d4;
        let s2 = p2 ^ d1 ^ d3 ^ d4;
        let s3 = p3 ^ d2 ^ d3 ^ d4;

        let syndrome: u8 = (if s1 { 1u8 } else { 0u8 }) + (if s2 { 2u8 } else { 0u8 }) + (if s3 {
            4u8
        } else {
            0u8
        });

        // flip the data bit that the syndrome points at (parity bits carry no data)
        let d1_corr = d1 ^ (syndrome == 3);
        let d2_corr = d2 ^ (syndrome == 5);
        let d3_corr = d3 ^ (syndrome == 6);
        let d4_corr = d4 ^ (syndrome == 7);

        let n: u8 = (if d1_corr { 8u8 } else { 0u8 }) | (if d2_corr { 4u8 } else { 0u8 }) | (
        if d3_corr { 2u8 } else { 0u8 }) | (if d4_corr { 1u8 } else { 0u8 });
        proof {
            assert(codeword@[0] == p1 && codeword@[2] == d1);
            let m = correct_word(codeword@);
            assert(n == m);
            lemma_every_word_corrects(codeword@);
            lemma_correction_unique(codeword@, n, spec_decode_nibble(codeword@));
        }
        Ok(n)
    }
}

} // verus!
