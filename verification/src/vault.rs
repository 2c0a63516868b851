//! The `.mura` model file container: a header with magic bytes, version,
//! CRC-32 and payload length, then the Hamming-encoded payload.
use vstd::prelude::*;

use crate::bpe::{
    lemma_bpe_bytes_roundtrip, spec_bpe_bytes, spec_parse_bpe, words_fit_u32, BpeTokenizer,
    MergeRule,
};
use crate::crc::spec_crc32;
use crate::digits::{push_decimal, push_hex32, push_text};
pub use crate::crc::crc32;
use crate::error::{MuraError, MuraResult};
use crate::hamming::{
    each_word_near, lemma_hamming_corrects_flip, lemma_hamming_corrects_per_codeword,
    lemma_hamming_roundtrip, spec_bits_to_bytes, spec_bytes_to_bits, spec_hamming_decode,
    spec_hamming_encode,
};
pub use crate::hamming::Hamming74;
use crate::le_bytes::{
    lemma_subrange_split, lemma_u32_from_le_frame, lemma_u32_in, push_u32_le, read_u32_le, spec_u32_from_le, spec_u32_le,
};

verus! {

// ---------------------------------------------------------------------------
// The model file
//
// File layout (all integers little-endian `u32`):
//   [0..4]   magic bytes "MURA"
//   [4..8]   version, 1
//   [8..12]  CRC-32 of the raw payload
//   [12..16] length of the raw payload in bytes
//   [16..]   Hamming-encoded payload
// Raw payload: tokenizer section length, tokenizer bytes, classifier section
// length, classifier bytes.
// ---------------------------------------------------------------------------

/// The magic bytes "MURA" that open a model file.
pub open spec fn model_magic() -> Seq<u8> {
    seq![0x4Du8, 0x55u8, 0x52u8, 0x41u8]
}

/// The model file format version.
pub const MODEL_VERSION: u32 = 1;

/// The raw payload: each section preceded by its length.
pub open spec fn spec_model_payload(bpe: Seq<u8>, clf: Seq<u8>) -> Seq<u8> {
    spec_u32_le(bpe.len() as u32) + bpe + spec_u32_le(clf.len() as u32) + clf
}

/// The whole model file for a serialised tokenizer and classifier.
pub open spec fn spec_model_file(bpe: Seq<u8>, clf: Seq<u8>) -> Seq<u8> {
    let payload = spec_model_payload(bpe, clf);
    model_magic() + spec_u32_le(MODEL_VERSION) + spec_u32_le(spec_crc32(payload)) + spec_u32_le(
        payload.len() as u32,
    ) + spec_hamming_encode(payload)
}

/// The header is complete and names this format and version.
pub open spec fn model_header_ok(f: Seq<u8>) -> bool {
    &&& f.len() >= 16
    &&& f.subrange(0, 4) == model_magic()
    &&& spec_u32_from_le(f, 4) == MODEL_VERSION
}

/// The header is fine but the encoded payload is shorter than the header says.
pub open spec fn model_hamming_short(f: Seq<u8>) -> bool {
    model_header_ok(f) && spec_hamming_decode(f.skip(16), spec_u32_from_le(f, 12) as nat) is None
}

/// The two sections of a payload, or `None` when the lengths run past its end.
pub open spec fn spec_payload_sections(payload: Seq<u8>) -> Option<(Seq<u8>, Seq<u8>)> {
    if payload.len() < 4 {
        None
    } else {
        let bpe_end = 4 + spec_u32_from_le(payload, 0);
        if payload.len() < bpe_end + 4 {
            None
        } else {
            let clf_end = bpe_end + 4 + spec_u32_from_le(payload, bpe_end);
            if payload.len() < clf_end {
                None
            } else {
                Some((payload.subrange(4, bpe_end), payload.subrange(bpe_end + 4, clf_end)))
            }
        }
    }
}

/// The tokenizer and classifier sections of a model file, or `None` when its
/// header, encoding, checksum or section lengths are wrong.
pub open spec fn spec_model_sections(f: Seq<u8>) -> Option<(Seq<u8>, Seq<u8>)> {
    if !model_header_ok(f) {
        None
    } else {
        match spec_hamming_decode(f.skip(16), spec_u32_from_le(f, 12) as nat) {
            None => None,
            Some(payload) => if spec_crc32(payload) != spec_u32_from_le(f, 8) {
                None
            } else {
                spec_payload_sections(payload)
            },
        }
    }
}

proof fn lemma_payload_sections(bpe: Seq<u8>, clf: Seq<u8>)
    requires
        bpe.len() <= u32::MAX,
        clf.len() <= u32::MAX,
    ensures
        spec_payload_sections(spec_model_payload(bpe, clf)) == Some((bpe, clf)),
{
    let p = spec_model_payload(bpe, clf);
    let b4 = spec_u32_le(bpe.len() as u32);
    let c4 = spec_u32_le(clf.len() as u32);
    assert(p.subrange(0, p.len() as int) =~= p);
    lemma_subrange_split(p, 0, b4 + bpe + c4, clf);
    lemma_subrange_split(p, 0, b4 + bpe, c4);
    lemma_subrange_split(p, 0, b4, bpe);
    lemma_u32_in(p, 0, bpe.len() as u32);
    lemma_u32_in(p, 4 + bpe.len() as int, clf.len() as u32);
}

proof fn lemma_model_file_layout(bpe: Seq<u8>, clf: Seq<u8>)
    requires
        bpe.len() + clf.len() + 8 <= u32::MAX,
    ensures
        spec_model_file(bpe, clf).len() >= 16,
        spec_model_file(bpe, clf).skip(16) == spec_hamming_encode(spec_model_payload(bpe, clf)),
        spec_u32_from_le(spec_model_file(bpe, clf), 12) as nat == spec_model_payload(bpe, clf).len(),
{
    let payload = spec_model_payload(bpe, clf);
    let f = spec_model_file(bpe, clf);
    let enc = spec_hamming_encode(payload);
    let v4 = spec_u32_le(MODEL_VERSION);
    let k4 = spec_u32_le(spec_crc32(payload));
    let l4 = spec_u32_le(payload.len() as u32);
    assert(f.subrange(0, f.len() as int) =~= f);
    lemma_subrange_split(f, 0, model_magic() + v4 + k4 + l4, enc);
    lemma_subrange_split(f, 0, model_magic() + v4 + k4, l4);
    lemma_u32_in(f, 12, payload.len() as u32);
    assert(f.skip(16) =~= enc);
}

/// A model file is read back as the sections it was built from, as long as the
/// sections and the payload fit `u32` lengths.
pub proof fn lemma_model_file_sections(bpe: Seq<u8>, clf: Seq<u8>)
    requires
        bpe.len() + clf.len() + 8 <= u32::MAX,
    ensures
        !model_hamming_short(spec_model_file(bpe, clf)),
        spec_model_sections(spec_model_file(bpe, clf)) == Some((bpe, clf)),
{
    let payload = spec_model_payload(bpe, clf);
    let f = spec_model_file(bpe, clf);
    let enc = spec_hamming_encode(payload);
    let v4 = spec_u32_le(MODEL_VERSION);
    let k4 = spec_u32_le(spec_crc32(payload));
    let l4 = spec_u32_le(payload.len() as u32);
    assert(f.subrange(0, f.len() as int) =~= f);
    lemma_subrange_split(f, 0, model_magic() + v4 + k4 + l4, enc);
    lemma_subrange_split(f, 0, model_magic() + v4 + k4, l4);
    lemma_subrange_split(f, 0, model_magic() + v4, k4);
    lemma_subrange_split(f, 0, model_magic(), v4);
    lemma_u32_in(f, 4, MODEL_VERSION);
    lemma_u32_in(f, 8, spec_crc32(payload));
    lemma_u32_in(f, 12, payload.len() as u32);
    assert(f.skip(16) =~= enc);
    lemma_hamming_roundtrip(payload);
    lemma_payload_sections(bpe, clf);
}

/// The model file `f` with bit `k` of its encoded payload flipped.
pub open spec fn flip_payload_bit(f: Seq<u8>, k: int) -> Seq<u8> {
    let bits = spec_bytes_to_bits(f.skip(16));
    f.subrange(0, 16) + spec_bits_to_bytes(bits.update(k, !bits[k]))
}

proof fn lemma_same_header(f: Seq<u8>, g: Seq<u8>)
    requires
        f.len() >= 16,
        g.len() >= 16,
        f.subrange(0, 16) == g.subrange(0, 16),
        spec_hamming_decode(g.skip(16), spec_u32_from_le(f, 12) as nat) == spec_hamming_decode(
            f.skip(16),
            spec_u32_from_le(f, 12) as nat,
        ),
    ensures
        spec_model_sections(g) == spec_model_sections(f),
        model_hamming_short(g) == model_hamming_short(f),
{
    assert forall|i: int| 0 <= i < 16 implies g[i] == f[i] by {
        assert(g[i] == g.subrange(0, 16)[i]);
        assert(f[i] == f.subrange(0, 16)[i]);
    }
    assert(g.subrange(0, 4) =~= f.subrange(0, 4));
    lemma_u32_from_le_frame(f, g, 4, 4);
    lemma_u32_from_le_frame(f, g, 8, 8);
    lemma_u32_from_le_frame(f, g, 12, 12);
}

proof fn lemma_flip_parts(f: Seq<u8>, k: int)
    requires
        f.len() >= 16,
    ensures
        flip_payload_bit(f, k).len() >= 16,
        flip_payload_bit(f, k).subrange(0, 16) == f.subrange(0, 16),
        flip_payload_bit(f, k).skip(16) == ({
            let bits = spec_bytes_to_bits(f.skip(16));
            spec_bits_to_bytes(bits.update(k, !bits[k]))
        }),
{
    let bits = spec_bytes_to_bits(f.skip(16));
    let tail = spec_bits_to_bytes(bits.update(k, !bits[k]));
    let g = flip_payload_bit(f, k);
    assert(g == f.subrange(0, 16) + tail);
    assert(g.subrange(0, 16) =~= f.subrange(0, 16));
    assert(g.skip(16) =~= tail);
}

/// A model file still reads back as the sections it was built from after any
/// single bit of its encoded payload's code bits has been flipped.
pub proof fn lemma_model_file_corrects_flip(bpe: Seq<u8>, clf: Seq<u8>, k: int)
    requires
        bpe.len() + clf.len() + 8 <= u32::MAX,
        0 <= k < 14 * spec_model_payload(bpe, clf).len(),
    ensures
        spec_model_sections(flip_payload_bit(spec_model_file(bpe, clf), k)) == Some((bpe, clf)),
        !model_hamming_short(flip_payload_bit(spec_model_file(bpe, clf), k)),
{
    let payload = spec_model_payload(bpe, clf);
    let f = spec_model_file(bpe, clf);
    let g = flip_payload_bit(f, k);
    lemma_model_file_sections(bpe, clf);
    lemma_model_file_layout(bpe, clf);
    lemma_flip_parts(f, k);
    lemma_hamming_corrects_flip(payload, k);
    lemma_hamming_roundtrip(payload);
    assert(spec_hamming_decode(f.skip(16), spec_u32_from_le(f, 12) as nat) == Some(payload));
    assert(spec_hamming_decode(g.skip(16), spec_u32_from_le(f, 12) as nat) == Some(payload));
    lemma_same_header(f, g);
}

/// A model file still reads back as the sections it was built from when its
/// 16-byte header is intact and every codeword of its encoded payload has at
/// most one flipped bit (all codewords at once; bits after the last codeword
/// may be anything).
pub proof fn lemma_model_file_corrects_per_codeword(bpe: Seq<u8>, clf: Seq<u8>, g: Seq<u8>)
    requires
        bpe.len() + clf.len() + 8 <= u32::MAX,
        g.len() >= 16,
        g.subrange(0, 16) == spec_model_file(bpe, clf).subrange(0, 16),
        14 * spec_model_payload(bpe, clf).len() <= spec_bytes_to_bits(g.skip(16)).len(),
        each_word_near(
            spec_bytes_to_bits(spec_model_file(bpe, clf).skip(16)),
            spec_bytes_to_bits(g.skip(16)),
            2 * spec_model_payload(bpe, clf).len(),
        ),
    ensures
        spec_model_sections(g) == Some((bpe, clf)),
        !model_hamming_short(g),
{
    let payload = spec_model_payload(bpe, clf);
    let f = spec_model_file(bpe, clf);
    lemma_model_file_sections(bpe, clf);
    lemma_model_file_layout(bpe, clf);
    lemma_hamming_corrects_per_codeword(payload, g.skip(16));
    lemma_hamming_roundtrip(payload);
    assert(spec_hamming_decode(f.skip(16), spec_u32_from_le(f, 12) as nat) == Some(payload));
    assert(spec_hamming_decode(g.skip(16), spec_u32_from_le(f, 12) as nat) == Some(payload));
    lemma_same_header(f, g);
}

/// What reading a model file checks: when it yields sections `(bpe, clf)`, the
/// file starts with "MURA" and version 1, its payload decodes from the Hamming
/// stream to the length in bytes 12..16, the CRC-32 in bytes 8..12 is that of
/// the whole decoded payload, and the payload holds `bpe` and then `clf`, each
/// after its little-endian length.
pub proof fn lemma_model_sections_checked(f: Seq<u8>)
    ensures
        spec_model_sections(f) matches Some((bpe, clf)) ==> {
            &&& f.len() >= 16
            &&& f[0] == 0x4Du8 && f[1] == 0x55u8 && f[2] == 0x52u8 && f[3] == 0x41u8
            &&& spec_u32_from_le(f, 4) == 1
            &&& spec_hamming_decode(f.skip(16), spec_u32_from_le(f, 12) as nat) matches Some(p) && {
                &&& spec_u32_from_le(f, 8) == spec_crc32(p)
                &&& p.len() >= 8 + bpe.len() + clf.len()
                &&& spec_u32_from_le(p, 0) == bpe.len()
                &&& p.subrange(4, 4 + bpe.len() as int) == bpe
                &&& spec_u32_from_le(p, 4 + bpe.len() as int) == clf.len()
                &&& p.subrange(8 + bpe.len() as int, 8 + bpe.len() as int + clf.len()) == clf
            }
        },
{
    if spec_model_sections(f) is Some {
        assert(f.subrange(0, 4)[0] == f[0] && f.subrange(0, 4)[1] == f[1]);
        assert(f.subrange(0, 4)[2] == f[2] && f.subrange(0, 4)[3] == f[3]);
    }
}

/// What writing a model file produces: "MURA", version 1, the payload length
/// `8 + bpe.len() + clf.len()`, a Hamming stream that decodes to a payload
/// holding `bpe` and then `clf` (each after its little-endian length), and in
/// bytes 8..12 the CRC-32 of that whole payload.
pub proof fn lemma_model_file_written(bpe: Seq<u8>, clf: Seq<u8>)
    requires
        bpe.len() + clf.len() + 8 <= u32::MAX,
    ensures
        ({
            let f = spec_model_file(bpe, clf);
            let n = 8 + bpe.len() + clf.len();
            &&& f.len() >= 16
            &&& f[0] == 0x4Du8 && f[1] == 0x55u8 && f[2] == 0x52u8 && f[3] == 0x41u8
            &&& spec_u32_from_le(f, 4) == 1
            &&& spec_u32_from_le(f, 12) == n
            &&& spec_hamming_decode(f.skip(16), n as nat) matches Some(p) && {
                &&& p.len() == n
                &&& spec_u32_from_le(f, 8) == spec_crc32(p)
                &&& spec_u32_from_le(p, 0) == bpe.len()
                &&& p.subrange(4, 4 + bpe.len() as int) == bpe
                &&& spec_u32_from_le(p, 4 + bpe.len() as int) == clf.len()
                &&& p.subrange(8 + bpe.len() as int, n as int) == clf
            }
        }),
{
    let f = spec_model_file(bpe, clf);
    lemma_model_file_sections(bpe, clf);
    lemma_model_file_layout(bpe, clf);
    lemma_hamming_roundtrip(spec_model_payload(bpe, clf));
    lemma_model_sections_checked(f);
}

/// Saving a tokenizer and classifier bytes into a model file and reading it back
/// gives the same vocabulary, rules and classifier bytes, whenever the lengths
/// involved fit a `u32`.
pub proof fn lemma_model_file_roundtrip(vocab: Seq<Seq<u8>>, rules: Seq<MergeRule>, clf: Seq<u8>)
    requires
        vocab.len() <= u32::MAX,
        rules.len() <= u32::MAX,
        words_fit_u32(vocab),
        spec_bpe_bytes(vocab, rules).len() + clf.len() + 8 <= u32::MAX,
    ensures
        !model_hamming_short(spec_model_file(spec_bpe_bytes(vocab, rules), clf)),
        spec_model_sections(spec_model_file(spec_bpe_bytes(vocab, rules), clf)) == Some(
            (spec_bpe_bytes(vocab, rules), clf),
        ),
        spec_parse_bpe(spec_bpe_bytes(vocab, rules)) == Some((vocab, rules)),
{
    lemma_model_file_sections(spec_bpe_bytes(vocab, rules), clf);
    lemma_bpe_bytes_roundtrip(vocab, rules);
}

/// A model file error carrying `msg`.
fn vault_error(msg: &str) -> (res: MuraError)
    ensures
        res matches MuraError::VaultError(s) && s@ == msg@,
{
    MuraError::VaultError(String::from_str(msg))
}

/// Builds a model file from a tokenizer and the classifier's serialised bytes:
/// header with magic, version, CRC-32 and payload length, then the
/// Hamming-encoded payload.
pub fn encode_model_file(tokenizer: &BpeTokenizer, classifier_bytes: &[u8]) -> (res: Vec<u8>)
    ensures
        res@ == spec_model_file(
            spec_bpe_bytes(tokenizer.vocab_view(), tokenizer.rules_view()),
            classifier_bytes@,
        ),
{
    let bpe_bytes = tokenizer.to_bytes();
    let bpe_len = bpe_bytes.len() as u32;
    let clf_len = classifier_bytes.len() as u32;

    let mut payload: Vec<u8> = Vec::new();
    push_u32_le(&mut payload, bpe_len);
    append_bytes(&mut payload, bpe_bytes.as_slice());
    push_u32_le(&mut payload, clf_len);
    append_bytes(&mut payload, classifier_bytes);

    let checksum = crc32(payload.as_slice());
    let encoded_payload = Hamming74::encode(payload.as_slice());
    let original_len = payload.len() as u32;

    let mut file_bytes: Vec<u8> = Vec::new();
    file_bytes.push(0x4D);
    file_bytes.push(0x55);
    file_bytes.push(0x52);
    file_bytes.push(0x41);
    push_u32_le(&mut file_bytes, MODEL_VERSION);
    push_u32_le(&mut file_bytes, checksum);
    push_u32_le(&mut file_bytes, original_len);
    append_bytes(&mut file_bytes, encoded_payload.as_slice());
    assert(file_bytes@ =~= spec_model_file(bpe_bytes@, classifier_bytes@));
    file_bytes
}

/// Appends `src` to `dst`.
fn append_bytes(dst: &mut Vec<u8>, src: &[u8])
    ensures
        final(dst)@ == old(dst)@ + src@,
{
    let mut i: usize = 0;
    while i < src.len()
        invariant
            i <= src@.len(),
            dst@ =~= old(dst)@ + src@.take(i as int),
        decreases src.len() - i,
    {
        dst.push(src[i]);
        i = i + 1;
    }
    assert(src@.take(i as int) =~= src@);
}

/// Reads a model file: checks the header, Hamming-decodes the payload (correcting
/// one flipped bit per codeword), checks its CRC-32, and splits it into the
/// tokenizer (which is read back) and the classifier's serialised bytes.
pub fn decode_model_file(file_bytes: &[u8]) -> (res: MuraResult<(BpeTokenizer, Vec<u8>)>)
    ensures
        model_hamming_short(file_bytes@) ==> res matches Err(MuraError::HammingError(_)),
        !model_hamming_short(file_bytes@) ==> match spec_model_sections(file_bytes@) {
            Some((bpe, clf)) => match spec_parse_bpe(bpe) {
                Some((vocab, rules)) => res matches Ok((tok, c)) && tok.vocab_view() == vocab
                    && tok.rules_view() == rules && c@ == clf,
                None => res matches Err(MuraError::VaultError(_)),
            },
            None => res matches Err(MuraError::VaultError(_)),
        },
{
    let ghost f = file_bytes@;
    if file_bytes.len() < 16 {
        return Err(vault_error("File too short "));
    }
    if !(file_bytes[0] == 0x4D && file_bytes[1] == 0x55 && file_bytes[2] == 0x52 && file_bytes[3]
        == 0x41) {
        proof {
            if f.subrange(0, 4) == model_magic() {
                assert(f.subrange(0, 4)[0] == f[0] && f.subrange(0, 4)[1] == f[1]);
                assert(f.subrange(0, 4)[2] == f[2] && f.subrange(0, 4)[3] == f[3]);
            }
        }
        return Err(vault_error("Invalid magic bytes"));
    }
    assert(f.subrange(0, 4) =~= model_magic());
    let version = read_u32_le(file_bytes, 4);
    if version != MODEL_VERSION {
        let mut msg = String::from_str("Unsupported version: ");
        push_decimal(&mut msg, version);
        return Err(MuraError::VaultError(msg));
    }
    let stored_crc = read_u32_le(file_bytes, 8);
    let original_len = read_u32_le(file_bytes, 12) as usize;

    let encoded_payload = &file_bytes[16..file_bytes.len()];
    assert(encoded_payload@ =~= f.skip(16));
    let payload = match Hamming74::decode(encoded_payload, original_len) {
        Ok(p) => p,
        Err(e) => return Err(e),
    };

    let computed_crc = crc32(payload.as_slice());
    if computed_crc != stored_crc {
        let mut msg = String::from_str("CRC mismatch: stored ");
        push_hex32(&mut msg, stored_crc);
        push_text(&mut msg, ", computed ");
        push_hex32(&mut msg, computed_crc);
        return Err(MuraError::VaultError(msg));
    }

    let n = payload.len();
    if n < 4 {
        return Err(vault_error("Payload too short for BPE length"));
    }
    let bpe_len = read_u32_le(payload.as_slice(), 0) as usize;
    if n - 4 < bpe_len {
        return Err(vault_error("Payload too short for BPE data"));
    }
    let bpe_end = 4 + bpe_len;
    let bpe_section = &payload.as_slice()[4..bpe_end];
    let tokenizer = match BpeTokenizer::try_from_bytes(bpe_section) {
        Some(t) => t,
        None => {
            proof {
                if spec_payload_sections(payload@) is Some {
                    assert(spec_payload_sections(payload@).unwrap().0 == bpe_section@);
                }
            }
            if n - bpe_end < 4 {
                return Err(vault_error("Payload too short for CLF length"));
            }
            let clf_len0 = read_u32_le(payload.as_slice(), bpe_end) as usize;
            if n - bpe_end - 4 < clf_len0 {
                return Err(vault_error("Payload too short for CLF data"));
            }
            return Err(vault_error("Malformed BPE section"));
        },
    };

    if n - bpe_end < 4 {
        return Err(vault_error("Payload too short for CLF length"));
    }
    let clf_len = read_u32_le(payload.as_slice(), bpe_end) as usize;
    let clf_data_start = bpe_end + 4;
    if n - clf_data_start < clf_len {
        return Err(vault_error("Payload too short for CLF data"));
    }
    let clf_end = clf_data_start + clf_len;
    let mut classifier_bytes: Vec<u8> = Vec::new();
    append_bytes(&mut classifier_bytes, &payload.as_slice()[clf_data_start..clf_end]);
    Ok((tokenizer, classifier_bytes))
}

} // verus!
