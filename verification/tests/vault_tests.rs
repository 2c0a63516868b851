use mura::bpe::BpeTokenizer;
use mura::digits::{push_decimal, push_hex32, push_text};
use mura::error::MuraError;
use mura::vault::{crc32, decode_model_file, encode_model_file, Hamming74};

#[test]
fn test_bits_to_bytes_full() {
    let bits = vec![true, false, true, true, false, false, false, true];
    assert_eq!(Hamming74::bits_to_bytes(&bits), vec![0b1011_0001]);
}

#[test]
fn test_bytes_to_bits_roundtrip() {
    let original: Vec<bool> = vec![true, false, true, true, false, false, false, true];
    let bytes = Hamming74::bits_to_bytes(&original);
    let recovered = Hamming74::bytes_to_bits(&bytes);
    assert_eq!(original, recovered);
}

#[test]
fn crc32_test_hello_in() {
    assert_eq!(crc32(b"hello"), 0x3610A686);
}

#[test]
fn crc32_test_empty_in() {
    assert_eq!(crc32(b""), 0x00000000);
}

#[test]
fn encodecode_nibble_test() {
    for nibble in 0u8..16 {
        let encoded = Hamming74::encode_nibble(nibble);
        let decoded = Hamming74::decode_nibble(encoded).unwrap();
        assert_eq!(nibble, decoded, "Nibble {nibble} failed test");
    }
}

#[test]
fn decode_nibble_correct_single_bit_err() {
    for nibble in 0u8..16 {
        let mut codeword = Hamming74::encode_nibble(nibble);
        for bit_position in 0..7 {
            codeword[bit_position] = !codeword[bit_position];
            let decoded = Hamming74::decode_nibble(codeword).unwrap();
            assert_eq!(nibble, decoded, "Nibble {nibble}, err at {bit_position}");
            codeword[bit_position] = !codeword[bit_position];
        }
    }
}

#[test]
fn encodecode_byte_test() {
    let data = b"hello, world!";
    let encoded = Hamming74::encode(data);
    let decoded = Hamming74::decode(&encoded, data.len()).unwrap();
    assert_eq!(data.as_slice(), decoded.as_slice());
}

#[test]
fn hamming_encode_test() {
    let data = vec![0xABu8; 18];
    let encoded = Hamming74::encode(&data);
    let expected_bits = 18 * 14;
    let expected_bytes = (expected_bits + 7) / 8;
    assert_eq!(encoded.len(), expected_bytes);
}

#[test]
fn bits_to_bytes_pads_last_byte() {
    assert_eq!(Hamming74::bits_to_bytes(&[true, true, false]), vec![0b1100_0000]);
    assert_eq!(Hamming74::bits_to_bytes(&[]), Vec::<u8>::new());
    let nine = [true; 9];
    assert_eq!(Hamming74::bits_to_bytes(&nine), vec![0xff, 0x80]);
    assert_eq!(Hamming74::bytes_to_bits(&[0x80, 0x01]).len(), 16);
}

#[test]
fn encode_nibble_layout() {
    // data bits 1011: p1 = 1^0^1 = 0, p2 = 1^1^1 = 1, p3 = 0^1^1 = 0
    assert_eq!(
        Hamming74::encode_nibble(0b1011),
        [false, true, true, false, false, true, true]
    );
    assert_eq!(Hamming74::encode_nibble(0), [false; 7]);
    // only the low four bits are encoded
    assert_eq!(Hamming74::encode_nibble(0xF0), [false; 7]);
}

#[test]
fn decode_nibble_of_any_word_is_within_one_bit() {
    for w in 0u8..128 {
        let mut word = [false; 7];
        for k in 0..7 {
            word[k] = (w >> k) & 1 == 1;
        }
        let n = Hamming74::decode_nibble(word).unwrap();
        assert!(n < 16);
        let code = Hamming74::encode_nibble(n);
        let diff = (0..7).filter(|&k| code[k] != word[k]).count();
        assert!(diff <= 1);
    }
}

#[test]
fn hamming_decode_too_short() {
    let encoded = Hamming74::encode(b"abc");
    assert!(matches!(Hamming74::decode(&encoded, 4), Err(MuraError::HammingError(_))));
    assert_eq!(Hamming74::decode(&encoded, 2).unwrap(), b"ab".to_vec());
    assert_eq!(Hamming74::decode(&[], 0).unwrap(), Vec::<u8>::new());
}

#[test]
fn hamming_corrects_a_flipped_bit_per_codeword() {
    let data = b"vault".to_vec();
    let mut encoded = Hamming74::encode(&data);
    // flip the first bit of the first codeword and a bit of the second codeword
    encoded[0] ^= 0x80;
    encoded[1] ^= 0x20;
    assert_eq!(Hamming74::decode(&encoded, data.len()).unwrap(), data);
}

#[test]
fn crc32_check_value() {
    assert_eq!(crc32(b"123456789"), 0xCBF43926);
    assert_eq!(crc32(&[0u8]), 0xD202EF8D);
}

#[test]
fn model_file_roundtrip() {
    let t = BpeTokenizer::train("hello hello world", 270).unwrap();
    let clf = vec![1u8, 2, 3, 4, 5];
    let file = encode_model_file(&t, &clf);
    assert_eq!(&file[0..4], b"MURA");
    assert_eq!(&file[4..8], &[1, 0, 0, 0]);
    let (t2, clf2) = decode_model_file(&file).unwrap();
    assert_eq!(clf2, clf);
    assert_eq!(t.vocabulary(), t2.vocabulary());
    assert_eq!(t.merge_rules(), t2.merge_rules());
}

#[test]
fn model_file_survives_a_flipped_bit() {
    let t = BpeTokenizer::train("abcabc", 260).unwrap();
    let clf = vec![9u8; 10];
    let mut file = encode_model_file(&t, &clf);
    file[20] ^= 0x04;
    let (t2, clf2) = decode_model_file(&file).unwrap();
    assert_eq!(clf2, clf);
    assert_eq!(t.vocabulary(), t2.vocabulary());
}

#[test]
fn model_file_errors() {
    let t = BpeTokenizer::new_byte_level();
    let file = encode_model_file(&t, &[7u8]);
    assert!(matches!(decode_model_file(&file[..10]), Err(MuraError::VaultError(_))));
    let mut bad_magic = file.clone();
    bad_magic[0] = b'X';
    assert!(matches!(decode_model_file(&bad_magic), Err(MuraError::VaultError(_))));
    let mut bad_version = file.clone();
    bad_version[4] = 2;
    assert!(matches!(decode_model_file(&bad_version), Err(MuraError::VaultError(_))));
    let mut bad_crc = file.clone();
    bad_crc[8] ^= 1;
    assert!(matches!(decode_model_file(&bad_crc), Err(MuraError::VaultError(_))));
    let cut = &file[..file.len() - 10];
    assert!(matches!(decode_model_file(cut), Err(MuraError::HammingError(_))));
}

/// Flips bit `offset` of every 7-bit codeword among the first `words` codewords.
fn flip_in_every_codeword(encoded: &[u8], words: usize, offset: usize) -> Vec<u8> {
    let mut bits = Hamming74::bytes_to_bits(encoded);
    for j in 0..words {
        let k = 7 * j + (offset + j) % 7;
        bits[k] = !bits[k];
    }
    Hamming74::bits_to_bytes(&bits)
}

#[test]
fn hamming_corrects_a_flip_in_every_codeword_at_once() {
    let data = b"every codeword".to_vec();
    let encoded = Hamming74::encode(&data);
    for offset in 0..7 {
        let damaged = flip_in_every_codeword(&encoded, 2 * data.len(), offset);
        assert_ne!(damaged, encoded);
        assert_eq!(Hamming74::decode(&damaged, data.len()).unwrap(), data);
    }
}

#[test]
fn model_file_survives_a_flip_in_every_codeword() {
    let t = BpeTokenizer::train("abcabc abc", 262).unwrap();
    let clf = vec![3u8, 1, 4, 1, 5];
    let file = encode_model_file(&t, &clf);
    let payload_len = u32::from_le_bytes([file[12], file[13], file[14], file[15]]) as usize;
    for offset in [0usize, 3, 6] {
        let tail = flip_in_every_codeword(&file[16..], 2 * payload_len, offset);
        let mut damaged = file[..16].to_vec();
        damaged.extend_from_slice(&tail);
        assert_eq!(damaged.len(), file.len());
        let (t2, clf2) = decode_model_file(&damaged).unwrap();
        assert_eq!(clf2, clf);
        assert_eq!(t.vocabulary(), t2.vocabulary());
        assert_eq!(t.merge_rules(), t2.merge_rules());
    }
}

fn vault_message(r: Result<(BpeTokenizer, Vec<u8>), MuraError>) -> String {
    match r {
        Err(MuraError::VaultError(m)) => m,
        _ => panic!("expected a vault error"),
    }
}

#[test]
fn model_file_error_texts() {
    let t = BpeTokenizer::new_byte_level();
    let file = encode_model_file(&t, &[7u8]);
    assert_eq!(vault_message(decode_model_file(&file[..10])), "File too short ");
    let mut bad_version = file.clone();
    bad_version[4] = 2;
    assert_eq!(vault_message(decode_model_file(&bad_version)), "Unsupported version: 2");
    bad_version[4] = 0;
    bad_version[5] = 1;
    assert_eq!(vault_message(decode_model_file(&bad_version)), "Unsupported version: 256");
    let mut bad_crc = file.clone();
    bad_crc[8] ^= 1;
    let stored = u32::from_le_bytes([bad_crc[8], bad_crc[9], bad_crc[10], bad_crc[11]]);
    let computed = u32::from_le_bytes([file[8], file[9], file[10], file[11]]);
    assert_eq!(
        vault_message(decode_model_file(&bad_crc)),
        format!("CRC mismatch: stored {:#010X}, computed {:#010X}", stored, computed)
    );
}

#[test]
fn numbers_as_text() {
    for n in [0u32, 7, 10, 99, 100, 4096, 1234567890, u32::MAX] {
        let mut s = String::from("n=");
        push_decimal(&mut s, n);
        assert_eq!(s, format!("n={}", n));
        let mut h = String::new();
        push_hex32(&mut h, n);
        assert_eq!(h, format!("{:#010X}", n));
    }
    let mut h = String::new();
    push_hex32(&mut h, 0xCBF43926);
    assert_eq!(h, "0xCBF43926");
    let mut s = String::from("a");
    push_text(&mut s, "bé c");
    assert_eq!(s, "abé c");
}
