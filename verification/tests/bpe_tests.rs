use mura::bpe::BpeTokenizer;
use mura::error::MuraError;

#[test]
fn bpe_byte_level_has_256_tokens() {
    let t = BpeTokenizer::new_byte_level();
    assert_eq!(t.vocab_size(), 256);
}

#[test]
fn bpe_train_increases_vocab() {
    let t = BpeTokenizer::train("aaabdaaabac", 260).unwrap();
    assert!(t.vocab_size() > 256);
    assert!(t.vocab_size() <= 260);
}

#[test]
fn bpe_encode_decode_roundtrip() {
    let corpus = "hello hello world hello world";
    let t = BpeTokenizer::train(corpus, 280).unwrap();
    for text in &["hello", "world", "hello world", ""] {
        let decoded = t.decode(&t.encode(text)).unwrap();
        assert_eq!(*text, decoded.as_str());
    }
}

#[test]
fn bpe_reject_empty_corpus() {
    assert!(BpeTokenizer::train("", 260).is_err());
}

#[test]
fn bpe_reject_small_vocab() {
    assert!(BpeTokenizer::train("hello", 100).is_err());
}

#[test]
fn bpe_serialization_roundtrip() {
    let t = BpeTokenizer::train("aaabdaaabac", 262).unwrap();
    let bytes = t.to_bytes();
    let t2 = BpeTokenizer::from_bytes(&bytes).unwrap();
    assert_eq!(t.vocab_size(), t2.vocab_size());
    assert_eq!(t.encode("aaab"), t2.encode("aaab"));
}

#[test]
fn train_test() {
    let corpus = "gagagogogago";
    let t = BpeTokenizer::train(corpus, 258).unwrap();
    assert_eq!(t.vocab_size(), 258);
    assert_eq!(t.merge_rules().len(), 2);
}

#[test]
fn encode_test() {
    let corpus = "gagogagogago";
    let t = BpeTokenizer::train(corpus, 258).unwrap();
    let encoded = t.encode("gago");
    assert_eq!(encoded.len(), 2);
}

#[test]
fn encode_then_decode_test() {
    let corpus = "safe word safe";
    let t = BpeTokenizer::train(corpus, 259).unwrap();

    let og_input = "safe";
    let val = t.encode(og_input);
    let decoded_output = t.decode(&val).unwrap();

    assert_eq!(og_input, decoded_output);
}

#[test]
fn train_picks_most_frequent_pair_then_smallest() {
    // "aaabdaaabac": (a,a) occurs 4 times, more than any other pair
    let t = BpeTokenizer::train("aaabdaaabac", 257).unwrap();
    let rules = t.merge_rules();
    assert_eq!(rules.len(), 1);
    assert_eq!((rules[0].pair_a, rules[0].pair_b), (b'a' as u32, b'a' as u32));
    assert_eq!(rules[0].result, 256);
    assert_eq!(rules[0].priority, 1);
    assert_eq!(t.vocabulary()[256], b"aa".to_vec());
    // "abab": (a,b) twice, (b,a) once
    let t = BpeTokenizer::train("abab", 257).unwrap();
    assert_eq!((t.merge_rules()[0].pair_a, t.merge_rules()[0].pair_b), (97, 98));
    // "ba ab": every pair once; the smallest pair (' ', 'a') wins the tie
    let t = BpeTokenizer::train("ba ab", 257).unwrap();
    assert_eq!((t.merge_rules()[0].pair_a, t.merge_rules()[0].pair_b), (32, 97));
}

#[test]
fn train_stops_when_no_pair_is_left() {
    let t = BpeTokenizer::train("a", 300).unwrap();
    assert_eq!(t.vocab_size(), 256);
    assert!(t.merge_rules().is_empty());
    let t = BpeTokenizer::train("aaaa", 300).unwrap();
    // (a,a) -> 256, then (256,256) -> 257, then a single token is left
    assert_eq!(t.vocab_size(), 258);
    assert_eq!(t.encode("aaaa"), vec![257]);
}

#[test]
fn train_vocab_size_256_learns_nothing() {
    let t = BpeTokenizer::train("hello", 256).unwrap();
    assert_eq!(t.vocab_size(), 256);
    assert!(t.merge_rules().is_empty());
}

#[test]
fn train_errors_are_bpe_errors() {
    assert!(matches!(BpeTokenizer::train("", 300), Err(MuraError::BpeError(_))));
    assert!(matches!(BpeTokenizer::train("abc", 255), Err(MuraError::BpeError(_))));
}

#[test]
fn encode_merges_left_to_right() {
    let t = BpeTokenizer::train("aaabdaaabac", 257).unwrap();
    // "aaa" -> (a,a) merged first, then the lone a
    assert_eq!(t.encode("aaa"), vec![256, 97]);
    assert_eq!(t.encode(""), Vec::<u32>::new());
}

#[test]
fn decode_roundtrip_of_multibyte_text() {
    let t = BpeTokenizer::train("héllo wörld héllo", 270).unwrap();
    for text in &["héllo", "wörld", "日本語", "mixed ascii and ü"] {
        let decoded = t.decode(&t.encode(text)).unwrap();
        assert_eq!(*text, decoded.as_str());
    }
}

#[test]
fn decode_replaces_invalid_utf8() {
    let t = BpeTokenizer::new_byte_level();
    let decoded = t.decode(&[0xff, b'a' as u32]).unwrap();
    assert_eq!(decoded, "\u{fffd}a");
}

#[test]
fn serialization_layout() {
    let t = BpeTokenizer::new_byte_level();
    let bytes = t.to_bytes();
    // rule count 0, vocabulary count 256, each word: length 1 and the byte
    assert_eq!(bytes.len(), 4 + 4 + 256 * 5);
    assert_eq!(&bytes[0..8], &[0, 0, 0, 0, 0, 1, 0, 0]);
    assert_eq!(&bytes[8..13], &[1, 0, 0, 0, 0]);
    let t = BpeTokenizer::train("abab", 257).unwrap();
    let bytes = t.to_bytes();
    assert_eq!(&bytes[0..4], &[1, 0, 0, 0]);
    assert_eq!(&bytes[4..20], &[97, 0, 0, 0, 98, 0, 0, 0, 0, 1, 0, 0, 1, 0, 0, 0]);
}

#[test]
fn from_bytes_rebuilds_everything() {
    let t = BpeTokenizer::train("hello hello world", 270).unwrap();
    let t2 = BpeTokenizer::from_bytes(&t.to_bytes()).unwrap();
    assert_eq!(t.vocabulary(), t2.vocabulary());
    assert_eq!(t.merge_rules(), t2.merge_rules());
    assert_eq!(t.token_to_id(), t2.token_to_id());
}

#[test]
fn try_from_bytes_rejects_truncated_input() {
    let t = BpeTokenizer::train("hello hello world", 270).unwrap();
    let bytes = t.to_bytes();
    assert!(BpeTokenizer::try_from_bytes(&bytes[..bytes.len() - 1]).is_none());
    assert!(BpeTokenizer::try_from_bytes(&bytes[..3]).is_none());
    assert!(BpeTokenizer::try_from_bytes(&bytes[..10]).is_none());
    assert!(BpeTokenizer::try_from_bytes(&bytes).is_some());
}

#[test]
fn token_to_id_maps_each_word_to_its_token() {
    let t = BpeTokenizer::train("hello hello world", 270).unwrap();
    let index = t.token_to_id();
    assert_eq!(index.len(), t.vocab_size());
    for (word, id) in index {
        assert_eq!(&t.vocabulary()[*id as usize], word);
    }
    assert!(index.iter().any(|(w, id)| w == &vec![b'h'] && *id == 104));
}

#[test]
fn clone_keeps_everything() {
    let t = BpeTokenizer::train("hello hello world", 265).unwrap();
    let c = t.clone();
    assert_eq!(t.vocabulary(), c.vocabulary());
    assert_eq!(t.merge_rules(), c.merge_rules());
    assert_eq!(t.token_to_id(), c.token_to_id());
}

#[test]
fn token_id_finds_words() {
    let t = BpeTokenizer::train("hello hello world", 270).unwrap();
    assert_eq!(t.token_id(b"h"), Some(104));
    assert_eq!(t.token_id(&[0u8]), Some(0));
    assert_eq!(t.token_id(b""), None);
    assert_eq!(t.token_id(b"zzzzzz"), None);
    for (id, word) in t.vocabulary().iter().enumerate() {
        let found = t.token_id(word).unwrap() as usize;
        assert_eq!(&t.vocabulary()[found], word);
        assert!(found >= id);
    }
}

#[test]
fn train_numbers_rules_in_order() {
    let t = BpeTokenizer::train("hello hello world hello", 275).unwrap();
    assert!(!t.merge_rules().is_empty());
    for (k, r) in t.merge_rules().iter().enumerate() {
        assert_eq!(r.result as usize, 256 + k);
        assert_eq!(r.priority as usize, k + 1);
        assert!((r.pair_a as usize) < 256 + k);
        assert!((r.pair_b as usize) < 256 + k);
        let mut joined = t.vocabulary()[r.pair_a as usize].clone();
        joined.extend_from_slice(&t.vocabulary()[r.pair_b as usize]);
        assert_eq!(t.vocabulary()[256 + k], joined);
    }
}

#[test]
fn train_stops_short_only_on_a_single_token() {
    for (corpus, size) in [("ab", 300usize), ("abcabc", 400), ("hello world", 1000)] {
        let t = BpeTokenizer::train(corpus, size).unwrap();
        assert!(t.vocab_size() < size);
        assert!(t.encode(corpus).len() <= 1);
    }
    let t = BpeTokenizer::train("hello world", 260).unwrap();
    assert_eq!(t.vocab_size(), 260);
    assert!(t.encode("hello world").len() > 1);
}

#[test]
fn train_words_are_no_longer_than_the_corpus() {
    for (corpus, size) in [("aaaaaaaa", 300usize), ("ab ab ab", 300), ("hello hello world", 290)] {
        let t = BpeTokenizer::train(corpus, size).unwrap();
        for w in &t.vocabulary()[256..] {
            assert!(w.len() <= corpus.len());
        }
        let t2 = BpeTokenizer::from_bytes(&t.to_bytes()).unwrap();
        assert_eq!(t.vocabulary(), t2.vocabulary());
    }
    let t = BpeTokenizer::train("aaaaaaaa", 300).unwrap();
    assert_eq!(t.vocabulary().last().unwrap().len(), 8);
}
