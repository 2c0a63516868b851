use mura::normalize::Normalizer;
use mura::text::char_is_whitespace;

#[test]
fn normalize_leet_speak() {
    let n = Normalizer::new();
    assert_eq!(n.normalize("g@g0"), "gago");
    assert_eq!(n.normalize("b0b0"), "bobo");
    assert_eq!(n.normalize("t@ng1n@"), "tangina");
}

#[test]
fn normalize_separators() {
    let n = Normalizer::new();
    assert_eq!(n.normalize("g.a.g.o"), "gago");
    assert_eq!(n.normalize("g-a-g-o"), "gago");
    assert_eq!(n.normalize("g_a_g_o"), "gago");
}

#[test]
fn normalize_repeated_chars() {
    let n = Normalizer::new();
    assert_eq!(n.normalize("gaaaago"), "gaago");
    assert_eq!(n.normalize("boooobo"), "bobo");
}

#[test]
fn normalize_keeps_runs_of_two() {
    let n = Normalizer::new();
    assert_eq!(n.normalize("gaago"), "gaago");
    assert_eq!(n.normalize("aaa"), "aa");
    assert_eq!(n.normalize("oo"), "oo");
    assert_eq!(n.normalize("good"), "good");
}

#[test]
fn normalize_cuts_long_o_runs_to_one() {
    let n = Normalizer::new();
    assert_eq!(n.normalize("ooo"), "o");
    assert_eq!(n.normalize("g0000d"), "god");
    assert_eq!(n.normalize("booooo"), "bo");
    assert_eq!(n.normalize("eeee ooo"), "eeo");
}

#[test]
fn normalize_preserving_spaces() {
    let n = Normalizer::new();
    assert_eq!(n.normalize_preserving_spaces("G@g0  m0!!"), "gago mo");
}

#[test]
fn normalize_mixed_case() {
    let n = Normalizer::new();
    assert_eq!(n.normalize("GAGO"), "gago");
    assert_eq!(n.normalize("GaGo"), "gago");
}

#[test]
fn normalize_empty_and_whitespace() {
    let n = Normalizer::new();
    assert_eq!(n.normalize(""), "");
    assert_eq!(n.normalize_preserving_spaces("   "), "");
}

#[test]
fn normalize_removes_spaces() {
    let n = Normalizer::new();
    assert_eq!(n.normalize("g@g0  m0!!"), "gagomo");
    assert_eq!(n.normalize("   "), "");
    assert_eq!(n.normalize("a\tb\nc d"), "abcd");
    // a run is counted after the spaces between its letters are gone
    assert_eq!(n.normalize("a a a"), "aa");
}

#[test]
fn normalize_substitutes_every_table_entry() {
    let n = Normalizer::new();
    assert_eq!(n.normalize("@4 3 $1 7 0 5 +"), "aaesitost");
}

#[test]
fn normalize_counts_runs_after_substitution() {
    let n = Normalizer::new();
    // '0', 'o' and 'O' all become 'o': one run of four, cut to one
    assert_eq!(n.normalize("g0oOo"), "go");
    // separators are removed before runs are counted
    assert_eq!(n.normalize("a.a.a.a"), "aa");
}

#[test]
fn normalize_preserving_spaces_trims_and_squashes() {
    let n = Normalizer::new();
    assert_eq!(n.normalize_preserving_spaces("  hello \t\n  w0rld  "), "hello world");
    assert_eq!(n.normalize_preserving_spaces("a - b"), "a b");
    assert_eq!(n.normalize_preserving_spaces("!!!"), "");
    assert_eq!(n.normalize_preserving_spaces("heeeey  yoooo"), "heey yo");
}

#[test]
fn default_is_new() {
    let n = Normalizer::default();
    assert_eq!(n.normalize("G@G0"), "gago");
}

#[test]
fn whitespace_class_matches_std() {
    for c in ['\u{0}', 'a', 'Z', '0', '_', '\u{200B}', '\u{FEFF}', '\u{180E}', 'é'] {
        assert!(!char_is_whitespace(c));
    }
    for c in [' ', '\t', '\n', '\u{0B}', '\u{0C}', '\r', '\u{85}', '\u{A0}', '\u{1680}', '\u{2000}', '\u{200A}', '\u{2028}', '\u{2029}', '\u{202F}', '\u{205F}', '\u{3000}'] {
        assert!(char_is_whitespace(c));
    }
    for u in 0u32..0x3100 {
        if let Some(c) = char::from_u32(u) {
            assert_eq!(char_is_whitespace(c), c.is_whitespace());
        }
    }
}

#[test]
fn normalize_twice_changes_nothing() {
    let n = Normalizer::new();
    for text in ["G@g0  m0!!", "boooobo", "t@ng1n@ m0", "ÉCOLE 1337", "a.a.a.a", "", "   "] {
        let once = n.normalize(text);
        assert_eq!(n.normalize(&once), once);
    }
}
