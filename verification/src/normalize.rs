//! Text normaliser: lower case, leetspeak substitution, separator removal and
//! collapsing of repeated letters.
use vstd::prelude::*;

use crate::text::{
    char_is_alphanumeric, char_is_whitespace, is_alphanumeric, is_whitespace, lowercase,
    str_to_lowercase, string_push,
};

verus! {

/// The leetspeak table: `@`→a, `4`→a, `3`→e, `$`→s, `1`→i, `7`→t, `0`→o, `5`→s, `+`→t.
pub open spec fn leet_table() -> Seq<(char, char)> {
    seq![
        ('@', 'a'),
        ('4', 'a'),
        ('3', 'e'),
        ('$', 's'),
        ('1', 'i'),
        ('7', 't'),
        ('0', 'o'),
        ('5', 's'),
        ('+', 't'),
    ]
}

/// The replacement of `c` by the first entry of `subs` that names it, or `c` itself.
pub open spec fn substitute(subs: Seq<(char, char)>, c: char) -> char
    decreases subs.len(),
{
    if subs.len() == 0 {
        c
    } else if subs[0].0 == c {
        subs[0].1
    } else {
        substitute(subs.skip(1), c)
    }
}

/// Every character replaced by its substitute.
pub open spec fn substitute_all(subs: Seq<(char, char)>, s: Seq<char>) -> Seq<char> {
    s.map_values(|c: char| substitute(subs, c))
}

/// What survives separator removal: a letter or a digit that is not whitespace,
/// and whitespace too when `keep_whitespace` holds.
pub open spec fn is_kept(c: char, keep_whitespace: bool) -> bool {
    if is_whitespace(c) {
        keep_whitespace
    } else {
        is_alphanumeric(c)
    }
}

/// The characters of `s` that are kept, in order.
pub open spec fn kept(s: Seq<char>, keep_whitespace: bool) -> Seq<char>
    decreases s.len(),
{
    if s.len() == 0 {
        Seq::empty()
    } else {
        kept(s.drop_last(), keep_whitespace) + if is_kept(s.last(), keep_whitespace) {
            seq![s.last()]
        } else {
            Seq::empty()
        }
    }
}

/// Separator removal keeps exactly the letters and digits that are not
/// whitespace, plus the whitespace when `keep_whitespace` holds, in their order.
pub proof fn lemma_kept_is_filter(s: Seq<char>, keep_whitespace: bool)
    ensures
        kept(s, keep_whitespace) == s.filter(
            |c: char|
                (keep_whitespace && is_whitespace(c)) || (!is_whitespace(c) && is_alphanumeric(
                    c,
                )),
        ),
    decreases s.len(),
{
    reveal_with_fuel(Seq::filter, 1);
    if s.len() > 0 {
        lemma_kept_is_filter(s.drop_last(), keep_whitespace);
    }
}

/// Length of the run of equal characters that ends at position `i`.
pub open spec fn run_len(s: Seq<char>, i: int) -> nat
    decreases i,
{
    if i > 0 && s[i] == s[i - 1] {
        run_len(s, i - 1) + 1
    } else {
        1
    }
}

/// Length of the run of equal characters that starts at position `i` and goes forward.
pub open spec fn run_ahead(s: Seq<char>, i: int) -> nat
    decreases s.len() - i,
{
    if 0 <= i && i + 1 < s.len() && s[i + 1] == s[i] {
        run_ahead(s, i + 1) + 1
    } else {
        1
    }
}

/// Length of the whole run of equal characters through position `i`.
pub open spec fn run_total(s: Seq<char>, i: int) -> int {
    run_len(s, i) + run_ahead(s, i) - 1
}

/// How many characters of the run through position `i` are kept: one for a run
/// of three or more `o`s, two for any other run.
pub open spec fn run_cap(s: Seq<char>, i: int) -> nat {
    if s[i] == 'o' && run_total(s, i) >= 3 {
        1
    } else {
        2
    }
}

/// The first `n` characters of `s`, keeping a character only while its run has
/// not yet reached its cap (see [`run_cap`]).
pub open spec fn collapse_upto(s: Seq<char>, n: int) -> Seq<char>
    decreases n,
{
    if n <= 0 {
        Seq::empty()
    } else {
        collapse_upto(s, n - 1) + if run_len(s, n - 1) <= run_cap(s, n - 1) {
            seq![s[n - 1]]
        } else {
            Seq::empty()
        }
    }
}

/// `s` with long runs cut: a run of three or more `o`s becomes one `o`, and any
/// other run of three or more equal characters becomes two. Shorter runs stay.
pub open spec fn collapse_repeats(s: Seq<char>) -> Seq<char> {
    collapse_upto(s, s.len() as int)
}

/// The first `n` characters of `s` with whitespace squashed: the output so far,
/// and whether whitespace has been seen since its last character. Whitespace
/// before the first other character is dropped.
pub open spec fn squash_upto(s: Seq<char>, n: int) -> (Seq<char>, bool)
    decreases n,
{
    if n <= 0 {
        (Seq::empty(), false)
    } else {
        let (out, pending) = squash_upto(s, n - 1);
        let c = s[n - 1];
        if is_whitespace(c) {
            (out, out.len() > 0)
        } else if pending {
            (out.push(' ').push(c), false)
        } else {
            (out.push(c), false)
        }
    }
}

/// `s` with leading and trailing whitespace removed and every inner run of
/// whitespace replaced by a single space.
pub open spec fn squash_spaces(s: Seq<char>) -> Seq<char> {
    squash_upto(s, s.len() as int).0
}

/// Every character of `s` is whitespace.
pub open spec fn all_whitespace(s: Seq<char>) -> bool {
    forall|k: int| 0 <= k < s.len() ==> is_whitespace(#[trigger] s[k])
}

/// No character of `s` is whitespace.
pub open spec fn no_whitespace(s: Seq<char>) -> bool {
    forall|k: int| 0 <= k < s.len() ==> !is_whitespace(#[trigger] s[k])
}

proof fn lemma_squash_prefix(s: Seq<char>, t: Seq<char>, k: int)
    requires
        0 <= k <= s.len(),
    ensures
        squash_upto(s + t, k) == squash_upto(s, k),
    decreases k,
{
    if k > 0 {
        lemma_squash_prefix(s, t, k - 1);
        assert((s + t)[k - 1] == s[k - 1]);
    }
}

proof fn lemma_squash_ws(s: Seq<char>, ws: Seq<char>, m: int)
    requires
        all_whitespace(ws),
        1 <= m <= ws.len(),
    ensures
        squash_upto(s + ws, s.len() + m) == (squash_spaces(s), squash_spaces(s).len() > 0),
    decreases m,
{
    let n = s.len() + m;
    assert((s + ws)[n - 1] == ws[m - 1]);
    assert(is_whitespace(ws[m - 1]));
    if m == 1 {
        lemma_squash_prefix(s, ws, s.len() as int);
    } else {
        lemma_squash_ws(s, ws, m - 1);
    }
}

proof fn lemma_squash_word(s: Seq<char>, w: Seq<char>, m: int)
    requires
        no_whitespace(w),
        1 <= m <= w.len(),
    ensures
        ({
            let (o, p) = squash_upto(s, s.len() as int);
            squash_upto(s + w, s.len() + m) == (
                (if p {
                    o.push(' ')
                } else {
                    o
                }) + w.take(m),
                false,
            )
        }),
    decreases m,
{
    let (o, p) = squash_upto(s, s.len() as int);
    let base = if p {
        o.push(' ')
    } else {
        o
    };
    let n = s.len() + m;
    assert((s + w)[n - 1] == w[m - 1]);
    assert(!is_whitespace(w[m - 1]));
    if m == 1 {
        lemma_squash_prefix(s, w, s.len() as int);
        assert(base + w.take(1) =~= base.push(w[0]));
    } else {
        lemma_squash_word(s, w, m - 1);
        assert(base + w.take(m) =~= (base + w.take(m - 1)).push(w[m - 1]));
    }
}

/// Squashing leaves a single word (no whitespace) as it is.
pub proof fn lemma_squash_word_alone(w: Seq<char>)
    requires
        no_whitespace(w),
    ensures
        squash_spaces(w) == w,
{
    if w.len() > 0 {
        lemma_squash_word(Seq::empty(), w, w.len() as int);
        assert(Seq::<char>::empty() + w =~= w);
        assert(w.take(w.len() as int) =~= w);
    }
}

/// A run of whitespace and then a word, after some text: the word follows the
/// squashed text after exactly one space (or alone, when the text squashes to
/// nothing). So every gap between words becomes one space.
pub proof fn lemma_squash_gap(s: Seq<char>, ws: Seq<char>, w: Seq<char>)
    requires
        all_whitespace(ws),
        ws.len() > 0,
        no_whitespace(w),
        w.len() > 0,
    ensures
        squash_spaces(s + ws + w) == if squash_spaces(s).len() > 0 {
            squash_spaces(s) + seq![' '] + w
        } else {
            w
        },
{
    let s2 = s + ws;
    lemma_squash_ws(s, ws, ws.len() as int);
    lemma_squash_word(s2, w, w.len() as int);
    assert(w.take(w.len() as int) =~= w);
    assert(squash_spaces(s).push(' ') + w =~= squash_spaces(s) + seq![' '] + w);
    assert(Seq::<char>::empty() + w =~= w);
}

/// Whitespace at the end is dropped.
pub proof fn lemma_squash_trailing(s: Seq<char>, ws: Seq<char>)
    requires
        all_whitespace(ws),
    ensures
        squash_spaces(s + ws) == squash_spaces(s),
{
    if ws.len() == 0 {
        assert(s + ws =~= s);
    } else {
        lemma_squash_ws(s, ws, ws.len() as int);
    }
}

/// Letters added to the end of a word extend it: no space comes between.
pub proof fn lemma_squash_extend(s: Seq<char>, w: Seq<char>)
    requires
        no_whitespace(w),
        s.len() == 0 || !is_whitespace(s.last()),
    ensures
        squash_spaces(s + w) == squash_spaces(s) + w,
{
    if w.len() == 0 {
        assert(s + w =~= s);
    } else {
        lemma_squash_word(s, w, w.len() as int);
        assert(w.take(w.len() as int) =~= w);
    }
}

/// The normal form of a text: lower case, leetspeak replaced, only letters and
/// digits kept (separators and spaces removed), long runs cut (see
/// [`collapse_repeats`]): "gaaaago" gives "gaago", "boooobo" gives "bobo".
pub open spec fn spec_normalize(subs: Seq<(char, char)>, text: Seq<char>) -> Seq<char> {
    collapse_repeats(kept(substitute_all(subs, lowercase(text)), false))
}

/// The normal form of a text with its words kept apart: like [`spec_normalize`],
/// but whitespace runs become single spaces and the ends are trimmed.
pub open spec fn spec_normalize_preserving_spaces(subs: Seq<(char, char)>, text: Seq<char>) -> Seq<char> {
    collapse_repeats(squash_spaces(kept(substitute_all(subs, lowercase(text)), true)))
}

/// No run of equal characters in `s` is longer than two.
pub open spec fn runs_at_most_two(s: Seq<char>) -> bool {
    forall|k: int| 0 <= k < s.len() ==> #[trigger] run_len(s, k) <= 2
}

proof fn lemma_run_len_push(s: Seq<char>, c: char, k: int)
    requires
        0 <= k < s.len(),
    ensures
        run_len(s.push(c), k) == run_len(s, k),
    decreases k,
{
    if k > 0 {
        lemma_run_len_push(s, c, k - 1);
    }
}

/// Inside a run, the next position has the same total and the same cap.
proof fn lemma_run_step(s: Seq<char>, i: int)
    requires
        1 <= i < s.len(),
        s[i] == s[i - 1],
    ensures
        run_len(s, i) == run_len(s, i - 1) + 1,
        run_ahead(s, i - 1) == run_ahead(s, i) + 1,
        run_total(s, i) == run_total(s, i - 1),
        run_cap(s, i) == run_cap(s, i - 1),
{
}

/// A scan from `i` that stops at the first different character measures the run ahead.
proof fn lemma_run_ahead_span(s: Seq<char>, i: int, j: int)
    requires
        0 <= i < j <= s.len(),
        forall|k: int| i <= k < j ==> s[k] == s[i],
        j == s.len() || s[j] != s[i],
    ensures
        run_ahead(s, i) == j - i,
    decreases j - i,
{
    if i + 1 < j {
        assert(s[i + 1] == s[i]);
        lemma_run_ahead_span(s, i + 1, j);
    }
}

/// The run through `i` ends at `i + run_ahead(s, i) - 1`, where its length is the total.
proof fn lemma_run_end(s: Seq<char>, i: int)
    requires
        0 <= i < s.len(),
    ensures
        i + run_ahead(s, i) - 1 < s.len(),
        run_len(s, i + run_ahead(s, i) - 1) == run_total(s, i),
    decreases s.len() - i,
{
    if i + 1 < s.len() && s[i + 1] == s[i] {
        lemma_run_end(s, i + 1);
        lemma_run_step(s, i + 1);
    }
}

proof fn lemma_collapse_upto(s: Seq<char>, n: int)
    requires
        0 <= n <= s.len(),
    ensures
        runs_at_most_two(collapse_upto(s, n)),
        n > 0 ==> {
            let o = collapse_upto(s, n);
            &&& o.len() > 0
            &&& o.last() == s[n - 1]
            &&& run_len(o, o.len() - 1) == if run_len(s, n - 1) < run_cap(s, n - 1) {
                run_len(s, n - 1)
            } else {
                run_cap(s, n - 1)
            }
        },
        forall|k: int|
            0 <= k < collapse_upto(s, n).len() ==> exists|j: int|
                0 <= j < n && #[trigger] collapse_upto(s, n)[k] == s[j],
        n > 0 ==> collapse_upto(s, n)[0] == s[0],
    decreases n,
{
    if n > 0 {
        lemma_collapse_upto(s, n - 1);
        let o = collapse_upto(s, n - 1);
        let c = s[n - 1];
        let same = n >= 2 && c == s[n - 2];
        if same {
            lemma_run_step(s, n - 1);
        }
        if run_len(s, n - 1) <= run_cap(s, n - 1) {
            let o2 = o.push(c);
            assert(collapse_upto(s, n) =~= o2);
            assert forall|k: int| 0 <= k < o.len() implies run_len(o2, k) == run_len(o, k) by {
                lemma_run_len_push(o, c, k);
            }
            if same {
                assert(o2[o.len() as int] == o2[o.len() - 1]);
                assert(run_len(o2, o.len() as int) == run_len(o, o.len() - 1) + 1);
            } else {
                assert(run_len(s, n - 1) == 1);
                if o.len() > 0 {
                    assert(o2[o.len() - 1] == o.last());
                }
            }
            assert forall|k: int| 0 <= k < o2.len() implies #[trigger] run_len(o2, k) <= 2 by {
                if k < o.len() {
                    assert(run_len(o2, k) == run_len(o, k));
                }
            }
            assert forall|k: int| 0 <= k < o2.len() implies exists|j: int|
                0 <= j < n && #[trigger] o2[k] == s[j] by {
                if k < o.len() {
                    assert(o2[k] == o[k]);
                } else {
                    assert(o2[k] == s[n - 1]);
                }
            }
            if n > 1 {
                assert(o2[0] == o[0]);
            }
        } else {
            assert(same);
            assert(collapse_upto(s, n) =~= o);
        }
    }
}

/// Cutting runs leaves no run longer than two, keeps the first and last
/// characters, and takes every character from the input.
pub proof fn lemma_collapse_repeats(s: Seq<char>)
    ensures
        runs_at_most_two(collapse_repeats(s)),
        forall|k: int|
            0 <= k < collapse_repeats(s).len() ==> exists|j: int|
                0 <= j < s.len() && #[trigger] collapse_repeats(s)[k] == s[j],
        s.len() > 0 ==> collapse_repeats(s).len() > 0 && collapse_repeats(s)[0] == s[0]
            && collapse_repeats(s).last() == s.last(),
{
    lemma_collapse_upto(s, s.len() as int);
}

proof fn lemma_kept(s: Seq<char>, w: bool)
    ensures
        forall|k: int| 0 <= k < kept(s, w).len() ==> is_kept(#[trigger] kept(s, w)[k], w),
    decreases s.len(),
{
    if s.len() > 0 {
        lemma_kept(s.drop_last(), w);
        let o = kept(s.drop_last(), w);
        assert forall|k: int| 0 <= k < kept(s, w).len() implies is_kept(#[trigger] kept(s, w)[k], w) by {
            if k < o.len() {
                assert(kept(s, w)[k] == o[k]);
            }
        }
    }
}

proof fn lemma_squash_upto(s: Seq<char>, n: int)
    requires
        0 <= n <= s.len(),
        forall|k: int| 0 <= k < s.len() ==> is_kept(#[trigger] s[k], true),
    ensures
        ({
            let (o, pending) = squash_upto(s, n);
            &&& forall|k: int|
                0 <= k < o.len() ==> (is_alphanumeric(#[trigger] o[k]) && !is_whitespace(o[k]))
                    || o[k] == ' '
            &&& o.len() > 0 ==> is_alphanumeric(o[0]) && !is_whitespace(o[0])
            &&& o.len() > 0 ==> is_alphanumeric(o.last()) && !is_whitespace(o.last())
            &&& pending ==> o.len() > 0
        }),
    decreases n,
{
    if n > 0 {
        lemma_squash_upto(s, n - 1);
        let (o, pending) = squash_upto(s, n - 1);
        let c = s[n - 1];
        assert(is_kept(c, true));
        if is_whitespace(c) {
        } else if pending {
            let o2 = o.push(' ').push(c);
            assert forall|k: int| 0 <= k < o2.len() implies (is_alphanumeric(#[trigger] o2[k])
                && !is_whitespace(o2[k])) || o2[k] == ' ' by {
                if k < o.len() {
                    assert(o2[k] == o[k]);
                }
            }
            assert(o2[0] == o[0]);
        } else {
            let o2 = o.push(c);
            assert forall|k: int| 0 <= k < o2.len() implies (is_alphanumeric(#[trigger] o2[k])
                && !is_whitespace(o2[k])) || o2[k] == ' ' by {
                if k < o.len() {
                    assert(o2[k] == o[k]);
                }
            }
            if o.len() > 0 {
                assert(o2[0] == o[0]);
            }
        }
    }
}

/// `c` is a key of the leetspeak table.
pub open spec fn is_leet_key(c: char) -> bool {
    exists|j: int| 0 <= j < leet_table().len() && #[trigger] leet_table()[j].0 == c
}

proof fn lemma_substitute_leaves_no_key(c: char)
    ensures
        !is_leet_key(substitute(leet_table(), c)),
{
    reveal_with_fuel(substitute, 10);
    let t = leet_table();
    if is_leet_key(substitute(t, c)) {
        let j = choose|j: int| 0 <= j < t.len() && #[trigger] t[j].0 == substitute(t, c);
        assert(false);
    }
}

proof fn lemma_kept_from(s: Seq<char>, w: bool)
    ensures
        forall|k: int|
            0 <= k < kept(s, w).len() ==> exists|j: int|
                0 <= j < s.len() && #[trigger] kept(s, w)[k] == s[j],
    decreases s.len(),
{
    if s.len() > 0 {
        lemma_kept_from(s.drop_last(), w);
        let o = kept(s.drop_last(), w);
        assert forall|k: int| 0 <= k < kept(s, w).len() implies exists|j: int|
            0 <= j < s.len() && #[trigger] kept(s, w)[k] == s[j] by {
            if k < o.len() {
                assert(kept(s, w)[k] == o[k]);
                let j = choose|j: int| 0 <= j < s.drop_last().len() && #[trigger] o[k]
                    == s.drop_last()[j];
                assert(s[j] == s.drop_last()[j]);
            } else {
                assert(kept(s, w)[k] == s[s.len() - 1]);
            }
        }
    }
}

proof fn lemma_kept_all(s: Seq<char>, w: bool)
    requires
        forall|k: int| 0 <= k < s.len() ==> is_kept(#[trigger] s[k], w),
    ensures
        kept(s, w) == s,
    decreases s.len(),
{
    if s.len() > 0 {
        lemma_kept_all(s.drop_last(), w);
        assert(is_kept(s[s.len() - 1], w));
        assert(kept(s, w) =~= s.drop_last().push(s.last()));
        assert(s.drop_last().push(s.last()) =~= s);
    }
}

proof fn lemma_collapse_upto_short_runs(s: Seq<char>, n: int)
    requires
        0 <= n <= s.len(),
        runs_at_most_two(s),
    ensures
        collapse_upto(s, n) == s.take(n),
    decreases n,
{
    if n > 0 {
        lemma_collapse_upto_short_runs(s, n - 1);
        lemma_run_end(s, n - 1);
        assert(run_len(s, n - 1 + run_ahead(s, n - 1) - 1) <= 2);
        assert(run_len(s, n - 1) <= 2);
        assert(s.take(n) =~= s.take(n - 1).push(s[n - 1]));
    }
}

/// Normalising a normal form again leaves it unchanged, provided lower-casing
/// leaves it unchanged. (That lower-casing does so is not stated by any trusted
/// item; every other stage is shown here to fix the normal form.)
pub proof fn lemma_normal_form_stable(text: Seq<char>)
    ensures
        ({
            let r = spec_normalize(leet_table(), text);
            lowercase(r) == r ==> spec_normalize(leet_table(), r) == r
        }),
{
    let subbed = substitute_all(leet_table(), lowercase(text));
    let k = kept(subbed, false);
    let r = collapse_repeats(k);
    lemma_collapse_repeats(k);
    lemma_kept(subbed, false);
    lemma_kept_from(subbed, false);
    assert forall|i: int| 0 <= i < r.len() implies is_kept(#[trigger] r[i], false) && !is_leet_key(
        r[i],
    ) by {
        let j = choose|j: int| 0 <= j < k.len() && #[trigger] r[i] == k[j];
        let m = choose|m: int| 0 <= m < subbed.len() && #[trigger] k[j] == subbed[m];
        lemma_substitute_leaves_no_key(lowercase(text)[m]);
    }
    assert forall|i: int| 0 <= i < r.len() implies #[trigger] substitute(leet_table(), r[i])
        == r[i] by {
        reveal_with_fuel(substitute, 10);
        assert(!is_leet_key(r[i]));
    }
    assert(substitute_all(leet_table(), r) =~= r);
    lemma_kept_all(r, false);
    lemma_collapse_upto_short_runs(r, r.len() as int);
    assert(r.take(r.len() as int) =~= r);
}

/// The characters of a string slice, in order.
fn chars_of(s: &str) -> (res: Vec<char>)
    ensures
        res@ == s@,
{
    broadcast use vstd::string::group_string_axioms;

    let mut out: Vec<char> = Vec::new();
    for c in it: s.chars()
        invariant
            it.seq() == s@,
            out@ == it.seq().take(it.index() as int),
    {
        out.push(c);
    }
    out
}

/// The substitute of `c` in `subs`.
fn substitute_char(subs: &Vec<(char, char)>, c: char) -> (res: char)
    ensures
        res == substitute(subs@, c),
{
    let mut j: usize = 0;
    assert(subs@.skip(0) =~= subs@);
    while j < subs.len()
        invariant
            j <= subs@.len(),
            substitute(subs@, c) == substitute(subs@.skip(j as int), c),
        decreases subs.len() - j,
    {
        let ghost rest = subs@.skip(j as int);
        assert(rest.skip(1) =~= subs@.skip(j + 1));
        if c == subs[j].0 {
            return subs[j].1;
        }
        j = j + 1;
    }
    c
}

/// Lower case, substitution and separator removal: the kept characters.
fn cleaned_chars(subs: &Vec<(char, char)>, text: &str, keep_whitespace: bool) -> (res: Vec<char>)
    ensures
        res@ == kept(substitute_all(subs@, lowercase(text@)), keep_whitespace),
{
    let lower = str_to_lowercase(text);
    let chars_vec = chars_of(lower.as_str());
    let ghost mapped = substitute_all(subs@, chars_vec@);
    let mut out: Vec<char> = Vec::new();
    let mut i: usize = 0;
    while i < chars_vec.len()
        invariant
            i <= chars_vec@.len(),
            mapped == substitute_all(subs@, chars_vec@),
            out@ == kept(mapped.take(i as int), keep_whitespace),
        decreases chars_vec.len() - i,
    {
        let c = substitute_char(subs, chars_vec[i]);
        proof {
            assert(mapped.take(i + 1).drop_last() =~= mapped.take(i as int));
            assert(mapped.take(i + 1).last() == c);
        }
        let keep = if char_is_whitespace(c) {
            keep_whitespace
        } else {
            char_is_alphanumeric(c)
        };
        if keep {
            out.push(c);
        }
        i = i + 1;
    }
    assert(mapped.take(i as int) =~= mapped);
    out
}

/// Cuts long runs (see [`collapse_repeats`]) and builds the string.
fn collapse_into_string(chars_vec: &Vec<char>) -> (res: String)
    ensures
        res@ == collapse_repeats(chars_vec@),
{
    let ghost s = chars_vec@;
    let mut remove_repeats = String::new();
    let mut prev_char = ' ';
    let mut count: usize = 0;
    let mut total: usize = 0;
    let mut i: usize = 0;
    while i < chars_vec.len()
        invariant
            s == chars_vec@,
            i <= s.len(),
            remove_repeats@ == collapse_upto(s, i as int),
            i == 0 ==> count == 0 && prev_char == ' ',
            i > 0 ==> prev_char == s[i - 1] && count == run_len(s, i - 1) && total == run_total(
                s,
                i - 1,
            ),
            count <= i,
        decreases chars_vec.len() - i,
    {
        let c = chars_vec[i];
        if c == prev_char {
            count = count + 1;
        } else {
            count = 1;
            prev_char = c;
        }
        proof {
            if i > 0 && c == s[i - 1] {
                lemma_run_step(s, i as int);
            }
        }
        if count == 1 {
            // a new run starts here: measure it
            let mut j: usize = i + 1;
            while j < chars_vec.len() && chars_vec[j] == c
                invariant
                    s == chars_vec@,
                    i < j <= s.len(),
                    c == s[i as int],
                    forall|k: int| i <= k < j ==> s[k] == s[i as int],
                decreases chars_vec.len() - j,
            {
                j = j + 1;
            }
            proof {
                lemma_run_ahead_span(s, i as int, j as int);
            }
            total = j - i;
        }
        let keep = if c == 'o' && total >= 3 {
            count <= 1
        } else {
            count <= 2
        };
        if keep {
            string_push(&mut remove_repeats, c);
        }
        i = i + 1;
    }
    remove_repeats
}

/// Squashes whitespace: drops it at both ends and turns every inner run into one space.
fn squash_whitespace(chars_vec: &Vec<char>) -> (res: Vec<char>)
    ensures
        res@ == squash_spaces(chars_vec@),
{
    let ghost s = chars_vec@;
    let mut out: Vec<char> = Vec::new();
    let mut pending = false;
    let mut i: usize = 0;
    while i < chars_vec.len()
        invariant
            s == chars_vec@,
            i <= s.len(),
            (out@, pending) == squash_upto(s, i as int),
        decreases chars_vec.len() - i,
    {
        let c = chars_vec[i];
        if char_is_whitespace(c) {
            pending = out.len() > 0;
        } else {
            if pending {
                out.push(' ');
            }
            out.push(c);
            pending = false;
        }
        i = i + 1;
    }
    out
}

/// Normalises text for matching: a fixed leetspeak substitution table.
#[derive(Debug, Clone)]
pub struct Normalizer {
    substitutions: Vec<(char, char)>,
}

impl Normalizer {
    /// The substitution table, in the order in which entries are tried.
    pub closed spec fn substitutions_view(&self) -> Seq<(char, char)> {
        self.substitutions@
    }

    /// A normaliser with the leetspeak table.
    pub fn new() -> (res: Self)
        ensures
            res.substitutions_view() == leet_table(),
    {
        let mut substitutions: Vec<(char, char)> = Vec::new();
        substitutions.push(('@', 'a'));
        substitutions.push(('4', 'a'));
        substitutions.push(('3', 'e'));
        substitutions.push(('$', 's'));
        substitutions.push(('1', 'i'));
        substitutions.push(('7', 't'));
        substitutions.push(('0', 'o'));
        substitutions.push(('5', 's'));
        substitutions.push(('+', 't'));
        assert(substitutions@ =~= leet_table());
        Self { substitutions }
    }

    /// Lower-cases the text, replaces leetspeak, drops everything but letters and
    /// digits (separators and spaces alike), and cuts long runs of equal characters:
    /// three or more `o`s to one, any other run of three or more to two.
    pub fn normalize(&self, text: &str) -> (res: String)
        ensures
            res@ == spec_normalize(self.substitutions_view(), text@),
            runs_at_most_two(res@),
            forall|k: int|
                0 <= k < res@.len() ==> is_alphanumeric(#[trigger] res@[k]) && !is_whitespace(
                    res@[k],
                ),
    {
        let chars_vec = cleaned_chars(&self.substitutions, text, false);
        let res = collapse_into_string(&chars_vec);
        proof {
            lemma_kept(substitute_all(self.substitutions@, lowercase(text@)), false);
            lemma_collapse_repeats(chars_vec@);
            assert forall|k: int| 0 <= k < res@.len() implies is_alphanumeric(#[trigger] res@[k])
                && !is_whitespace(res@[k]) by {
                let j = choose|j: int| 0 <= j < chars_vec@.len() && #[trigger] res@[k] == chars_vec@[j];
            }
        }
        res
    }

    /// Like [`Normalizer::normalize`], but keeps words apart: whitespace runs become
    /// single spaces, and whitespace at either end is dropped.
    pub fn normalize_preserving_spaces(&self, text: &str) -> (res: String)
        ensures
            res@ == spec_normalize_preserving_spaces(self.substitutions_view(), text@),
            runs_at_most_two(res@),
            forall|k: int|
                0 <= k < res@.len() ==> (is_alphanumeric(#[trigger] res@[k]) && !is_whitespace(res@[k]))
                    || res@[k] == ' ',
            res@.len() > 0 ==> is_alphanumeric(res@[0]) && !is_whitespace(res@[0]),
            res@.len() > 0 ==> is_alphanumeric(res@.last()) && !is_whitespace(res@.last()),
    {
        let chars_vec = cleaned_chars(&self.substitutions, text, true);
        let squashed = squash_whitespace(&chars_vec);
        let res = collapse_into_string(&squashed);
        proof {
            lemma_kept(substitute_all(self.substitutions@, lowercase(text@)), true);
            lemma_squash_upto(chars_vec@, chars_vec@.len() as int);
            lemma_collapse_repeats(squashed@);
            assert forall|k: int| 0 <= k < res@.len() implies (is_alphanumeric(#[trigger] res@[k])
                && !is_whitespace(res@[k])) || res@[k] == ' ' by {
                let j = choose|j: int| 0 <= j < squashed@.len() && #[trigger] res@[k] == squashed@[j];
            }
        }
        res
    }
}

impl Default for Normalizer {
    fn default() -> (res: Self)
        ensures
            res.substitutions_view() == leet_table(),
    {
        Self::new()
    }
}

} // verus!
