//! Byte-pair-encoding tokenizer: training, encoding, decoding and serialisation.
use vstd::prelude::*;

use crate::error::{MuraError, MuraResult};
use crate::le_bytes::{
    lemma_subrange_split, lemma_u32_in, push_u32_le, read_u32_le, spec_u32_from_le, spec_u32_le,
};
use crate::text::{string_from_utf8_lossy, utf8_lossy};

verus! {

/// A merge learned in training: every adjacent `pair_a, pair_b` becomes `result`.
/// `priority` is the rule's rank (1 for the first rule learned).
#[derive(Debug, Clone, Copy, PartialEq, Eq, Structural)]
pub struct MergeRule {
    pub pair_a: u32,
    pub pair_b: u32,
    pub result: u32,
    pub priority: u32,
}

// ---------------------------------------------------------------------------
// Token sequences and merging
// ---------------------------------------------------------------------------

/// The adjacent pair of tokens at positions `i` and `i + 1`.
pub open spec fn pair_at(t: Seq<u32>, i: int) -> (u32, u32) {
    (t[i], t[i + 1])
}

/// Left-to-right, non-overlapping replacement of every adjacent `a, b` in `t` by `r`.
pub open spec fn spec_merge(t: Seq<u32>, a: u32, b: u32, r: u32) -> Seq<u32>
    decreases t.len(),
{
    if t.len() == 0 {
        Seq::empty()
    } else if t.len() >= 2 && t[0] == a && t[1] == b {
        seq![r] + spec_merge(t.skip(2), a, b, r)
    } else {
        seq![t[0]] + spec_merge(t.skip(1), a, b, r)
    }
}

/// The tokens of a byte string: one token per byte, equal to the byte's value.
pub open spec fn byte_tokens(bytes: Seq<u8>) -> Seq<u32> {
    bytes.map_values(|b: u8| b as u32)
}

/// The tokens left after applying the merge rules to `t`, one rule after the other.
pub open spec fn spec_apply_rules(t: Seq<u32>, rules: Seq<MergeRule>) -> Seq<u32>
    decreases rules.len(),
{
    if rules.len() == 0 {
        t
    } else {
        let r = rules.last();
        spec_merge(spec_apply_rules(t, rules.drop_last()), r.pair_a, r.pair_b, r.result)
    }
}

/// The bytes that a sequence of tokens stands for: the concatenation of their vocabulary entries.
pub open spec fn spec_flatten(vocab: Seq<Seq<u8>>, t: Seq<u32>) -> Seq<u8>
    decreases t.len(),
{
    if t.len() == 0 {
        Seq::empty()
    } else {
        vocab[t[0] as int] + spec_flatten(vocab, t.skip(1))
    }
}

/// Every token names an entry of a vocabulary of `n` words.
pub open spec fn tokens_below(t: Seq<u32>, n: int) -> bool {
    forall|i: int| 0 <= i < t.len() ==> (#[trigger] t[i] as int) < n
}

/// The byte-level vocabulary: word `i` is the single byte `i`, for `i < 256`.
pub open spec fn byte_vocab() -> Seq<Seq<u8>> {
    Seq::new(256, |i: int| seq![i as u8])
}

/// A vocabulary and rules fit together: the first 256 words are the single bytes,
/// and every rule names existing words, its result spelling its pair's words side by side.
pub open spec fn consistent(vocab: Seq<Seq<u8>>, rules: Seq<MergeRule>) -> bool {
    &&& vocab.len() >= 256
    &&& forall|i: int| 0 <= i < 256 ==> #[trigger] vocab[i] == seq![i as u8]
    &&& forall|k: int|
        0 <= k < rules.len() ==> {
            let r = #[trigger] rules[k];
            &&& (r.pair_a as int) < vocab.len()
            &&& (r.pair_b as int) < vocab.len()
            &&& (r.result as int) < vocab.len()
            &&& vocab[r.result as int] == vocab[r.pair_a as int] + vocab[r.pair_b as int]
        }
}

proof fn lemma_merge_skip<A>(t: Seq<A>, n: int, m: int)
    requires
        0 <= n,
        0 <= m,
        n + m <= t.len(),
    ensures
        t.skip(n).skip(m) == t.skip(n + m),
{
    assert(t.skip(n).skip(m) =~= t.skip(n + m));
}

/// Merging never lengthens a sequence, and shortens it when the pair occurs.
pub proof fn lemma_merge_len(t: Seq<u32>, a: u32, b: u32, r: u32)
    ensures
        spec_merge(t, a, b, r).len() <= t.len(),
        (exists|i: int| 0 <= i < t.len() - 1 && #[trigger] pair_at(t, i) == (a, b)) ==> spec_merge(
            t,
            a,
            b,
            r,
        ).len() < t.len(),
    decreases t.len(),
{
    if t.len() == 0 {
    } else if t.len() >= 2 && t[0] == a && t[1] == b {
        lemma_merge_len(t.skip(2), a, b, r);
    } else {
        lemma_merge_len(t.skip(1), a, b, r);
        if exists|i: int| 0 <= i < t.len() - 1 && #[trigger] pair_at(t, i) == (a, b) {
            let i = choose|i: int| 0 <= i < t.len() - 1 && #[trigger] pair_at(t, i) == (a, b);
            assert(i != 0);
            assert(pair_at(t.skip(1), i - 1) == pair_at(t, i));
        }
    }
}

/// Merging keeps every token within a vocabulary that holds the result.
pub proof fn lemma_merge_tokens_below(t: Seq<u32>, a: u32, b: u32, r: u32, n: int)
    requires
        tokens_below(t, n),
        (r as int) < n,
    ensures
        tokens_below(spec_merge(t, a, b, r), n),
    decreases t.len(),
{
    if t.len() == 0 {
    } else if t.len() >= 2 && t[0] == a && t[1] == b {
        lemma_merge_tokens_below(t.skip(2), a, b, r, n);
        assert(tokens_below(t.skip(2), n));
    } else {
        lemma_merge_tokens_below(t.skip(1), a, b, r, n);
        assert(tokens_below(t.skip(1), n));
    }
}

/// Merging works left to right without overlap: a leading `a, b` becomes `r`
/// and merging goes on after it; any other leading token stays and merging goes
/// on from the next one.
pub proof fn lemma_merge_front(t: Seq<u32>, a: u32, b: u32, r: u32, x: u32, y: u32)
    ensures
        spec_merge(Seq::empty(), a, b, r) == Seq::<u32>::empty(),
        spec_merge(seq![x], a, b, r) == seq![x],
        spec_merge(seq![a, b] + t, a, b, r) == seq![r] + spec_merge(t, a, b, r),
        !(x == a && y == b) ==> spec_merge(seq![x, y] + t, a, b, r) == seq![x] + spec_merge(
            seq![y] + t,
            a,
            b,
            r,
        ),
{
    assert((seq![a, b] + t).skip(2) =~= t);
    assert((seq![x, y] + t).skip(1) =~= seq![y] + t);
    assert(seq![x].skip(1) =~= Seq::<u32>::empty());
    reveal_with_fuel(spec_merge, 2);
}

/// Rules apply in order: applying `rules` and then `r` is merging the result of
/// `rules` by `r`'s pair.
pub proof fn lemma_apply_rules_push(t: Seq<u32>, rules: Seq<MergeRule>, r: MergeRule)
    ensures
        spec_apply_rules(t, rules.push(r)) == spec_merge(
            spec_apply_rules(t, rules),
            r.pair_a,
            r.pair_b,
            r.result,
        ),
        spec_apply_rules(t, Seq::empty()) == t,
{
    assert(rules.push(r).drop_last() =~= rules);
}

/// Merging keeps the bytes spelled out, when the result's word is the pair's words joined.
pub proof fn lemma_merge_flatten(vocab: Seq<Seq<u8>>, t: Seq<u32>, a: u32, b: u32, r: u32)
    requires
        vocab[r as int] == vocab[a as int] + vocab[b as int],
    ensures
        spec_flatten(vocab, spec_merge(t, a, b, r)) == spec_flatten(vocab, t),
    decreases t.len(),
{
    if t.len() == 0 {
    } else if t.len() >= 2 && t[0] == a && t[1] == b {
        lemma_merge_flatten(vocab, t.skip(2), a, b, r);
        let m = spec_merge(t.skip(2), a, b, r);
        assert((seq![r] + m).skip(1) =~= m);
        assert(t.skip(1).skip(1) =~= t.skip(2));
        assert(t.skip(1)[0] == b);
        assert(spec_flatten(vocab, t.skip(1)) == vocab[b as int] + spec_flatten(vocab, t.skip(2)));
        assert(spec_flatten(vocab, t) =~= vocab[r as int] + spec_flatten(vocab, t.skip(2)));
    } else {
        lemma_merge_flatten(vocab, t.skip(1), a, b, r);
        let m = spec_merge(t.skip(1), a, b, r);
        assert((seq![t[0]] + m).skip(1) =~= m);
    }
}

/// Spelling out the tokens of a byte string over a consistent vocabulary gives the bytes.
pub proof fn lemma_flatten_byte_tokens(vocab: Seq<Seq<u8>>, bytes: Seq<u8>)
    requires
        vocab.len() >= 256,
        forall|i: int| 0 <= i < 256 ==> #[trigger] vocab[i] == seq![i as u8],
    ensures
        spec_flatten(vocab, byte_tokens(bytes)) == bytes,
    decreases bytes.len(),
{
    if bytes.len() > 0 {
        lemma_flatten_byte_tokens(vocab, bytes.skip(1));
        assert(byte_tokens(bytes).skip(1) =~= byte_tokens(bytes.skip(1)));
        let b = bytes[0];
        assert(vocab[b as int] == seq![b]);
        assert(bytes =~= seq![b] + bytes.skip(1));
    }
}

/// Applying consistent rules keeps the bytes spelled out and every token in the vocabulary.
pub proof fn lemma_apply_rules(vocab: Seq<Seq<u8>>, rules: Seq<MergeRule>, t: Seq<u32>)
    requires
        consistent(vocab, rules),
        tokens_below(t, vocab.len() as int),
    ensures
        spec_flatten(vocab, spec_apply_rules(t, rules)) == spec_flatten(vocab, t),
        tokens_below(spec_apply_rules(t, rules), vocab.len() as int),
    decreases rules.len(),
{
    if rules.len() > 0 {
        let r = rules.last();
        assert(rules[rules.len() - 1] == r);
        assert(consistent(vocab, rules.drop_last())) by {
            assert forall|k: int| 0 <= k < rules.drop_last().len() implies #[trigger] rules.drop_last()[k]
                == rules[k] by {}
        }
        lemma_apply_rules(vocab, rules.drop_last(), t);
        let prev = spec_apply_rules(t, rules.drop_last());
        lemma_merge_flatten(vocab, prev, r.pair_a, r.pair_b, r.result);
        lemma_merge_tokens_below(prev, r.pair_a, r.pair_b, r.result, vocab.len() as int);
    }
}

/// Replaces every adjacent `a, b` in `tokens` by `r`, left to right.
fn merge_pair(tokens: &Vec<u32>, a: u32, b: u32, r: u32) -> (res: Vec<u32>)
    ensures
        res@ == spec_merge(tokens@, a, b, r),
{
    let n = tokens.len();
    let mut out: Vec<u32> = Vec::new();
    let mut i: usize = 0;
    assert(tokens@.skip(0) =~= tokens@);
    assert(out@ + spec_merge(tokens@, a, b, r) =~= spec_merge(tokens@, a, b, r));
    while i < n
        invariant
            n == tokens@.len(),
            i <= n,
            out@ + spec_merge(tokens@.skip(i as int), a, b, r) == spec_merge(tokens@, a, b, r),
        decreases n - i,
    {
        let ghost rest = tokens@.skip(i as int);
        if i < n - 1 && tokens[i] == a && tokens[i + 1] == b {
            proof {
                lemma_merge_skip(tokens@, i as int, 2);
                assert(out@.push(r) + spec_merge(rest.skip(2), a, b, r) =~= out@ + spec_merge(
                    rest,
                    a,
                    b,
                    r,
                ));
            }
            out.push(r);
            i = i + 2;
        } else {
            proof {
                lemma_merge_skip(tokens@, i as int, 1);
                assert(out@.push(tokens@[i as int]) + spec_merge(rest.skip(1), a, b, r) =~= out@
                    + spec_merge(rest, a, b, r));
            }
            out.push(tokens[i]);
            i = i + 1;
        }
    }
    assert(tokens@.skip(n as int) =~= Seq::<u32>::empty());
    assert(out@ + spec_merge(Seq::<u32>::empty(), a, b, r) =~= out@);
    out
}


// ---------------------------------------------------------------------------
// Pair statistics
// ---------------------------------------------------------------------------

/// Number of positions `i < n` (and `i + 1 < t.len()`) at which the pair `p` starts.
pub open spec fn count_pairs_upto(t: Seq<u32>, p: (u32, u32), n: int) -> nat
    decreases n,
{
    if n <= 0 {
        0
    } else {
        count_pairs_upto(t, p, n - 1) + if pair_at(t, n - 1) == p {
            1nat
        } else {
            0nat
        }
    }
}

/// Number of adjacent occurrences of the pair `p` in `t` (overlapping ones counted).
pub open spec fn pair_count(t: Seq<u32>, p: (u32, u32)) -> nat {
    count_pairs_upto(t, p, t.len() - 1)
}

/// Lexicographic order on pairs.
pub open spec fn lex_le(p: (u32, u32), q: (u32, u32)) -> bool {
    p.0 < q.0 || (p.0 == q.0 && p.1 <= q.1)
}

/// `p` occurs in `t`, no pair occurs more often, and among the pairs that occur
/// as often, `p` is the smallest.
pub open spec fn is_best_pair(t: Seq<u32>, p: (u32, u32)) -> bool {
    &&& exists|i: int| 0 <= i < t.len() - 1 && #[trigger] pair_at(t, i) == p
    &&& forall|i: int|
        0 <= i < t.len() - 1 ==> {
            &&& pair_count(t, #[trigger] pair_at(t, i)) <= pair_count(t, p)
            &&& (pair_count(t, pair_at(t, i)) == pair_count(t, p) ==> lex_le(p, pair_at(t, i)))
        }
}

/// The most frequent adjacent pair of `t`, the smallest one on a tie.
pub open spec fn best_pair(t: Seq<u32>) -> (u32, u32) {
    choose|p: (u32, u32)| is_best_pair(t, p)
}

/// There is at most one best pair.
pub proof fn lemma_best_pair_unique(t: Seq<u32>, p: (u32, u32), q: (u32, u32))
    requires
        is_best_pair(t, p),
        is_best_pair(t, q),
    ensures
        p == q,
{
    let i = choose|i: int| 0 <= i < t.len() - 1 && #[trigger] pair_at(t, i) == p;
    let j = choose|j: int| 0 <= j < t.len() - 1 && #[trigger] pair_at(t, j) == q;
    assert(pair_count(t, pair_at(t, j)) <= pair_count(t, p));
    assert(pair_count(t, pair_at(t, i)) <= pair_count(t, q));
}

/// A best pair is the one that `best_pair` names.
pub proof fn lemma_best_pair_exists(t: Seq<u32>, p: (u32, u32))
    requires
        is_best_pair(t, p),
    ensures
        best_pair(t) == p,
{
    lemma_best_pair_unique(t, p, best_pair(t));
}

proof fn lemma_count_bounds(t: Seq<u32>, p: (u32, u32), n: int)
    requires
        0 <= n,
    ensures
        count_pairs_upto(t, p, n) <= n,
    decreases n,
{
    if n > 0 {
        lemma_count_bounds(t, p, n - 1);
    }
}

proof fn lemma_count_positive(t: Seq<u32>, i: int, n: int)
    requires
        0 <= i < n,
    ensures
        count_pairs_upto(t, pair_at(t, i), n) >= 1,
    decreases n,
{
    if n - 1 > i {
        lemma_count_positive(t, i, n - 1);
    }
}

/// The key under which a pair is counted.
pub open spec fn pair_key(a: u32, b: u32) -> u64 {
    ((a as u64) << 32u64) | (b as u64)
}

proof fn lemma_pair_key_injective(a: u32, b: u32, c: u32, d: u32)
    ensures
        pair_key(a, b) == pair_key(c, d) ==> a == c && b == d,
{
    assert(((a as u64) << 32u64) | (b as u64) == ((c as u64) << 32u64) | (d as u64) ==> a == c && b
        == d) by (bit_vector);
}

fn exec_pair_key(a: u32, b: u32) -> (res: u64)
    ensures
        res == pair_key(a, b),
{
    ((a as u64) << 32) | (b as u64)
}

/// Finds the most frequent adjacent pair (the smallest one on a tie).
fn find_best_pair(tokens: &Vec<u32>) -> (res: (u32, u32))
    requires
        tokens@.len() >= 2,
    ensures
        is_best_pair(tokens@, res),
{
    broadcast use vstd::std_specs::hash::group_hash_axioms;

    let ghost t = tokens@;
    let n = tokens.len();
    let mut counts: std::collections::HashMap<u64, usize> = std::collections::HashMap::new();
    let mut i: usize = 0;
    while i < n - 1
        invariant
            t == tokens@,
            n == t.len(),
            n >= 2,
            i <= n - 1,
            forall|a: u32, b: u32|
                #![trigger count_pairs_upto(t, (a, b), i as int)]
                (counts@.contains_key(pair_key(a, b)) ==> counts@[pair_key(a, b)] as int
                    == count_pairs_upto(t, (a, b), i as int)) && (!counts@.contains_key(
                    pair_key(a, b),
                ) ==> count_pairs_upto(t, (a, b), i as int) == 0),
        decreases n - 1 - i,
    {
        let x = tokens[i];
        let y = tokens[i + 1];
        let key = exec_pair_key(x, y);
        let c: usize = match counts.get(&key) {
            Some(c) => *c,
            None => 0,
        };
        proof {
            assert(count_pairs_upto(t, (x, y), i as int) == c);
            lemma_count_bounds(t, (x, y), i as int);
        }
        let ghost old_counts = counts@;
        counts.insert(key, c + 1);
        proof {
            assert(counts@ == old_counts.insert(key, (c + 1) as usize));
            assert forall|a: u32, b: u32|
                #![trigger count_pairs_upto(t, (a, b), i + 1)]
                (counts@.contains_key(pair_key(a, b)) ==> counts@[pair_key(a, b)] as int
                    == count_pairs_upto(t, (a, b), i + 1)) && (!counts@.contains_key(
                    pair_key(a, b),
                ) ==> count_pairs_upto(t, (a, b), i + 1) == 0) by {
                lemma_pair_key_injective(a, b, x, y);
                let before = count_pairs_upto(t, (a, b), i as int);
                assert(old_counts.contains_key(pair_key(a, b)) ==> old_counts[pair_key(a, b)] as int == before);
                assert(!old_counts.contains_key(pair_key(a, b)) ==> before == 0);
                assert(pair_at(t, i as int) == (x, y));
                assert(count_pairs_upto(t, (a, b), i + 1) == before + if (x, y) == (a, b) {
                    1nat
                } else {
                    0nat
                });
            }
        }
        i = i + 1;
    }
    // every pair that occurs has been counted
    let mut best: (u32, u32) = (tokens[0], tokens[1]);
    let ghost mut best_at: int = 0;
    proof {
        lemma_count_positive(t, 0, n - 1);
        assert(count_pairs_upto(t, (tokens@[0], tokens@[1]), n - 1) >= 1);
        assert(pair_at(t, 0) == best);
    }
    let mut best_count: usize = match counts.get(&exec_pair_key(best.0, best.1)) {
        Some(c) => *c,
        None => 0,
    };
    assert(best_count == pair_count(t, best));
    let mut i: usize = 0;
    while i < n - 1
        invariant
            t == tokens@,
            n == t.len(),
            n >= 2,
            i <= n - 1,
            forall|a: u32, b: u32|
                #![trigger count_pairs_upto(t, (a, b), n - 1)]
                (counts@.contains_key(pair_key(a, b)) ==> counts@[pair_key(a, b)] as int
                    == count_pairs_upto(t, (a, b), n - 1)) && (!counts@.contains_key(
                    pair_key(a, b),
                ) ==> count_pairs_upto(t, (a, b), n - 1) == 0),
            0 <= best_at < n - 1,
            pair_at(t, best_at) == best,
            best_count == pair_count(t, best),
            forall|j: int|
                0 <= j < i ==> {
                    &&& pair_count(t, #[trigger] pair_at(t, j)) <= pair_count(t, best)
                    &&& (pair_count(t, pair_at(t, j)) == pair_count(t, best) ==> lex_le(
                        best,
                        pair_at(t, j),
                    ))
                },
        decreases n - 1 - i,
    {
        let x = tokens[i];
        let y = tokens[i + 1];
        proof {
            lemma_count_positive(t, i as int, n - 1);
            assert(count_pairs_upto(t, (x, y), n - 1) >= 1);
            assert(pair_at(t, i as int) == (x, y));
        }
        let c: usize = match counts.get(&exec_pair_key(x, y)) {
            Some(c) => *c,
            None => 0,
        };
        assert(c == pair_count(t, (x, y)));
        if c > best_count || (c == best_count && (x < best.0 || (x == best.0 && y < best.1))) {
            best = (x, y);
            best_count = c;
            proof {
                best_at = i as int;
            }
        }
        i = i + 1;
    }
    best
}

// ---------------------------------------------------------------------------
// Training
// ---------------------------------------------------------------------------

/// At most `budget` more training steps from tokens `t`, vocabulary `vocab` and
/// rules `rules`. A step merges the best pair of `t` into a new token
/// `256 + rules.len()` (whose word is the pair's words joined) with priority
/// `rules.len() + 1`; training stops early once fewer than two tokens are left.
pub open spec fn spec_train_steps(
    t: Seq<u32>,
    vocab: Seq<Seq<u8>>,
    rules: Seq<MergeRule>,
    budget: nat,
) -> (Seq<Seq<u8>>, Seq<MergeRule>)
    decreases budget,
{
    if budget == 0 || t.len() < 2 {
        (vocab, rules)
    } else {
        let p = best_pair(t);
        let k = rules.len();
        let r = (256 + k) as u32;
        spec_train_steps(
            spec_merge(t, p.0, p.1, r),
            vocab.push(vocab[p.0 as int] + vocab[p.1 as int]),
            rules.push(MergeRule { pair_a: p.0, pair_b: p.1, result: r, priority: (k + 1) as u32 }),
            (budget - 1) as nat,
        )
    }
}

/// Vocabulary and rules learned from a corpus (its bytes), growing the byte-level
/// vocabulary towards `vocab_size` words.
pub open spec fn spec_train(corpus: Seq<u8>, vocab_size: nat) -> (Seq<Seq<u8>>, Seq<MergeRule>) {
    spec_train_steps(byte_tokens(corpus), byte_vocab(), Seq::empty(), (vocab_size - 256) as nat)
}

proof fn lemma_best_among(t: Seq<u32>, m: int) -> (res: (u32, u32))
    requires
        1 <= m <= t.len() - 1,
    ensures
        exists|i: int| 0 <= i < m && #[trigger] pair_at(t, i) == res,
        forall|j: int|
            0 <= j < m ==> {
                &&& pair_count(t, #[trigger] pair_at(t, j)) <= pair_count(t, res)
                &&& (pair_count(t, pair_at(t, j)) == pair_count(t, res) ==> lex_le(res, pair_at(t, j)))
            },
    decreases m,
{
    if m == 1 {
        pair_at(t, 0)
    } else {
        let prev = lemma_best_among(t, m - 1);
        let q = pair_at(t, m - 1);
        if pair_count(t, q) > pair_count(t, prev) || (pair_count(t, q) == pair_count(t, prev) && (q.0
            < prev.0 || (q.0 == prev.0 && q.1 < prev.1))) {
            q
        } else {
            prev
        }
    }
}

/// Every sequence of at least two tokens has a best pair, which `best_pair` names.
pub proof fn lemma_best_pair_is_best(t: Seq<u32>)
    requires
        t.len() >= 2,
    ensures
        is_best_pair(t, best_pair(t)),
{
    let p = lemma_best_among(t, t.len() - 1);
    assert(is_best_pair(t, p));
}

proof fn lemma_step_consistent(t: Seq<u32>, vocab: Seq<Seq<u8>>, rules: Seq<MergeRule>)
    requires
        consistent(vocab, rules),
        vocab.len() == 256 + rules.len(),
        tokens_below(t, vocab.len() as int),
        t.len() >= 2,
        256 + rules.len() <= u32::MAX,
    ensures
        ({
            let p = best_pair(t);
            let k = rules.len();
            let r = (256 + k) as u32;
            let nv = vocab.push(vocab[p.0 as int] + vocab[p.1 as int]);
            let nr = rules.push(
                MergeRule { pair_a: p.0, pair_b: p.1, result: r, priority: (k + 1) as u32 },
            );
            &&& consistent(nv, nr)
            &&& (p.0 as int) < vocab.len()
            &&& (p.1 as int) < vocab.len()
            &&& exists|i: int| 0 <= i < t.len() - 1 && #[trigger] pair_at(t, i) == p
        }),
{
    lemma_best_pair_is_best(t);
    let p = best_pair(t);
    let k = rules.len();
    let r = (256 + k) as u32;
    let nv = vocab.push(vocab[p.0 as int] + vocab[p.1 as int]);
    let nr = rules.push(MergeRule { pair_a: p.0, pair_b: p.1, result: r, priority: (k + 1) as u32 });
    let i = choose|i: int| 0 <= i < t.len() - 1 && #[trigger] pair_at(t, i) == p;
    assert(t[i] == p.0 && t[i + 1] == p.1);
    assert forall|j: int| 0 <= j < 256 implies #[trigger] nv[j] == seq![j as u8] by {
        assert(nv[j] == vocab[j]);
    }
    assert forall|q: int| 0 <= q < nr.len() implies {
        let rl = #[trigger] nr[q];
        &&& (rl.pair_a as int) < nv.len()
        &&& (rl.pair_b as int) < nv.len()
        &&& (rl.result as int) < nv.len()
        &&& nv[rl.result as int] == nv[rl.pair_a as int] + nv[rl.pair_b as int]
    } by {
        if q < k {
            assert(nr[q] == rules[q]);
        } else {
            assert(r as int == vocab.len());
        }
    }
}

proof fn lemma_flatten_push(vocab: Seq<Seq<u8>>, w: Seq<u8>, t: Seq<u32>)
    requires
        tokens_below(t, vocab.len() as int),
    ensures
        spec_flatten(vocab.push(w), t) == spec_flatten(vocab, t),
    decreases t.len(),
{
    if t.len() > 0 {
        assert(tokens_below(t.skip(1), vocab.len() as int)) by {
            assert forall|i: int| 0 <= i < t.skip(1).len() implies (#[trigger] t.skip(1)[i] as int)
                < vocab.len() by {
                assert(t.skip(1)[i] == t[i + 1]);
            }
        }
        lemma_flatten_push(vocab, w, t.skip(1));
        assert((t[0] as int) < vocab.len());
        assert(vocab.push(w)[t[0] as int] == vocab[t[0] as int]);
    }
}

proof fn lemma_flatten_pair_len(vocab: Seq<Seq<u8>>, t: Seq<u32>, i: int)
    requires
        0 <= i < t.len() - 1,
    ensures
        vocab[t[i] as int].len() + vocab[t[i + 1] as int].len() <= spec_flatten(vocab, t).len(),
    decreases t.len(),
{
    let rest = t.skip(1);
    assert(rest[0] == t[1]);
    assert(spec_flatten(vocab, rest) == vocab[rest[0] as int] + spec_flatten(vocab, rest.skip(1)));
    if i > 0 {
        lemma_flatten_pair_len(vocab, rest, i - 1);
        assert(rest[i - 1] == t[i] && rest[i] == t[i + 1]);
    }
}

/// Rule `k` makes token `256 + k`, has priority `k + 1`, and merges two tokens
/// that existed before it.
pub open spec fn rules_numbered(rules: Seq<MergeRule>) -> bool {
    forall|k: int|
        0 <= k < rules.len() ==> {
            let r = #[trigger] rules[k];
            &&& r.result == 256 + k
            &&& r.priority == k + 1
            &&& (r.pair_a as int) < 256 + k
            &&& (r.pair_b as int) < 256 + k
        }
}

/// Training from tokens `t`, which the rules so far made of `t0`, keeps vocabulary
/// and rules consistent and numbered, adds one word per rule, never grows the
/// vocabulary past the budget, and stops short of it only when applying the
/// learned rules to `t0` leaves fewer than two tokens.
pub proof fn lemma_train_steps(
    t0: Seq<u32>,
    t: Seq<u32>,
    vocab: Seq<Seq<u8>>,
    rules: Seq<MergeRule>,
    budget: nat,
)
    requires
        consistent(vocab, rules),
        rules_numbered(rules),
        vocab.len() == 256 + rules.len(),
        t == spec_apply_rules(t0, rules),
        tokens_below(t, vocab.len() as int),
        vocab.len() + t.len() <= u32::MAX + 1 || vocab.len() + budget <= u32::MAX + 1,
        forall|i: int| 256 <= i < vocab.len() ==> #[trigger] vocab[i].len() <= spec_flatten(vocab, t).len(),
    ensures
        ({
            let (v, r) = spec_train_steps(t, vocab, rules, budget);
            &&& consistent(v, r)
            &&& rules_numbered(r)
            &&& v.len() == 256 + r.len()
            &&& vocab.len() <= v.len() <= vocab.len() + budget
            &&& v.len() <= vocab.len() + t.len()
            &&& v.len() == vocab.len() + budget || spec_apply_rules(t0, r).len() < 2
            &&& forall|i: int| 256 <= i < v.len() ==> #[trigger] v[i].len() <= spec_flatten(vocab, t).len()
            &&& rules.len() <= r.len()
            &&& r.take(rules.len() as int) == rules
            &&& forall|k: int|
                rules.len() <= k < r.len() ==> #[trigger] is_best_pair(
                    spec_apply_rules(t0, r.take(k)),
                    (r[k].pair_a, r[k].pair_b),
                )
        }),
    decreases budget,
{
    if budget == 0 || t.len() < 2 {
        assert(rules.take(rules.len() as int) =~= rules);
    } else {
        let p = best_pair(t);
        let k = rules.len();
        let r = (256 + k) as u32;
        let rule = MergeRule { pair_a: p.0, pair_b: p.1, result: r, priority: (k + 1) as u32 };
        let nv = vocab.push(vocab[p.0 as int] + vocab[p.1 as int]);
        let nr = rules.push(rule);
        lemma_step_consistent(t, vocab, rules);
        lemma_merge_len(t, p.0, p.1, r);
        lemma_merge_tokens_below(t, p.0, p.1, r, nv.len() as int);
        assert(tokens_below(t, nv.len() as int));
        assert(nr.drop_last() =~= rules);
        assert(spec_apply_rules(t0, nr) == spec_merge(t, p.0, p.1, r));
        let i0 = choose|i: int| 0 <= i < t.len() - 1 && #[trigger] pair_at(t, i) == p;
        lemma_flatten_pair_len(vocab, t, i0);
        lemma_flatten_push(vocab, vocab[p.0 as int] + vocab[p.1 as int], t);
        lemma_merge_flatten(nv, t, p.0, p.1, r);
        assert(spec_flatten(nv, spec_merge(t, p.0, p.1, r)) == spec_flatten(vocab, t));
        assert forall|i: int| 256 <= i < nv.len() implies #[trigger] nv[i].len() <= spec_flatten(
            nv,
            spec_merge(t, p.0, p.1, r),
        ).len() by {
            if i < vocab.len() {
                assert(nv[i] == vocab[i]);
            }
        }
        assert forall|q: int| 0 <= q < nr.len() implies {
            let x = #[trigger] nr[q];
            &&& x.result == 256 + q
            &&& x.priority == q + 1
            &&& (x.pair_a as int) < 256 + q
            &&& (x.pair_b as int) < 256 + q
        } by {
            if q < k {
                assert(nr[q] == rules[q]);
            }
        }
        lemma_train_steps(t0, spec_merge(t, p.0, p.1, r), nv, nr, (budget - 1) as nat);
        lemma_best_pair_is_best(t);
        let fin = spec_train_steps(spec_merge(t, p.0, p.1, r), nv, nr, (budget - 1) as nat).1;
        assert(fin.take(k as int) =~= fin.take(k as int + 1).take(k as int));
        assert(nr.take(k as int) =~= rules);
        assert(fin[k as int] == nr[k as int]);
    }
}

/// Each rule that training learns merges a most frequent adjacent pair of the
/// corpus's tokens as the earlier rules left them, the smallest pair (first by
/// its first token, then by its second) among equally frequent ones.
pub proof fn lemma_train_picks_most_frequent(corpus: Seq<u8>, vocab_size: nat)
    requires
        256 <= vocab_size,
        corpus.len() + 256 <= u32::MAX + 1 || vocab_size <= u32::MAX + 1,
    ensures
        ({
            let rules = spec_train(corpus, vocab_size).1;
            forall|k: int|
                0 <= k < rules.len() ==> {
                    let t = #[trigger] spec_apply_rules(byte_tokens(corpus), rules.take(k));
                    let a = rules[k].pair_a;
                    let b = rules[k].pair_b;
                    &&& exists|i: int| 0 <= i < t.len() - 1 && #[trigger] t[i] == a && t[i + 1] == b
                    &&& forall|i: int|
                        0 <= i < t.len() - 1 ==> {
                            let c = pair_count(t, (#[trigger] t[i], t[i + 1]));
                            let m = pair_count(t, (a, b));
                            c < m || (c == m && (a < t[i] || (a == t[i] && b <= t[i + 1])))
                        }
                }
        }),
{
    let t0 = byte_tokens(corpus);
    assert(tokens_below(t0, 256));
    lemma_train_steps(t0, t0, byte_vocab(), Seq::empty(), (vocab_size - 256) as nat);
    let rules = spec_train(corpus, vocab_size).1;
    assert forall|k: int| 0 <= k < rules.len() implies {
        let t = #[trigger] spec_apply_rules(byte_tokens(corpus), rules.take(k));
        let a = rules[k].pair_a;
        let b = rules[k].pair_b;
        &&& exists|i: int| 0 <= i < t.len() - 1 && #[trigger] t[i] == a && t[i + 1] == b
        &&& forall|i: int|
            0 <= i < t.len() - 1 ==> {
                let c = pair_count(t, (#[trigger] t[i], t[i + 1]));
                let m = pair_count(t, (a, b));
                c < m || (c == m && (a < t[i] || (a == t[i] && b <= t[i + 1])))
            }
    } by {
        let t = spec_apply_rules(t0, rules.take(k));
        let p = (rules[k].pair_a, rules[k].pair_b);
        assert(is_best_pair(t, p));
        let i = choose|i: int| 0 <= i < t.len() - 1 && #[trigger] pair_at(t, i) == p;
        assert(t[i] == p.0 && t[i + 1] == p.1);
        assert forall|j: int| 0 <= j < t.len() - 1 implies {
            let c = pair_count(t, (#[trigger] t[j], t[j + 1]));
            let m = pair_count(t, p);
            c < m || (c == m && (p.0 < t[j] || (p.0 == t[j] && p.1 <= t[j + 1])))
        } by {
            assert(pair_at(t, j) == (t[j], t[j + 1]));
        }
    }
}

// ---------------------------------------------------------------------------
// Serialisation
// ---------------------------------------------------------------------------

/// The 16 bytes of a rule: `pair_a`, `pair_b`, `result`, `priority`, each a little-endian `u32`.
pub open spec fn rule_bytes(r: MergeRule) -> Seq<u8> {
    spec_u32_le(r.pair_a) + spec_u32_le(r.pair_b) + spec_u32_le(r.result) + spec_u32_le(r.priority)
}

/// The rules' bytes, one after the other.
pub open spec fn rules_bytes(rules: Seq<MergeRule>) -> Seq<u8>
    decreases rules.len(),
{
    if rules.len() == 0 {
        Seq::empty()
    } else {
        rules_bytes(rules.drop_last()) + rule_bytes(rules.last())
    }
}

/// The words' bytes, one after the other, each preceded by its length as a little-endian `u32`.
pub open spec fn words_bytes(words: Seq<Seq<u8>>) -> Seq<u8>
    decreases words.len(),
{
    if words.len() == 0 {
        Seq::empty()
    } else {
        words_bytes(words.drop_last()) + spec_u32_le(words.last().len() as u32) + words.last()
    }
}

/// The serialised tokenizer: the number of rules, the rules, the number of words, the words.
pub open spec fn spec_bpe_bytes(vocab: Seq<Seq<u8>>, rules: Seq<MergeRule>) -> Seq<u8> {
    spec_u32_le(rules.len() as u32) + rules_bytes(rules) + spec_u32_le(vocab.len() as u32)
        + words_bytes(vocab)
}

/// The rule whose 16 bytes start at `at`.
pub open spec fn rule_at(b: Seq<u8>, at: int) -> MergeRule {
    MergeRule {
        pair_a: spec_u32_from_le(b, at),
        pair_b: spec_u32_from_le(b, at + 4),
        result: spec_u32_from_le(b, at + 8),
        priority: spec_u32_from_le(b, at + 12),
    }
}

/// Reads `n` rules starting at `at`: the rules and the offset after them, or
/// `None` when the bytes run out.
pub open spec fn parse_rules(b: Seq<u8>, at: int, n: nat) -> Option<(Seq<MergeRule>, int)>
    decreases n,
{
    if n == 0 {
        Some((Seq::empty(), at))
    } else {
        match parse_rules(b, at, (n - 1) as nat) {
            Some((rs, pos)) => if pos + 16 <= b.len() {
                Some((rs.push(rule_at(b, pos)), pos + 16))
            } else {
                None
            },
            None => None,
        }
    }
}

/// Reads `n` length-prefixed words starting at `at`: the words and the offset
/// after them, or `None` when the bytes run out.
pub open spec fn parse_words(b: Seq<u8>, at: int, n: nat) -> Option<(Seq<Seq<u8>>, int)>
    decreases n,
{
    if n == 0 {
        Some((Seq::empty(), at))
    } else {
        match parse_words(b, at, (n - 1) as nat) {
            Some((ws, pos)) => if pos + 4 <= b.len() && pos + 4 + spec_u32_from_le(b, pos) <= b.len() {
                let len = spec_u32_from_le(b, pos) as int;
                Some((ws.push(b.subrange(pos + 4, pos + 4 + len)), pos + 4 + len))
            } else {
                None
            },
            None => None,
        }
    }
}

/// Reads a serialised tokenizer (trailing bytes are ignored): its vocabulary and
/// rules, or `None` when the bytes run out.
pub open spec fn spec_parse_bpe(b: Seq<u8>) -> Option<(Seq<Seq<u8>>, Seq<MergeRule>)> {
    if b.len() < 4 {
        None
    } else {
        match parse_rules(b, 4, spec_u32_from_le(b, 0) as nat) {
            Some((rules, pos)) => if pos + 4 <= b.len() {
                match parse_words(b, pos + 4, spec_u32_from_le(b, pos) as nat) {
                    Some((words, _)) => Some((words, rules)),
                    None => None,
                }
            } else {
                None
            },
            None => None,
        }
    }
}

proof fn lemma_parse_rules_fail(b: Seq<u8>, at: int, n: nat, m: nat)
    requires
        n <= m,
        parse_rules(b, at, n) is None,
    ensures
        parse_rules(b, at, m) is None,
    decreases m,
{
    if m > n {
        lemma_parse_rules_fail(b, at, n, (m - 1) as nat);
    }
}

proof fn lemma_parse_words_fail(b: Seq<u8>, at: int, n: nat, m: nat)
    requires
        n <= m,
        parse_words(b, at, n) is None,
    ensures
        parse_words(b, at, m) is None,
    decreases m,
{
    if m > n {
        lemma_parse_words_fail(b, at, n, (m - 1) as nat);
    }
}

proof fn lemma_rules_bytes_len(rules: Seq<MergeRule>)
    ensures
        rules_bytes(rules).len() == 16 * rules.len(),
    decreases rules.len(),
{
    if rules.len() > 0 {
        lemma_rules_bytes_len(rules.drop_last());
    }
}

proof fn lemma_parse_rules_of(b: Seq<u8>, at: int, rules: Seq<MergeRule>)
    requires
        0 <= at,
        at + 16 * rules.len() <= b.len(),
        b.subrange(at, at + 16 * rules.len()) == rules_bytes(rules),
    ensures
        parse_rules(b, at, rules.len()) == Some((rules, at + 16 * rules.len())),
    decreases rules.len(),
{
    if rules.len() > 0 {
        let n = rules.len();
        let prev = rules.drop_last();
        let r = rules.last();
        let pos = at + 16 * (n - 1);
        lemma_rules_bytes_len(prev);
        lemma_subrange_split(b, at, rules_bytes(prev), rule_bytes(r));
        lemma_parse_rules_of(b, at, prev);
        let a4 = spec_u32_le(r.pair_a);
        let b4 = spec_u32_le(r.pair_b);
        let r4 = spec_u32_le(r.result);
        let p4 = spec_u32_le(r.priority);
        lemma_subrange_split(b, pos, a4 + b4 + r4, p4);
        lemma_subrange_split(b, pos, a4 + b4, r4);
        lemma_subrange_split(b, pos, a4, b4);
        lemma_u32_in(b, pos, r.pair_a);
        lemma_u32_in(b, pos + 4, r.pair_b);
        lemma_u32_in(b, pos + 8, r.result);
        lemma_u32_in(b, pos + 12, r.priority);
        assert(prev.push(r) =~= rules);
    }
}

/// Every word of `words` fits a `u32` length.
pub open spec fn words_fit_u32(words: Seq<Seq<u8>>) -> bool {
    forall|i: int| 0 <= i < words.len() ==> #[trigger] words[i].len() <= u32::MAX
}

proof fn lemma_parse_words_of(b: Seq<u8>, at: int, words: Seq<Seq<u8>>)
    requires
        0 <= at,
        at + words_bytes(words).len() <= b.len(),
        b.subrange(at, at + words_bytes(words).len()) == words_bytes(words),
        words_fit_u32(words),
    ensures
        parse_words(b, at, words.len()) == Some((words, at + words_bytes(words).len())),
    decreases words.len(),
{
    if words.len() > 0 {
        let prev = words.drop_last();
        let w = words.last();
        let pb = words_bytes(prev);
        let l4 = spec_u32_le(w.len() as u32);
        let pos: int = at + pb.len();
        assert(words[words.len() - 1] == w);
        assert(words_fit_u32(prev)) by {
            assert forall|i: int| 0 <= i < prev.len() implies #[trigger] prev[i].len() <= u32::MAX by {
                assert(prev[i] == words[i]);
            }
        }
        lemma_subrange_split(b, at, pb + l4, w);
        lemma_subrange_split(b, at, pb, l4);
        lemma_parse_words_of(b, at, prev);
        lemma_u32_in(b, pos, w.len() as u32);
        assert(prev.push(w) =~= words);
    }
}

#[verifier::spinoff_prover]
#[verifier::rlimit(40)]
proof fn lemma_bpe_layout(vocab: Seq<Seq<u8>>, rules: Seq<MergeRule>)
    requires
        vocab.len() <= u32::MAX,
        rules.len() <= u32::MAX,
        words_fit_u32(vocab),
    ensures
        ({
            let b = spec_bpe_bytes(vocab, rules);
            let pos = 4 + 16 * rules.len() as int;
            &&& b.len() >= 4
            &&& pos + 4 <= b.len()
            &&& spec_u32_from_le(b, 0) as nat == rules.len()
            &&& parse_rules(b, 4, rules.len()) == Some((rules, pos))
            &&& spec_u32_from_le(b, pos) as nat == vocab.len()
            &&& parse_words(b, pos + 4, vocab.len()) matches Some((ws, _)) && ws == vocab
        }),
{
    let b = spec_bpe_bytes(vocab, rules);
    let c4 = spec_u32_le(rules.len() as u32);
    let rb = rules_bytes(rules);
    let v4 = spec_u32_le(vocab.len() as u32);
    let wb = words_bytes(vocab);
    lemma_rules_bytes_len(rules);
    let pos: int = 4 + 16 * rules.len() as int;
    assert(b.subrange(0, b.len() as int) =~= b);
    lemma_subrange_split(b, 0, c4 + rb + v4, wb);
    lemma_subrange_split(b, 0, c4 + rb, v4);
    lemma_subrange_split(b, 0, c4, rb);
    lemma_u32_in(b, 0, rules.len() as u32);
    lemma_parse_rules_of(b, 4, rules);
    lemma_u32_in(b, pos, vocab.len() as u32);
    lemma_parse_words_of(b, pos + 4, vocab);
}

/// Reading back a serialised tokenizer gives its vocabulary and rules, as long
/// as the counts and word lengths fit a `u32`.
pub proof fn lemma_bpe_bytes_roundtrip(vocab: Seq<Seq<u8>>, rules: Seq<MergeRule>)
    requires
        vocab.len() <= u32::MAX,
        rules.len() <= u32::MAX,
        words_fit_u32(vocab),
    ensures
        spec_parse_bpe(spec_bpe_bytes(vocab, rules)) == Some((vocab, rules)),
{
    lemma_bpe_layout(vocab, rules);
}

/// Bytes taken by the first `i` words when each is written after its 4-byte length.
pub open spec fn words_span(words: Seq<Seq<u8>>, i: int) -> int
    decreases i,
{
    if i <= 0 {
        0
    } else {
        words_span(words, i - 1) + 4 + words[i - 1].len()
    }
}

proof fn lemma_words_span_nonneg(words: Seq<Seq<u8>>, i: int)
    ensures
        words_span(words, i) >= 0,
    decreases i,
{
    if i > 0 {
        lemma_words_span_nonneg(words, i - 1);
    }
}

proof fn lemma_words_span_push(words: Seq<Seq<u8>>, w: Seq<u8>, i: int)
    requires
        0 <= i <= words.len(),
    ensures
        words_span(words.push(w), i) == words_span(words, i),
    decreases i,
{
    if i > 0 {
        lemma_words_span_push(words, w, i - 1);
    }
}

proof fn lemma_words_bytes_len(words: Seq<Seq<u8>>)
    ensures
        words_bytes(words).len() == words_span(words, words.len() as int),
    decreases words.len(),
{
    if words.len() > 0 {
        lemma_words_bytes_len(words.drop_last());
        lemma_words_span_push(words.drop_last(), words.last(), words.len() - 1);
        assert(words.drop_last().push(words.last()) =~= words);
    }
}

/// Reading `n` rules from `at` takes them in file order: rule `k` is the four
/// little-endian `u32`s at `at + 16 * k`, and reading ends after `16 * n` bytes.
pub proof fn lemma_parse_rules_read(b: Seq<u8>, at: int, n: nat)
    ensures
        parse_rules(b, at, n) matches Some((rs, end)) ==> {
            &&& rs.len() == n
            &&& end == at + 16 * n
            &&& forall|k: int|
                0 <= k < n ==> {
                    &&& (#[trigger] rs[k]).pair_a == spec_u32_from_le(b, at + 16 * k)
                    &&& rs[k].pair_b == spec_u32_from_le(b, at + 16 * k + 4)
                    &&& rs[k].result == spec_u32_from_le(b, at + 16 * k + 8)
                    &&& rs[k].priority == spec_u32_from_le(b, at + 16 * k + 12)
                }
        },
    decreases n,
{
    if n > 0 {
        lemma_parse_rules_read(b, at, (n - 1) as nat);
        if let Some((rs, end)) = parse_rules(b, at, n) {
            let (prev, pos) = parse_rules(b, at, (n - 1) as nat).unwrap();
            assert(rs == prev.push(rule_at(b, pos)));
            assert forall|k: int| 0 <= k < n implies {
                &&& (#[trigger] rs[k]).pair_a == spec_u32_from_le(b, at + 16 * k)
                &&& rs[k].pair_b == spec_u32_from_le(b, at + 16 * k + 4)
                &&& rs[k].result == spec_u32_from_le(b, at + 16 * k + 8)
                &&& rs[k].priority == spec_u32_from_le(b, at + 16 * k + 12)
            } by {
                if k < n - 1 {
                    assert(rs[k] == prev[k]);
                }
            }
        }
    }
}

/// Reading `n` words from `at` takes them in file order: word `i` is preceded by
/// its length as a little-endian `u32` at `at + words_span(ws, i)`, and reading
/// ends right after the last word.
pub proof fn lemma_parse_words_read(b: Seq<u8>, at: int, n: nat)
    requires
        0 <= at,
    ensures
        parse_words(b, at, n) matches Some((ws, end)) ==> {
            &&& ws.len() == n
            &&& end == at + words_span(ws, n as int)
            &&& forall|i: int|
                0 <= i < n ==> {
                    let o = at + words_span(ws, i);
                    &&& spec_u32_from_le(b, o) == (#[trigger] ws[i]).len()
                    &&& b.subrange(o + 4, o + 4 + ws[i].len()) == ws[i]
                }
        },
    decreases n,
{
    if n > 0 {
        lemma_parse_words_read(b, at, (n - 1) as nat);
        if let Some((ws, end)) = parse_words(b, at, n) {
            let (prev, pos) = parse_words(b, at, (n - 1) as nat).unwrap();
            let w = b.subrange(pos + 4, pos + 4 + spec_u32_from_le(b, pos) as int);
            lemma_words_span_nonneg(prev, n - 1);
            assert(ws == prev.push(w));
            assert forall|i: int| 0 <= i <= n - 1 implies words_span(ws, i) == words_span(prev, i) by {
                lemma_words_span_push(prev, w, i);
            }
            assert forall|i: int| 0 <= i < n implies {
                let o = at + words_span(ws, i);
                &&& spec_u32_from_le(b, o) == (#[trigger] ws[i]).len()
                &&& b.subrange(o + 4, o + 4 + ws[i].len()) == ws[i]
            } by {
                assert(words_span(ws, i) == words_span(prev, i));
                if i < n - 1 {
                    assert(ws[i] == prev[i]);
                } else {
                    assert(pos == at + words_span(prev, n - 1));
                    assert(ws[i] == w);
                    assert(w.len() == spec_u32_from_le(b, pos));
                }
            }
            assert(words_span(ws, n as int) == words_span(ws, n - 1) + 4 + w.len());
        }
    }
}

/// What a serialised tokenizer holds, read back: the rule count in bytes 0..4,
/// rule `k` as four little-endian `u32`s at `4 + 16 * k`, the word count after the
/// rules, then each word after its length, in order.
pub proof fn lemma_bpe_bytes_read(b: Seq<u8>)
    ensures
        spec_parse_bpe(b) matches Some((vocab, rules)) ==> {
            let pos = 4 + 16 * rules.len() as int;
            &&& spec_u32_from_le(b, 0) == rules.len()
            &&& forall|k: int|
                0 <= k < rules.len() ==> {
                    &&& (#[trigger] rules[k]).pair_a == spec_u32_from_le(b, 4 + 16 * k)
                    &&& rules[k].pair_b == spec_u32_from_le(b, 4 + 16 * k + 4)
                    &&& rules[k].result == spec_u32_from_le(b, 4 + 16 * k + 8)
                    &&& rules[k].priority == spec_u32_from_le(b, 4 + 16 * k + 12)
                }
            &&& spec_u32_from_le(b, pos) == vocab.len()
            &&& forall|i: int|
                0 <= i < vocab.len() ==> {
                    let o = pos + 4 + words_span(vocab, i);
                    &&& spec_u32_from_le(b, o) == (#[trigger] vocab[i]).len()
                    &&& b.subrange(o + 4, o + 4 + vocab[i].len()) == vocab[i]
                }
        },
{
    if b.len() >= 4 {
        let n = spec_u32_from_le(b, 0) as nat;
        lemma_parse_rules_read(b, 4, n);
        if let Some((rules, pos)) = parse_rules(b, 4, n) {
            if pos + 4 <= b.len() {
                lemma_parse_words_read(b, pos + 4, spec_u32_from_le(b, pos) as nat);
            }
        }
    }
}

/// What serialising a tokenizer writes: the rule count in bytes 0..4, rule `k`
/// (in learning order) as four little-endian `u32`s at `4 + 16 * k`, the word
/// count after the rules, then each word after its length, in order, and
/// nothing more.
pub proof fn lemma_bpe_bytes_written(vocab: Seq<Seq<u8>>, rules: Seq<MergeRule>)
    requires
        vocab.len() <= u32::MAX,
        rules.len() <= u32::MAX,
        words_fit_u32(vocab),
    ensures
        ({
            let b = spec_bpe_bytes(vocab, rules);
            let pos = 4 + 16 * rules.len() as int;
            &&& spec_u32_from_le(b, 0) == rules.len()
            &&& forall|k: int|
                0 <= k < rules.len() ==> {
                    &&& (#[trigger] rules[k]).pair_a == spec_u32_from_le(b, 4 + 16 * k)
                    &&& rules[k].pair_b == spec_u32_from_le(b, 4 + 16 * k + 4)
                    &&& rules[k].result == spec_u32_from_le(b, 4 + 16 * k + 8)
                    &&& rules[k].priority == spec_u32_from_le(b, 4 + 16 * k + 12)
                }
            &&& spec_u32_from_le(b, pos) == vocab.len()
            &&& forall|i: int|
                0 <= i < vocab.len() ==> {
                    let o = pos + 4 + words_span(vocab, i);
                    &&& spec_u32_from_le(b, o) == (#[trigger] vocab[i]).len()
                    &&& b.subrange(o + 4, o + 4 + vocab[i].len()) == vocab[i]
                }
            &&& b.len() == pos + 4 + words_span(vocab, vocab.len() as int)
        }),
{
    let b = spec_bpe_bytes(vocab, rules);
    assert(b.len() == 4 + 16 * rules.len() as int + 4 + words_span(vocab, vocab.len() as int)) by {
        lemma_rules_bytes_len(rules);
        lemma_words_bytes_len(vocab);
    }
    lemma_bpe_bytes_roundtrip(vocab, rules);
    lemma_bpe_bytes_read(b);
}

// ---------------------------------------------------------------------------
// Lookup from a word to its token
// ---------------------------------------------------------------------------

/// The words and tokens of an index, by their views.
pub open spec fn index_view(es: Seq<(Vec<u8>, u32)>) -> Seq<(Seq<u8>, u32)> {
    es.map_values(|e: (Vec<u8>, u32)| (e.0@, e.1))
}

/// The words of a vocabulary, by their views.
pub open spec fn words_view(ws: Seq<Vec<u8>>) -> Seq<Seq<u8>> {
    ws.map_values(|w: Vec<u8>| w@)
}

/// Every entry of `es` names a word of `vocab` by its last position.
pub open spec fn index_sound(es: Seq<(Seq<u8>, u32)>, vocab: Seq<Seq<u8>>) -> bool {
    forall|j: int|
        0 <= j < es.len() ==> {
            &&& (#[trigger] es[j].1 as int) < vocab.len()
            &&& vocab[es[j].1 as int] == es[j].0
            &&& forall|i: int| es[j].1 < i < vocab.len() ==> vocab[i] != es[j].0
        }
}

/// No word appears twice in `es`.
pub open spec fn index_distinct(es: Seq<(Seq<u8>, u32)>) -> bool {
    forall|j: int, k: int| 0 <= j < k < es.len() ==> #[trigger] es[j].0 != #[trigger] es[k].0
}

/// `w` is a word of `es`.
pub open spec fn index_has(es: Seq<(Seq<u8>, u32)>, w: Seq<u8>) -> bool {
    exists|j: int| 0 <= j < es.len() && #[trigger] es[j].0 == w
}

/// Every word of `vocab` appears in `es`.
pub open spec fn index_complete(es: Seq<(Seq<u8>, u32)>, vocab: Seq<Seq<u8>>) -> bool {
    forall|i: int| 0 <= i < vocab.len() ==> #[trigger] index_has(es, vocab[i])
}

/// `es` maps every word of `vocab` to its last position in `vocab`, and lists each word once.
pub open spec fn is_token_index(es: Seq<(Seq<u8>, u32)>, vocab: Seq<Seq<u8>>) -> bool {
    &&& index_sound(es, vocab)
    &&& index_distinct(es)
    &&& index_complete(es, vocab)
}

/// Byte strings compared element by element.
fn bytes_equal(a: &Vec<u8>, b: &Vec<u8>) -> (res: bool)
    ensures
        res == (a@ == b@),
{
    if a.len() != b.len() {
        return false;
    }
    let mut i: usize = 0;
    while i < a.len()
        invariant
            a@.len() == b@.len(),
            i <= a@.len(),
            forall|k: int| 0 <= k < i ==> a@[k] == b@[k],
        decreases a.len() - i,
    {
        if a[i] != b[i] {
            return false;
        }
        i = i + 1;
    }
    assert(a@ =~= b@);
    true
}

/// Records that `word` is the newest vocabulary entry, with token `id`.
fn index_add(entries: &mut Vec<(Vec<u8>, u32)>, word: Vec<u8>, id: u32, Ghost(vocab): Ghost<Seq<Seq<u8>>>)
    requires
        is_token_index(index_view(old(entries)@), vocab),
        id == vocab.len(),
    ensures
        is_token_index(index_view(final(entries)@), vocab.push(word@)),
{
    let ghost w = word@;
    let ghost es = index_view(entries@);
    let ghost nv = vocab.push(w);
    let mut j: usize = 0;
    while j < entries.len()
        invariant
            entries@ == old(entries)@,
            es == index_view(entries@),
            w == word@,
            nv == vocab.push(w),
            is_token_index(es, vocab),
            id == vocab.len(),
            j <= entries@.len(),
            forall|k: int| 0 <= k < j ==> #[trigger] es[k].0 != w,
        decreases entries.len() - j,
    {
        if bytes_equal(&entries[j].0, &word) {
            assert(es[j as int].0 == w);
            entries.set(j, (word, id));
            proof {
                let ns = index_view(entries@);
                assert(ns =~= es.update(j as int, (w, id)));
                assert forall|k: int| 0 <= k < ns.len() implies {
                    &&& (#[trigger] ns[k].1 as int) < nv.len()
                    &&& nv[ns[k].1 as int] == ns[k].0
                    &&& forall|i: int| ns[k].1 < i < nv.len() ==> nv[i] != ns[k].0
                } by {
                    if k != j {
                        if k < j {
                            assert(es[k].0 != es[j as int].0);
                        } else {
                            assert(es[j as int].0 != es[k].0);
                        }
                        assert(ns[k] == es[k]);
                    }
                }
                assert forall|a: int, b: int| 0 <= a < b < ns.len() implies #[trigger] ns[a].0
                    != #[trigger] ns[b].0 by {
                    assert(es[a].0 != es[b].0);
                }
                assert forall|i: int| 0 <= i < nv.len() implies #[trigger] index_has(ns, nv[i]) by {
                    if i < vocab.len() {
                        assert(index_has(es, vocab[i]));
                        let k = choose|k: int| 0 <= k < es.len() && #[trigger] es[k].0 == vocab[i];
                        assert(ns[k].0 == nv[i]);
                    } else {
                        assert(ns[j as int].0 == nv[i]);
                    }
                }
                assert(index_sound(ns, nv));
                assert(index_distinct(ns));
                assert(index_complete(ns, nv));
            }
            return;
        }
        j = j + 1;
    }
    entries.push((word, id));
    proof {
        let ns = index_view(entries@);
        assert(ns =~= es.push((w, id)));
        assert forall|i: int| 0 <= i < vocab.len() implies vocab[i] != w by {
            assert(index_has(es, vocab[i]));
                        let k = choose|k: int| 0 <= k < es.len() && #[trigger] es[k].0 == vocab[i];
        }
        assert forall|k: int| 0 <= k < ns.len() implies {
            &&& (#[trigger] ns[k].1 as int) < nv.len()
            &&& nv[ns[k].1 as int] == ns[k].0
            &&& forall|i: int| ns[k].1 < i < nv.len() ==> nv[i] != ns[k].0
        } by {
            if k < es.len() {
                assert(es[k] == ns[k]);
            }
        }
        assert forall|a: int, b: int| 0 <= a < b < ns.len() implies #[trigger] ns[a].0
            != #[trigger] ns[b].0 by {
            if b < es.len() {
                assert(es[a].0 != es[b].0);
            }
        }
        assert forall|i: int| 0 <= i < nv.len() implies #[trigger] index_has(ns, nv[i]) by {
            if i < vocab.len() {
                assert(index_has(es, vocab[i]));
                        let k = choose|k: int| 0 <= k < es.len() && #[trigger] es[k].0 == vocab[i];
                assert(ns[k].0 == nv[i]);
            } else {
                assert(ns[es.len() as int].0 == nv[i]);
            }
        }
        assert(index_sound(ns, nv));
        assert(index_distinct(ns));
        assert(index_complete(ns, nv));
    }
}

/// The byte-level vocabulary and its lookup.
fn byte_level_parts() -> (res: (Vec<Vec<u8>>, Vec<(Vec<u8>, u32)>))
    ensures
        words_view(res.0@) == byte_vocab(),
        res.0@.len() == 256,
        is_token_index(index_view(res.1@), byte_vocab()),
{
    let mut vocabulary: Vec<Vec<u8>> = Vec::new();
    let mut token_to_id: Vec<(Vec<u8>, u32)> = Vec::new();
    let mut i: u32 = 0;
    while i < 256
        invariant
            i <= 256,
            words_view(vocabulary@) =~= byte_vocab().take(i as int),
            is_token_index(index_view(token_to_id@), words_view(vocabulary@)),
        decreases 256 - i,
    {
        let byte_for_char = vec![i as u8];
        assert(byte_for_char@ =~= seq![i as u8]);
        let ghost before = words_view(vocabulary@);
        vocabulary.push(byte_for_char.clone());
        proof {
            assert(words_view(vocabulary@) =~= before.push(byte_for_char@));
        }
        index_add(&mut token_to_id, byte_for_char, i, Ghost(before));
        assert(byte_vocab().take(i + 1) =~= byte_vocab().take(i as int).push(seq![i as u8]));
        i = i + 1;
    }
    assert(byte_vocab().take(256) =~= byte_vocab());
    (vocabulary, token_to_id)
}

// ---------------------------------------------------------------------------
// The tokenizer
// ---------------------------------------------------------------------------

/// A byte-level BPE tokenizer: a vocabulary of byte strings (token `i` spells
/// `vocabulary[i]`), the merge rules in the order they were learned, and the
/// lookup from each word to its token.
#[derive(Debug)]
pub struct BpeTokenizer {
    vocabulary: Vec<Vec<u8>>,
    merge_rules: Vec<MergeRule>,
    token_to_id: Vec<(Vec<u8>, u32)>,
}

impl BpeTokenizer {
    /// The lookup lists each word of the vocabulary once, with its last token,
    /// and every token fits in a `u32`.
    #[verifier::type_invariant]
    spec fn well_formed(self) -> bool {
        &&& is_token_index(index_view(self.token_to_id@), words_view(self.vocabulary@))
        &&& self.vocabulary@.len() <= u32::MAX as int + 1
    }

    /// The vocabulary: token `i` spells `vocab_view()[i]`.
    pub closed spec fn vocab_view(&self) -> Seq<Seq<u8>> {
        words_view(self.vocabulary@)
    }

    /// The merge rules, in the order in which they apply.
    pub closed spec fn rules_view(&self) -> Seq<MergeRule> {
        self.merge_rules@
    }

    /// The lookup from words to tokens.
    pub closed spec fn index_entries(&self) -> Seq<(Seq<u8>, u32)> {
        index_view(self.token_to_id@)
    }

    /// Vocabulary and rules fit together (see [`consistent`]).
    pub open spec fn is_consistent(&self) -> bool {
        consistent(self.vocab_view(), self.rules_view())
    }

    /// The byte-level tokenizer: 256 tokens, token `i` spelling the byte `i`, no merge rules.
    pub fn new_byte_level() -> (res: Self)
        ensures
            res.vocab_view() == byte_vocab(),
            res.rules_view() == Seq::<MergeRule>::empty(),
    {
        let (vocabulary, token_to_id) = byte_level_parts();
        BpeTokenizer { vocabulary, merge_rules: Vec::new(), token_to_id }
    }

    /// Learns merge rules from the UTF-8 bytes of `corpus` until the vocabulary
    /// holds `vocab_size` words or no adjacent pair is left. Each round merges the
    /// most frequent adjacent pair (the smallest on a tie) into a new token.
    /// Fails when `vocab_size` is below 256 or the corpus is empty.
    pub fn train(corpus: &str, vocab_size: usize) -> (res: MuraResult<Self>)
        requires
            vocab_size <= u32::MAX || vstd::utf8::encode_utf8(corpus@).len() <= u32::MAX - 256,
        ensures
            vocab_size < 256 ==> res matches Err(MuraError::BpeError(_)),
            vocab_size >= 256 && corpus@.len() == 0 ==> res matches Err(MuraError::BpeError(_)),
            vocab_size >= 256 && corpus@.len() > 0 ==> (res matches Ok(tok) && {
                &&& (tok.vocab_view(), tok.rules_view()) == spec_train(
                    vstd::utf8::encode_utf8(corpus@),
                    vocab_size as nat,
                )
                &&& tok.is_consistent()
                &&& 256 <= tok.vocab_view().len() <= vocab_size
                &&& tok.vocab_view().len() == 256 + tok.rules_view().len()
                &&& rules_numbered(tok.rules_view())
                &&& tok.vocab_view().len() <= u32::MAX
                &&& forall|i: int|
                    256 <= i < tok.vocab_view().len() ==> #[trigger] tok.vocab_view()[i].len()
                        <= vstd::utf8::encode_utf8(corpus@).len()
                &&& vstd::utf8::encode_utf8(corpus@).len() <= u32::MAX ==> words_fit_u32(
                    tok.vocab_view(),
                )
                &&& tok.vocab_view().len() == vocab_size || spec_apply_rules(
                    byte_tokens(vstd::utf8::encode_utf8(corpus@)),
                    tok.rules_view(),
                ).len() < 2
            }),
    {
        if vocab_size < 256 {
            return Err(MuraError::BpeError(String::from_str("vocabulary size must be at least 256")));
        }
        if corpus.is_empty() {
            return Err(MuraError::BpeError(String::from_str("training corpus is empty")));
        }
        let bytes = corpus.as_bytes();
        let mut chars_vec: Vec<u32> = Vec::new();
        let mut i: usize = 0;
        while i < bytes.len()
            invariant
                i <= bytes@.len(),
                chars_vec@ =~= byte_tokens(bytes@).take(i as int),
            decreases bytes.len() - i,
        {
            chars_vec.push(bytes[i] as u32);
            i = i + 1;
        }
        assert(chars_vec@ =~= byte_tokens(bytes@));
        let ghost total = bytes@.len();
        let ghost target = spec_train(bytes@, vocab_size as nat);
        let (mut vocabulary, mut token_to_id) = byte_level_parts();
        let mut merge_rules: Vec<MergeRule> = Vec::new();
        let mut new_token: u32 = 0;
        assert(tokens_below(chars_vec@, 256));
        while vocabulary.len() < vocab_size && chars_vec.len() >= 2
            invariant
                bytes@ == vstd::utf8::encode_utf8(corpus@),
                total == bytes@.len(),
                vocab_size <= u32::MAX || total <= u32::MAX - 256,
                256 <= vocabulary@.len() <= vocab_size,
                vocabulary@.len() == 256 + merge_rules@.len(),
                new_token == merge_rules@.len(),
                merge_rules@.len() + chars_vec@.len() <= total,
                consistent(words_view(vocabulary@), merge_rules@),
                tokens_below(chars_vec@, vocabulary@.len() as int),
                is_token_index(index_view(token_to_id@), words_view(vocabulary@)),
                spec_train_steps(
                    chars_vec@,
                    words_view(vocabulary@),
                    merge_rules@,
                    (vocab_size - vocabulary@.len()) as nat,
                ) == target,
            decreases vocab_size - vocabulary@.len(),
        {
            let ghost t = chars_vec@;
            let ghost v = words_view(vocabulary@);
            let ghost budget = (vocab_size - vocabulary@.len()) as nat;
            let (pair_a, pair_b) = find_best_pair(&chars_vec);
            proof {
                lemma_best_pair_exists(t, (pair_a, pair_b));
                lemma_step_consistent(t, v, merge_rules@);
            }
            let result = 256 + new_token;
            let priority = new_token + 1;
            merge_rules.push(MergeRule { pair_a, pair_b, result, priority });

            // the new word spells the pair's two words side by side
            let mut merged_bytes: Vec<u8> = Vec::new();
            let bytes_pair_a = &vocabulary[pair_a as usize];
            let bytes_pair_b = &vocabulary[pair_b as usize];
            let mut j: usize = 0;
            while j < bytes_pair_a.len()
                invariant
                    j <= bytes_pair_a@.len(),
                    merged_bytes@ =~= bytes_pair_a@.take(j as int),
                decreases bytes_pair_a.len() - j,
            {
                merged_bytes.push(bytes_pair_a[j]);
                j = j + 1;
            }
            let mut j: usize = 0;
            while j < bytes_pair_b.len()
                invariant
                    j <= bytes_pair_b@.len(),
                    merged_bytes@ =~= bytes_pair_a@ + bytes_pair_b@.take(j as int),
                decreases bytes_pair_b.len() - j,
            {
                merged_bytes.push(bytes_pair_b[j]);
                j = j + 1;
            }
            assert(merged_bytes@ =~= v[pair_a as int] + v[pair_b as int]);
            vocabulary.push(merged_bytes.clone());
            assert(words_view(vocabulary@) =~= v.push(merged_bytes@));
            index_add(&mut token_to_id, merged_bytes, result, Ghost(v));

            chars_vec = merge_pair(&chars_vec, pair_a, pair_b, result);
            proof {
                lemma_merge_len(t, pair_a, pair_b, result);
                lemma_merge_tokens_below(t, pair_a, pair_b, result, vocabulary@.len() as int);
                assert(tokens_below(t, vocabulary@.len() as int));
                assert(merge_rules@.last() == MergeRule { pair_a, pair_b, result, priority });
            }
            new_token = new_token + 1;
        }
        proof {
            lemma_train_steps(
                byte_tokens(bytes@),
                byte_tokens(bytes@),
                byte_vocab(),
                Seq::empty(),
                (vocab_size - 256) as nat,
            );
            lemma_flatten_byte_tokens(byte_vocab(), bytes@);
            let v = target.0;
            assert(forall|i: int| 0 <= i < 256 ==> #[trigger] v[i] == seq![i as u8]);
            assert(bytes@.len() <= u32::MAX ==> words_fit_u32(v)) by {
                if bytes@.len() <= u32::MAX {
                    assert forall|i: int| 0 <= i < v.len() implies #[trigger] v[i].len() <= u32::MAX by {
                        if i < 256 {
                            assert(v[i] == seq![i as u8]);
                        }
                    }
                }
            }
            assert(byte_tokens(bytes@).len() == total);
        }
        Ok(BpeTokenizer { vocabulary, merge_rules, token_to_id })
    }

    /// Number of tokens in the vocabulary.
    pub fn vocab_size(&self) -> (res: usize)
        ensures
            res == self.vocab_view().len(),
    {
        self.vocabulary.len()
    }

    /// The merge rules, in the order in which they apply.
    pub fn merge_rules(&self) -> (res: &[MergeRule])
        ensures
            res@ == self.rules_view(),
    {
        self.merge_rules.as_slice()
    }

    /// The vocabulary: token `i` spells `vocabulary()[i]`.
    pub fn vocabulary(&self) -> (res: &[Vec<u8>])
        ensures
            words_view(res@) == self.vocab_view(),
    {
        self.vocabulary.as_slice()
    }

    /// The lookup from each vocabulary word to its (last) token.
    pub fn token_to_id(&self) -> (res: &[(Vec<u8>, u32)])
        ensures
            index_view(res@) == self.index_entries(),
            is_token_index(index_view(res@), self.vocab_view()),
    {
        proof {
            use_type_invariant(self);
        }
        self.token_to_id.as_slice()
    }

    /// The token of `word`: its last position in the vocabulary, or `None` when
    /// no token spells it.
    pub fn token_id(&self, word: &[u8]) -> (res: Option<u32>)
        ensures
            match res {
                Some(id) => {
                    &&& (id as int) < self.vocab_view().len()
                    &&& self.vocab_view()[id as int] == word@
                    &&& forall|i: int|
                        id < i < self.vocab_view().len() ==> self.vocab_view()[i] != word@
                },
                None => forall|i: int|
                    0 <= i < self.vocab_view().len() ==> self.vocab_view()[i] != word@,
            },
    {
        proof {
            use_type_invariant(self);
        }
        let ghost es = index_view(self.token_to_id@);
        let ghost vocab = self.vocab_view();
        let mut j: usize = 0;
        while j < self.token_to_id.len()
            invariant
                es == index_view(self.token_to_id@),
                vocab == self.vocab_view(),
                is_token_index(es, vocab),
                j <= es.len(),
                forall|k: int| 0 <= k < j ==> es[k].0 != word@,
            decreases self.token_to_id.len() - j,
        {
            let entry = &self.token_to_id[j];
            assert(es[j as int] == (entry.0@, entry.1));
            if entry.0.len() == word.len() {
                let mut i: usize = 0;
                let mut same = true;
                while i < word.len() && same
                    invariant
                        entry.0@.len() == word@.len(),
                        i <= word@.len(),
                        same <==> forall|k: int| 0 <= k < i ==> entry.0@[k] == word@[k],
                    decreases word.len() - i,
                {
                    if entry.0[i] != word[i] {
                        same = false;
                    }
                    i = i + 1;
                }
                if same {
                    assert(entry.0@ =~= word@);
                    assert(es[j as int].0 == word@);
                    assert((es[j as int].1 as int) < vocab.len());
                    assert(es[j as int].1 == entry.1);
                    return Some(entry.1);
                }
                assert(entry.0@ != word@) by {
                    let k = choose|k: int| 0 <= k < i && entry.0@[k] != word@[k];
                }
            }
            j = j + 1;
        }
        assert forall|i: int| 0 <= i < vocab.len() implies vocab[i] != word@ by {
            assert(index_has(es, vocab[i]));
            let k = choose|k: int| 0 <= k < es.len() && #[trigger] es[k].0 == vocab[i];
            assert(es[k].0 != word@);
        }
        None
    }

    /// Encodes the UTF-8 bytes of `text` as tokens, applying the merge rules in order.
    pub fn encode(&self, text: &str) -> (res: Vec<u32>)
        ensures
            res@ == spec_apply_rules(byte_tokens(vstd::utf8::encode_utf8(text@)), self.rules_view()),
    {
        let bytes = text.as_bytes();
        let mut all_tokens: Vec<u32> = Vec::new();
        let mut i: usize = 0;
        while i < bytes.len()
            invariant
                i <= bytes@.len(),
                bytes@ == vstd::utf8::encode_utf8(text@),
                all_tokens@ =~= byte_tokens(bytes@).take(i as int),
            decreases bytes.len() - i,
        {
            all_tokens.push(bytes[i] as u32);
            i = i + 1;
        }
        assert(byte_tokens(bytes@).take(i as int) =~= byte_tokens(bytes@));
        let ghost start = all_tokens@;
        let mut k: usize = 0;
        while k < self.merge_rules.len()
            invariant
                k <= self.merge_rules@.len(),
                start == byte_tokens(vstd::utf8::encode_utf8(text@)),
                all_tokens@ == spec_apply_rules(start, self.merge_rules@.take(k as int)),
            decreases self.merge_rules.len() - k,
        {
            let rule = self.merge_rules[k];
            all_tokens = merge_pair(&all_tokens, rule.pair_a, rule.pair_b, rule.result);
            proof {
                let rs = self.merge_rules@.take(k + 1);
                assert(rs.drop_last() =~= self.merge_rules@.take(k as int));
                assert(rs.last() == rule);
            }
            k = k + 1;
        }
        assert(self.merge_rules@.take(k as int) =~= self.merge_rules@);
        all_tokens
    }

    /// Spells out the tokens as bytes and reads them as UTF-8, replacing invalid
    /// sequences. Every token must be in the vocabulary.
    pub fn decode(&self, tokens: &[u32]) -> (res: MuraResult<String>)
        requires
            tokens_below(tokens@, self.vocab_view().len() as int),
        ensures
            res matches Ok(s) && s@ == utf8_lossy(spec_flatten(self.vocab_view(), tokens@)),
            res matches Ok(s) && (vstd::utf8::valid_utf8(spec_flatten(self.vocab_view(), tokens@))
                ==> s@ == vstd::utf8::decode_utf8(spec_flatten(self.vocab_view(), tokens@))),
    {
        let ghost vocab = self.vocab_view();
        let mut final_bytes: Vec<u8> = Vec::new();
        let mut i: usize = 0;
        assert(tokens@.skip(0) =~= tokens@);
        while i < tokens.len()
            invariant
                i <= tokens@.len(),
                vocab == self.vocab_view(),
                vocab == words_view(self.vocabulary@),
                tokens_below(tokens@, vocab.len() as int),
                final_bytes@ + spec_flatten(vocab, tokens@.skip(i as int)) == spec_flatten(
                    vocab,
                    tokens@,
                ),
            decreases tokens.len() - i,
        {
            let c = tokens[i];
            let byte_list = &self.vocabulary[c as usize];
            let ghost before = final_bytes@;
            let mut j: usize = 0;
            while j < byte_list.len()
                invariant
                    j <= byte_list@.len(),
                    final_bytes@ =~= before + byte_list@.take(j as int),
                decreases byte_list.len() - j,
            {
                final_bytes.push(byte_list[j]);
                j = j + 1;
            }
            proof {
                assert(byte_list@.take(j as int) =~= byte_list@);
                assert(vocab[c as int] == byte_list@);
                assert(tokens@.skip(i as int).skip(1) =~= tokens@.skip(i + 1));
                assert(before + spec_flatten(vocab, tokens@.skip(i as int)) =~= final_bytes@
                    + spec_flatten(vocab, tokens@.skip(i + 1)));
            }
            i = i + 1;
        }
        assert(final_bytes@ + spec_flatten(vocab, tokens@.skip(i as int)) =~= final_bytes@);
        Ok(string_from_utf8_lossy(final_bytes.as_slice()))
    }

    /// Serialises the tokenizer: the number of rules, each rule as four
    /// little-endian `u32`s, the number of words, each word preceded by its length.
    pub fn to_bytes(&self) -> (res: Vec<u8>)
        ensures
            res@ == spec_bpe_bytes(self.vocab_view(), self.rules_view()),
    {
        let mut to_byte_vec: Vec<u8> = Vec::new();
        push_u32_le(&mut to_byte_vec, self.merge_rules.len() as u32);
        let ghost head = to_byte_vec@;
        let mut k: usize = 0;
        while k < self.merge_rules.len()
            invariant
                k <= self.merge_rules@.len(),
                head == spec_u32_le(self.merge_rules@.len() as u32),
                to_byte_vec@ == head + rules_bytes(self.merge_rules@.take(k as int)),
            decreases self.merge_rules.len() - k,
        {
            let rule = self.merge_rules[k];
            let ghost before = to_byte_vec@;
            push_u32_le(&mut to_byte_vec, rule.pair_a);
            push_u32_le(&mut to_byte_vec, rule.pair_b);
            push_u32_le(&mut to_byte_vec, rule.result);
            push_u32_le(&mut to_byte_vec, rule.priority);
            proof {
                let rs = self.merge_rules@.take(k + 1);
                assert(rs.drop_last() =~= self.merge_rules@.take(k as int));
                assert(rs.last() == rule);
                assert(to_byte_vec@ =~= head + rules_bytes(rs));
            }
            k = k + 1;
        }
        assert(self.merge_rules@.take(k as int) =~= self.merge_rules@);
        let total_vocab = self.vocabulary.len() as u32;
        push_u32_le(&mut to_byte_vec, total_vocab);
        let ghost head2 = to_byte_vec@;
        let mut i: usize = 0;
        while i < self.vocabulary.len()
            invariant
                i <= self.vocabulary@.len(),
                to_byte_vec@ == head2 + words_bytes(words_view(self.vocabulary@).take(i as int)),
            decreases self.vocabulary.len() - i,
        {
            let byte_list = &self.vocabulary[i];
            let ghost before = to_byte_vec@;
            push_u32_le(&mut to_byte_vec, byte_list.len() as u32);
            let ghost mid = to_byte_vec@;
            let mut j: usize = 0;
            while j < byte_list.len()
                invariant
                    j <= byte_list@.len(),
                    to_byte_vec@ =~= mid + byte_list@.take(j as int),
                decreases byte_list.len() - j,
            {
                to_byte_vec.push(byte_list[j]);
                j = j + 1;
            }
            proof {
                let ws = words_view(self.vocabulary@).take(i + 1);
                assert(ws.drop_last() =~= words_view(self.vocabulary@).take(i as int));
                assert(ws.last() == byte_list@);
                assert(byte_list@.take(j as int) =~= byte_list@);
                assert(to_byte_vec@ =~= head2 + words_bytes(ws));
            }
            i = i + 1;
        }
        assert(words_view(self.vocabulary@).take(i as int) =~= words_view(self.vocabulary@));
        assert(to_byte_vec@ =~= spec_bpe_bytes(self.vocab_view(), self.rules_view()));
        to_byte_vec
    }

    /// Reads a serialised tokenizer (trailing bytes are ignored), or `None` when
    /// the bytes run out before the counts say they should.
    pub fn try_from_bytes(bytes: &[u8]) -> (res: Option<Self>)
        ensures
            match spec_parse_bpe(bytes@) {
                Some((vocab, rules)) => res matches Some(tok) && tok.vocab_view() == vocab
                    && tok.rules_view() == rules,
                None => res is None,
            },
    {
        let ghost b = bytes@;
        let n = bytes.len();
        if n < 4 {
            return None;
        }
        let rule_count = read_u32_le(bytes, 0);
        let mut cursor: usize = 4;
        let mut merge_rules: Vec<MergeRule> = Vec::new();
        let mut k: u32 = 0;
        while k < rule_count
            invariant
                b == bytes@,
                n == b.len(),
                n >= 4,
                rule_count == spec_u32_from_le(b, 0),
                k <= rule_count,
                cursor <= n,
                parse_rules(b, 4, k as nat) == Some((merge_rules@, cursor as int)),
            decreases rule_count - k,
        {
            if n - cursor < 16 {
                proof {
                    assert(parse_rules(b, 4, (k + 1) as nat) is None);
                    lemma_parse_rules_fail(b, 4, (k + 1) as nat, rule_count as nat);
                }
                return None;
            }
            let pair_a = read_u32_le(bytes, cursor);
            let pair_b = read_u32_le(bytes, cursor + 4);
            let result = read_u32_le(bytes, cursor + 8);
            let priority = read_u32_le(bytes, cursor + 12);
            merge_rules.push(MergeRule { pair_a, pair_b, result, priority });
            cursor = cursor + 16;
            k = k + 1;
        }
        if n - cursor < 4 {
            return None;
        }
        let vocab_count = read_u32_le(bytes, cursor);
        let ghost words_at = cursor + 4;
        cursor = cursor + 4;
        let mut vocabulary: Vec<Vec<u8>> = Vec::new();
        let mut k: u32 = 0;
        while k < vocab_count
            invariant
                b == bytes@,
                n == b.len(),
                vocab_count == spec_u32_from_le(b, words_at - 4),
                n >= 4,
                rule_count == spec_u32_from_le(b, 0),
                words_at <= n,
                parse_rules(b, 4, rule_count as nat) == Some((merge_rules@, words_at - 4)),
                k <= vocab_count,
                cursor <= n,
                vocabulary@.len() == k,
                parse_words(b, words_at, k as nat) == Some((words_view(vocabulary@), cursor as int)),
            decreases vocab_count - k,
        {
            if n - cursor < 4 {
                proof {
                    assert(parse_words(b, words_at, (k + 1) as nat) is None);
                    lemma_parse_words_fail(b, words_at, (k + 1) as nat, vocab_count as nat);
                }
                return None;
            }
            let word_length = read_u32_le(bytes, cursor) as usize;
            if n - cursor - 4 < word_length {
                proof {
                    assert(parse_words(b, words_at, (k + 1) as nat) is None);
                    lemma_parse_words_fail(b, words_at, (k + 1) as nat, vocab_count as nat);
                }
                return None;
            }
            let start = cursor + 4;
            let mut word: Vec<u8> = Vec::new();
            let mut j: usize = 0;
            while j < word_length
                invariant
                    b == bytes@,
                    n == b.len(),
                    start + word_length <= n,
                    j <= word_length,
                    word@ =~= b.subrange(start as int, start + j),
                decreases word_length - j,
            {
                word.push(bytes[start + j]);
                j = j + 1;
            }
            let ghost before = words_view(vocabulary@);
            vocabulary.push(word);
            assert(words_view(vocabulary@) =~= before.push(b.subrange(start as int, start + word_length)));
            cursor = start + word_length;
            k = k + 1;
        }
        // rebuild the lookup from the vocabulary
        let mut token_to_id: Vec<(Vec<u8>, u32)> = Vec::new();
        let mut i: usize = 0;
        while i < vocabulary.len()
            invariant
                i <= vocabulary@.len(),
                vocabulary@.len() == vocab_count,
                is_token_index(index_view(token_to_id@), words_view(vocabulary@).take(i as int)),
            decreases vocabulary.len() - i,
        {
            let key = vocabulary[i].clone();
            assert(key@ =~= vocabulary@[i as int]@);
            let ghost before = words_view(vocabulary@).take(i as int);
            index_add(&mut token_to_id, key, i as u32, Ghost(before));
            assert(words_view(vocabulary@).take(i + 1) =~= before.push(vocabulary@[i as int]@));
            i = i + 1;
        }
        assert(words_view(vocabulary@).take(i as int) =~= words_view(vocabulary@));
        Some(BpeTokenizer { vocabulary, merge_rules, token_to_id })
    }

    /// Reads a serialised tokenizer (trailing bytes are ignored). The bytes must
    /// hold all the rules and words that their counts announce.
    pub fn from_bytes(bytes: &[u8]) -> (res: MuraResult<Self>)
        requires
            spec_parse_bpe(bytes@) is Some,
        ensures
            res matches Ok(tok) && tok.vocab_view() == spec_parse_bpe(bytes@).unwrap().0
                && tok.rules_view() == spec_parse_bpe(bytes@).unwrap().1,
    {
        Ok(Self::try_from_bytes(bytes).unwrap())
    }
}

/// A fresh copy of a byte string.
fn copy_bytes(src: &Vec<u8>) -> (res: Vec<u8>)
    ensures
        res@ == src@,
{
    let mut out: Vec<u8> = Vec::new();
    let mut i: usize = 0;
    while i < src.len()
        invariant
            i <= src@.len(),
            out@ =~= src@.take(i as int),
        decreases src.len() - i,
    {
        out.push(src[i]);
        i = i + 1;
    }
    assert(src@.take(i as int) =~= src@);
    out
}

impl Clone for BpeTokenizer {
    /// A copy with the same vocabulary, rules and lookup.
    fn clone(&self) -> (res: Self)
        ensures
            res.vocab_view() == self.vocab_view(),
            res.rules_view() == self.rules_view(),
            res.index_entries() == self.index_entries(),
    {
        proof {
            use_type_invariant(self);
        }
        let mut vocabulary: Vec<Vec<u8>> = Vec::new();
        let mut i: usize = 0;
        while i < self.vocabulary.len()
            invariant
                i <= self.vocabulary@.len(),
                words_view(vocabulary@) =~= words_view(self.vocabulary@).take(i as int),
                vocabulary@.len() == i,
            decreases self.vocabulary.len() - i,
        {
            let w = copy_bytes(&self.vocabulary[i]);
            vocabulary.push(w);
            i = i + 1;
        }
        let mut merge_rules: Vec<MergeRule> = Vec::new();
        let mut i: usize = 0;
        while i < self.merge_rules.len()
            invariant
                i <= self.merge_rules@.len(),
                merge_rules@ =~= self.merge_rules@.take(i as int),
            decreases self.merge_rules.len() - i,
        {
            merge_rules.push(self.merge_rules[i]);
            i = i + 1;
        }
        let mut token_to_id: Vec<(Vec<u8>, u32)> = Vec::new();
        let mut i: usize = 0;
        while i < self.token_to_id.len()
            invariant
                i <= self.token_to_id@.len(),
                index_view(token_to_id@) =~= index_view(self.token_to_id@).take(i as int),
            decreases self.token_to_id.len() - i,
        {
            let entry = &self.token_to_id[i];
            let w = copy_bytes(&entry.0);
            let id = entry.1;
            assert((w@, id) == index_view(self.token_to_id@)[i as int]);
            let ghost before = token_to_id@;
            token_to_id.push((w, id));
            assert(index_view(token_to_id@) =~= index_view(before).push((w@, id)));
            assert(index_view(self.token_to_id@).take(i + 1) =~= index_view(self.token_to_id@).take(
                i as int,
            ).push((w@, id)));
            i = i + 1;
        }
        assert(words_view(vocabulary@) =~= words_view(self.vocabulary@));
        assert(merge_rules@ =~= self.merge_rules@);
        assert(index_view(token_to_id@) =~= index_view(self.token_to_id@));
        BpeTokenizer { vocabulary, merge_rules, token_to_id }
    }
}

/// Encoding with a consistent tokenizer and then decoding gives back the text:
/// the tokens are all in the vocabulary and spell out the text's UTF-8 bytes.
pub proof fn lemma_encode_decode_roundtrip(tok: BpeTokenizer, text: Seq<char>)
    requires
        tok.is_consistent(),
    ensures
        ({
            let bytes = vstd::utf8::encode_utf8(text);
            let tokens = spec_apply_rules(byte_tokens(bytes), tok.rules_view());
            &&& tokens_below(tokens, tok.vocab_view().len() as int)
            &&& spec_flatten(tok.vocab_view(), tokens) == bytes
            &&& vstd::utf8::valid_utf8(spec_flatten(tok.vocab_view(), tokens))
            &&& vstd::utf8::decode_utf8(spec_flatten(tok.vocab_view(), tokens)) == text
        }),
{
    let vocab = tok.vocab_view();
    let bytes = vstd::utf8::encode_utf8(text);
    let t0 = byte_tokens(bytes);
    assert(tokens_below(t0, vocab.len() as int));
    lemma_flatten_byte_tokens(vocab, bytes);
    lemma_apply_rules(vocab, tok.rules_view(), t0);
    vstd::utf8::encode_utf8_valid_utf8(text);
    vstd::utf8::encode_utf8_decode_utf8(text);
}

} // verus!
