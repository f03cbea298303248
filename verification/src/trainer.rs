//! Bigram training: teaches a tokenizer the words of a text and counts,
//! for every ordered pair of ids, how often the second follows the first.

use vstd::prelude::*;
use crate::layout::{lemma_cell, lemma_offset};
use crate::text::{cleaned, clean_word, lowercased, split_whitespace, to_lowercase, views, words_of};
use crate::tokenizer::{
    encoded, encoded_lowercase, lemma_token_of_known, lemma_with_word, token_of, tokens_of,
    vocab_wf, with_word, Tokenizer,
};

verus! {

/// The vocabulary after teaching it every non-empty cleaned word of `ws`,
/// in order.
pub open spec fn learned(v: Seq<Seq<char>>, ws: Seq<Seq<char>>) -> Seq<Seq<char>>
    decreases ws.len(),
{
    if ws.len() == 0 {
        v
    } else {
        let prev = learned(v, ws.drop_last());
        let c = cleaned(ws.last());
        if c.len() > 0 {
            with_word(prev, c)
        } else {
            prev
        }
    }
}

/// Learning keeps the vocabulary well formed, keeps every word it knew,
/// and leaves it knowing every non-empty cleaned word of `ws`.
pub proof fn lemma_learned(v: Seq<Seq<char>>, ws: Seq<Seq<char>>)
    requires
        vocab_wf(v),
        v.len() + ws.len() <= usize::MAX,
    ensures
        vocab_wf(learned(v, ws)),
        v.len() <= learned(v, ws).len() <= v.len() + ws.len(),
        forall|x: Seq<char>| v.contains(x) ==> #[trigger] learned(v, ws).contains(x),
        forall|k: int|
            0 <= k < ws.len() && cleaned(ws[k]).len() > 0 ==> learned(v, ws).contains(
                #[trigger] cleaned(ws[k]),
            ),
    decreases ws.len(),
{
    if ws.len() > 0 {
        lemma_learned(v, ws.drop_last());
        let p = learned(v, ws.drop_last());
        let c = cleaned(ws.last());
        if c.len() > 0 {
            lemma_with_word(p, c, c);
            let q = with_word(p, c);
            assert forall|x: Seq<char>| p.contains(x) implies q.contains(x) by {
                let i = choose|i: int| 0 <= i < p.len() && p[i] == x;
                assert(q[i] == x);
            }
            assert(q.contains(c)) by {
                if !p.contains(c) {
                    assert(q[p.len() as int] == c);
                }
            }
        }
        let q = learned(v, ws);
        assert forall|k: int|
            0 <= k < ws.len() && cleaned(ws[k]).len() > 0 implies q.contains(
            #[trigger] cleaned(ws[k]),
        ) by {
            if k < ws.len() - 1 {
                assert(ws.drop_last()[k] == ws[k]);
                assert(p.contains(cleaned(ws.drop_last()[k])));
            }
        }
    }
}

/// After learning a text, encoding that same text gives every word with
/// an alphanumeric character the id that holds its cleaned form: no such
/// word comes out as `<UNK>`.
pub proof fn lemma_learn_then_encode(v: Seq<Seq<char>>, lowered: Seq<char>)
    requires
        vocab_wf(v),
        v.len() + words_of(lowered).len() <= usize::MAX,
    ensures
        ({
            let ws = words_of(lowered);
            let v2 = learned(v, ws);
            let e = encoded_lowercase(v2, lowered);
            forall|k: int|
                0 <= k < ws.len() && cleaned(ws[k]).len() > 0 ==> (e[k + 1] as int) < v2.len()
                    && v2[e[k + 1] as int] == #[trigger] cleaned(ws[k])
        }),
{
    let ws = words_of(lowered);
    lemma_learned(v, ws);
    let v2 = learned(v, ws);
    let e = encoded_lowercase(v2, lowered);
    assert forall|k: int| 0 <= k < ws.len() && cleaned(ws[k]).len() > 0 implies (e[k + 1] as int)
        < v2.len() && v2[e[k + 1] as int] == #[trigger] cleaned(ws[k]) by {
        assert(v2.contains(cleaned(ws[k])));
        lemma_token_of_known(v2, cleaned(ws[k]));
        assert(e[k + 1] == tokens_of(v2, ws)[k]);
    }
}

/// How many times `b` directly follows `a` in `tokens`.
pub open spec fn pair_count(tokens: Seq<usize>, a: usize, b: usize) -> nat
    decreases tokens.len(),
{
    if tokens.len() < 2 {
        0
    } else {
        pair_count(tokens.drop_last(), a, b) + if tokens[tokens.len() - 2] == a && tokens.last()
            == b {
            1nat
        } else {
            0nat
        }
    }
}

/// A sequence holds no pair more often than it has elements.
pub proof fn lemma_pair_count_bound(tokens: Seq<usize>, a: usize, b: usize)
    ensures
        pair_count(tokens, a, b) <= tokens.len(),
    decreases tokens.len(),
{
    if tokens.len() >= 2 {
        lemma_pair_count_bound(tokens.drop_last(), a, b);
    }
}

/// The sum of the first `m` cells of the pair-count grid of `tokens`
/// over `n` ids.
pub open spec fn grid_total(tokens: Seq<usize>, n: usize, m: nat) -> nat
    decreases m,
{
    if m == 0 {
        0
    } else {
        grid_total(tokens, n, (m - 1) as nat) + pair_count(
            tokens,
            ((m - 1) as int / n as int) as usize,
            ((m - 1) as int % n as int) as usize,
        )
    }
}

proof fn lemma_grid_total_step(tokens: Seq<usize>, n: usize, m: nat)
    requires
        tokens.len() >= 2,
        tokens[tokens.len() - 2] < n,
        tokens.last() < n,
        m <= n * n,
    ensures
        grid_total(tokens, n, m) == grid_total(tokens.drop_last(), n, m) + if (
        tokens[tokens.len() - 2] * n + tokens.last() < m) {
            1nat
        } else {
            0nat
        },
    decreases m,
{
    let a = tokens[tokens.len() - 2];
    let b = tokens.last();
    lemma_cell(a as int, b as int, n as int, n as int);
    if m > 0 {
        lemma_grid_total_step(tokens, n, (m - 1) as nat);
        let k = (m - 1) as int;
        lemma_offset(k, n as int, n as int);
        let x = (k / n as int) as usize;
        let y = (k % n as int) as usize;
        if k != a * n + b {
            assert(x != a || y != b);
        }
    }
}

/// Every adjacent pair of a sequence of ids is counted in exactly one cell:
/// the whole grid sums to one less than the number of tokens.
pub proof fn lemma_grid_total(tokens: Seq<usize>, n: usize)
    requires
        forall|i: int| 0 <= i < tokens.len() ==> tokens[i] < n,
    ensures
        grid_total(tokens, n, (n * n) as nat) == if tokens.len() == 0 {
            0
        } else {
            (tokens.len() - 1) as nat
        },
    decreases tokens.len(),
{
    if tokens.len() < 2 {
        lemma_grid_total_zero(tokens, n, (n * n) as nat);
    } else {
        lemma_grid_total(tokens.drop_last(), n);
        lemma_grid_total_step(tokens, n, (n * n) as nat);
        lemma_cell(tokens[tokens.len() - 2] as int, tokens.last() as int, n as int, n as int);
    }
}

proof fn lemma_grid_total_zero(tokens: Seq<usize>, n: usize, m: nat)
    requires
        tokens.len() < 2,
    ensures
        grid_total(tokens, n, m) == 0,
    decreases m,
{
    if m > 0 {
        lemma_grid_total_zero(tokens, n, (m - 1) as nat);
    }
}

/// Learns the vocabulary of a text and counts its word pairs.
pub struct Trainer;

impl Trainer {
    /// Teaches the tokenizer each non-empty cleaned word of text that is
    /// already lowercase.
    pub fn learn_vocabulary_lowercased(lowered: &str, tokenizer: &mut Tokenizer)
        ensures
            final(tokenizer)@ == learned(old(tokenizer)@, words_of(lowered@)),
            vocab_wf(final(tokenizer)@),
    {
        proof {
            use_type_invariant(&*tokenizer);
        }
        let words = split_whitespace(lowered);
        let ghost ws = views(words@);
        let ghost v0 = tokenizer@;
        let mut i: usize = 0;
        while i < words.len()
            invariant
                ws == views(words@),
                i <= words@.len(),
                tokenizer@ == learned(v0, ws.take(i as int)),
                vocab_wf(tokenizer@),
            decreases words.len() - i,
        {
            proof {
                assert(ws.take(i + 1).drop_last() == ws.take(i as int));
                assert(ws[i as int] == words@[i as int]@);
            }
            let clean = clean_word(words[i].as_str());
            if !clean.as_str().is_empty() {
                tokenizer.add_word(clean.as_str());
            }
            i = i + 1;
        }
        proof {
            assert(ws.take(ws.len() as int) == ws);
        }
    }

    /// Teaches the tokenizer each non-empty cleaned word of the lowercased
    /// text.
    pub fn learn_vocabulary(text: &str, tokenizer: &mut Tokenizer)
        ensures
            final(tokenizer)@ == learned(old(tokenizer)@, words_of(lowercased(text@))),
            vocab_wf(final(tokenizer)@),
    {
        let lowered = to_lowercase(text);
        Self::learn_vocabulary_lowercased(lowered.as_str(), tokenizer);
    }

    /// The pair-count grid of a token sequence over `vocab_size` ids, in
    /// row-major order: cell `k` holds how often id `k % vocab_size`
    /// directly follows id `k / vocab_size`.
    pub fn bigram_counts(tokens: &[usize], vocab_size: usize) -> (r: Vec<usize>)
        requires
            vocab_size * vocab_size <= usize::MAX,
            forall|i: int| 0 <= i < tokens@.len() ==> tokens@[i] < vocab_size,
        ensures
            r@.len() == vocab_size * vocab_size,
            forall|k: int|
                0 <= k < r@.len() ==> #[trigger] r@[k] == pair_count(
                    tokens@,
                    (k / vocab_size as int) as usize,
                    (k % vocab_size as int) as usize,
                ),
    {
        let n = vocab_size;
        let size = n * n;
        let mut counts: Vec<usize> = Vec::new();
        let mut k: usize = 0;
        while k < size
            invariant
                size == n * n,
                k <= size,
                counts@.len() == k,
                forall|j: int| 0 <= j < k ==> counts@[j] == 0,
            decreases size - k,
        {
            counts.push(0);
            k = k + 1;
        }
        let len = tokens.len();
        if len < 2 {
            proof {
                assert forall|j: int| 0 <= j < size implies #[trigger] counts@[j] == pair_count(
                    tokens@,
                    (j / n as int) as usize,
                    (j % n as int) as usize,
                ) by {
                    assert(counts@[j] == 0);
                }
            }
            return counts;
        }
        proof {
            assert forall|j: int| 0 <= j < size implies #[trigger] counts@[j] == pair_count(
                tokens@.take(1),
                (j / n as int) as usize,
                (j % n as int) as usize,
            ) by {
                assert(counts@[j] == 0);
                assert(tokens@.take(1).len() == 1);
            }
        }
        let mut i: usize = 0;
        while i + 1 < len
            invariant
                len == tokens@.len(),
                size == n * n,
                size <= usize::MAX,
                counts@.len() == size,
                forall|j: int| 0 <= j < tokens@.len() ==> tokens@[j] < n,
                i + 1 <= len,
                forall|j: int|
                    0 <= j < size ==> #[trigger] counts@[j] == pair_count(
                        tokens@.take(i + 1),
                        (j / n as int) as usize,
                        (j % n as int) as usize,
                    ),
            decreases tokens.len() - i,
        {
            let cur = tokens[i];
            let next = tokens[i + 1];
            proof {
                lemma_cell(cur as int, next as int, n as int, n as int);
            }
            let idx = cur * n + next;
            let ghost before = counts@;
            let ghost prefix = tokens@.take(i + 1);
            let ghost longer = tokens@.take(i + 2);
            proof {
                assert(longer.drop_last() == prefix);
                assert(longer[longer.len() - 2] == cur);
                assert(longer.last() == next);
                lemma_pair_count_bound(prefix, cur, next);
                assert(before[idx as int] == pair_count(prefix, cur, next));
            }
            counts.set(idx, counts[idx] + 1);
            proof {
                assert forall|j: int| 0 <= j < size implies #[trigger] counts@[j] == pair_count(
                    longer,
                    (j / n as int) as usize,
                    (j % n as int) as usize,
                ) by {
                    lemma_offset(j, n as int, n as int);
                    let a = (j / n as int) as usize;
                    let b = (j % n as int) as usize;
                    assert(before[j] == pair_count(prefix, a, b));
                    if j != idx {
                        assert(a != cur || b != next);
                    }
                }
            }
            i = i + 1;
        }
        proof {
            assert(tokens@.take(i + 1) == tokens@);
        }
        counts
    }

    /// Encodes a text and counts its pairs over the tokenizer's ids.
    pub fn count_bigrams(text: &str, tokenizer: &Tokenizer) -> (r: Vec<usize>)
        requires
            tokenizer@.len() * tokenizer@.len() <= usize::MAX,
        ensures
            r@.len() == tokenizer@.len() * tokenizer@.len(),
            forall|k: int|
                0 <= k < r@.len() ==> #[trigger] r@[k] == pair_count(
                    encoded(tokenizer@, text@),
                    (k / tokenizer@.len() as int) as usize,
                    (k % tokenizer@.len() as int) as usize,
                ),
    {
        let tokens = tokenizer.encode(text);
        Self::bigram_counts(tokens.as_slice(), tokenizer.vocab_size())
    }
}

} // verus!
