//! The content guard: a fixed list of forbidden words, taught to the
//! tokenizer, whose ids are refused wherever they occur.

use vstd::prelude::*;
use vstd::string::StringExecFns;
use crate::tokenizer::{
    encoded, encoded_lowercase, lemma_token_of_known, lemma_with_word, token_of, tokens_of, vocab_wf,
    with_word, Tokenizer, EOS_ID,
};
use crate::text::{lowercased, words_of};

verus! {

/// The forbidden words, in the order in which they are taught.
pub open spec fn forbidden_words() -> Seq<Seq<char>> {
    seq![
        seq!['h', 'a', 'c', 'k'],
        seq!['k', 'i', 'l', 'l'],
        seq!['s', 't', 'e', 'a', 'l'],
        seq!['a', 't', 't', 'a', 'c', 'k'],
        seq!['b', 'o', 'm', 'b'],
    ]
}

/// The vocabulary after teaching it the words of `ws` in order.
pub open spec fn vocab_after(v: Seq<Seq<char>>, ws: Seq<Seq<char>>) -> Seq<Seq<char>>
    decreases ws.len(),
{
    if ws.len() == 0 {
        v
    } else {
        with_word(vocab_after(v, ws.drop_last()), ws.last())
    }
}

/// The first element of `s` greater than `bound`.
pub open spec fn first_above(s: Seq<usize>, bound: usize) -> Option<usize>
    decreases s.len(),
{
    if s.len() == 0 {
        None
    } else if s[0] > bound {
        Some(s[0])
    } else {
        first_above(s.drop_first(), bound)
    }
}

/// The ids guarded for the words of `ws`: after teaching each word, the
/// first non-special token of its encoding, when there is one.
pub open spec fn guarded_ids(v: Seq<Seq<char>>, ws: Seq<Seq<char>>) -> Seq<usize>
    decreases ws.len(),
{
    if ws.len() == 0 {
        Seq::empty()
    } else {
        let prev = guarded_ids(v, ws.drop_last());
        match first_above(encoded(vocab_after(v, ws), ws.last()), EOS_ID) {
            Some(id) => prev.push(id),
            None => prev,
        }
    }
}

/// The answer given to a refused token sequence.
pub open spec fn refusal() -> Seq<char> {
    "I cannot assist with that request."@
}

/// Whether a token sequence holds one of the guarded ids.
pub open spec fn violates(forbidden: Seq<usize>, tokens: Seq<usize>) -> bool {
    exists|i: int| 0 <= i < tokens.len() && forbidden.contains(#[trigger] tokens[i])
}

/// The first element above a bound is above it and occurs in the sequence.
pub proof fn lemma_first_above(s: Seq<usize>, bound: usize)
    ensures
        first_above(s, bound) matches Some(x) ==> x > bound && s.contains(x),
    decreases s.len(),
{
    if s.len() > 0 && s[0] <= bound {
        lemma_first_above(s.drop_first(), bound);
        if first_above(s.drop_first(), bound) is Some {
            let x = first_above(s.drop_first(), bound)->0;
            let i = choose|i: int| 0 <= i < s.drop_first().len() && s.drop_first()[i] == x;
            assert(s[i + 1] == x);
        }
    } else if s.len() > 0 {
        assert(s[0] == s[0]);
    }
}

/// Every token of an encoding is an id of the vocabulary.
pub proof fn lemma_encoded_ids(v: Seq<Seq<char>>, lowered: Seq<char>)
    requires
        vocab_wf(v),
    ensures
        forall|i: int|
            0 <= i < encoded_lowercase(v, lowered).len() ==> #[trigger] encoded_lowercase(
                v,
                lowered,
            )[i] < v.len(),
{
    let ws = words_of(lowered);
    let e = encoded_lowercase(v, lowered);
    assert forall|i: int| 0 <= i < e.len() implies #[trigger] e[i] < v.len() by {
        if 1 <= i < e.len() - 1 {
            let c = crate::text::cleaned(ws[i - 1]);
            assert(e[i] == tokens_of(v, ws)[i - 1]);
            assert(e[i] == token_of(v, c));
            if v.contains(c) {
                lemma_token_of_known(v, c);
            } else {
                assert(token_of(v, c) == crate::tokenizer::UNK_ID) by {
                    if exists|j: int| 0 <= j < v.len() && v[j] == c {
                        let j = choose|j: int| 0 <= j < v.len() && v[j] == c;
                        assert(v.contains(c));
                    }
                }
            }
        }
    }
}

/// After teaching words, the vocabulary is still well formed, keeps every
/// word it knew, and knows each taught word.
pub proof fn lemma_vocab_after(v: Seq<Seq<char>>, ws: Seq<Seq<char>>)
    requires
        vocab_wf(v),
        v.len() + ws.len() <= usize::MAX,
    ensures
        vocab_wf(vocab_after(v, ws)),
        v.len() <= vocab_after(v, ws).len() <= v.len() + ws.len(),
        forall|x: Seq<char>| v.contains(x) ==> #[trigger] vocab_after(v, ws).contains(x),
        forall|k: int| 0 <= k < ws.len() ==> vocab_after(v, ws).contains(#[trigger] ws[k]),
    decreases ws.len(),
{
    if ws.len() > 0 {
        lemma_vocab_after(v, ws.drop_last());
        let p = vocab_after(v, ws.drop_last());
        lemma_with_word(p, ws.last(), ws.last());
        let q = with_word(p, ws.last());
        assert forall|x: Seq<char>| p.contains(x) implies q.contains(x) by {
            let i = choose|i: int| 0 <= i < p.len() && p[i] == x;
            assert(q[i] == x);
        }
        assert(q.contains(ws.last())) by {
            if !p.contains(ws.last()) {
                assert(q[p.len() as int] == ws.last());
            }
        }
        assert forall|k: int| 0 <= k < ws.len() implies q.contains(#[trigger] ws[k]) by {
            if k < ws.len() - 1 {
                assert(ws.drop_last()[k] == ws[k]);
            }
        }
    }
}

/// The guarded ids are ordinary ids of the taught vocabulary: never one
/// of the special ids, and each below the vocabulary size.
pub proof fn lemma_guarded_ids(v: Seq<Seq<char>>, ws: Seq<Seq<char>>)
    requires
        vocab_wf(v),
        v.len() + ws.len() <= usize::MAX,
    ensures
        forall|i: int|
            0 <= i < guarded_ids(v, ws).len() ==> EOS_ID < #[trigger] guarded_ids(v, ws)[i]
                < vocab_after(v, ws).len(),
    decreases ws.len(),
{
    if ws.len() > 0 {
        lemma_guarded_ids(v, ws.drop_last());
        lemma_vocab_after(v, ws);
        lemma_vocab_after(v, ws.drop_last());
        let vk = vocab_after(v, ws);
        let enc = encoded(vk, ws.last());
        lemma_encoded_ids(vk, lowercased(ws.last()));
        lemma_first_above(enc, EOS_ID);
        let p = vocab_after(v, ws.drop_last());
        let prev = guarded_ids(v, ws.drop_last());
        assert(p.len() <= vk.len());
        if first_above(enc, EOS_ID) is Some {
            let x = first_above(enc, EOS_ID)->0;
            let j = choose|j: int| 0 <= j < enc.len() && enc[j] == x;
            assert(enc[j] < vk.len());
            assert(guarded_ids(v, ws) == prev.push(x));
        } else {
            assert(guarded_ids(v, ws) == prev);
        }
        assert forall|i: int| 0 <= i < guarded_ids(v, ws).len() implies EOS_ID
            < #[trigger] guarded_ids(v, ws)[i] < vk.len() by {
            if i < prev.len() {
                assert(guarded_ids(v, ws)[i] == prev[i]);
            }
        }
    }
}

/// Setting up the guard leaves every forbidden word in the vocabulary and
/// guards only ordinary ids of it.
pub proof fn lemma_constitution_setup(v: Seq<Seq<char>>)
    requires
        vocab_wf(v),
        v.len() + 5 <= usize::MAX,
    ensures
        vocab_wf(vocab_after(v, forbidden_words())),
        forall|k: int|
            0 <= k < 5 ==> vocab_after(v, forbidden_words()).contains(
                #[trigger] forbidden_words()[k],
            ),
        forall|i: int|
            0 <= i < guarded_ids(v, forbidden_words()).len() ==> EOS_ID < #[trigger] guarded_ids(
                v,
                forbidden_words(),
            )[i] < vocab_after(v, forbidden_words()).len(),
{
    lemma_vocab_after(v, forbidden_words());
    lemma_guarded_ids(v, forbidden_words());
}

/// A guarded id refuses a sequence at whatever position it stands.
pub proof fn lemma_refused_anywhere(forbidden: Seq<usize>, tokens: Seq<usize>, i: int)
    requires
        0 <= i < tokens.len(),
        forbidden.contains(tokens[i]),
    ensures
        violates(forbidden, tokens),
{
    assert(forbidden.contains(tokens[i]));
}

/// A sequence with no guarded id at any position is accepted.
pub proof fn lemma_accepted_when_clean(forbidden: Seq<usize>, tokens: Seq<usize>)
    requires
        forall|i: int| 0 <= i < tokens.len() ==> !forbidden.contains(#[trigger] tokens[i]),
    ensures
        !violates(forbidden, tokens),
{
}

/// Joining two sequences is refused exactly when one of them is.
pub proof fn lemma_refusal_of_join(forbidden: Seq<usize>, a: Seq<usize>, b: Seq<usize>)
    ensures
        violates(forbidden, a + b) == (violates(forbidden, a) || violates(forbidden, b)),
{
    let ab = a + b;
    if violates(forbidden, a) {
        let i = choose|i: int| 0 <= i < a.len() && forbidden.contains(#[trigger] a[i]);
        assert(ab[i] == a[i]);
        lemma_refused_anywhere(forbidden, ab, i);
    }
    if violates(forbidden, b) {
        let i = choose|i: int| 0 <= i < b.len() && forbidden.contains(#[trigger] b[i]);
        assert(ab[a.len() + i] == b[i]);
        lemma_refused_anywhere(forbidden, ab, a.len() + i);
    }
    if violates(forbidden, ab) {
        let i = choose|i: int| 0 <= i < ab.len() && forbidden.contains(#[trigger] ab[i]);
        if i < a.len() {
            assert(ab[i] == a[i]);
            lemma_refused_anywhere(forbidden, a, i);
        } else {
            assert(ab[i] == b[i - a.len()]);
            lemma_refused_anywhere(forbidden, b, i - a.len());
        }
    }
}

/// The guarded token ids.
pub struct Constitution {
    forbidden_tokens: Vec<usize>,
}

impl View for Constitution {
    type V = Seq<usize>;

    closed spec fn view(&self) -> Seq<usize> {
        self.forbidden_tokens@
    }
}

/// The first element of `s` greater than `bound`.
fn find_first_above(s: &Vec<usize>, bound: usize) -> (r: Option<usize>)
    ensures
        r == first_above(s@, bound),
{
    let mut i: usize = 0;
    proof {
        assert(s@.skip(0) =~= s@);
    }
    while i < s.len()
        invariant
            i <= s@.len(),
            first_above(s@, bound) == first_above(s@.skip(i as int), bound),
        decreases s.len() - i,
    {
        proof {
            assert(s@.skip(i as int).drop_first() == s@.skip(i + 1));
        }
        if s[i] > bound {
            return Some(s[i]);
        }
        i = i + 1;
    }
    None
}

impl Constitution {
    /// Teaches the tokenizer the forbidden words and guards their ids.
    pub fn new(tokenizer: &mut Tokenizer) -> (c: Self)
        ensures
            final(tokenizer)@ == vocab_after(old(tokenizer)@, forbidden_words()),
            c@ == guarded_ids(old(tokenizer)@, forbidden_words()),
            vocab_wf(final(tokenizer)@),
    {
        let words: Vec<&str> = vec!["hack", "kill", "steal", "attack", "bomb"];
        proof {
            reveal_strlit("hack");
            reveal_strlit("kill");
            reveal_strlit("steal");
            reveal_strlit("attack");
            reveal_strlit("bomb");
            assert(words@[0]@ =~= forbidden_words()[0]);
            assert(words@[1]@ =~= forbidden_words()[1]);
            assert(words@[2]@ =~= forbidden_words()[2]);
            assert(words@[3]@ =~= forbidden_words()[3]);
            assert(words@[4]@ =~= forbidden_words()[4]);
        }
        proof {
            use_type_invariant(&*tokenizer);
        }
        let ghost v0 = tokenizer@;
        let ghost fw = forbidden_words();
        let mut ids: Vec<usize> = Vec::new();
        let mut k: usize = 0;
        while k < words.len()
            invariant
                words@.len() == 5,
                fw == forbidden_words(),
                forall|j: int| 0 <= j < 5 ==> #[trigger] words@[j]@ == fw[j],
                k <= 5,
                tokenizer@ == vocab_after(v0, fw.take(k as int)),
                ids@ == guarded_ids(v0, fw.take(k as int)),
                vocab_wf(tokenizer@),
            decreases words.len() - k,
        {
            proof {
                assert(fw.take(k + 1).drop_last() == fw.take(k as int));
                assert(fw.take(k + 1).last() == words@[k as int]@);
            }
            tokenizer.add_word(words[k]);
            let enc = tokenizer.encode(words[k]);
            match find_first_above(&enc, EOS_ID) {
                Some(id) => ids.push(id),
                None => {},
            }
            k = k + 1;
        }
        proof {
            assert(fw.take(5) == fw);
        }
        Constitution { forbidden_tokens: ids }
    }

    /// Refuses a token sequence that holds a guarded id; accepts any other.
    pub fn enforce(&self, tokens: &[usize]) -> (r: Result<(), String>)
        ensures
            r is Err <==> violates(self@, tokens@),
            forall|i: int|
                0 <= i < tokens@.len() && self@.contains(#[trigger] tokens@[i]) ==> r is Err,
            r is Ok ==> forall|i: int| 0 <= i < tokens@.len() ==> !self@.contains(#[trigger] tokens@[i]),
            r matches Err(e) ==> e@ == refusal(),
    {
        let mut i: usize = 0;
        while i < tokens.len()
            invariant
                i <= tokens@.len(),
                forall|j: int| 0 <= j < i ==> !self@.contains(#[trigger] tokens@[j]),
            decreases tokens.len() - i,
        {
            let t = tokens[i];
            let mut k: usize = 0;
            while k < self.forbidden_tokens.len()
                invariant
                    i < tokens@.len(),
                    t == tokens@[i as int],
                    k <= self@.len(),
                    forall|j: int| 0 <= j < k ==> self@[j] != t,
                decreases self.forbidden_tokens.len() - k,
            {
                if self.forbidden_tokens[k] == t {
                    proof {
                        assert(self@[k as int] == tokens@[i as int]);
                        assert(self@.contains(tokens@[i as int]));
                    }
                    return Err(String::from_str("I cannot assist with that request."));
                }
                k = k + 1;
            }
            proof {
                assert(!self@.contains(t));
            }
            i = i + 1;
        }
        Ok(())
    }
}

} // verus!
