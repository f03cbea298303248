//! Translation between text and token ids.
//!
//! A vocabulary is a list of distinct words whose positions are their ids;
//! ids 0 to 3 are the special words `<PAD>`, `<UNK>`, `<BOS>` and `<EOS>`.

use vstd::prelude::*;
use vstd::string::StrSliceExecFns;
use vstd::string::StringExecFns;
use crate::text::{
    alphanumeric, cleaned, clean_word, lemma_cleaned_keeps_alphanumeric, lowercased,
    split_whitespace, to_lowercase, views, words_of,
};

verus! {

/// Id of the padding word.
pub const PAD_ID: usize = 0;

/// Id given to a word the vocabulary does not hold.
pub const UNK_ID: usize = 1;

/// Id that opens every encoded sentence.
pub const BOS_ID: usize = 2;

/// Id that closes every encoded sentence.
pub const EOS_ID: usize = 3;

/// The four special words, in the order of their ids.
pub open spec fn special_words() -> Seq<Seq<char>> {
    seq![
        seq!['<', 'P', 'A', 'D', '>'],
        seq!['<', 'U', 'N', 'K', '>'],
        seq!['<', 'B', 'O', 'S', '>'],
        seq!['<', 'E', 'O', 'S', '>'],
    ]
}

/// A vocabulary starts with the special words and holds no word twice.
pub open spec fn vocab_wf(v: Seq<Seq<char>>) -> bool {
    &&& 4 <= v.len() <= usize::MAX
    &&& forall|i: int| 0 <= i < 4 ==> #[trigger] v[i] == special_words()[i]
    &&& forall|i: int, j: int|
        0 <= i < v.len() && 0 <= j < v.len() && i != j ==> #[trigger] v[i] != #[trigger] v[j]
}

/// The id of `w` in `v`, if `v` holds it.
pub open spec fn id_of(v: Seq<Seq<char>>, w: Seq<char>) -> Option<int> {
    if exists|i: int| 0 <= i < v.len() && v[i] == w {
        Some(choose|i: int| 0 <= i < v.len() && v[i] == w)
    } else {
        None
    }
}

/// The token of a cleaned word: its id, or `UNK_ID` when it is unknown.
pub open spec fn token_of(v: Seq<Seq<char>>, w: Seq<char>) -> usize {
    match id_of(v, w) {
        Some(i) => i as usize,
        None => UNK_ID,
    }
}

/// The vocabulary after teaching it `w`: unchanged when `w` is known,
/// else `w` takes the next id.
pub open spec fn with_word(v: Seq<Seq<char>>, w: Seq<char>) -> Seq<Seq<char>> {
    if v.contains(w) {
        v
    } else {
        v.push(w)
    }
}

/// The tokens of a list of raw words: each word is cleaned, then looked up.
pub open spec fn tokens_of(v: Seq<Seq<char>>, ws: Seq<Seq<char>>) -> Seq<usize> {
    ws.map_values(|w: Seq<char>| token_of(v, cleaned(w)))
}

/// Encoding of already lowercased text: `<BOS>`, one token per word, `<EOS>`.
pub open spec fn encoded_lowercase(v: Seq<Seq<char>>, lowered: Seq<char>) -> Seq<usize> {
    seq![BOS_ID] + tokens_of(v, words_of(lowered)) + seq![EOS_ID]
}

/// Encoding of text.
pub open spec fn encoded(v: Seq<Seq<char>>, text: Seq<char>) -> Seq<usize> {
    encoded_lowercase(v, lowercased(text))
}

/// Words that decoding hides: those that start with `<`.
pub open spec fn hidden(w: Seq<char>) -> bool {
    w.len() > 0 && w[0] == '<'
}

/// The words shown for a token sequence: unknown ids and hidden words
/// are dropped.
pub open spec fn decoded_words(v: Seq<Seq<char>>, tokens: Seq<usize>) -> Seq<Seq<char>>
    decreases tokens.len(),
{
    if tokens.len() == 0 {
        Seq::empty()
    } else {
        let prev = decoded_words(v, tokens.drop_last());
        let t = tokens.last();
        if t < v.len() && !hidden(v[t as int]) {
            prev.push(v[t as int])
        } else {
            prev
        }
    }
}

/// Words joined with a separator between each two.
pub open spec fn joined(ws: Seq<Seq<char>>, sep: Seq<char>) -> Seq<char>
    decreases ws.len(),
{
    if ws.len() == 0 {
        Seq::empty()
    } else if ws.len() == 1 {
        ws[0]
    } else {
        joined(ws.drop_last(), sep) + sep + ws.last()
    }
}

/// Decoding of a token sequence: the shown words separated by one space.
pub open spec fn decoded(v: Seq<Seq<char>>, tokens: Seq<usize>) -> Seq<char> {
    joined(decoded_words(v, tokens), seq![' '])
}

/// The cleaned words of `ws` that decoding shows back: those the
/// vocabulary knows and that do not start with `<`.
pub open spec fn shown_words(v: Seq<Seq<char>>, ws: Seq<Seq<char>>) -> Seq<Seq<char>>
    decreases ws.len(),
{
    if ws.len() == 0 {
        Seq::empty()
    } else {
        let prev = shown_words(v, ws.drop_last());
        let c = cleaned(ws.last());
        if v.contains(c) && !hidden(c) {
            prev.push(c)
        } else {
            prev
        }
    }
}

/// A known word's token is its id, and that id holds the word.
pub proof fn lemma_token_of_known(v: Seq<Seq<char>>, w: Seq<char>)
    requires
        vocab_wf(v),
        v.contains(w),
    ensures
        (token_of(v, w) as int) < v.len(),
        v[token_of(v, w) as int] == w,
        id_of(v, w) == Some(token_of(v, w) as int),
{
    let i = choose|i: int| 0 <= i < v.len() && v[i] == w;
    assert(0 <= i < v.len() && v[i] == w);
}

/// The special words are hidden by decoding.
pub proof fn lemma_specials_hidden(v: Seq<Seq<char>>, k: int)
    requires
        vocab_wf(v),
        0 <= k < 4,
    ensures
        hidden(v[k]),
{
    assert(v[k] == special_words()[k]);
}

proof fn lemma_decode_tokens(v: Seq<Seq<char>>, ws: Seq<Seq<char>>)
    requires
        vocab_wf(v),
    ensures
        decoded_words(v, seq![BOS_ID] + tokens_of(v, ws)) == shown_words(v, ws),
    decreases ws.len(),
{
    let e = seq![BOS_ID] + tokens_of(v, ws);
    lemma_specials_hidden(v, BOS_ID as int);
    lemma_specials_hidden(v, UNK_ID as int);
    if ws.len() == 0 {
        assert(e =~= seq![BOS_ID]);
        assert(e.drop_last() =~= Seq::<usize>::empty());
        assert(decoded_words(v, e) == decoded_words(v, Seq::<usize>::empty()));
    } else {
        lemma_decode_tokens(v, ws.drop_last());
        assert(e.drop_last() =~= seq![BOS_ID] + tokens_of(v, ws.drop_last()));
        let c = cleaned(ws.last());
        assert(e.last() == token_of(v, c));
        assert(e.len() > 0);
        if v.contains(c) {
            lemma_token_of_known(v, c);
        } else {
            assert(id_of(v, c) is None) by {
                if exists|i: int| 0 <= i < v.len() && v[i] == c {
                    let i = choose|i: int| 0 <= i < v.len() && v[i] == c;
                    assert(v.contains(c));
                }
            }
        }
    }
}

/// Decoding an encoding gives back, separated by single spaces, the
/// cleaned words of the text that the vocabulary knows and that do not
/// start with `<`; unknown words and the markers disappear.
pub proof fn lemma_decode_encode(v: Seq<Seq<char>>, lowered: Seq<char>)
    requires
        vocab_wf(v),
    ensures
        decoded(v, encoded_lowercase(v, lowered)) == joined(
            shown_words(v, words_of(lowered)),
            seq![' '],
        ),
{
    let ws = words_of(lowered);
    let e = encoded_lowercase(v, lowered);
    lemma_specials_hidden(v, EOS_ID as int);
    assert(e.drop_last() =~= seq![BOS_ID] + tokens_of(v, ws));
    lemma_decode_tokens(v, ws);
}

/// Teaching a word keeps the id of every word already known, gives a new
/// word the next id, and teaching it again changes nothing.
pub proof fn lemma_with_word(v: Seq<Seq<char>>, w: Seq<char>, x: Seq<char>)
    requires
        vocab_wf(v),
        v.len() < usize::MAX,
    ensures
        vocab_wf(with_word(v, w)),
        v.contains(x) ==> id_of(with_word(v, w), x) == id_of(v, x),
        !v.contains(w) ==> id_of(with_word(v, w), w) == Some(v.len() as int),
        with_word(with_word(v, w), w) == with_word(v, w),
{
    let v2 = with_word(v, w);
    if !v.contains(w) {
        assert(v2[v.len() as int] == w);
        assert(v2.contains(w));
        assert forall|i: int, j: int|
            0 <= i < v2.len() && 0 <= j < v2.len() && i != j implies #[trigger] v2[i]
            != #[trigger] v2[j] by {
            if i < v.len() && j == v.len() {
                assert(v.contains(v[i]));
            }
            if j < v.len() && i == v.len() {
                assert(v.contains(v[j]));
            }
        }
        let k = choose|k: int| 0 <= k < v2.len() && v2[k] == w;
        assert(k == v.len()) by {
            if k < v.len() {
                assert(v.contains(v[k]));
            }
        }
    }
    if v.contains(x) {
        lemma_token_of_known(v, x);
        let i = id_of(v, x)->0;
        assert(v2[i] == x);
        let k = choose|k: int| 0 <= k < v2.len() && v2[k] == x;
        assert(k == i);
    }
}

/// Each word of the text becomes one token between `<BOS>` and `<EOS>`:
/// the id whose word is the word's alphanumeric characters when the
/// vocabulary holds it, `<UNK>` (id 1) when it does not.
pub proof fn lemma_encode_tokens(v: Seq<Seq<char>>, lowered: Seq<char>)
    requires
        vocab_wf(v),
    ensures
        ({
            let ws = words_of(lowered);
            let e = encoded_lowercase(v, lowered);
            &&& e.len() == ws.len() + 2
            &&& e[0] == 2
            &&& e[e.len() - 1] == 3
            &&& forall|i: int|
                #![trigger ws[i]]
                0 <= i < ws.len() ==> {
                    let c = ws[i].filter(|ch: char| alphanumeric(ch));
                    ||| v.contains(c) && (e[i + 1] as int) < v.len() && v[e[i + 1] as int] == c
                    ||| !v.contains(c) && e[i + 1] == 1
                }
        }),
{
    let ws = words_of(lowered);
    let e = encoded_lowercase(v, lowered);
    assert forall|i: int| #![trigger ws[i]] 0 <= i < ws.len() implies {
        let c = ws[i].filter(|ch: char| alphanumeric(ch));
        ||| v.contains(c) && (e[i + 1] as int) < v.len() && v[e[i + 1] as int] == c
        ||| !v.contains(c) && e[i + 1] == 1
    } by {
        lemma_cleaned_keeps_alphanumeric(ws[i]);
        let c = cleaned(ws[i]);
        assert(e[i + 1] == token_of(v, c));
        if v.contains(c) {
            lemma_token_of_known(v, c);
        } else {
            assert(id_of(v, c) is None) by {
                if exists|j: int| 0 <= j < v.len() && v[j] == c {
                    let j = choose|j: int| 0 <= j < v.len() && v[j] == c;
                    assert(v.contains(c));
                }
            }
        }
    }
}

/// Decoding one more token: an id of the vocabulary whose word does not
/// start with `<` adds that word, after a single space when words were
/// already shown; any other token adds nothing.
pub proof fn lemma_decode_push(v: Seq<Seq<char>>, tokens: Seq<usize>, t: usize)
    ensures
        decoded(v, tokens.push(t)) == if t < v.len() && !(v[t as int].len() > 0 && v[t as int][0]
            == '<') {
            if decoded_words(v, tokens).len() == 0 {
                v[t as int]
            } else {
                decoded(v, tokens) + seq![' '] + v[t as int]
            }
        } else {
            decoded(v, tokens)
        },
{
    let ts = tokens.push(t);
    assert(ts.drop_last() == tokens);
    assert(ts.last() == t);
    let prev = decoded_words(v, tokens);
    if t < v.len() && !hidden(v[t as int]) {
        assert(prev.push(v[t as int]).drop_last() == prev);
    }
}

/// A vocabulary of words, each with the id of its position.
pub struct Tokenizer {
    words: Vec<String>,
}

impl View for Tokenizer {
    type V = Seq<Seq<char>>;

    closed spec fn view(&self) -> Seq<Seq<char>> {
        views(self.words@)
    }
}

impl Tokenizer {
    /// Every tokenizer's vocabulary is well formed.
    #[verifier::type_invariant]
    pub open spec fn inv(self) -> bool {
        vocab_wf(self@)
    }

    /// A vocabulary that knows only the special words.
    pub fn new() -> (t: Self)
        ensures
            t@ == special_words(),
            vocab_wf(t@),
    {
        let mut words: Vec<String> = Vec::new();
        words.push(String::from_str("<PAD>"));
        words.push(String::from_str("<UNK>"));
        words.push(String::from_str("<BOS>"));
        words.push(String::from_str("<EOS>"));
        proof {
            reveal_strlit("<PAD>");
            reveal_strlit("<UNK>");
            reveal_strlit("<BOS>");
            reveal_strlit("<EOS>");
            assert("<PAD>"@ =~= special_words()[0]);
            assert("<UNK>"@ =~= special_words()[1]);
            assert("<BOS>"@ =~= special_words()[2]);
            assert("<EOS>"@ =~= special_words()[3]);
            assert(views(words@) =~= special_words());
        }
        Tokenizer { words }
    }

    /// The id of a word, if the vocabulary holds it.
    fn find(&self, w: &String) -> (r: Option<usize>)
        ensures
            r == (match id_of(self@, w@) {
                Some(i) => Some(i as usize),
                None => None::<usize>,
            }),
            r is Some <==> self@.contains(w@),
    {
        proof {
            use_type_invariant(self);
        }
        let ghost v = self@;
        let mut i: usize = 0;
        while i < self.words.len()
            invariant
                v == self@,
                vocab_wf(v),
                v.len() == self.words@.len(),
                i <= v.len(),
                forall|j: int| 0 <= j < i ==> v[j] != w@,
            decreases self.words.len() - i,
        {
            if self.words[i] == *w {
                proof {
                    assert(v[i as int] == w@);
                    let k = choose|k: int| 0 <= k < v.len() && v[k] == w@;
                    assert(k == i);
                }
                return Some(i);
            }
            i = i + 1;
        }
        proof {
            assert(!v.contains(w@));
        }
        None
    }

    /// Teaches the vocabulary a word; a known word keeps its id.
    pub fn add_word(&mut self, word: &str)
        ensures
            final(self)@ == with_word(old(self)@, word@),
            vocab_wf(final(self)@),
    {
        proof {
            use_type_invariant(&*self);
        }
        let w = String::from_str(word);
        if self.find(&w).is_none() {
            let ghost before = self@;
            let mut words = Tokenizer::new().words;
            std::mem::swap(&mut words, &mut self.words);
            words.push(w);
            let size = words.len();
            proof {
                assert(size == views(words@).len());
                assert(views(words@) == before.push(word@));
            }
            self.words = words;
        }
        proof {
            use_type_invariant(&*self);
        }
    }

    /// How many words the vocabulary holds.
    pub fn vocab_size(&self) -> (n: usize)
        ensures
            n == self@.len(),
    {
        self.words.len()
    }

    /// Encodes text that is already lowercase: `<BOS>`, then for each run
    /// of non-whitespace characters the id of its alphanumeric characters
    /// (`<UNK>` when unknown), then `<EOS>`.
    pub fn encode_lowercased(&self, lowered: &str) -> (r: Vec<usize>)
        ensures
            r@ == encoded_lowercase(self@, lowered@),
            r@.len() == words_of(lowered@).len() + 2,
            r@[0] == BOS_ID,
            r@.last() == EOS_ID,
            forall|i: int| 0 <= i < r@.len() ==> r@[i] < self@.len(),
    {
        proof {
            use_type_invariant(self);
        }
        let words = split_whitespace(lowered);
        let ghost ws = views(words@);
        let mut tokens: Vec<usize> = Vec::new();
        tokens.push(BOS_ID);
        let mut i: usize = 0;
        while i < words.len()
            invariant
                ws == views(words@),
                ws == words_of(lowered@),
                vocab_wf(self@),
                i <= words@.len(),
                tokens@ == seq![BOS_ID] + tokens_of(self@, ws.take(i as int)),
                forall|k: int| 0 <= k < tokens@.len() ==> tokens@[k] < self@.len(),
            decreases words.len() - i,
        {
            let clean = clean_word(words[i].as_str());
            let t = match self.find(&clean) {
                Some(id) => id,
                None => UNK_ID,
            };
            proof {
                assert(ws[i as int] == words@[i as int]@);
                assert(t == token_of(self@, cleaned(ws[i as int])));
                assert(tokens_of(self@, ws.take(i + 1)) == tokens_of(self@, ws.take(i as int)).push(t));
                if id_of(self@, clean@) is Some {
                    let k = choose|k: int| 0 <= k < self@.len() && self@[k] == clean@;
                    assert(0 <= k < self@.len());
                }
            }
            tokens.push(t);
            i = i + 1;
        }
        tokens.push(EOS_ID);
        proof {
            assert(ws.take(ws.len() as int) == ws);
            assert(tokens@ == encoded_lowercase(self@, lowered@));
        }
        tokens
    }

    /// Encodes text: lowercases it, then encodes it as `encode_lowercased`.
    pub fn encode(&self, text: &str) -> (r: Vec<usize>)
        ensures
            r@ == encoded(self@, text@),
            r@.len() == words_of(lowercased(text@)).len() + 2,
            r@[0] == BOS_ID,
            r@.last() == EOS_ID,
            forall|i: int| 0 <= i < r@.len() ==> r@[i] < self@.len(),
    {
        let lowered = to_lowercase(text);
        self.encode_lowercased(lowered.as_str())
    }

    /// Whether a word starts with `<`.
    fn is_hidden(w: &String) -> (r: bool)
        ensures
            r == hidden(w@),
    {
        let s = w.as_str();
        if s.is_empty() {
            false
        } else {
            s.get_char(0) == '<'
        }
    }

    /// Decodes token ids into text: ids the vocabulary does not hold and
    /// words that start with `<` are left out, the rest are joined with
    /// single spaces.
    pub fn decode(&self, tokens: &[usize]) -> (r: String)
        ensures
            r@ == decoded(self@, tokens@),
    {
        let mut r = String::new();
        let mut any = false;
        let mut i: usize = 0;
        proof {
            reveal_strlit(" ");
            assert(" "@ =~= seq![' ']);
        }
        while i < tokens.len()
            invariant
                " "@ == seq![' '],
                i <= tokens@.len(),
                r@ == joined(decoded_words(self@, tokens@.take(i as int)), seq![' ']),
                any == (decoded_words(self@, tokens@.take(i as int)).len() > 0),
            decreases tokens.len() - i,
        {
            proof {
                assert(tokens@.take(i + 1).drop_last() == tokens@.take(i as int));
            }
            let t = tokens[i];
            if t < self.words.len() {
                let w = &self.words[t];
                proof {
                    assert(self@[t as int] == w@);
                }
                if !Self::is_hidden(w) {
                    let ghost prev = decoded_words(self@, tokens@.take(i as int));
                    proof {
                        assert(prev.push(w@).drop_last() == prev);
                    }
                    if any {
                        r.append(" ");
                    }
                    r.append(w.as_str());
                    any = true;
                    proof {
                        assert(r@ =~= joined(prev.push(w@), seq![' ']));
                    }
                }
            }
            i = i + 1;
        }
        proof {
            assert(tokens@.take(tokens@.len() as int) == tokens@);
        }
        r
    }
}

} // verus!
