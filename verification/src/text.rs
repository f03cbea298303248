//! Text primitives: Unicode character classes and case mapping come from
//! std; splitting on whitespace and word cleaning are verified here.

use vstd::prelude::*;

verus! {

/// What `char::is_alphanumeric` answers for a character (the Unicode
/// `Alphabetic` or `Numeric` property).
pub uninterp spec fn alphanumeric(c: char) -> bool;

/// What `char::is_whitespace` answers for a character (the Unicode
/// `White_Space` property).
pub uninterp spec fn whitespace(c: char) -> bool;

/// What `str::to_lowercase` returns for a string (the Unicode lowercase
/// mapping, context-sensitive for final sigma).
pub uninterp spec fn lowercased(s: Seq<char>) -> Seq<char>;

/// Calls `char::is_alphanumeric`; its answer is named `alphanumeric`.
#[verifier::external_body]
fn char_is_alphanumeric(c: char) -> (r: bool)
    ensures
        r == alphanumeric(c),
{
    c.is_alphanumeric()
}

/// Calls `char::is_whitespace`; its answer is named `whitespace`.
#[verifier::external_body]
fn char_is_whitespace(c: char) -> (r: bool)
    ensures
        r == whitespace(c),
{
    c.is_whitespace()
}

/// Calls `str::to_lowercase`; its result is named `lowercased`.
#[verifier::external_body]
pub(crate) fn to_lowercase(s: &str) -> (r: String)
    ensures
        r@ == lowercased(s@),
{
    s.to_lowercase()
}

/// Calls `String::push`, which appends one character.
#[verifier::external_body]
fn push_char(s: &mut String, c: char)
    ensures
        final(s)@ == old(s)@.push(c),
{
    s.push(c)
}

/// The characters of `w` that are alphanumeric, in order.
pub open spec fn cleaned(w: Seq<char>) -> Seq<char>
    decreases w.len(),
{
    if w.len() == 0 {
        Seq::empty()
    } else if alphanumeric(w.last()) {
        cleaned(w.drop_last()).push(w.last())
    } else {
        cleaned(w.drop_last())
    }
}

/// Cleaning keeps only alphanumeric characters, never lengthens a word,
/// and cleaning twice is cleaning once.
pub proof fn lemma_cleaned(w: Seq<char>)
    ensures
        forall|i: int| 0 <= i < cleaned(w).len() ==> alphanumeric(#[trigger] cleaned(w)[i]),
        cleaned(w).len() <= w.len(),
        cleaned(cleaned(w)) == cleaned(w),
    decreases w.len(),
{
    if w.len() > 0 {
        lemma_cleaned(w.drop_last());
        let c = cleaned(w.drop_last());
        if alphanumeric(w.last()) {
            assert(c.push(w.last()).drop_last() == c);
        }
    }
}

/// Cleaning keeps every alphanumeric character of a word and nothing else,
/// in order: it is the filter of the word by `char::is_alphanumeric`. So a
/// word made only of alphanumeric characters is its own cleaned form.
pub proof fn lemma_cleaned_keeps_alphanumeric(w: Seq<char>)
    ensures
        cleaned(w) == w.filter(|c: char| alphanumeric(c)),
        cleaned(w).len() == w.filter(|c: char| alphanumeric(c)).len(),
        (forall|i: int| 0 <= i < w.len() ==> alphanumeric(#[trigger] w[i])) ==> cleaned(w) == w,
    decreases w.len(),
{
    reveal(Seq::filter);
    if w.len() > 0 {
        lemma_cleaned_keeps_alphanumeric(w.drop_last());
        if forall|i: int| 0 <= i < w.len() ==> alphanumeric(#[trigger] w[i]) {
            assert forall|i: int| 0 <= i < w.drop_last().len() implies alphanumeric(
                #[trigger] w.drop_last()[i],
            ) by {
                assert(w.drop_last()[i] == w[i]);
            }
            assert(alphanumeric(w[w.len() - 1]));
            assert(w.drop_last().push(w.last()) == w);
        }
    }
}

/// Keeps only the alphanumeric characters of a word.
pub fn clean_word(w: &str) -> (r: String)
    ensures
        r@ == cleaned(w@),
        r@ == w@.filter(|c: char| alphanumeric(c)),
{
    let mut r = String::new();
    for c in it: w.chars()
        invariant
            it.seq() == w@,
            r@ == cleaned(w@.take(it.index() as int)),
    {
        proof {
            assert(w@.take(it.index() + 1).drop_last() == w@.take(it.index() as int));
        }
        if char_is_alphanumeric(c) {
            push_char(&mut r, c);
        }
    }
    proof {
        assert(w@.take(w@.len() as int) == w@);
        lemma_cleaned_keeps_alphanumeric(w@);
    }
    r
}

/// The character sequences of a list of strings.
pub open spec fn views(v: Seq<String>) -> Seq<Seq<char>> {
    v.map_values(|x: String| x@)
}

/// Scanning `s` from the left: the words already closed by a whitespace
/// character, and the word still being read.
pub open spec fn split_state(s: Seq<char>) -> (Seq<Seq<char>>, Seq<char>)
    decreases s.len(),
{
    if s.len() == 0 {
        (Seq::empty(), Seq::empty())
    } else {
        let (done, cur) = split_state(s.drop_last());
        if whitespace(s.last()) {
            if cur.len() > 0 {
                (done.push(cur), Seq::empty())
            } else {
                (done, cur)
            }
        } else {
            (done, cur.push(s.last()))
        }
    }
}

/// The maximal runs of non-whitespace characters of `s`, in order.
pub open spec fn words_of(s: Seq<char>) -> Seq<Seq<char>> {
    let (done, cur) = split_state(s);
    if cur.len() > 0 {
        done.push(cur)
    } else {
        done
    }
}

/// The characters of `s` that are not whitespace, in order.
pub open spec fn visible(s: Seq<char>) -> Seq<char>
    decreases s.len(),
{
    if s.len() == 0 {
        Seq::empty()
    } else if whitespace(s.last()) {
        visible(s.drop_last())
    } else {
        visible(s.drop_last()).push(s.last())
    }
}

/// Words written one after another.
pub open spec fn concat(ws: Seq<Seq<char>>) -> Seq<char>
    decreases ws.len(),
{
    if ws.len() == 0 {
        Seq::empty()
    } else {
        concat(ws.drop_last()) + ws.last()
    }
}

/// A word that holds no whitespace character.
pub open spec fn solid(w: Seq<char>) -> bool {
    forall|i: int| 0 <= i < w.len() ==> !whitespace(#[trigger] w[i])
}

proof fn lemma_split_state(s: Seq<char>)
    ensures
        forall|i: int|
            0 <= i < split_state(s).0.len() ==> #[trigger] split_state(s).0[i].len() > 0
                && solid(split_state(s).0[i]),
        solid(split_state(s).1),
        concat(split_state(s).0) + split_state(s).1 == visible(s),
    decreases s.len(),
{
    if s.len() > 0 {
        lemma_split_state(s.drop_last());
        let (d, c) = split_state(s.drop_last());
        let l = s.last();
        if whitespace(l) {
            if c.len() > 0 {
                assert(d.push(c).drop_last() == d);
                assert(concat(d.push(c)) + Seq::<char>::empty() == concat(d) + c);
            }
        } else {
            assert(concat(d) + c.push(l) == (concat(d) + c).push(l));
        }
    }
}

/// Splitting on whitespace gives non-empty words free of whitespace that,
/// written one after another, are exactly the non-whitespace characters
/// of the text.
pub proof fn lemma_words_of(s: Seq<char>)
    ensures
        forall|i: int|
            0 <= i < words_of(s).len() ==> #[trigger] words_of(s)[i].len() > 0 && solid(
                words_of(s)[i],
            ),
        concat(words_of(s)) == visible(s),
{
    lemma_split_state(s);
    let (d, c) = split_state(s);
    if c.len() > 0 {
        assert(d.push(c).drop_last() == d);
    } else {
        assert(concat(d) + c == concat(d));
    }
}

proof fn lemma_split_state_append(x: Seq<char>, b: Seq<char>)
    requires
        split_state(x).1.len() == 0,
    ensures
        split_state(x + b) == (split_state(x).0 + split_state(b).0, split_state(b).1),
    decreases b.len(),
{
    if b.len() == 0 {
        assert(x + b == x);
        assert(split_state(x).0 + Seq::<Seq<char>>::empty() == split_state(x).0);
    } else {
        lemma_split_state_append(x, b.drop_last());
        assert((x + b).drop_last() == x + b.drop_last());
        assert((x + b).last() == b.last());
        let d = split_state(x).0;
        let (db, cb) = split_state(b.drop_last());
        if whitespace(b.last()) {
            if cb.len() > 0 {
                assert((d + db).push(cb) == d + db.push(cb));
            }
        }
    }
}

/// Every whitespace character ends a word: the words of `a`, a whitespace
/// character, then `b` are the words of `a` followed by the words of `b`.
pub proof fn lemma_words_split_at_whitespace(a: Seq<char>, c: char, b: Seq<char>)
    requires
        whitespace(c),
    ensures
        words_of(a + seq![c] + b) == words_of(a) + words_of(b),
{
    let x = a + seq![c];
    assert(x.drop_last() == a);
    assert(x.last() == c);
    assert(split_state(x) == (words_of(a), Seq::<char>::empty()));
    lemma_split_state_append(x, b);
    let (db, cb) = split_state(b);
    if cb.len() > 0 {
        assert((words_of(a) + db).push(cb) == words_of(a) + db.push(cb));
    }
}

proof fn lemma_split_state_solid(w: Seq<char>)
    requires
        solid(w),
    ensures
        split_state(w) == (Seq::<Seq<char>>::empty(), w),
    decreases w.len(),
{
    if w.len() > 0 {
        assert(solid(w.drop_last())) by {
            assert forall|i: int| 0 <= i < w.drop_last().len() implies !whitespace(
                #[trigger] w.drop_last()[i],
            ) by {
                assert(w.drop_last()[i] == w[i]);
            }
        }
        lemma_split_state_solid(w.drop_last());
        assert(!whitespace(w[w.len() - 1]));
        assert(w.drop_last().push(w.last()) == w);
    }
}

/// A text without whitespace is one word, or no word when it is empty.
pub proof fn lemma_words_of_solid(w: Seq<char>)
    requires
        solid(w),
    ensures
        w.len() == 0 ==> words_of(w) == Seq::<Seq<char>>::empty(),
        w.len() > 0 ==> words_of(w) == seq![w],
{
    lemma_split_state_solid(w);
    assert(Seq::<Seq<char>>::empty().push(w) == seq![w]);
}

/// Splits a string into the runs of characters between whitespace.
pub fn split_whitespace(s: &str) -> (r: Vec<String>)
    ensures
        views(r@) == words_of(s@),
{
    let mut done: Vec<String> = Vec::new();
    let mut cur = String::new();
    for c in it: s.chars()
        invariant
            it.seq() == s@,
            (views(done@), cur@) == split_state(s@.take(it.index() as int)),
    {
        proof {
            assert(s@.take(it.index() + 1).drop_last() == s@.take(it.index() as int));
        }
        if char_is_whitespace(c) {
            if !cur.as_str().is_empty() {
                let ghost before = done@;
                done.push(cur);
                cur = String::new();
                proof {
                    assert(views(done@) == views(before).push(views(done@).last()));
                }
            }
        } else {
            push_char(&mut cur, c);
        }
    }
    proof {
        assert(s@.take(s@.len() as int) == s@);
    }
    if !cur.as_str().is_empty() {
        done.push(cur);
    }
    done
}

} // verus!
