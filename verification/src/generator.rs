//! The generation loop: from the last token, take the greedy successor
//! the model predicts, stop at `<EOS>`, and now and then replace the
//! prediction by a random ordinary id.

use vstd::prelude::*;
use rand::Rng;
use rand::rngs::ThreadRng;
use crate::tokenizer::EOS_ID;

verus! {

#[verifier::external_type_specification]
#[verifier::external_body]
pub struct ExThreadRng(rand::rngs::ThreadRng);

/// Calls `rand::thread_rng`, the handle to this thread's generator.
/// Nothing is stated of it; the call panics only when the operating
/// system gives no seed.
#[verifier::external_body]
fn thread_rng() -> ThreadRng {
    rand::thread_rng()
}

/// Calls `Rng::gen_ratio`: true with chance `numerator / denominator`.
/// Its documentation promises `false` for a zero numerator and `true`
/// when numerator and denominator are equal; the outcome is otherwise
/// random, and nothing more is stated.
#[verifier::external_body]
fn gen_ratio(rng: &mut ThreadRng, numerator: u32, denominator: u32) -> (r: bool)
    requires
        0 < denominator,
        numerator <= denominator,
    ensures
        numerator == 0 ==> !r,
        numerator == denominator ==> r,
{
    rng.gen_ratio(numerator, denominator)
}

/// Calls `Rng::gen_range` on `low..high`: a random value of that range.
#[verifier::external_body]
fn gen_range(rng: &mut ThreadRng, low: usize, high: usize) -> (r: usize)
    requires
        low < high,
    ensures
        low <= r < high,
{
    rng.gen_range(low..high)
}

/// One random draw, true with chance `numerator / denominator`.
pub fn draw_chance(numerator: u32, denominator: u32) -> (r: bool)
    requires
        0 < denominator,
        numerator <= denominator,
    ensures
        numerator == 0 ==> !r,
        numerator == denominator ==> r,
{
    let mut rng = thread_rng();
    gen_ratio(&mut rng, numerator, denominator)
}

/// One random id from `low` up to, not including, `high`.
pub fn draw_id(low: usize, high: usize) -> (r: usize)
    requires
        low < high,
    ensures
        low <= r < high,
{
    let mut rng = thread_rng();
    gen_range(&mut rng, low, high)
}

/// First id that may replace a prediction: the special ids are never drawn.
pub const FIRST_ORDINARY_ID: usize = 4;

/// The token that a step predicts from: the last token, or id 0 when
/// there is none.
pub open spec fn context_of(tokens: Seq<usize>) -> usize {
    if tokens.len() == 0 {
        0
    } else {
        tokens.last()
    }
}

/// The end (exclusive) of the range of replacement ids: the vocabulary
/// size, and at least 5.
pub open spec fn replacement_end(vocab_size: usize) -> usize {
    if vocab_size > 5 {
        vocab_size
    } else {
        5
    }
}

/// One step from a prediction: `None` stops the generation, else the
/// token to append, the replacement when the coin said so.
pub open spec fn step_token(best: usize, replaced: bool, replacement: usize) -> Option<usize> {
    if best == EOS_ID {
        None
    } else if replaced {
        Some(replacement)
    } else {
        Some(best)
    }
}

/// Whether a step from the tokens `before` may append `t`: `predict`
/// answered some id other than `<EOS>` for the context of `before`, and
/// `t` is that id or a replacement id.
pub open spec fn may_follow<F: Fn(usize) -> usize>(
    predict: F,
    vocab_size: usize,
    before: Seq<usize>,
    t: usize,
) -> bool {
    exists|best: usize, replaced: bool|
        #![trigger call_ensures(predict, (context_of(before),), best), call_ensures(draw_chance, (3u32, 10u32), replaced)]
        {
            &&& call_ensures(predict, (context_of(before),), best)
            &&& best != EOS_ID
            &&& call_ensures(draw_chance, (3u32, 10u32), replaced)
            &&& (replaced ==> call_ensures(
                draw_id,
                (FIRST_ORDINARY_ID, replacement_end(vocab_size)),
                t,
            ))
            &&& (!replaced ==> t == best)
            &&& (t == best || FIRST_ORDINARY_ID <= t < replacement_end(vocab_size))
        }
}

/// The outputs that generation may give: the input, then at most
/// `max_len` tokens, each either a prediction of `predict` from the token
/// before it or a replacement id, never when that prediction is `<EOS>`;
/// and it stops early only at a predicted `<EOS>`.
pub open spec fn generated<F: Fn(usize) -> usize>(
    predict: F,
    vocab_size: usize,
    input: Seq<usize>,
    max_len: nat,
    out: Seq<usize>,
) -> bool {
    &&& input.len() <= out.len() <= input.len() + max_len
    &&& out.take(input.len() as int) == input
    &&& forall|p: int|
        input.len() <= p < out.len() ==> may_follow(predict, vocab_size, #[trigger] out.take(p), out[p])
    &&& out.len() < input.len() + max_len ==> call_ensures(
        predict,
        (context_of(out),),
        EOS_ID,
    )
}

/// A generation step predicts from the last token of the sequence so far,
/// whatever its value, and from id 0 only when the sequence is empty.
pub proof fn lemma_context_is_last(tokens: Seq<usize>)
    ensures
        tokens.len() == 0 ==> context_of(tokens) == 0,
        tokens.len() > 0 ==> context_of(tokens) == tokens[tokens.len() - 1],
{
}

/// The token just before position `p` of `s`, or id 0 at the start.
pub open spec fn token_before(s: Seq<usize>, p: int) -> usize {
    if p <= 0 {
        0
    } else {
        s[p - 1]
    }
}

/// What every generated output satisfies, step by step: the token at each
/// position past the input was chosen after asking `predict` about the
/// token just before it (id 0 at the very start), that prediction was not
/// `<EOS>`, and a draw with chance 3 in 10 was made: when it came up false
/// the token is exactly the prediction, when true it is an id from 4 up to
/// the vocabulary size (at least 5). Generation ends before `max_len` new
/// tokens only when `predict` answered `<EOS>` about the last token.
pub proof fn lemma_generated_steps<F: Fn(usize) -> usize>(
    predict: F,
    vocab_size: usize,
    input: Seq<usize>,
    max_len: nat,
    out: Seq<usize>,
)
    requires
        generated(predict, vocab_size, input, max_len, out),
    ensures
        forall|p: int|
            #![trigger out[p]]
            input.len() <= p < out.len() ==> exists|best: usize, replaced: bool|
                #![trigger call_ensures(predict, (token_before(out, p),), best), call_ensures(draw_chance, (3u32, 10u32), replaced)]
                {
                    &&& call_ensures(predict, (token_before(out, p),), best)
                    &&& best != 3
                    &&& call_ensures(draw_chance, (3u32, 10u32), replaced)
                    &&& (!replaced ==> out[p] == best)
                    &&& (replaced ==> 4 <= out[p] < (if vocab_size > 5 {
                        vocab_size
                    } else {
                        5
                    }))
                },
        out.len() < input.len() + max_len ==> call_ensures(
            predict,
            ((if out.len() == 0 { 0 } else { out[out.len() - 1] }),),
            3,
        ),
{
    assert forall|p: int| #![trigger out[p]] input.len() <= p < out.len() implies exists|best: usize, replaced: bool|
        #![trigger call_ensures(predict, (token_before(out, p),), best), call_ensures(draw_chance, (3u32, 10u32), replaced)]
        {
            &&& call_ensures(predict, (token_before(out, p),), best)
            &&& best != 3
            &&& call_ensures(draw_chance, (3u32, 10u32), replaced)
            &&& (!replaced ==> out[p] == best)
            &&& (replaced ==> 4 <= out[p] < (if vocab_size > 5 {
                vocab_size
            } else {
                5
            }))
        } by {
        assert(may_follow(predict, vocab_size, out.take(p), out[p]));
        let before = out.take(p);
        lemma_context_is_last(before);
        assert(context_of(before) == token_before(out, p));
        let (best, replaced) = choose|best: usize, replaced: bool|
            {
                &&& call_ensures(predict, (context_of(before),), best)
                &&& best != EOS_ID
                &&& call_ensures(draw_chance, (3u32, 10u32), replaced)
                &&& (replaced ==> call_ensures(
                    draw_id,
                    (FIRST_ORDINARY_ID, replacement_end(vocab_size)),
                    out[p],
                ))
                &&& (!replaced ==> out[p] == best)
                &&& (out[p] == best || FIRST_ORDINARY_ID <= out[p] < replacement_end(vocab_size))
            };
        if replaced {
            assert(FIRST_ORDINARY_ID <= out[p] < replacement_end(vocab_size));
        }
    }
    lemma_context_is_last(out);
}

/// The token that the next step predicts from: the last one, or id 0 when
/// there is none.
pub fn context_token(tokens: &[usize]) -> (t: usize)
    ensures
        t == context_of(tokens@),
        tokens@.len() == 0 ==> t == 0,
        tokens@.len() > 0 ==> t == tokens@[tokens@.len() - 1],
{
    if tokens.len() == 0 {
        0
    } else {
        tokens[tokens.len() - 1]
    }
}

/// One step from a prediction and the outcome of the random draws.
pub fn next_token(best: usize, replaced: bool, replacement: usize) -> (r: Option<usize>)
    ensures
        r == step_token(best, replaced, replacement),
{
    if best == EOS_ID {
        None
    } else if replaced {
        Some(replacement)
    } else {
        Some(best)
    }
}

/// Extends `input` by up to `max_len` tokens. Each step asks `predict`
/// for the model's greedy prediction after the last token (id 0 when there
/// is none), stops at `<EOS>`, and otherwise appends the prediction or,
/// with chance 3 in 10, a random id from 4 up to `vocab_size` (at least 5).
pub fn generate_tokens<F: Fn(usize) -> usize>(
    predict: F,
    vocab_size: usize,
    input: &[usize],
    max_len: usize,
) -> (out: Vec<usize>)
    requires
        forall|t: usize| call_requires(predict, (t,)),
    ensures
        generated(predict, vocab_size, input@, max_len as nat, out@),
{
    let chance = draw_chance;
    let pick = draw_id;
    let end = if vocab_size > 5 {
        vocab_size
    } else {
        5
    };
    let mut out: Vec<usize> = Vec::new();
    let mut i: usize = 0;
    while i < input.len()
        invariant
            i <= input@.len(),
            out@ == input@.take(i as int),
        decreases input.len() - i,
    {
        out.push(input[i]);
        i = i + 1;
        proof {
            assert(out@ == input@.take(i as int));
        }
    }
    proof {
        assert(input@.take(input@.len() as int) == input@);
    }
    let mut step: usize = 0;
    while step < max_len
        invariant
            forall|t: usize| call_requires(predict, (t,)),
            end == replacement_end(vocab_size),
            step <= max_len,
            out@.len() == input@.len() + step,
            out@.take(input@.len() as int) == input@,
            forall|p: int|
                input@.len() <= p < out@.len() ==> may_follow(
                    predict,
                    vocab_size,
                    #[trigger] out@.take(p),
                    out@[p],
                ),
        decreases max_len - step,
    {
        let ctx = context_token(out.as_slice());
        let best = predict(ctx);
        if best == EOS_ID {
            proof {
                assert(ctx == context_of(out@));
                assert(out@.take(out@.len() as int) == out@);
            }
            return out;
        }
        let replaced = chance(3, 10);
        let replacement = if replaced {
            pick(FIRST_ORDINARY_ID, end)
        } else {
            0
        };
        let ghost before = out@;
        match next_token(best, replaced, replacement) {
            Some(t) => out.push(t),
            None => {},
        }
        proof {
            assert(out@.take(before.len() as int) == before);
            assert forall|p: int| input@.len() <= p < out@.len() implies may_follow(
                predict,
                vocab_size,
                #[trigger] out@.take(p),
                out@[p],
            ) by {
                if p < before.len() {
                    assert(out@.take(p) == before.take(p));
                    assert(out@[p] == before[p]);
                } else {
                    assert(out@.take(p) == before);
                    assert(call_ensures(predict, (context_of(before),), best));
                    assert(call_ensures(draw_chance, (3u32, 10u32), replaced));
                }
            }
            assert(out@.take(input@.len() as int) == before.take(input@.len() as int));
        }
        step = step + 1;
    }
    out
}

} // verus!
