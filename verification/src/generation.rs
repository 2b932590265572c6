//! The course of a generation.

use crate::tokenizer::{all_bytes, token_bytes, EntryView, Tokenizer};
use crate::utf8::{decode_streamed, law_decoders_agree, lossy, streamed};
use vstd::prelude::*;
use vstd::string::StringExecFns;
use vstd::utf8::{decode_first_scalar, decode_utf8, pop_first_scalar, valid_utf8};

verus! {

broadcast use vstd::string::group_string_axioms;

/// How many recent tokens the sampler sees.
pub const RECENT_TOKENS: usize = 64;

/// The tokens that the sampler looks back on: the last 64.
pub open spec fn recent_tokens(tokens: Seq<usize>) -> Seq<usize> {
    if tokens.len() > RECENT_TOKENS {
        tokens.skip(tokens.len() - RECENT_TOKENS)
    } else {
        tokens
    }
}

/// How far a generation has come.
#[verifier::ext_equal]
pub struct GenerationView {
    /// The tokens of the prompt and those generated.
    pub tokens: Seq<usize>,
    /// How many tokens may still be generated.
    pub left: nat,
    /// The end-of-sequence token has been sampled.
    pub ended: bool,
    /// The text generated.
    pub text: Seq<char>,
}

impl GenerationView {
    /// No further token is sampled.
    pub open spec fn finished(self) -> bool {
        self.ended || self.left == 0
    }

    /// What the generation is once a token has been sampled: an end-of-sequence
    /// token ends it; any other is added, and its text is put out.
    pub open spec fn after(self, vocab: Seq<EntryView>, eos: Option<usize>, token: usize) -> Self {
        if eos == Some(token) {
            GenerationView { ended: true, ..self }
        } else {
            GenerationView {
                tokens: self.tokens.push(token),
                left: (self.left - 1) as nat,
                ended: false,
                text: self.text + streamed(token_bytes(vocab, token)),
            }
        }
    }

    /// What the generation is once tokens have been sampled one after the other;
    /// those behind its end are not asked for.
    pub open spec fn after_all(
        self,
        vocab: Seq<EntryView>,
        eos: Option<usize>,
        sampled: Seq<usize>,
    ) -> Self
        decreases sampled.len(),
    {
        if sampled.len() == 0 {
            self
        } else {
            let before = self.after_all(vocab, eos, sampled.drop_last());
            if before.finished() {
                before
            } else {
                before.after(vocab, eos, sampled.last())
            }
        }
    }
}

/// Putting out a text turns `a` into `b`.
pub open spec fn puts_out<S, E: Fn(S, &str) -> S>(emit: E, a: S, text: Seq<char>, b: S) -> bool {
    exists|s: &str| s@ == text && #[trigger] call_ensures(emit, (a, s), b)
}

/// Putting out texts one after the other, each once, turns `a` into `b`.
pub open spec fn puts_out_all<S, E: Fn(S, &str) -> S>(
    emit: E,
    a: S,
    texts: Seq<Seq<char>>,
    b: S,
) -> bool
    decreases texts.len(),
{
    if texts.len() == 0 {
        a == b
    } else {
        exists|m: S|
            puts_out_all(emit, a, texts.drop_last(), m) && #[trigger] puts_out(
                emit,
                m,
                texts.last(),
                b,
            )
    }
}

/// What tokens put out, a text for each.
pub open spec fn pieces_of(vocab: Seq<EntryView>, tokens: Seq<usize>) -> Seq<Seq<char>> {
    tokens.map_values(|t: usize| streamed(token_bytes(vocab, t)))
}

pub(crate) proof fn lemma_puts_out_one_more<S, E: Fn(S, &str) -> S>(
    emit: E,
    vocab: Seq<EntryView>,
    tokens: Seq<usize>,
    token: usize,
    a: S,
    m: S,
    b: S,
)
    requires
        puts_out_all(emit, a, pieces_of(vocab, tokens), m),
        puts_out(emit, m, streamed(token_bytes(vocab, token)), b),
    ensures
        puts_out_all(emit, a, pieces_of(vocab, tokens.push(token)), b),
{
    let texts = pieces_of(vocab, tokens.push(token));
    assert(texts.drop_last() =~= pieces_of(vocab, tokens));
    assert(puts_out(emit, m, texts.last(), b));
}

/// The course of a generation: which tokens the model has seen, where the next
/// one goes, and what has been put out.
pub struct Generation {
    tokens: Vec<usize>,
    left: usize,
    ended: bool,
    text: String,
}

impl View for Generation {
    type V = GenerationView;

    closed spec fn view(&self) -> GenerationView {
        GenerationView {
            tokens: self.tokens@,
            left: self.left as nat,
            ended: self.ended,
            text: self.text@,
        }
    }
}

impl Generation {
    /// Starts with the tokens of a prompt; no begin-of-sequence token is put in
    /// front of them.
    pub fn start(tokenizer: &Tokenizer, prompt: &str, max_tokens: usize) -> (r: Self)
        ensures
            r@ == (GenerationView {
                tokens: tokenizer.encoded(prompt@),
                left: max_tokens as nat,
                ended: false,
                text: Seq::empty(),
            }),
    {
        Generation {
            tokens: tokenizer.encode(prompt),
            left: max_tokens,
            ended: false,
            text: String::new(),
        }
    }

    /// The tokens so far, each of which goes to the position of its index.
    pub fn tokens(&self) -> (r: &[usize])
        ensures
            r@ == self@.tokens,
    {
        self.tokens.as_slice()
    }

    /// The position of the next token.
    pub fn position(&self) -> (r: usize)
        ensures
            r == self@.tokens.len(),
    {
        self.tokens.len()
    }

    /// Whether no further token is to be sampled.
    pub fn finished(&self) -> (r: bool)
        ensures
            r == self@.finished(),
    {
        self.ended || self.left == 0
    }

    /// The tokens that the sampler looks back on: the last 64.
    pub fn recent(&self) -> (r: &[usize])
        ensures
            r@ == recent_tokens(self@.tokens),
    {
        let n: usize = self.tokens.len();
        if n > RECENT_TOKENS {
            let s = &self.tokens.as_slice()[n - RECENT_TOKENS..n];
            assert(s@ =~= self.tokens@.skip(n - RECENT_TOKENS));
            s
        } else {
            self.tokens.as_slice()
        }
    }

    /// Takes the next sampled token. Gives back the text to put out, or nothing
    /// where the token ends the sequence.
    pub fn accept(&mut self, tokenizer: &Tokenizer, token: usize) -> (r: Option<String>)
        requires
            !old(self)@.finished(),
        ensures
            final(self)@ == old(self)@.after(
                tokenizer.entries(),
                tokenizer.eos_token_id,
                token,
            ),
            r is None <==> tokenizer.eos_token_id == Some(token),
            r matches Some(t) ==> t@ == streamed(token_bytes(tokenizer.entries(), token)),
    {
        if let Some(eos) = tokenizer.eos_token_id {
            if token == eos {
                self.ended = true;
                return None;
            }
        }
        let bytes = tokenizer.decode_token_bytes(token);
        let piece = decode_streamed(bytes.as_slice());
        self.text.append(piece.as_str());
        self.tokens.push(token);
        self.left = self.left - 1;
        Some(piece)
    }

    /// The text generated so far.
    pub fn text(&self) -> (r: &str)
        ensures
            r@ == self@.text,
    {
        self.text.as_str()
    }
}

/// Whatever is sampled, a generation only adds tokens behind those it started
/// with, at most as many as it may, and none of them is the end-of-sequence token.
/// The text is what the added tokens put out, one after the other.
pub proof fn law_generation_extends_the_prompt(
    start: GenerationView,
    vocab: Seq<EntryView>,
    eos: Option<usize>,
    sampled: Seq<usize>,
)
    requires
        !start.ended,
    ensures
        ({
            let end = start.after_all(vocab, eos, sampled);
            let added = end.tokens.skip(start.tokens.len() as int);
            &&& end.tokens == start.tokens + added
            &&& added.len() + end.left == start.left
            &&& added.len() <= sampled.len()
            &&& added == sampled.take(added.len() as int)
            &&& forall|i: int| 0 <= i < added.len() ==> eos != Some(#[trigger] added[i])
            &&& end.text == start.text + pieces_of(vocab, added).flatten()
            &&& !end.finished() ==> added.len() == sampled.len()
        }),
    decreases sampled.len(),
{
    let n = start.tokens.len() as int;
    let end = start.after_all(vocab, eos, sampled);
    let added = end.tokens.skip(n);
    if sampled.len() == 0 {
        assert(added =~= Seq::empty());
        assert(pieces_of(vocab, added) =~= Seq::empty());
        assert(start.text + pieces_of(vocab, added).flatten() =~= start.text);
    } else {
        let rest = sampled.drop_last();
        law_generation_extends_the_prompt(start, vocab, eos, rest);
        let before = start.after_all(vocab, eos, rest);
        let old_added = before.tokens.skip(n);
        if before.finished() || eos == Some(sampled.last()) {
            assert(added =~= old_added);
            assert(rest.take(added.len() as int) =~= sampled.take(added.len() as int));
        } else {
            let t = sampled.last();
            let piece = streamed(token_bytes(vocab, t));
            assert(added =~= old_added.push(t));
            assert(added =~= sampled.take(added.len() as int));
            lemma_one_more_piece(vocab, old_added, t);
            assert(start.text + pieces_of(vocab, old_added).flatten() + piece =~= start.text
                + pieces_of(vocab, added).flatten());
        }
    }
}

/// One more token puts out one more text.
pub(crate) proof fn lemma_one_more_piece(vocab: Seq<EntryView>, tokens: Seq<usize>, token: usize)
    ensures
        pieces_of(vocab, tokens.push(token)) == pieces_of(vocab, tokens).push(
            streamed(token_bytes(vocab, token)),
        ),
        pieces_of(vocab, tokens.push(token)).flatten() == pieces_of(vocab, tokens).flatten()
            + streamed(token_bytes(vocab, token)),
{
    let piece = streamed(token_bytes(vocab, token));
    assert(pieces_of(vocab, tokens.push(token)) =~= pieces_of(vocab, tokens).push(piece));
    pieces_of(vocab, tokens).lemma_flatten_push(piece);
}

proof fn lemma_decoding_joins(a: Seq<u8>, b: Seq<u8>)
    requires
        valid_utf8(a),
        valid_utf8(b),
    ensures
        valid_utf8(a + b),
        decode_utf8(a + b) == decode_utf8(a) + decode_utf8(b),
    decreases a.len(),
{
    vstd::utf8::valid_utf8_concat(a, b);
    if a.len() == 0 {
        assert(a + b =~= b);
        assert(decode_utf8(a) + decode_utf8(b) =~= decode_utf8(b));
    } else {
        let rest = pop_first_scalar(a);
        lemma_decoding_joins(rest, b);
        assert(pop_first_scalar(a + b) =~= rest + b);
        assert(seq![decode_first_scalar(a) as char] + decode_utf8(rest) + decode_utf8(b) =~= seq![
            decode_first_scalar(a) as char,
        ] + (decode_utf8(rest) + decode_utf8(b)));
    }
}

proof fn lemma_whole_tokens_are_decoded(vocab: Seq<EntryView>, tokens: Seq<usize>)
    requires
        forall|i: int|
            0 <= i < tokens.len() ==> valid_utf8(token_bytes(vocab, #[trigger] tokens[i])),
    ensures
        valid_utf8(all_bytes(vocab, tokens)),
        pieces_of(vocab, tokens).flatten() == decode_utf8(all_bytes(vocab, tokens)),
    decreases tokens.len(),
{
    let g = |t: usize| token_bytes(vocab, t);
    if tokens.len() == 0 {
        assert(pieces_of(vocab, tokens) =~= Seq::empty());
        assert(tokens.map_values(g) =~= Seq::empty());
        assert(all_bytes(vocab, tokens) =~= Seq::empty());
        assert(pieces_of(vocab, tokens).flatten() =~= Seq::empty());
    } else {
        let (rest, t) = (tokens.drop_last(), tokens.last());
        assert forall|i: int| 0 <= i < rest.len() implies valid_utf8(
            token_bytes(vocab, #[trigger] rest[i]),
        ) by {
            assert(rest[i] == tokens[i]);
        }
        lemma_whole_tokens_are_decoded(vocab, rest);
        assert(rest.push(t) =~= tokens);
        lemma_one_more_piece(vocab, rest, t);
        assert(tokens.map_values(g) =~= rest.map_values(g).push(g(t)));
        rest.map_values(g).lemma_flatten_push(g(t));
        law_decoders_agree(g(t));
        lemma_decoding_joins(all_bytes(vocab, rest), g(t));
    }
}

/// The text that a generation puts out is the decoding of the tokens that it adds, where
/// each of them is whole characters.
pub proof fn law_text_is_the_decoding_of_the_added_tokens(
    start: GenerationView,
    vocab: Seq<EntryView>,
    eos: Option<usize>,
    sampled: Seq<usize>,
)
    requires
        !start.ended,
        ({
            let end = start.after_all(vocab, eos, sampled);
            let added = end.tokens.skip(start.tokens.len() as int);
            forall|i: int|
                0 <= i < added.len() ==> valid_utf8(token_bytes(vocab, #[trigger] added[i]))
        }),
    ensures
        ({
            let end = start.after_all(vocab, eos, sampled);
            let added = end.tokens.skip(start.tokens.len() as int);
            end.text == start.text + lossy(all_bytes(vocab, added))
        }),
{
    let end = start.after_all(vocab, eos, sampled);
    let added = end.tokens.skip(start.tokens.len() as int);
    law_generation_extends_the_prompt(start, vocab, eos, sampled);
    lemma_whole_tokens_are_decoded(vocab, added);
    law_decoders_agree(all_bytes(vocab, added));
}

} // verus!
