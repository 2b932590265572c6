//! Running a model: from a prompt, round after round, to the end of a generation.

use crate::arith::{Numbers, Op};
use crate::generation::{lemma_one_more_piece, lemma_puts_out_one_more, pieces_of};
use crate::generation::{puts_out, puts_out_all};
use crate::generation::{Generation, GenerationView};
use crate::kv_cache::{CacheView, KVCache};
use crate::loading::heads_fit;
use crate::model::Model;
use crate::projection::{projecting, Projector};
use crate::quant::QuantizedMatrix;
use crate::sampler::{Sampler, SamplerConfig, SamplerView};
use crate::text::{decimal, push_decimal};
use crate::tokenizer::{token_bytes, EntryView};
use crate::transformer::{cache_views, Transformer};
use crate::utf8::streamed;
use vstd::prelude::*;
use vstd::string::StringExecFns;

verus! {

broadcast use vstd::string::group_string_axioms;

/// Why a run cannot go on.
#[derive(Debug, Clone, Copy, PartialEq, Eq, Structural)]
pub enum RunError {
    /// A token has no row in the embedding.
    UnknownToken(usize),
    /// There is no room for another token.
    CacheFull,
}

impl RunError {
    /// A sentence that names the error.
    pub open spec fn message_view(self) -> Seq<char> {
        match self {
            RunError::UnknownToken(t) => "token outside the embedding: "@ + decimal(t as nat),
            RunError::CacheFull => "KV cache overflow"@,
        }
    }

    /// A sentence that names the error.
    pub fn message(&self) -> (r: String)
        ensures
            r@ == self.message_view(),
    {
        match self {
            RunError::UnknownToken(t) => {
                let mut s = "token outside the embedding: ".to_owned();
                push_decimal(&mut s, *t as u64);
                s
            },
            RunError::CacheFull => "KV cache overflow".to_owned(),
        }
    }
}

/// How far the run of a model has come.
#[verifier::ext_equal]
pub struct RunView<T> {
    /// The caches of all layers.
    pub caches: Seq<CacheView<T>>,
    /// The logits for the next token.
    pub logits: Seq<T>,
    pub sampler: SamplerView,
    pub generation: GenerationView,
}

proof fn lemma_put_out_after_a_round<S, E: Fn(S, &str) -> S>(
    emit: E,
    vocab: Seq<EntryView>,
    len: int,
    a: GenerationView,
    b: GenerationView,
    first: S,
    before: S,
    after: S,
)
    requires
        0 <= len <= a.tokens.len(),
        b.tokens == with_last(a, b),
        puts_out_all(emit, first, pieces_of(vocab, a.tokens.skip(len)), before),
        b.ended ==> after == before,
        !b.ended ==> puts_out(
            emit,
            before,
            streamed(token_bytes(vocab, b.tokens.last())),
            after,
        ),
    ensures
        len <= b.tokens.len(),
        puts_out_all(emit, first, pieces_of(vocab, b.tokens.skip(len)), after),
{
    if !b.ended {
        let token = b.tokens.last();
        let added = a.tokens.skip(len);
        assert(b.tokens.skip(len) =~= added.push(token));
        lemma_puts_out_one_more(emit, vocab, added, token, first, before, after);
    }
}

/// The tokens of `a`, and behind them the last one of `b` unless that has ended.
pub open spec fn with_last(a: GenerationView, b: GenerationView) -> Seq<usize> {
    if b.ended {
        a.tokens
    } else {
        a.tokens.push(b.tokens.last())
    }
}

impl<T: Copy> Model<T> {
    /// Why a token cannot be run once `used` more tokens are in the caches, if it cannot.
    pub open spec fn fault(
        &self,
        token: usize,
        caches: Seq<CacheView<T>>,
        used: nat,
    ) -> Option<RunError> {
        if token >= self.transformer.token_embd.rows {
            Some(RunError::UnknownToken(token))
        } else if exists|i: int|
            0 <= i < caches.len() && (#[trigger] caches[i]).len + used >= caches[i].max {
            Some(RunError::CacheFull)
        } else {
            None
        }
    }

    /// Why the first `k` tokens of a prompt cannot be run one after the other: the fault
    /// of the first that cannot.
    pub open spec fn prompt_fault(
        &self,
        tokens: Seq<usize>,
        caches: Seq<CacheView<T>>,
        k: nat,
    ) -> Option<RunError>
        decreases k,
    {
        if k == 0 {
            None
        } else {
            match self.prompt_fault(tokens, caches, (k - 1) as nat) {
                Some(e) => Some(e),
                None => self.fault(tokens[k - 1], caches, (k - 1) as nat),
            }
        }
    }

    /// A token is sampled for a generation that is not finished, which takes it.
    pub open spec fn samples_next<B: Fn(Op<u32>) -> u32, C: Fn(T) -> u32>(
        &self,
        ops: Numbers<u32, B>,
        bits: C,
        a: RunView<T>,
        sampler: SamplerView,
        generation: GenerationView,
    ) -> bool {
        &&& !a.generation.finished()
        &&& exists|token: usize| #[trigger]
            self.continues(
                ops,
                bits,
                a.logits,
                a.sampler,
                sampler,
                a.generation,
                generation,
                token,
            )
    }

    /// One round of a generation that is not finished: the next token is sampled, and
    /// unless it ends the sequence, it is run through the model.
    pub open spec fn goes_on<
        F: Fn(Op<T>) -> T,
        H: Fn(&QuantizedMatrix, &Vec<T>) -> Option<Vec<T>>,
        B: Fn(Op<u32>) -> u32,
        C: Fn(T) -> u32,
    >(
        &self,
        n: Numbers<T, F>,
        project: Projector<H>,
        ops: Numbers<u32, B>,
        bits: C,
        a: RunView<T>,
        b: RunView<T>,
    ) -> bool {
        &&& self.samples_next(ops, bits, a, b.sampler, b.generation)
        &&& if b.generation.ended {
            b.caches == a.caches && b.logits == a.logits
        } else {
            &&& self.fault(b.generation.tokens.last(), a.caches, 0) is None
            &&& self.transformer.predicts(
                n,
                project,
                self.rope@,
                b.generation.tokens.last() as int,
                (b.generation.tokens.len() - 1) as usize,
                a.caches,
                b.caches,
                b.logits,
            )
        }
    }

    /// A round that cannot be completed: the token that is sampled cannot be run.
    pub open spec fn breaks_off<B: Fn(Op<u32>) -> u32, C: Fn(T) -> u32>(
        &self,
        ops: Numbers<u32, B>,
        bits: C,
        a: RunView<T>,
        b: RunView<T>,
        e: RunError,
    ) -> bool {
        &&& self.samples_next(ops, bits, a, b.sampler, b.generation)
        &&& !b.generation.ended
        &&& self.fault(b.generation.tokens.last(), a.caches, 0) == Some(e)
        &&& b.caches == a.caches
        &&& b.logits == a.logits
    }

    /// States of a run, one round apart.
    pub open spec fn proceeds<
        F: Fn(Op<T>) -> T,
        H: Fn(&QuantizedMatrix, &Vec<T>) -> Option<Vec<T>>,
        B: Fn(Op<u32>) -> u32,
        C: Fn(T) -> u32,
    >(
        &self,
        n: Numbers<T, F>,
        project: Projector<H>,
        ops: Numbers<u32, B>,
        bits: C,
        states: Seq<RunView<T>>,
    ) -> bool {
        forall|i: int|
            0 <= i < states.len() - 1 ==> self.goes_on(
                n,
                project,
                ops,
                bits,
                states[i],
                #[trigger] states[i + 1],
            )
    }

    /// The states of a run from the start: the prompt is run through the model first.
    pub open spec fn proceeds_from<
        F: Fn(Op<T>) -> T,
        H: Fn(&QuantizedMatrix, &Vec<T>) -> Option<Vec<T>>,
        B: Fn(Op<u32>) -> u32,
        C: Fn(T) -> u32,
    >(
        &self,
        n: Numbers<T, F>,
        project: Projector<H>,
        ops: Numbers<u32, B>,
        bits: C,
        start: GenerationView,
        sampler: SamplerView,
        caches: Seq<CacheView<T>>,
        states: Seq<RunView<T>>,
    ) -> bool {
        &&& self.proceeds(n, project, ops, bits, states)
        &&& states.len() > 0
        &&& states[0].generation == start
        &&& states[0].sampler == sampler
        &&& self.prefills(n, project, start.tokens, caches, states[0].caches, states[0].logits)
    }

    /// What a last state makes of a run: its end, or an error in the round behind it.
    pub open spec fn ends_with<B: Fn(Op<u32>) -> u32, C: Fn(T) -> u32>(
        &self,
        ops: Numbers<u32, B>,
        bits: C,
        last: RunView<T>,
        end: GenerationView,
        error: Option<RunError>,
    ) -> bool {
        match error {
            None => last.generation == end && end.finished(),
            Some(e) => exists|b: RunView<T>| #[trigger]
                self.breaks_off(ops, bits, last, b, e) && b.generation == end,
        }
    }

    /// How a whole generation comes out: its prompt cannot be run; or it goes on round after
    /// round until it is finished, or until a token cannot be run.
    pub open spec fn concludes<
        F: Fn(Op<T>) -> T,
        H: Fn(&QuantizedMatrix, &Vec<T>) -> Option<Vec<T>>,
        B: Fn(Op<u32>) -> u32,
        C: Fn(T) -> u32,
    >(
        &self,
        n: Numbers<T, F>,
        project: Projector<H>,
        ops: Numbers<u32, B>,
        bits: C,
        start: GenerationView,
        sampler: SamplerView,
        caches: Seq<CacheView<T>>,
        end: GenerationView,
        error: Option<RunError>,
    ) -> bool {
        match self.prompt_fault(start.tokens, caches, start.tokens.len()) {
            Some(e) => end == start && error == Some(e),
            None => exists|states: Seq<RunView<T>>|
                {
                    &&& #[trigger] self.proceeds_from(
                        n,
                        project,
                        ops,
                        bits,
                        start,
                        sampler,
                        caches,
                        states,
                    )
                    &&& self.ends_with(ops, bits, states.last(), end, error)
                },
        }
    }

    /// A generation that has the tokens of a prompt and no text yet.
    pub open spec fn started(&self, prompt: Seq<char>, max_tokens: nat) -> GenerationView {
        GenerationView {
            tokens: self.tokenizer.encoded(prompt),
            left: max_tokens,
            ended: false,
            text: Seq::empty(),
        }
    }

    /// Empty caches for all layers.
    pub open spec fn fresh_caches(&self, zero: T) -> Seq<CacheView<T>> {
        Seq::new(self.config.n_layers as nat, |i: int| self.empty_cache(zero))
    }

    fn find_fault(&self, token: usize, caches: &Vec<KVCache<T>>, used: usize) -> (r: Option<
        RunError,
    >)
        ensures
            r == self.fault(token, cache_views(caches@), used as nat),
    {
        if token >= self.transformer.token_embd.rows {
            return Some(RunError::UnknownToken(token));
        }
        let ghost views = cache_views(caches@);
        let mut i: usize = 0;
        while i < caches.len()
            invariant
                i <= caches@.len(),
                views == cache_views(caches@),
                token < self.transformer.token_embd.rows,
                forall|j: int|
                    0 <= j < i ==> (#[trigger] views[j]).len + used < views[j].max,
            decreases caches@.len() - i,
        {
            let (len, max): (usize, usize) = (caches[i].len(), caches[i].max_len());
            if len >= max || max - len <= used {
                assert(views[i as int].len + used >= views[i as int].max);
                return Some(RunError::CacheFull);
            }
            i += 1;
        }
        None
    }

    fn find_prompt_fault(&self, tokens: &[usize], caches: &Vec<KVCache<T>>) -> (r: Option<RunError>)
        ensures
            r == self.prompt_fault(tokens@, cache_views(caches@), tokens@.len()),
    {
        let ghost views = cache_views(caches@);
        let mut i: usize = 0;
        while i < tokens.len()
            invariant
                i <= tokens@.len(),
                views == cache_views(caches@),
                self.prompt_fault(tokens@, views, i as nat) is None,
            decreases tokens@.len() - i,
        {
            if let Some(e) = self.find_fault(tokens[i], caches, i) {
                proof {
                    assert(self.prompt_fault(tokens@, views, (i + 1) as nat) == Some(e));
                    self.lemma_fault_stays(tokens@, views, (i + 1) as nat, tokens@.len());
                }
                return Some(e);
            }
            i += 1;
        }
        None
    }

    proof fn lemma_fault_stays(
        &self,
        tokens: Seq<usize>,
        caches: Seq<CacheView<T>>,
        j: nat,
        k: nat,
    )
        requires
            j <= k,
            self.prompt_fault(tokens, caches, j) is Some,
        ensures
            self.prompt_fault(tokens, caches, k) == self.prompt_fault(tokens, caches, j),
        decreases k,
    {
        if j < k {
            self.lemma_fault_stays(tokens, caches, j, (k - 1) as nat);
        }
    }

    proof fn lemma_prompt_fits(
        &self,
        tokens: Seq<usize>,
        caches: Seq<CacheView<T>>,
        k: nat,
    )
        requires
            k <= tokens.len(),
            self.prompt_fault(tokens, caches, k) is None,
        ensures
            forall|i: int|
                0 <= i < k ==> #[trigger] tokens[i] < self.transformer.token_embd.rows,
            k > 0 ==> forall|i: int|
                0 <= i < caches.len() ==> (#[trigger] caches[i]).len + k <= caches[i].max,
        decreases k,
    {
        if k > 0 {
            self.lemma_prompt_fits(tokens, caches, (k - 1) as nat);
            assert(self.fault(tokens[k - 1], caches, (k - 1) as nat) is None);
        }
    }

    fn sample_next<B: Fn(Op<u32>) -> u32, C: Fn(T) -> u32>(
        &self,
        ops: &Numbers<u32, B>,
        bits: &C,
        logits: &Vec<T>,
        sampler: &mut Sampler,
        generation: &mut Generation,
        Ghost(a): Ghost<RunView<T>>,
    ) -> (r: Option<String>)
        requires
            ops.single(),
            forall|v: T| call_requires(*bits, (v,)),
            logits@.len() > 0,
            !old(generation)@.finished(),
            a.logits == logits@,
            a.sampler == old(sampler)@,
            a.generation == old(generation)@,
        ensures
            self.samples_next(*ops, *bits, a, final(sampler)@, final(generation)@),
            final(generation)@.ended <==> r is None,
            final(generation)@.tokens == with_last(old(generation)@, final(generation)@),
            r matches Some(t) ==> t@ == streamed(
                token_bytes(self.tokenizer.entries(), final(generation)@.tokens.last()),
            ),
    {
        self.next_token(ops, bits, logits, sampler, generation)
    }

    fn run_last<
        F: Fn(Op<T>) -> T,
        H: Fn(&QuantizedMatrix, &Vec<T>) -> Option<Vec<T>>,
    >(
        &self,
        n: &Numbers<T, F>,
        project: &Projector<H>,
        logits: &mut Vec<T>,
        generation: &Generation,
        caches: &mut Vec<KVCache<T>>,
    ) -> (r: Result<(), RunError>)
        requires
            n.total(),
            projecting::<T, H>(project),
            self.ready(cache_views(old(caches)@)),
            generation@.tokens.len() > 0,
        ensures
            self.ready(cache_views(final(caches)@)),
            match r {
                Ok(_) => {
                    &&& self.fault(generation@.tokens.last(), cache_views(old(caches)@), 0) is None
                    &&& final(logits)@.len() == self.transformer.vocab_size
                    &&& self.transformer.predicts(
                        *n,
                        *project,
                        self.rope@,
                        generation@.tokens.last() as int,
                        (generation@.tokens.len() - 1) as usize,
                        cache_views(old(caches)@),
                        cache_views(final(caches)@),
                        final(logits)@,
                    )
                },
                Err(e) => {
                    &&& self.fault(generation@.tokens.last(), cache_views(old(caches)@), 0) == Some(
                        e,
                    )
                    &&& final(caches)@ == old(caches)@
                    &&& final(logits)@ == old(logits)@
                },
            },
    {
        let tokens = generation.tokens();
        let last: usize = tokens[tokens.len() - 1];
        if let Some(e) = self.find_fault(last, caches, 0) {
            return Err(e);
        }
        assert(Transformer::has_room(cache_views(caches@))) by {
            let views = cache_views(caches@);
            assert forall|i: int| 0 <= i < views.len() implies (#[trigger] views[i]).len
                < views[i].max by {
                assert(!(views[i].len + 0 >= views[i].max));
            }
        }
        *logits = self.feed(n, project, generation, caches);
        Ok(())
    }

    /// Does one round of a generation: samples the next token, puts out its text with `emit`
    /// and runs it through the model, unless it ends the sequence. `emit` is handed `sink`,
    /// and what it makes of it is given back
    pub fn step<
        F: Fn(Op<T>) -> T,
        H: Fn(&QuantizedMatrix, &Vec<T>) -> Option<Vec<T>>,
        B: Fn(Op<u32>) -> u32,
        C: Fn(T) -> u32,
        S,
        E: Fn(S, &str) -> S,
    >(
        &self,
        n: &Numbers<T, F>,
        project: &Projector<H>,
        ops: &Numbers<u32, B>,
        bits: &C,
        emit: &E,
        logits: &mut Vec<T>,
        sampler: &mut Sampler,
        generation: &mut Generation,
        caches: &mut Vec<KVCache<T>>,
        sink: S,
    ) -> (r: (S, Result<(), RunError>))
        requires
            n.total(),
            projecting::<T, H>(project),
            ops.single(),
            forall|v: T| call_requires(*bits, (v,)),
            forall|a: S, s: &str| call_requires(*emit, (a, s)),
            self.ready(cache_views(old(caches)@)),
            old(logits)@.len() > 0,
            !old(generation)@.finished(),
        ensures
            match r.1 {
                Ok(_) => self.goes_on(
                    *n,
                    *project,
                    *ops,
                    *bits,
                    (RunView {
                        caches: cache_views(old(caches)@),
                        logits: old(logits)@,
                        sampler: old(sampler)@,
                        generation: old(generation)@,
                    }),
                    (RunView {
                        caches: cache_views(final(caches)@),
                        logits: final(logits)@,
                        sampler: final(sampler)@,
                        generation: final(generation)@,
                    }),
                ),
                Err(e) => self.breaks_off(
                    *ops,
                    *bits,
                    (RunView {
                        caches: cache_views(old(caches)@),
                        logits: old(logits)@,
                        sampler: old(sampler)@,
                        generation: old(generation)@,
                    }),
                    (RunView {
                        caches: cache_views(final(caches)@),
                        logits: final(logits)@,
                        sampler: final(sampler)@,
                        generation: final(generation)@,
                    }),
                    e,
                ),
            },
            final(generation)@.tokens == with_last(old(generation)@, final(generation)@),
            final(generation)@.ended ==> r.0 == sink,
            !final(generation)@.ended ==> puts_out(
                *emit,
                sink,
                streamed(token_bytes(self.tokenizer.entries(), final(generation)@.tokens.last())),
                r.0,
            ),
            self.ready(cache_views(final(caches)@)),
            final(logits)@ == old(logits)@ || final(logits)@.len() == self.transformer.vocab_size,
    {
        let ghost a = RunView {
            caches: cache_views(caches@),
            logits: logits@,
            sampler: sampler@,
            generation: generation@,
        };
        if let Some(text) = self.sample_next(ops, bits, logits, sampler, generation, Ghost(a)) {
            let piece: &str = text.as_str();
            let out: S = emit(sink, piece);
            assert(call_ensures(*emit, (sink, piece), out));
            (out, self.run_last(n, project, logits, generation, caches))
        } else {
            (sink, Ok(()))
        }
    }

    proof fn lemma_one_more_round<
        F: Fn(Op<T>) -> T,
        H: Fn(&QuantizedMatrix, &Vec<T>) -> Option<Vec<T>>,
        B: Fn(Op<u32>) -> u32,
        C: Fn(T) -> u32,
    >(
        &self,
        n: Numbers<T, F>,
        project: Projector<H>,
        ops: Numbers<u32, B>,
        bits: C,
        start: GenerationView,
        sampler: SamplerView,
        caches: Seq<CacheView<T>>,
        states: Seq<RunView<T>>,
        next: RunView<T>,
    )
        requires
            self.proceeds_from(n, project, ops, bits, start, sampler, caches, states),
            self.goes_on(n, project, ops, bits, states.last(), next),
        ensures
            self.proceeds_from(n, project, ops, bits, start, sampler, caches, states.push(next)),
    {
        let more = states.push(next);
        assert forall|i: int| 0 <= i < more.len() - 1 implies self.goes_on(
            n,
            project,
            ops,
            bits,
            more[i],
            #[trigger] more[i + 1],
        ) by {
            if i < states.len() - 1 {
                assert(more[i + 1] == states[i + 1]);
            }
        }
    }

    proof fn lemma_conclusion<
        F: Fn(Op<T>) -> T,
        H: Fn(&QuantizedMatrix, &Vec<T>) -> Option<Vec<T>>,
        B: Fn(Op<u32>) -> u32,
        C: Fn(T) -> u32,
    >(
        &self,
        n: Numbers<T, F>,
        project: Projector<H>,
        ops: Numbers<u32, B>,
        bits: C,
        start: GenerationView,
        sampler: SamplerView,
        caches: Seq<CacheView<T>>,
        states: Seq<RunView<T>>,
        end: GenerationView,
        error: Option<RunError>,
    )
        requires
            self.prompt_fault(start.tokens, caches, start.tokens.len()) is None,
            self.proceeds_from(n, project, ops, bits, start, sampler, caches, states),
            self.ends_with(ops, bits, states.last(), end, error),
        ensures
            self.concludes(n, project, ops, bits, start, sampler, caches, end, error),
    {
    }

    /// Generates text for a prompt, putting it out with `emit` piece by piece: the text of each
    /// token that is added, in order, and nothing else. `emit` is handed `sink` first, then
    /// what it made of it last, and that is given back in the end
    pub fn generate<
        F: Fn(Op<T>) -> T,
        H: Fn(&QuantizedMatrix, &Vec<T>) -> Option<Vec<T>>,
        B: Fn(Op<u32>) -> u32,
        C: Fn(T) -> u32,
        S,
        E: Fn(S, &str) -> S,
    >(
        &self,
        n: &Numbers<T, F>,
        project: &Projector<H>,
        ops: &Numbers<u32, B>,
        bits: &C,
        emit: &E,
        prompt: &str,
        max_tokens: usize,
        sampler_config: SamplerConfig,
        sink: S,
    ) -> (r: (S, Result<String, RunError>))
        requires
            n.total(),
            projecting::<T, H>(project),
            ops.single(),
            forall|v: T| call_requires(*bits, (v,)),
            forall|a: S, s: &str| call_requires(*emit, (a, s)),
            heads_fit(self.config),
            self.config.cache_fits(),
            self.ready(self.fresh_caches(n.zero)),
            self.transformer.vocab_size == self.config.vocab_size,
            max_tokens > 0 ==> self.config.vocab_size > 0,
        ensures
            exists|end: GenerationView, error: Option<RunError>|
                {
                    &&& #[trigger] self.concludes(
                        *n,
                        *project,
                        *ops,
                        *bits,
                        self.started(prompt@, max_tokens as nat),
                        (SamplerView { config: sampler_config, state: sampler_config.seed }),
                        self.fresh_caches(n.zero),
                        end,
                        error,
                    )
                    &&& match r.1 {
                        Ok(text) => error is None && text@ == end.text,
                        Err(e) => error == Some(e),
                    }
                    &&& puts_out_all(
                        *emit,
                        sink,
                        pieces_of(
                            self.tokenizer.entries(),
                            end.tokens.skip(self.tokenizer.encoded(prompt@).len() as int),
                        ),
                        r.0,
                    )
                },
    {
        let mut sampler = Sampler::new(sampler_config);
        let mut caches = self.new_caches(n.zero);
        let mut generation = Generation::start(&self.tokenizer, prompt, max_tokens);
        let ghost start = generation@;
        let ghost first_sampler = sampler@;
        let ghost fresh = self.fresh_caches(n.zero);
        assert(cache_views(caches@) =~= fresh);
        assert(start =~= self.started(prompt@, max_tokens as nat));
        let ghost vocab = self.tokenizer.entries();
        let ghost len = start.tokens.len() as int;
        assert(pieces_of(vocab, start.tokens.skip(len)) =~= Seq::empty());
        if let Some(e) = self.find_prompt_fault(generation.tokens(), &caches) {
            assert(self.concludes(
                *n,
                *project,
                *ops,
                *bits,
                start,
                first_sampler,
                fresh,
                start,
                Some(e),
            ));
            return (sink, Err(e));
        }
        let ghost first: S = sink;
        let mut out: S = sink;
        proof {
            self.lemma_prompt_fits(start.tokens, fresh, start.tokens.len());
            assert forall|i: int| 0 <= i < caches@.len() implies (#[trigger] caches@[i])@.len
                + start.tokens.len() <= caches@[i]@.max by {
                assert(fresh[i] == caches@[i]@);
            }
        }
        let mut logits = self.prefill(n, project, generation.tokens(), &mut caches);
        let ghost mut states: Seq<RunView<T>> = seq![
            RunView {
                caches: cache_views(caches@),
                logits: logits@,
                sampler: sampler@,
                generation: generation@,
            },
        ];
        while !generation.finished()
            invariant
                n.total(),
                projecting::<T, H>(project),
                ops.single(),
                forall|v: T| call_requires(*bits, (v,)),
                forall|a: S, s: &str| call_requires(*emit, (a, s)),
                self.ready(cache_views(caches@)),
                self.transformer.vocab_size == self.config.vocab_size,
                max_tokens > 0 ==> self.config.vocab_size > 0,
                generation@.left <= max_tokens,
                vocab == self.tokenizer.entries(),
                first == sink,
                len == start.tokens.len() <= generation@.tokens.len(),
                puts_out_all(*emit, first, pieces_of(vocab, generation@.tokens.skip(len)), out),
                logits@.len() == self.config.vocab_size,
                start == self.started(prompt@, max_tokens as nat),
                first_sampler == (SamplerView {
                    config: sampler_config,
                    state: sampler_config.seed,
                }),
                fresh == self.fresh_caches(n.zero),
                self.prompt_fault(start.tokens, fresh, start.tokens.len()) is None,
                self.proceeds_from(
                    *n,
                    *project,
                    *ops,
                    *bits,
                    start,
                    first_sampler,
                    fresh,
                    states,
                ),
                states.last() == (RunView {
                    caches: cache_views(caches@),
                    logits: logits@,
                    sampler: sampler@,
                    generation: generation@,
                }),
            decreases
                    generation@.left,
                    if generation@.ended {
                        0nat
                    } else {
                        1nat
                    },
        {
            let ghost before = generation@;
            let ghost before_out = out;
            let (next, r) = self.step(
                n,
                project,
                ops,
                bits,
                emit,
                &mut logits,
                &mut sampler,
                &mut generation,
                &mut caches,
                out,
            );
            out = next;
            proof {
                lemma_put_out_after_a_round(
                    *emit,
                    vocab,
                    len,
                    before,
                    generation@,
                    first,
                    before_out,
                    out,
                );
            }
            let ghost now = RunView {
                caches: cache_views(caches@),
                logits: logits@,
                sampler: sampler@,
                generation: generation@,
            };
            if let Err(e) = r {
                proof {
                    assert(self.breaks_off(*ops, *bits, states.last(), now, e));
                    self.lemma_conclusion(
                        *n,
                        *project,
                        *ops,
                        *bits,
                        start,
                        first_sampler,
                        fresh,
                        states,
                        generation@,
                        Some(e),
                    );
                }
                return (out, Err(e));
            }
            proof {
                self.lemma_one_more_round(
                    *n,
                    *project,
                    *ops,
                    *bits,
                    start,
                    first_sampler,
                    fresh,
                    states,
                    now,
                );
                states = states.push(now);
            }
        }
        proof {
            self.lemma_conclusion(
                *n,
                *project,
                *ops,
                *bits,
                start,
                first_sampler,
                fresh,
                states,
                generation@,
                None,
            );
        }
        (out, Ok(generation.text().to_string()))
    }
}

/// A generation has only added to what it started with: tokens behind its own, and the text
/// of each of them behind its own.
pub open spec fn extends(
    vocab: Seq<EntryView>,
    eos: Option<usize>,
    start: GenerationView,
    end: GenerationView,
) -> bool {
    let added = end.tokens.skip(start.tokens.len() as int);
    &&& end.tokens == start.tokens + added
    &&& end.text == start.text + pieces_of(vocab, added).flatten()
    &&& added.len() + end.left == start.left
    &&& forall|i: int| 0 <= i < added.len() ==> eos != Some(#[trigger] added[i])
}

proof fn lemma_sampling_extends<T: Copy, B: Fn(Op<u32>) -> u32, C: Fn(T) -> u32>(
    model: Model<T>,
    ops: Numbers<u32, B>,
    bits: C,
    start: GenerationView,
    a: RunView<T>,
    sampler: SamplerView,
    generation: GenerationView,
)
    requires
        model.samples_next(ops, bits, a, sampler, generation),
        extends(
            model.tokenizer.entries(),
            model.tokenizer.eos_token_id,
            start,
            a.generation,
        ),
    ensures
        extends(model.tokenizer.entries(), model.tokenizer.eos_token_id, start, generation),
{
    let (vocab, eos) = (model.tokenizer.entries(), model.tokenizer.eos_token_id);
    let n = start.tokens.len() as int;
    let token = choose|token: usize| #[trigger]
        model.continues(
            ops,
            bits,
            a.logits,
            a.sampler,
            sampler,
            a.generation,
            generation,
            token,
        );
    assert(generation == a.generation.after(vocab, eos, token));
    if eos != Some(token) {
        let old_added = a.generation.tokens.skip(n);
        let added = generation.tokens.skip(n);
        assert(added =~= old_added.push(token));
        assert(generation.tokens =~= start.tokens + added);
        lemma_one_more_piece(vocab, old_added, token);
        assert(start.text + pieces_of(vocab, old_added).flatten() + streamed(
            token_bytes(vocab, token),
        ) =~= start.text + pieces_of(vocab, added).flatten());
    }
}

proof fn lemma_states_extend<
    T: Copy,
    F: Fn(Op<T>) -> T,
    H: Fn(&QuantizedMatrix, &Vec<T>) -> Option<Vec<T>>,
    B: Fn(Op<u32>) -> u32,
    C: Fn(T) -> u32,
>(
    model: Model<T>,
    n: Numbers<T, F>,
    project: Projector<H>,
    ops: Numbers<u32, B>,
    bits: C,
    start: GenerationView,
    states: Seq<RunView<T>>,
    k: int,
)
    requires
        model.proceeds(n, project, ops, bits, states),
        0 <= k < states.len(),
        states[0].generation == start,
    ensures
        extends(
            model.tokenizer.entries(),
            model.tokenizer.eos_token_id,
            start,
            states[k].generation,
        ),
    decreases k,
{
    if k == 0 {
        lemma_extends_itself(model.tokenizer.entries(), model.tokenizer.eos_token_id, start);
    } else {
        let i = k - 1;
        lemma_states_extend(model, n, project, ops, bits, start, states, i);
        assert(model.goes_on(n, project, ops, bits, states[i], states[i + 1]));
        lemma_sampling_extends(
            model,
            ops,
            bits,
            start,
            states[i],
            states[k].sampler,
            states[k].generation,
        );
    }
}

proof fn lemma_extends_itself(vocab: Seq<EntryView>, eos: Option<usize>, start: GenerationView)
    ensures
        extends(vocab, eos, start, start),
{
    let added = start.tokens.skip(start.tokens.len() as int);
    assert(added =~= Seq::empty());
    assert(pieces_of(vocab, added) =~= Seq::empty());
    assert(start.tokens =~= start.tokens + added);
    assert(start.text =~= start.text + pieces_of(vocab, added).flatten());
}

/// What a generation puts out is its text: however it comes out, it only adds tokens behind
/// those of the prompt, at most as many as it may and none that ends the sequence, and its
/// text is made up of the pieces that are put out for them, one after the other.
pub proof fn law_what_is_put_out_is_the_text<
    T: Copy,
    F: Fn(Op<T>) -> T,
    H: Fn(&QuantizedMatrix, &Vec<T>) -> Option<Vec<T>>,
    B: Fn(Op<u32>) -> u32,
    C: Fn(T) -> u32,
>(
    model: Model<T>,
    n: Numbers<T, F>,
    project: Projector<H>,
    ops: Numbers<u32, B>,
    bits: C,
    start: GenerationView,
    sampler: SamplerView,
    caches: Seq<CacheView<T>>,
    end: GenerationView,
    error: Option<RunError>,
)
    requires
        model.concludes(n, project, ops, bits, start, sampler, caches, end, error),
    ensures
        extends(model.tokenizer.entries(), model.tokenizer.eos_token_id, start, end),
{
    let (vocab, eos) = (model.tokenizer.entries(), model.tokenizer.eos_token_id);
    if model.prompt_fault(start.tokens, caches, start.tokens.len()) is Some {
        lemma_extends_itself(vocab, eos, start);
    } else {
        let states = choose|states: Seq<RunView<T>>|
            {
                &&& #[trigger] model.proceeds_from(
                    n,
                    project,
                    ops,
                    bits,
                    start,
                    sampler,
                    caches,
                    states,
                )
                &&& model.ends_with(ops, bits, states.last(), end, error)
            };
        let last = states.last();
        lemma_states_extend(model, n, project, ops, bits, start, states, states.len() - 1);
        if let Some(e) = error {
            let b = choose|b: RunView<T>| #[trigger]
                model.breaks_off(ops, bits, last, b, e) && b.generation == end;
            lemma_sampling_extends(model, ops, bits, start, last, b.sampler, b.generation);
        }
    }
}

} // verus!
