//! The rounds of a generation: how tokens, positions and caches keep step, and why a
//! generation ends.

use crate::arith::{Numbers, Op};
use crate::attention::{bias_view, with_token, Attention};
use crate::generation::{law_generation_extends_the_prompt, recent_tokens, GenerationView};
use crate::kv_cache::CacheView;
use crate::model::Model;
use crate::projection::{projects, Projector};
use crate::quant::QuantizedMatrix;
use crate::rope::RopeView;
use crate::run::{RunError, RunView};
use crate::tokenizer::EntryView;
use crate::transformer::{Transformer, TransformerLayer};
use vstd::prelude::*;

verus! {

/// A generation ends for one of two reasons: as many tokens have been added as were asked
/// for, or the token behind the last one added is the end of the sequence.
pub proof fn law_generation_ends_for_a_reason(
    start: GenerationView,
    vocab: Seq<EntryView>,
    eos: Option<usize>,
    sampled: Seq<usize>,
)
    requires
        !start.ended,
    ensures
        ({
            let end = start.after_all(vocab, eos, sampled);
            let n = end.tokens.len() - start.tokens.len();
            &&& 0 <= n <= start.left
            &&& end.ended <==> n < start.left && n < sampled.len() && eos == Some(sampled[n])
            &&& end.finished() ==> n == start.left || (n < sampled.len() && eos == Some(sampled[n]))
        }),
    decreases sampled.len(),
{
    law_generation_extends_the_prompt(start, vocab, eos, sampled);
    if sampled.len() > 0 {
        let t = sampled.drop_last();
        law_generation_ends_for_a_reason(start, vocab, eos, t);
        law_generation_extends_the_prompt(start, vocab, eos, t);
        let before = start.after_all(vocab, eos, t);
        let n = before.tokens.len() - start.tokens.len();
        if n < t.len() {
            assert(t[n] == sampled[n]);
        }
    }
}

/// What the penalty sees are the last tokens, in order, and at most 64 of them.
pub proof fn law_recent_tokens_are_the_last(tokens: Seq<usize>)
    ensures
        recent_tokens(tokens).is_suffix_of(tokens),
        tokens.len() <= 64 ==> recent_tokens(tokens) == tokens,
        tokens.len() > 64 ==> recent_tokens(tokens).len() == 64,
{
    let r = recent_tokens(tokens);
    assert(tokens.skip(tokens.len() - r.len()) =~= r);
}

proof fn lemma_layer_grows<
    T: Copy,
    F: Fn(Op<T>) -> T,
    H: Fn(&QuantizedMatrix, &Vec<T>) -> Option<Vec<T>>,
>(
    layer: TransformerLayer<T>,
    n: Numbers<T, F>,
    project: Projector<H>,
    table: RopeView<T>,
    x: Seq<T>,
    position: usize,
    before: CacheView<T>,
    after: CacheView<T>,
    out: Seq<T>,
)
    requires
        layer.steps(n, project, table, x, position, before, after, out),
    ensures
        after.len == before.len + 1,
{
    let (a, b, c, d, e) = choose|a: Seq<T>, b: Seq<T>, c: Seq<T>, d: Seq<T>, e: Seq<T>|
        {
            &&& #[trigger] n.rms_normed(
                x,
                layer.attention_norm.weight@,
                layer.attention_norm.eps,
                a,
            )
            &&& #[trigger] layer.attention.attends(
                n,
                project,
                table,
                a,
                position,
                before,
                after,
                b,
            )
            &&& #[trigger] n.added(x, b, c)
            &&& #[trigger] n.rms_normed(c, layer.ffn_norm.weight@, layer.ffn_norm.eps, d)
            &&& #[trigger] layer.mlp.feeds(n, project, d, e)
            &&& n.added(c, e, out)
        };
    let w = layer.attention;
    let (q, k, v, heads) = choose|q: Seq<T>, k: Seq<T>, v: Seq<T>, heads: Seq<T>|
        {
            &&& #[trigger] Attention::<T>::rotated(
                n,
                project,
                w.wq,
                bias_view(w.bq),
                a,
                table,
                w.n_heads as int,
                position,
                q,
            )
            &&& #[trigger] Attention::<T>::rotated(
                n,
                project,
                w.wk,
                bias_view(w.bk),
                a,
                table,
                w.n_kv_heads as int,
                position,
                k,
            )
            &&& #[trigger] Attention::<T>::biased(n, project, w.wv, bias_view(w.bv), a, v)
            &&& after == with_token(before, k, v)
            &&& #[trigger] w.heads_attend(n, q, after, heads)
            &&& projects(n, project, w.wo, heads, b)
        };
}

/// Running one token adds one row to the cache of every layer.
pub proof fn law_every_cache_gets_one_token<
    T: Copy,
    F: Fn(Op<T>) -> T,
    H: Fn(&QuantizedMatrix, &Vec<T>) -> Option<Vec<T>>,
>(
    model: Transformer<T>,
    n: Numbers<T, F>,
    project: Projector<H>,
    table: RopeView<T>,
    token: int,
    position: usize,
    before: Seq<CacheView<T>>,
    after: Seq<CacheView<T>>,
    logits: Seq<T>,
    l: int,
)
    requires
        model.predicts(n, project, table, token, position, before, after, logits),
        0 <= l < model.layers@.len(),
    ensures
        after.len() == before.len(),
        after[l].len == before[l].len + 1,
{
    let (h, y) = choose|h: Seq<Seq<T>>, y: Seq<T>|
        {
            &&& after.len() == before.len()
            &&& h.len() == model.layers@.len() + 1
            &&& model.embeds(n, token, h[0])
            &&& #[trigger] model.passes(n, project, table, position, before, after, h)
            &&& #[trigger] n.rms_normed(
                h.last(),
                model.final_norm.weight@,
                model.final_norm.eps,
                y,
            )
            &&& projects(n, project, model.lm_head, y, logits)
        };
    assert(model.layers@[l].steps(
        n,
        project,
        table,
        h[l],
        position,
        before[l],
        after[l],
        h[l + 1],
    ));
    lemma_layer_grows(
        model.layers@[l],
        n,
        project,
        table,
        h[l],
        position,
        before[l],
        after[l],
        h[l + 1],
    );
}

proof fn lemma_prompt_grows<
    T: Copy,
    F: Fn(Op<T>) -> T,
    H: Fn(&QuantizedMatrix, &Vec<T>) -> Option<Vec<T>>,
>(
    model: Model<T>,
    n: Numbers<T, F>,
    project: Projector<H>,
    tokens: Seq<usize>,
    caches: Seq<Seq<CacheView<T>>>,
    logits: Seq<Seq<T>>,
    l: int,
    k: int,
)
    requires
        model.runs(n, project, tokens, caches, logits),
        0 <= l < model.transformer.layers@.len(),
        0 <= k < logits.len(),
    ensures
        caches[k][l].len == caches[0][l].len + k,
    decreases k,
{
    if k > 0 {
        lemma_prompt_grows(model, n, project, tokens, caches, logits, l, k - 1);
        let i = k - 1;
        assert(model.transformer.predicts(
            n,
            project,
            model.rope@,
            tokens[i] as int,
            i as usize,
            caches[i],
            caches[i + 1],
            logits[i + 1],
        ));
        law_every_cache_gets_one_token(
            model.transformer,
            n,
            project,
            model.rope@,
            tokens[i] as int,
            i as usize,
            caches[i],
            caches[k],
            logits[k],
            l,
        );
    }
}

/// A prompt on empty caches fills them with its tokens, one row for each; the last token
/// is run at the position behind the others, on caches that hold just those, and the
/// logits that stay are its.
pub proof fn law_prompt_fills_the_caches<
    T: Copy,
    F: Fn(Op<T>) -> T,
    H: Fn(&QuantizedMatrix, &Vec<T>) -> Option<Vec<T>>,
>(
    model: Model<T>,
    n: Numbers<T, F>,
    project: Projector<H>,
    tokens: Seq<usize>,
    before: Seq<CacheView<T>>,
    after: Seq<CacheView<T>>,
    out: Seq<T>,
    l: int,
)
    requires
        model.prefills(n, project, tokens, before, after, out),
        0 <= l < model.transformer.layers@.len(),
        before[l].len == 0,
        0 < tokens.len(),
    ensures
        after[l].len == tokens.len(),
        exists|middle: Seq<CacheView<T>>|
            middle[l].len == tokens.len() - 1 && #[trigger] model.transformer.predicts(
                n,
                project,
                model.rope@,
                tokens.last() as int,
                (tokens.len() - 1) as usize,
                middle,
                after,
                out,
            ),
{
    let (caches, logits) = choose|caches: Seq<Seq<CacheView<T>>>, logits: Seq<Seq<T>>|
        {
            &&& #[trigger] model.runs(n, project, tokens, caches, logits)
            &&& logits.len() == tokens.len() + 1
            &&& caches[0] == before
            &&& logits[0] == Seq::new(model.config.vocab_size as nat, |i: int| n.zero)
            &&& caches.last() == after
            &&& logits.last() == out
        };
    lemma_prompt_grows(model, n, project, tokens, caches, logits, l, tokens.len() as int);
    let i = tokens.len() - 1;
    lemma_prompt_grows(model, n, project, tokens, caches, logits, l, i);
    assert(model.transformer.predicts(
        n,
        project,
        model.rope@,
        tokens[i] as int,
        i as usize,
        caches[i],
        caches[i + 1],
        logits[i + 1],
    ));
    let middle = caches[i];
    assert(caches[i + 1] == after && logits[i + 1] == out && tokens[i] == tokens.last());
    assert(model.transformer.predicts(
        n,
        project,
        model.rope@,
        tokens.last() as int,
        (tokens.len() - 1) as usize,
        middle,
        after,
        out,
    ));
}

/// In every round that does not end the sequence, the caches hold as many rows as there
/// are tokens, and the new token is run at the position behind all of them.
pub proof fn law_tokens_and_caches_keep_step<
    T: Copy,
    F: Fn(Op<T>) -> T,
    H: Fn(&QuantizedMatrix, &Vec<T>) -> Option<Vec<T>>,
    B: Fn(Op<u32>) -> u32,
    C: Fn(T) -> u32,
>(
    model: Model<T>,
    n: Numbers<T, F>,
    project: Projector<H>,
    ops: Numbers<u32, B>,
    bits: C,
    a: RunView<T>,
    b: RunView<T>,
    l: int,
)
    requires
        model.goes_on(n, project, ops, bits, a, b),
        0 <= l < model.transformer.layers@.len(),
        a.caches[l].len == a.generation.tokens.len(),
        a.generation.tokens.len() < usize::MAX,
    ensures
        b.generation.ended ==> b.generation.tokens == a.generation.tokens && b.caches == a.caches,
        !b.generation.ended ==> {
            &&& b.generation.tokens.len() == a.generation.tokens.len() + 1
            &&& b.generation.tokens.drop_last() == a.generation.tokens
            &&& b.caches[l].len == b.generation.tokens.len()
            &&& model.transformer.predicts(
                n,
                project,
                model.rope@,
                b.generation.tokens.last() as int,
                a.caches[l].len as usize,
                a.caches,
                b.caches,
                b.logits,
            )
        },
{
    let token = choose|token: usize| #[trigger]
        model.continues(
            ops,
            bits,
            a.logits,
            a.sampler,
            b.sampler,
            a.generation,
            b.generation,
            token,
        );
    if !b.generation.ended {
        assert(b.generation.tokens.drop_last() =~= a.generation.tokens);
        law_every_cache_gets_one_token(
            model.transformer,
            n,
            project,
            model.rope@,
            b.generation.tokens.last() as int,
            (b.generation.tokens.len() - 1) as usize,
            a.caches,
            b.caches,
            b.logits,
            l,
        );
    }
}

/// A token can be run just where the model knows it and every cache has room behind the
/// tokens that are to come before it.
pub proof fn law_known_tokens_run_while_there_is_room<T: Copy>(
    model: Model<T>,
    token: usize,
    caches: Seq<CacheView<T>>,
    used: nat,
)
    ensures
        model.fault(token, caches, used) is None <==> token < model.transformer.token_embd.rows && (
        forall|i: int| 0 <= i < caches.len() ==> (#[trigger] caches[i]).len + used < caches[i].max),
        token >= model.transformer.token_embd.rows ==> model.fault(token, caches, used) == Some(
            RunError::UnknownToken(token),
        ),
{
}

/// A prompt can be run just where the model knows all of its tokens and every cache has room
/// for as many as there are.
pub proof fn law_prompts_run_where_they_fit<T: Copy>(
    model: Model<T>,
    tokens: Seq<usize>,
    caches: Seq<CacheView<T>>,
    k: nat,
)
    requires
        k <= tokens.len(),
    ensures
        model.prompt_fault(tokens, caches, k) is None <==> (forall|j: int|
            0 <= j < k ==> #[trigger] tokens[j] < model.transformer.token_embd.rows) && (k == 0
            || forall|i: int|
            0 <= i < caches.len() ==> (#[trigger] caches[i]).len + k <= caches[i].max),
    decreases k,
{
    if k > 0 {
        law_prompts_run_where_they_fit(model, tokens, caches, (k - 1) as nat);
        law_known_tokens_run_while_there_is_room(
            model,
            tokens[k - 1],
            caches,
            (k - 1) as nat,
        );
    }
}

/// A prompt without tokens leaves the caches as they are and gives zeros.
pub proof fn law_empty_prompt_gives_zeros<
    T: Copy,
    F: Fn(Op<T>) -> T,
    H: Fn(&QuantizedMatrix, &Vec<T>) -> Option<Vec<T>>,
>(
    model: Model<T>,
    n: Numbers<T, F>,
    project: Projector<H>,
    before: Seq<CacheView<T>>,
    after: Seq<CacheView<T>>,
    out: Seq<T>,
)
    requires
        model.prefills(n, project, Seq::empty(), before, after, out),
    ensures
        after == before,
        out.len() == model.config.vocab_size,
        forall|i: int| 0 <= i < out.len() ==> #[trigger] out[i] == n.zero,
{
}

} // verus!
