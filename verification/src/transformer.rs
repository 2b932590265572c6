//! The transformer: layers of attention and feed-forward networks, with
//! normalization in front of each and the input added to what comes out.

use crate::arith::{Numbers, Op};
use crate::attention::Attention;
use crate::kv_cache::{CacheView, KVCache};
use crate::math::vec_add_inplace;
use crate::mlp::Mlp;
use crate::projection::{apply_project, projecting, projects, Projector};
use crate::quant::{QuantizedMatrix, Weight};
use crate::rmsnorm::RmsNorm;
use crate::rope::{RoPE, RopeView};
use vstd::prelude::*;

verus! {

/// One layer.
#[derive(Debug, Clone)]
pub struct TransformerLayer<T> {
    pub layer_idx: usize,
    pub attention_norm: RmsNorm<T>,
    pub attention: Attention<T>,
    pub ffn_norm: RmsNorm<T>,
    pub mlp: Mlp,
}

fn normalise<T: Copy, F: Fn(Op<T>) -> T>(n: &Numbers<T, F>, norm: &RmsNorm<T>, x: &Vec<T>) -> (r:
    Vec<T>)
    requires
        n.total(),
        norm.weight@.len() == x@.len(),
    ensures
        n.rms_normed(x@, norm.weight@, norm.eps, r@),
        r@.len() == x@.len(),
{
    let mut r = copy_of(x);
    norm.forward_inplace(n, r.as_mut_slice());
    r
}

fn copy_of<T: Copy>(x: &Vec<T>) -> (r: Vec<T>)
    ensures
        r@ == x@,
{
    let mut r: Vec<T> = Vec::new();
    let mut i: usize = 0;
    while i < x.len()
        invariant
            i <= x@.len(),
            r@ =~= x@.take(i as int),
        decreases x@.len() - i,
    {
        r.push(x[i]);
        i += 1;
    }
    r
}

impl<T: Copy> TransformerLayer<T> {
    /// Whether the layer fits the vectors, the table and the cache that it works on
    pub fn is_consistent(&self, embed_dim: usize, rope: &RoPE<T>, cache: &KVCache<T>) -> (r: bool)
        requires
            rope@.wf(),
            cache@.wf(),
            2 * rope@.half_dim <= usize::MAX,
        ensures
            r == self.fits(embed_dim as nat, rope@, cache@),
    {
        let kv_dim: usize = match self.attention.n_kv_heads.checked_mul(self.attention.head_dim) {
            Some(d) => d,
            None => {
                proof {
                    cache.lemma_dim_fits();
                }
                return false;
            },
        };
        self.attention.is_consistent(embed_dim) && self.attention_norm.weight.len() == embed_dim
            && self.ffn_norm.weight.len() == embed_dim && self.mlp.is_consistent()
            && self.mlp.embed_dim == embed_dim && rope.dim() == self.attention.head_dim
            && cache.kv_dim() == kv_dim
    }

    /// Whether all bytes of the layer's matrices are there
    pub fn is_complete(&self) -> (r: bool)
        ensures
            r == self.complete(),
    {
        self.attention.is_complete() && self.mlp.is_complete()
    }

    /// All bytes of the layer's matrices are there.
    pub open spec fn complete(&self) -> bool {
        self.attention.complete() && self.mlp.complete()
    }

    /// The parts fit together, and the layer fits the vectors, the table and the
    /// cache that it works on.
    pub open spec fn fits(&self, embed_dim: nat, table: RopeView<T>, cache: CacheView<T>) -> bool {
        &&& self.attention.wf(embed_dim)
        &&& self.attention_norm.weight@.len() == embed_dim
        &&& self.ffn_norm.weight@.len() == embed_dim
        &&& self.mlp.wf() && self.mlp.embed_dim == embed_dim
        &&& table.wf() && 2 * table.half_dim == self.attention.head_dim
        &&& cache.wf() && cache.dim == self.attention.n_kv_heads * self.attention.head_dim
    }

    /// What a layer does with `x` at a position: attention to the normalized input is
    /// added to it, and what the feed-forward network makes of that, normalized, is
    /// added again.
    pub open spec fn steps<
        F: Fn(Op<T>) -> T,
        H: Fn(&QuantizedMatrix, &Vec<T>) -> Option<Vec<T>>,
    >(
        &self,
        n: Numbers<T, F>,
        project: Projector<H>,
        table: RopeView<T>,
        x: Seq<T>,
        position: usize,
        before: CacheView<T>,
        after: CacheView<T>,
        out: Seq<T>,
    ) -> bool {
        exists|a: Seq<T>, b: Seq<T>, c: Seq<T>, d: Seq<T>, e: Seq<T>|
            {
                &&& #[trigger] n.rms_normed(
                    x,
                    self.attention_norm.weight@,
                    self.attention_norm.eps,
                    a,
                )
                &&& #[trigger] self.attention.attends(
                    n,
                    project,
                    table,
                    a,
                    position,
                    before,
                    after,
                    b,
                )
                &&& #[trigger] n.added(x, b, c)
                &&& #[trigger] n.rms_normed(c, self.ffn_norm.weight@, self.ffn_norm.eps, d)
                &&& #[trigger] self.mlp.feeds(n, project, d, e)
                &&& n.added(c, e, out)
            }
    }

    pub fn forward<
        F: Fn(Op<T>) -> T,
        H: Fn(&QuantizedMatrix, &Vec<T>) -> Option<Vec<T>>,
    >(
        &self,
        n: &Numbers<T, F>,
        project: &Projector<H>,
        x: &Vec<T>,
        position: usize,
        rope: &RoPE<T>,
        kv_cache: &mut KVCache<T>,
    ) -> (output: Vec<T>)
        requires
            n.total(),
            projecting::<T, H>(project),
            self.fits(x@.len(), rope@, old(kv_cache)@),
            self.complete(),
            old(kv_cache)@.len < old(kv_cache)@.max,
        ensures
            final(kv_cache)@.wf(),
            final(kv_cache)@.len == old(kv_cache)@.len + 1,
            final(kv_cache)@.max == old(kv_cache)@.max,
            final(kv_cache)@.dim == old(kv_cache)@.dim,
            output@.len() == x@.len(),
            self.steps(
                *n,
                *project,
                rope@,
                x@,
                position,
                old(kv_cache)@,
                final(kv_cache)@,
                output@,
            ),
    {
        let x_norm = normalise(n, &self.attention_norm, x);
        let attn_out = self.attention.forward(n, project, &x_norm, position, rope, kv_cache);
        let mut output = copy_of(x);
        vec_add_inplace(n, output.as_mut_slice(), attn_out.as_slice());
        let x_norm2 = normalise(n, &self.ffn_norm, &output);
        let ghost c = output@;
        let ffn_out = self.mlp.forward(n, project, &x_norm2);
        vec_add_inplace(n, output.as_mut_slice(), ffn_out.as_slice());
        assert(n.added(x@, attn_out@, c));
        assert(n.rms_normed(c, self.ffn_norm.weight@, self.ffn_norm.eps, x_norm2@));
        output
    }
}

/// A whole model.
#[derive(Debug, Clone)]
pub struct Transformer<T> {
    pub token_embd: QuantizedMatrix,
    pub embed_dim: usize,
    pub vocab_size: usize,
    pub layers: Vec<TransformerLayer<T>>,
    pub final_norm: RmsNorm<T>,
    pub lm_head: QuantizedMatrix,
    pub max_seq_len: usize,
}

/// What each cache holds.
pub open spec fn cache_views<T>(caches: Seq<KVCache<T>>) -> Seq<CacheView<T>> {
    Seq::new(caches.len(), |i: int| caches[i]@)
}

/// A cache that has got one more token.
pub open spec fn one_longer<T>(a: CacheView<T>, b: CacheView<T>) -> bool {
    b.wf() && b.len == a.len + 1 && b.max == a.max && b.dim == a.dim
}

impl<T: Copy> Transformer<T> {
    /// The parts fit together, and the model fits a table and the caches of its
    /// layers.
    pub open spec fn fits(&self, table: RopeView<T>, caches: Seq<CacheView<T>>) -> bool {
        &&& caches.len() == self.layers@.len()
        &&& forall|i: int|
            0 <= i < self.layers@.len() ==> (#[trigger] self.layers@[i]).fits(
                self.embed_dim as nat,
                table,
                caches[i],
            )
        &&& self.embed_dim <= self.final_norm.weight@.len()
        &&& self.lm_head.rows == self.vocab_size && self.lm_head.cols == self.embed_dim
        &&& self.token_embd.cols == self.embed_dim
    }

    /// Whether the model fits a table and the caches of its layers
    pub fn is_consistent(&self, rope: &RoPE<T>, caches: &Vec<KVCache<T>>) -> (r: bool)
        requires
            rope@.wf(),
            2 * rope@.half_dim <= usize::MAX,
            forall|i: int| 0 <= i < caches@.len() ==> (#[trigger] caches@[i])@.wf(),
        ensures
            r == self.fits(rope@, cache_views(caches@)),
    {
        if caches.len() != self.layers.len() {
            return false;
        }
        let mut i: usize = 0;
        while i < self.layers.len()
            invariant
                i <= self.layers@.len(),
                caches@.len() == self.layers@.len(),
                rope@.wf(),
                2 * rope@.half_dim <= usize::MAX,
                forall|j: int| 0 <= j < caches@.len() ==> (#[trigger] caches@[j])@.wf(),
                forall|j: int|
                    0 <= j < i ==> (#[trigger] self.layers@[j]).fits(
                        self.embed_dim as nat,
                        rope@,
                        cache_views(caches@)[j],
                    ),
            decreases self.layers@.len() - i,
        {
            if !self.layers[i].is_consistent(self.embed_dim, rope, &caches[i]) {
                assert(!self.layers@[i as int].fits(
                    self.embed_dim as nat,
                    rope@,
                    cache_views(caches@)[i as int],
                ));
                return false;
            }
            i += 1;
        }
        self.embed_dim <= self.final_norm.weight.len() && self.lm_head.rows == self.vocab_size
            && self.lm_head.cols == self.embed_dim && self.token_embd.cols == self.embed_dim
    }

    /// All bytes of the model's matrices are there.
    pub open spec fn complete(&self) -> bool {
        &&& self.token_embd.complete()
        &&& self.lm_head.complete()
        &&& forall|i: int| 0 <= i < self.layers@.len() ==> (#[trigger] self.layers@[i]).complete()
    }

    /// Whether all bytes of the model's matrices are there
    pub fn is_complete(&self) -> (r: bool)
        ensures
            r == self.complete(),
    {
        let mut i: usize = 0;
        while i < self.layers.len()
            invariant
                i <= self.layers@.len(),
                forall|j: int| 0 <= j < i ==> (#[trigger] self.layers@[j]).complete(),
            decreases self.layers@.len() - i,
        {
            if !self.layers[i].is_complete() {
                return false;
            }
            i += 1;
        }
        self.token_embd.is_complete() && self.lm_head.is_complete()
    }

    /// There is room for one more token in every cache.
    pub open spec fn has_room(caches: Seq<CacheView<T>>) -> bool {
        forall|i: int| 0 <= i < caches.len() ==> (#[trigger] caches[i]).len < caches[i].max
    }

    /// `x` is the embedding of a token: the values of the weights in its row.
    pub open spec fn embeds<F: Fn(Op<T>) -> T>(
        &self,
        n: Numbers<T, F>,
        token: int,
        x: Seq<T>,
    ) -> bool {
        &&& x.len() == self.embed_dim
        &&& forall|d: int|
            0 <= d < x.len() ==> n.weighs(
                self.token_embd.cell(self.token_embd.first_block(token), token, d),
                #[trigger] x[d],
            )
    }

    /// What goes in and out of the layers: `h[i]` goes into layer `i`, which leaves
    /// its cache with one more token, and `h[i + 1]` comes out.
    pub open spec fn passes<
        F: Fn(Op<T>) -> T,
        H: Fn(&QuantizedMatrix, &Vec<T>) -> Option<Vec<T>>,
    >(
        &self,
        n: Numbers<T, F>,
        project: Projector<H>,
        table: RopeView<T>,
        position: usize,
        before: Seq<CacheView<T>>,
        after: Seq<CacheView<T>>,
        h: Seq<Seq<T>>,
    ) -> bool {
        forall|i: int|
            0 <= i < h.len() - 1 ==> (#[trigger] self.layers@[i]).steps(
                n,
                project,
                table,
                h[i],
                position,
                before[i],
                after[i],
                h[i + 1],
            )
    }

    /// What the model does with a token at a position: its embedding goes through all
    /// layers and the final normalization, and `logits` is that through the head.
    pub open spec fn predicts<
        F: Fn(Op<T>) -> T,
        H: Fn(&QuantizedMatrix, &Vec<T>) -> Option<Vec<T>>,
    >(
        &self,
        n: Numbers<T, F>,
        project: Projector<H>,
        table: RopeView<T>,
        token: int,
        position: usize,
        before: Seq<CacheView<T>>,
        after: Seq<CacheView<T>>,
        logits: Seq<T>,
    ) -> bool {
        exists|h: Seq<Seq<T>>, y: Seq<T>|
            {
                &&& after.len() == before.len()
                &&& h.len() == self.layers@.len() + 1
                &&& self.embeds(n, token, h[0])
                &&& #[trigger] self.passes(n, project, table, position, before, after, h)
                &&& #[trigger] n.rms_normed(
                    h.last(),
                    self.final_norm.weight@,
                    self.final_norm.eps,
                    y,
                )
                &&& projects(n, project, self.lm_head, y, logits)
            }
    }

    fn embed<F: Fn(Op<T>) -> T>(&self, n: &Numbers<T, F>, token_id: usize) -> (x: Vec<T>)
        requires
            token_id < self.token_embd.rows,
            self.token_embd.cols == self.embed_dim,
            self.token_embd.complete(),
            n.total(),
        ensures
            self.embeds(*n, token_id as int, x@),
    {
        proof {
            self.token_embd.lemma_complete_is_readable();
            assert(self.token_embd.row_readable(token_id as int));
        }
        let cols: usize = self.token_embd.cols;
        let mut row: Vec<Weight> = vec![Weight::Single(0); cols];
        self.token_embd.dequantize_row(token_id, &mut row);
        let mut x: Vec<T> = Vec::new();
        let mut d: usize = 0;
        while d < cols
            invariant
                d <= cols,
                cols == self.embed_dim,
                row@.len() == cols,
                x@.len() == d,
                n.total(),
                forall|c: int|
                    0 <= c < cols ==> #[trigger] row@[c] == self.token_embd.cell(
                        self.token_embd.first_block(token_id as int),
                        token_id as int,
                        c,
                    ),
                forall|c: int|
                    0 <= c < d ==> n.weighs(
                        self.token_embd.cell(
                            self.token_embd.first_block(token_id as int),
                            token_id as int,
                            c,
                        ),
                        #[trigger] x@[c],
                    ),
            decreases cols - d,
        {
            x.push(n.weight_value(row[d]));
            d += 1;
        }
        x
    }

    /// Runs a token through the model: every cache gets one more row, and the logits
    /// come out.
    pub fn forward<
        F: Fn(Op<T>) -> T,
        H: Fn(&QuantizedMatrix, &Vec<T>) -> Option<Vec<T>>,
    >(
        &self,
        n: &Numbers<T, F>,
        project: &Projector<H>,
        token_id: usize,
        position: usize,
        rope: &RoPE<T>,
        kv_caches: &mut Vec<KVCache<T>>,
    ) -> (logits: Vec<T>)
        requires
            n.total(),
            projecting::<T, H>(project),
            self.fits(rope@, cache_views(old(kv_caches)@)),
            Self::has_room(cache_views(old(kv_caches)@)),
            self.complete(),
            token_id < self.token_embd.rows,
        ensures
            final(kv_caches)@.len() == old(kv_caches)@.len(),
            forall|i: int|
                0 <= i < final(kv_caches)@.len() ==> one_longer(
                    old(kv_caches)@[i]@,
                    #[trigger] final(kv_caches)@[i]@,
                ),
            self.fits(rope@, cache_views(final(kv_caches)@)),
            logits@.len() == self.vocab_size,
            self.predicts(
                *n,
                *project,
                rope@,
                token_id as int,
                position,
                cache_views(old(kv_caches)@),
                cache_views(final(kv_caches)@),
                logits@,
            ),
    {
        let ghost before = cache_views(kv_caches@);
        let mut hidden = self.embed(n, token_id);
        let ghost mut h: Seq<Seq<T>> = seq![hidden@];
        let mut i: usize = 0;
        while i < self.layers.len()
            invariant
                n.total(),
                projecting::<T, H>(project),
                i <= self.layers@.len(),
                self.fits(rope@, before),
                self.complete(),
                Self::has_room(before),
                before.len() == self.layers@.len(),
                kv_caches@.len() == before.len(),
                hidden@.len() == self.embed_dim,
                h.len() == i + 1,
                h.last() == hidden@,
                self.embeds(*n, token_id as int, h[0]),
                self.passes(
                    *n,
                    *project,
                    rope@,
                    position,
                    before,
                    cache_views(kv_caches@),
                    h,
                ),
                forall|j: int| i <= j < before.len() ==> #[trigger] kv_caches@[j]@ == before[j],
                forall|j: int| 0 <= j < i ==> one_longer(before[j], #[trigger] kv_caches@[j]@),
                before == cache_views(old(kv_caches)@),
            decreases self.layers@.len() - i,
        {
            let ghost old_caches = kv_caches@;
            let ghost old_h = h;
            proof {
                assert(self.layers@[i as int].fits(self.embed_dim as nat, rope@, before[i as int]));
                assert(kv_caches@[i as int]@ == before[i as int]);
                assert(before[i as int].len < before[i as int].max);
            }
            let cache = &mut kv_caches[i];
            hidden = self.layers[i].forward(n, project, &hidden, position, rope, cache);
            proof {
                h = h.push(hidden@);
                let after = cache_views(kv_caches@);
                assert forall|j: int| 0 <= j < h.len() - 1 implies (
                #[trigger] self.layers@[j]).steps(
                    *n,
                    *project,
                    rope@,
                    h[j],
                    position,
                    before[j],
                    after[j],
                    h[j + 1],
                ) by {
                    if j < i {
                        assert(after[j] == cache_views(old_caches)[j]);
                        assert(h[j] == old_h[j] && h[j + 1] == old_h[j + 1]);
                    }
                }
            }
            i += 1;
        }
        proof {
            let after = cache_views(kv_caches@);
            assert forall|j: int| 0 <= j < self.layers@.len() implies (
            #[trigger] self.layers@[j]).fits(self.embed_dim as nat, rope@, after[j]) by {
                assert(self.layers@[j].fits(self.embed_dim as nat, rope@, before[j]));
                assert(one_longer(before[j], kv_caches@[j]@));
            }
        }
        self.final_norm.forward_inplace(n, hidden.as_mut_slice());
        assert(n.rms_normed(h.last(), self.final_norm.weight@, self.final_norm.eps, hidden@));
        apply_project(n, project, &self.lm_head, &hidden)
    }
}

} // verus!
