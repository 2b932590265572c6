//! Multi-head self-attention with grouped queries over a key-value cache.

use crate::arith::{Numbers, Op};
use crate::kv_cache::{written, CacheView, KVCache};
use crate::math::{dot_product, softmax_inplace, vec_add_inplace};
use crate::projection::{apply_project, projecting, projects, Projector};
use crate::quant::QuantizedMatrix;
use crate::rope::{RoPE, RopeView};
use vstd::prelude::*;

verus! {

/// The weights of an attention layer, and how its heads are laid out.
#[derive(Debug, Clone)]
pub struct Attention<T> {
    pub layer_idx: usize,
    pub n_heads: usize,
    pub n_kv_heads: usize,
    pub head_dim: usize,
    pub n_rep: usize,
    pub wq: QuantizedMatrix,
    pub wk: QuantizedMatrix,
    pub wv: QuantizedMatrix,
    pub wo: QuantizedMatrix,
    pub bq: Option<Vec<T>>,
    pub bk: Option<Vec<T>>,
    pub bv: Option<Vec<T>>,
}

/// The key-value head that a query head uses.
pub open spec fn kv_head_of(h: int, n_rep: int) -> int {
    h / n_rep
}

/// Where the heads divide evenly among the key-value heads, every head uses one of
/// them, and each serves the same number of heads, next to each other.
pub proof fn law_heads_share_kv_heads_evenly(n_heads: int, n_kv_heads: int, h: int)
    requires
        n_kv_heads > 0,
        n_heads > 0,
        n_heads % n_kv_heads == 0,
        0 <= h < n_heads,
    ensures
        n_heads / n_kv_heads > 0,
        0 <= kv_head_of(h, n_heads / n_kv_heads) < n_kv_heads,
        kv_head_of(h, n_heads / n_kv_heads) * (n_heads / n_kv_heads) <= h < (kv_head_of(
            h,
            n_heads / n_kv_heads,
        ) + 1) * (n_heads / n_kv_heads),
{
    let r = n_heads / n_kv_heads;
    vstd::arithmetic::div_mod::lemma_fundamental_div_mod(n_heads, n_kv_heads);
    assert(n_kv_heads * r == n_heads);
    assert(r > 0) by (nonlinear_arith)
        requires
            n_kv_heads * r > 0,
            n_kv_heads > 0,
    ;
    vstd::arithmetic::div_mod::lemma_fundamental_div_mod(h, r);
    vstd::arithmetic::div_mod::lemma_div_pos_is_pos(h, r);
    let k = h / r;
    assert(r * k == k * r) by (nonlinear_arith);
    assert((k + 1) * r == k * r + r) by (nonlinear_arith);
    assert(k < n_kv_heads) by (nonlinear_arith)
        requires
            k * r <= h,
            h < n_kv_heads * r,
            r > 0,
    ;
}

impl<T: Copy, F: Fn(Op<T>) -> T> Numbers<T, F> {
    /// `s` is one over the root of the head's length.
    pub open spec fn score_scale(&self, head_dim: usize, s: T) -> bool {
        exists|c: T, r: T|
            {
                &&& #[trigger] self.gives(Op::Count(head_dim), c)
                &&& #[trigger] self.gives(Op::Root(c), r)
                &&& self.gives(Op::Over(self.one, r), s)
            }
    }

    /// `s` is the dot product of `a` and `b`, times `scale`.
    pub open spec fn scaled_dot(&self, a: Seq<T>, b: Seq<T>, scale: T, s: T) -> bool {
        exists|d: T| #[trigger] self.dots_to(a, b, d) && self.gives(Op::Times(d, scale), s)
    }

    /// The scores of a head: its query against the keys of all tokens.
    pub open spec fn head_scores(
        &self,
        query: Seq<T>,
        cache: CacheView<T>,
        start: int,
        scale: T,
        scores: Seq<T>,
    ) -> bool {
        &&& scores.len() == cache.len
        &&& forall|j: int|
            0 <= j < cache.len ==> self.scaled_dot(
                query,
                part_of(cache.keys, cache.dim, j, start, query.len() as int),
                scale,
                #[trigger] scores[j],
            )
    }

    /// The output of a head: the values of all tokens, weighted by the softmax of
    /// the scores.
    pub open spec fn head_attends(
        &self,
        query: Seq<T>,
        cache: CacheView<T>,
        start: int,
        out: Seq<T>,
    ) -> bool {
        &&& out.len() == query.len()
        &&& exists|scale: T, scores: Seq<T>, probs: Seq<T>|
            {
                &&& self.score_scale(query.len() as usize, scale)
                &&& #[trigger] self.head_scores(query, cache, start, scale, scores)
                &&& #[trigger] self.softmaxed(scores, probs)
                &&& forall|d: int|
                    0 <= d < out.len() ==> self.dots_to(
                        probs,
                        value_column(cache, start + d),
                        #[trigger] out[d],
                    )
            }
    }
}

/// The part of a token's row that starts at `start`.
pub open spec fn part_of<T>(buf: Seq<T>, dim: nat, j: int, start: int, len: int) -> Seq<T> {
    buf.subrange(j * dim + start, j * dim + start + len)
}

/// Element `d` of the values of all tokens.
pub open spec fn value_column<T>(cache: CacheView<T>, d: int) -> Seq<T> {
    Seq::new(cache.len, |j: int| cache.values[j * cache.dim + d])
}

/// The cache with one more token.
pub open spec fn with_token<T>(c: CacheView<T>, k: Seq<T>, v: Seq<T>) -> CacheView<T> {
    CacheView {
        keys: written(c.keys, (c.len * c.dim) as int, k),
        values: written(c.values, (c.len * c.dim) as int, v),
        len: c.len + 1,
        ..c
    }
}

/// Head `h` of a vector.
pub open spec fn head_of<T>(x: Seq<T>, h: int, head_dim: int) -> Seq<T> {
    x.subrange(h * head_dim, h * head_dim + head_dim)
}

proof fn lemma_head(h: int, heads: int, dim: int)
    requires
        0 <= h < heads,
        dim >= 0,
    ensures
        0 <= h * dim,
        h * dim + dim <= heads * dim,
        (h + 1) * dim == h * dim + dim,
{
    assert((h + 1) * dim == h * dim + dim) by (nonlinear_arith);
    assert(0 <= h * dim) by (nonlinear_arith)
        requires
            0 <= h,
            0 <= dim,
    ;
    assert(h * dim + dim <= heads * dim) by (nonlinear_arith)
        requires
            h + 1 <= heads,
            0 <= dim,
    ;
}

proof fn lemma_part<T>(c: CacheView<T>, j: int, start: int, len: int)
    requires
        c.wf(),
        0 <= j < c.len,
        0 <= start,
        0 <= len,
        start + len <= c.dim,
    ensures
        0 <= j * c.dim,
        j * c.dim + start + len <= c.keys.len(),
        j * c.dim + start + len <= c.values.len(),
{
    if c.dim > 0 {
        lemma_head(j, c.max as int, c.dim as int);
    } else {
        assert(j * 0 == 0);
        assert(c.max * 0 == 0);
    }
}

fn score_head<T: Copy, F: Fn(Op<T>) -> T>(
    n: &Numbers<T, F>,
    query: &[T],
    cache: &KVCache<T>,
    start: usize,
    scale: T,
) -> (scores: Vec<T>)
    requires
        n.total(),
        cache@.wf(),
        start + query@.len() <= cache@.dim,
    ensures
        n.head_scores(query@, cache@, start as int, scale, scores@),
{
    let seq_len: usize = cache.len();
    let mut scores: Vec<T> = Vec::new();
    let mut j: usize = 0;
    while j < seq_len
        invariant
            n.total(),
            cache@.wf(),
            start + query@.len() <= cache@.dim,
            seq_len == cache@.len,
            j <= seq_len,
            scores@.len() == j,
            forall|i: int|
                0 <= i < j ==> n.scaled_dot(
                    query@,
                    part_of(cache@.keys, cache@.dim, i, start as int, query@.len() as int),
                    scale,
                    #[trigger] scores@[i],
                ),
        decreases seq_len - j,
    {
        proof {
            lemma_part(cache@, j as int, start as int, query@.len() as int);
        }
        let k_vec = cache.get_k_slice(j, start, query.len());
        let d: T = dot_product(n, query, k_vec);
        let s: T = n.run(Op::Times(d, scale));
        assert(n.scaled_dot(query@, k_vec@, scale, s));
        scores.push(s);
        j += 1;
    }
    scores
}

fn weigh_values<T: Copy, F: Fn(Op<T>) -> T>(
    n: &Numbers<T, F>,
    probs: &Vec<T>,
    cache: &KVCache<T>,
    d: usize,
) -> (r: T)
    requires
        n.total(),
        cache@.wf(),
        d < cache@.dim,
        probs@.len() == cache@.len,
    ensures
        n.dots_to(probs@, value_column(cache@, d as int), r),
{
    let ghost col = value_column(cache@, d as int);
    let mut sum: T = n.zero;
    let ghost mut t: Seq<T> = seq![n.zero];
    let mut j: usize = 0;
    while j < probs.len()
        invariant
            n.total(),
            cache@.wf(),
            d < cache@.dim,
            probs@.len() == cache@.len,
            j <= probs@.len(),
            col == value_column(cache@, d as int),
            n.running_dots(probs@, col, t),
            t.len() == j + 1,
            t.last() == sum,
        decreases probs@.len() - j,
    {
        proof {
            lemma_part(cache@, j as int, d as int, 1);
        }
        let v_vec = cache.get_v_slice(j, d, 1);
        sum = n.add_product(sum, probs[j], v_vec[0]);
        proof {
            assert(col[j as int] == v_vec@[0]);
            t = t.push(sum);
        }
        j += 1;
    }
    sum
}

fn attend_head<T: Copy, F: Fn(Op<T>) -> T>(
    n: &Numbers<T, F>,
    query: &[T],
    cache: &KVCache<T>,
    start: usize,
) -> (out: Vec<T>)
    requires
        n.total(),
        cache@.wf(),
        start + query@.len() <= cache@.dim,
    ensures
        n.head_attends(query@, cache@, start as int, out@),
{
    let c: T = n.run(Op::Count(query.len()));
    let r: T = n.run(Op::Root(c));
    let scale: T = n.run(Op::Over(n.one, r));
    assert(n.score_scale(query@.len() as usize, scale)) by {
        assert(n.gives(Op::Count(query@.len() as usize), c));
    }
    let mut probs = score_head(n, query, cache, start, scale);
    let ghost scores = probs@;
    softmax_inplace(n, probs.as_mut_slice());
    let mut out: Vec<T> = Vec::new();
    let mut d: usize = 0;
    while d < query.len()
        invariant
            n.total(),
            cache@.wf(),
            start + query@.len() <= cache@.dim,
            probs@.len() == cache@.len,
            d <= query@.len(),
            out@.len() == d,
            forall|i: int|
                0 <= i < d ==> n.dots_to(
                    probs@,
                    value_column(cache@, start + i),
                    #[trigger] out@[i],
                ),
        decreases query@.len() - d,
    {
        assert(query.len() <= usize::MAX);
        assert(cache@.dim <= usize::MAX) by {
            cache.lemma_dim_fits();
        }
        out.push(weigh_values(n, &probs, cache, start + d));
        d += 1;
    }
    assert(n.head_scores(query@, cache@, start as int, scale, scores));
    assert(n.softmaxed(scores, probs@));
    out
}

fn append_all<T: Copy>(out: &mut Vec<T>, v: &Vec<T>)
    ensures
        final(out)@ == old(out)@ + v@,
{
    let ghost start = out@;
    let mut i: usize = 0;
    while i < v.len()
        invariant
            i <= v@.len(),
            start == old(out)@,
            out@ =~= start + v@.take(i as int),
        decreases v@.len() - i,
    {
        out.push(v[i]);
        i += 1;
    }
}

proof fn lemma_kv_heads(n_heads: int, n_rep: int, n_kv_heads: int)
    requires
        n_heads >= 0,
    ensures
        n_rep > 0 ==> ((forall|h: int|
            0 <= h < n_heads ==> 0 <= #[trigger] kv_head_of(h, n_rep) < n_kv_heads) <==> n_heads
            == 0 || (n_heads - 1) / n_rep < n_kv_heads),
{
    if n_rep > 0 {
        if n_heads > 0 {
            assert(kv_head_of(n_heads - 1, n_rep) == (n_heads - 1) / n_rep);
        }
        assert forall|h: int| 0 <= h < n_heads implies 0 <= #[trigger] kv_head_of(h, n_rep) <= (
        n_heads - 1) / n_rep by {
            vstd::arithmetic::div_mod::lemma_div_pos_is_pos(h, n_rep);
            vstd::arithmetic::div_mod::lemma_div_is_ordered(h, n_heads - 1, n_rep);
        }
    }
}

/// The values of a bias that a layer may have.
pub open spec fn bias_view<T>(bias: Option<Vec<T>>) -> Option<Seq<T>> {
    match bias {
        Some(b) => Some(b@),
        None => None,
    }
}

/// A bias, where there is one, has `len` values.
pub open spec fn bias_fits<T>(bias: Option<Vec<T>>, len: int) -> bool {
    bias matches Some(b) ==> b@.len() == len
}

fn is_bias_of<T>(bias: &Option<Vec<T>>, len: usize) -> (r: bool)
    ensures
        r == bias_fits(*bias, len as int),
{
    match bias {
        Some(b) => b.len() == len,
        None => true,
    }
}

impl<T: Copy> Attention<T> {
    /// The heads fit together: the matrices have the rows and columns that the heads
    /// need, and every head has a key-value head.
    pub open spec fn wf(&self, embed_dim: nat) -> bool {
        let q_dim = self.n_heads * self.head_dim;
        let kv_dim = self.n_kv_heads * self.head_dim;
        &&& self.n_rep > 0
        &&& forall|h: int|
            0 <= h < self.n_heads ==> 0 <= #[trigger] kv_head_of(h, self.n_rep as int)
                < self.n_kv_heads
        &&& self.wq.rows == q_dim && self.wq.cols == embed_dim && bias_fits(self.bq, q_dim)
        &&& self.wk.rows == kv_dim && self.wk.cols == embed_dim && bias_fits(self.bk, kv_dim)
        &&& self.wv.rows == kv_dim && self.wv.cols == embed_dim && bias_fits(self.bv, kv_dim)
        &&& self.wo.rows == embed_dim && self.wo.cols == q_dim
    }

    pub fn new(
        layer_idx: usize,
        n_heads: usize,
        n_kv_heads: usize,
        head_dim: usize,
        wq: QuantizedMatrix,
        wk: QuantizedMatrix,
        wv: QuantizedMatrix,
        wo: QuantizedMatrix,
        bq: Option<Vec<T>>,
        bk: Option<Vec<T>>,
        bv: Option<Vec<T>>,
    ) -> (r: Self)
        requires
            n_kv_heads > 0,
        ensures
            r == (Attention {
                layer_idx,
                n_heads,
                n_kv_heads,
                head_dim,
                n_rep: (n_heads / n_kv_heads) as usize,
                wq,
                wk,
                wv,
                wo,
                bq,
                bk,
                bv,
            }),
    {
        let n_rep: usize = n_heads / n_kv_heads;
        Attention {
            layer_idx,
            n_heads,
            n_kv_heads,
            head_dim,
            n_rep,
            wq,
            wk,
            wv,
            wo,
            bq,
            bk,
            bv,
        }
    }

    /// `y` is `x` through a matrix, plus a bias where there is one.
    pub open spec fn biased<
        F: Fn(Op<T>) -> T,
        H: Fn(&QuantizedMatrix, &Vec<T>) -> Option<Vec<T>>,
    >(
        n: Numbers<T, F>,
        project: Projector<H>,
        m: QuantizedMatrix,
        bias: Option<Seq<T>>,
        x: Seq<T>,
        y: Seq<T>,
    ) -> bool {
        exists|p: Seq<T>| #[trigger]
            projects(n, project, m, x, p) && match bias {
                Some(b) => n.added(p, b, y),
                None => y == p,
            }
    }

    /// `y` is `x` through a matrix, plus a bias where there is one, its heads embedded at a position.
    pub open spec fn rotated<
        F: Fn(Op<T>) -> T,
        H: Fn(&QuantizedMatrix, &Vec<T>) -> Option<Vec<T>>,
    >(
        n: Numbers<T, F>,
        project: Projector<H>,
        m: QuantizedMatrix,
        bias: Option<Seq<T>>,
        x: Seq<T>,
        table: RopeView<T>,
        heads: int,
        position: usize,
        y: Seq<T>,
    ) -> bool {
        exists|b: Seq<T>| #[trigger]
            Self::biased(n, project, m, bias, x, b) && n.heads_embedded(
                table,
                b,
                heads,
                position,
                y,
            )
    }

    /// `out` holds the outputs of all heads, each from the part of the cache that its
    /// key-value head has.
    pub open spec fn heads_attend<F: Fn(Op<T>) -> T>(
        &self,
        n: Numbers<T, F>,
        q: Seq<T>,
        cache: CacheView<T>,
        out: Seq<T>,
    ) -> bool {
        &&& out.len() == self.n_heads * self.head_dim
        &&& forall|h: int|
            0 <= h < self.n_heads ==> n.head_attends(
                head_of(q, h, self.head_dim as int),
                cache,
                kv_head_of(h, self.n_rep as int) * self.head_dim,
                #[trigger] head_of(out, h, self.head_dim as int),
            )
    }

    /// What attention does with `x` at a position: the token's keys and values go to
    /// the cache, and `out` is what the heads make of the cache, through the output
    /// matrix.
    pub open spec fn attends<
        F: Fn(Op<T>) -> T,
        H: Fn(&QuantizedMatrix, &Vec<T>) -> Option<Vec<T>>,
    >(
        &self,
        n: Numbers<T, F>,
        project: Projector<H>,
        table: RopeView<T>,
        x: Seq<T>,
        position: usize,
        before: CacheView<T>,
        after: CacheView<T>,
        out: Seq<T>,
    ) -> bool {
        exists|q: Seq<T>, k: Seq<T>, v: Seq<T>, heads: Seq<T>|
            {
                &&& #[trigger] Self::rotated(
                    n,
                    project,
                    self.wq,
                    bias_view(self.bq),
                    x,
                    table,
                    self.n_heads as int,
                    position,
                    q,
                )
                &&& #[trigger] Self::rotated(
                    n,
                    project,
                    self.wk,
                    bias_view(self.bk),
                    x,
                    table,
                    self.n_kv_heads as int,
                    position,
                    k,
                )
                &&& #[trigger] Self::biased(n, project, self.wv, bias_view(self.bv), x, v)
                &&& after == with_token(before, k, v)
                &&& #[trigger] self.heads_attend(n, q, after, heads)
                &&& projects(n, project, self.wo, heads, out)
            }
    }

    fn project_biased<
        F: Fn(Op<T>) -> T,
        H: Fn(&QuantizedMatrix, &Vec<T>) -> Option<Vec<T>>,
    >(
        n: &Numbers<T, F>,
        project: &Projector<H>,
        m: &QuantizedMatrix,
        bias: &Option<Vec<T>>,
        x: &Vec<T>,
    ) -> (y: Vec<T>)
        requires
            n.total(),
            projecting::<T, H>(project),
            m.complete(),
            x@.len() == m.cols,
            bias_fits(*bias, m.rows as int),
        ensures
            y@.len() == m.rows,
            Self::biased(*n, *project, *m, bias_view(*bias), x@, y@),
    {
        let mut y = apply_project(n, project, m, x);
        if let Some(b) = bias {
            vec_add_inplace(n, y.as_mut_slice(), b.as_slice());
        }
        y
    }

    fn attend_all<F: Fn(Op<T>) -> T>(
        &self,
        n: &Numbers<T, F>,
        q: &Vec<T>,
        cache: &KVCache<T>,
    ) -> (out: Vec<T>)
        requires
            n.total(),
            cache@.wf(),
            self.n_rep > 0,
            q@.len() == self.n_heads * self.head_dim,
            cache@.dim == self.n_kv_heads * self.head_dim,
            forall|h: int|
                0 <= h < self.n_heads ==> 0 <= #[trigger] kv_head_of(h, self.n_rep as int)
                    < self.n_kv_heads,
        ensures
            self.heads_attend(*n, q@, cache@, out@),
    {
        let mut out: Vec<T> = Vec::new();
        let mut h: usize = 0;
        assert(0 * self.head_dim == 0);
        while h < self.n_heads
            invariant
                n.total(),
                cache@.wf(),
                self.n_rep > 0,
                h <= self.n_heads,
                q@.len() == self.n_heads * self.head_dim,
                cache@.dim == self.n_kv_heads * self.head_dim,
                forall|h: int|
                    0 <= h < self.n_heads ==> 0 <= #[trigger] kv_head_of(h, self.n_rep as int)
                        < self.n_kv_heads,
                out@.len() == h * self.head_dim,
                forall|g: int|
                    0 <= g < h ==> n.head_attends(
                        head_of(q@, g, self.head_dim as int),
                        cache@,
                        kv_head_of(g, self.n_rep as int) * self.head_dim,
                        #[trigger] head_of(out@, g, self.head_dim as int),
                    ),
            decreases self.n_heads - h,
        {
            let kv_head: usize = h / self.n_rep;
            proof {
                assert(kv_head_of(h as int, self.n_rep as int) == kv_head);
                lemma_head(h as int, self.n_heads as int, self.head_dim as int);
                lemma_head(kv_head as int, self.n_kv_heads as int, self.head_dim as int);
                assert(q.len() <= usize::MAX);
                cache.lemma_dim_fits();
            }
            let start: usize = h * self.head_dim;
            let kv_start: usize = kv_head * self.head_dim;
            let query = &q.as_slice()[start..start + self.head_dim];
            let head = attend_head(n, query, cache, kv_start);
            let ghost before = out@;
            append_all(&mut out, &head);
            proof {
                assert(head_of(out@, h as int, self.head_dim as int) =~= head@);
                assert forall|g: int| 0 <= g < h implies n.head_attends(
                    head_of(q@, g, self.head_dim as int),
                    cache@,
                    kv_head_of(g, self.n_rep as int) * self.head_dim,
                    #[trigger] head_of(out@, g, self.head_dim as int),
                ) by {
                    lemma_head(g, h as int, self.head_dim as int);
                    assert(head_of(out@, g, self.head_dim as int) =~= head_of(
                        before,
                        g,
                        self.head_dim as int,
                    ));
                }
            }
            h += 1;
        }
        out
    }

    pub fn forward<
        F: Fn(Op<T>) -> T,
        H: Fn(&QuantizedMatrix, &Vec<T>) -> Option<Vec<T>>,
    >(
        &self,
        n: &Numbers<T, F>,
        project: &Projector<H>,
        x: &Vec<T>,
        position: usize,
        rope: &RoPE<T>,
        cache: &mut KVCache<T>,
    ) -> (output: Vec<T>)
        requires
            n.total(),
            projecting::<T, H>(project),
            self.wf(x@.len()),
            self.complete(),
            rope@.wf(),
            2 * rope@.half_dim == self.head_dim,
            old(cache)@.wf(),
            old(cache)@.dim == self.n_kv_heads * self.head_dim,
            old(cache)@.len < old(cache)@.max,
        ensures
            final(cache)@.wf(),
            final(cache)@.len == old(cache)@.len + 1,
            final(cache)@.max == old(cache)@.max,
            final(cache)@.dim == old(cache)@.dim,
            output@.len() == x@.len(),
            self.attends(
                *n,
                *project,
                rope@,
                x@,
                position,
                old(cache)@,
                final(cache)@,
                output@,
            ),
    {
        let mut q = Self::project_biased(n, project, &self.wq, &self.bq, x);
        let mut k = Self::project_biased(n, project, &self.wk, &self.bk, x);
        let v = Self::project_biased(n, project, &self.wv, &self.bv, x);
        let ghost q0 = q@;
        let ghost k0 = k@;
        rope.apply_heads(n, q.as_mut_slice(), self.n_heads, position);
        rope.apply_heads(n, k.as_mut_slice(), self.n_kv_heads, position);
        proof {
            assert(Self::biased(*n, *project, self.wq, bias_view(self.bq), x@, q0));
            assert(Self::biased(*n, *project, self.wk, bias_view(self.bk), x@, k0));
            assert(Self::rotated(
                *n,
                *project,
                self.wq,
                bias_view(self.bq),
                x@,
                rope@,
                self.n_heads as int,
                position,
                q@,
            ));
            assert(Self::rotated(
                *n,
                *project,
                self.wk,
                bias_view(self.bk),
                x@,
                rope@,
                self.n_kv_heads as int,
                position,
                k@,
            ));
            cache.lemma_dim_fits();
        }
        cache.append_k(k.as_slice());
        cache.append_v(v.as_slice());
        assert(cache@ =~= with_token(old(cache)@, k@, v@));
        let attn_output = self.attend_all(n, &q, cache);
        apply_project(n, project, &self.wo, &attn_output)
    }

    /// All bytes of the matrices are there.
    pub open spec fn complete(&self) -> bool {
        self.wq.complete() && self.wk.complete() && self.wv.complete() && self.wo.complete()
    }

    /// Whether all bytes of the matrices are there
    pub fn is_complete(&self) -> (r: bool)
        ensures
            r == self.complete(),
    {
        self.wq.is_complete() && self.wk.is_complete() && self.wv.is_complete()
            && self.wo.is_complete()
    }

    /// Whether the heads fit together for vectors of length `embed_dim`
    pub fn is_consistent(&self, embed_dim: usize) -> (r: bool)
        ensures
            r == self.wf(embed_dim as nat),
    {
        proof {
            lemma_kv_heads(self.n_heads as int, self.n_rep as int, self.n_kv_heads as int);
        }
        let q_dim: usize = match self.n_heads.checked_mul(self.head_dim) {
            Some(d) => d,
            None => {
                return false;
            },
        };
        let kv_dim: usize = match self.n_kv_heads.checked_mul(self.head_dim) {
            Some(d) => d,
            None => {
                return false;
            },
        };
        self.n_rep > 0 && (self.n_heads == 0 || (self.n_heads - 1) / self.n_rep < self.n_kv_heads)
            && self.wq.rows == q_dim && self.wq.cols == embed_dim && is_bias_of(&self.bq, q_dim)
            && self.wk.rows == kv_dim && self.wk.cols == embed_dim && is_bias_of(&self.bk, kv_dim)
            && self.wv.rows == kv_dim && self.wv.cols == embed_dim && is_bias_of(&self.bv, kv_dim)
            && self.wo.rows == embed_dim && self.wo.cols == q_dim
    }

    pub fn n_rep(&self) -> (r: usize)
        ensures
            r == self.n_rep,
    {
        self.n_rep
    }
}

} // verus!
