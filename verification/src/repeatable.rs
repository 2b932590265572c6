//! Running a model again gives the same: what goes into a step determines what comes out
//! of it, and so a whole generation.

use crate::arith::{Numbers, Op};
use crate::attention::{bias_view, head_of, kv_head_of, part_of, value_column, with_token};
use crate::attention::Attention;
use crate::generation::{recent_tokens, GenerationView};
use crate::gguf::GgufDataType;
use crate::kv_cache::CacheView;
use crate::mlp::Mlp;
use crate::model::{patterns, Model};
use crate::projection::{gpu_gives, law_weights_have_one_value, projects, Projector};
use crate::quant::{QuantizedMatrix, Weight};
use crate::reproducible::law_sampling_is_reproducible;
use crate::rope::{lemma_angle_is_unique, lemma_turned_pair_is_unique, RopeView};
use crate::run::{RunError, RunView};
use crate::sampler::{samples, SamplerView};
use crate::transformer::{Transformer, TransformerLayer};
use vstd::prelude::*;

verus! {

impl<T: Copy, F: Fn(Op<T>) -> T> Numbers<T, F> {
    proof fn lemma_sums_are_unique(&self, a: Seq<T>, b: Seq<T>, x: Seq<T>, y: Seq<T>)
        requires
            self.single_valued(),
            self.added(a, b, x),
            self.added(a, b, y),
        ensures
            x == y,
    {
        assert forall|i: int| 0 <= i < a.len() implies x[i] == y[i] by {
            assert(self.gives(Op::Plus(a[i], b[i]), x[i]));
            assert(self.gives(Op::Plus(a[i], b[i]), y[i]));
        }
        assert(x =~= y);
    }

    proof fn lemma_products_are_unique(&self, a: Seq<T>, b: Seq<T>, x: Seq<T>, y: Seq<T>)
        requires
            self.single_valued(),
            self.multiplied(a, b, x),
            self.multiplied(a, b, y),
        ensures
            x == y,
    {
        assert forall|i: int| 0 <= i < a.len() implies x[i] == y[i] by {
            assert(self.gives(Op::Times(a[i], b[i]), x[i]));
            assert(self.gives(Op::Times(a[i], b[i]), y[i]));
        }
        assert(x =~= y);
    }

    proof fn lemma_plus_product_is_unique(&self, s: T, a: T, b: T, x: T, y: T)
        requires
            self.single_valued(),
            self.plus_product(s, a, b, x),
            self.plus_product(s, a, b, y),
        ensures
            x == y,
    {
    }

    proof fn lemma_running_dots_agree(&self, a: Seq<T>, b: Seq<T>, t: Seq<T>, u: Seq<T>, k: int)
        requires
            self.single_valued(),
            self.running_dots(a, b, t),
            self.running_dots(a, b, u),
            0 <= k < t.len(),
            k < u.len(),
        ensures
            t[k] == u[k],
        decreases k,
    {
        if k > 0 {
            self.lemma_running_dots_agree(a, b, t, u, k - 1);
            self.lemma_plus_product_is_unique(t[k - 1], a[k - 1], b[k - 1], t[k], u[k]);
        }
    }

    proof fn lemma_dot_is_unique(&self, a: Seq<T>, b: Seq<T>, r: T, s: T)
        requires
            self.single_valued(),
            self.dots_to(a, b, r),
            self.dots_to(a, b, s),
        ensures
            r == s,
    {
        let t = choose|t: Seq<T>| #[trigger]
            self.running_dots(a, b, t) && t.len() == a.len() + 1 && t.last() == r;
        let u = choose|t: Seq<T>| #[trigger]
            self.running_dots(a, b, t) && t.len() == a.len() + 1 && t.last() == s;
        self.lemma_running_dots_agree(a, b, t, u, a.len() as int);
    }

    proof fn lemma_silu_is_unique(&self, a: Seq<T>, x: Seq<T>, y: Seq<T>)
        requires
            self.single_valued(),
            self.silu_each(a, x),
            self.silu_each(a, y),
        ensures
            x == y,
    {
        assert forall|i: int| 0 <= i < a.len() implies x[i] == y[i] by {
            self.lemma_silu_of_is_unique(a[i], x[i], y[i]);
        }
        assert(x =~= y);
    }

    proof fn lemma_silu_of_is_unique(&self, a: T, x: T, y: T)
        requires
            self.single_valued(),
            self.silu_of(a, x),
            self.silu_of(a, y),
        ensures
            x == y,
    {
        let (u, l) = choose|u: T, l: T| #[trigger]
            self.silu_upper(a, u) && #[trigger] self.silu_lower(a, l) && self.gives(
                Op::Choice(a, u, l),
                x,
            );
        let (v, m) = choose|u: T, l: T| #[trigger]
            self.silu_upper(a, u) && #[trigger] self.silu_lower(a, l) && self.gives(
                Op::Choice(a, u, l),
                y,
            );
        assert(u == v);
        assert(l == m);
    }

    proof fn lemma_norm_is_unique(&self, a: Seq<T>, w: Seq<T>, eps: T, x: Seq<T>, y: Seq<T>)
        requires
            self.single_valued(),
            self.rms_normed(a, w, eps, x),
            self.rms_normed(a, w, eps, y),
        ensures
            x == y,
    {
        let s = choose|s: T| #[trigger]
            self.rms_scale(a, eps, s) && forall|i: int|
                0 <= i < a.len() ==> self.twice_scaled(a[i], s, w[i], #[trigger] x[i]);
        let t = choose|s: T| #[trigger]
            self.rms_scale(a, eps, s) && forall|i: int|
                0 <= i < a.len() ==> self.twice_scaled(a[i], s, w[i], #[trigger] y[i]);
        self.lemma_norm_scale_is_unique(a, eps, s, t);
        assert forall|i: int| 0 <= i < a.len() implies x[i] == y[i] by {
            assert(self.twice_scaled(a[i], s, w[i], x[i]));
            assert(self.twice_scaled(a[i], s, w[i], y[i]));
        }
        assert(x =~= y);
    }

    proof fn lemma_norm_scale_is_unique(&self, a: Seq<T>, eps: T, r: T, s: T)
        requires
            self.single_valued(),
            self.rms_scale(a, eps, r),
            self.rms_scale(a, eps, s),
        ensures
            r == s,
    {
        let (d, c, mean, sum, rms) = choose|ss: T, n: T, mean: T, sum: T, rms: T|
            {
                &&& #[trigger] self.dots_to(a, a, ss)
                &&& #[trigger] self.gives(Op::Count(a.len() as usize), n)
                &&& #[trigger] self.gives(Op::Over(ss, n), mean)
                &&& #[trigger] self.gives(Op::Plus(mean, eps), sum)
                &&& #[trigger] self.gives(Op::Root(sum), rms)
                &&& self.gives(Op::Over(self.one, rms), r)
            };
        let (d2, c2, mean2, sum2, rms2) = choose|ss: T, n: T, mean: T, sum: T, rms: T|
            {
                &&& #[trigger] self.dots_to(a, a, ss)
                &&& #[trigger] self.gives(Op::Count(a.len() as usize), n)
                &&& #[trigger] self.gives(Op::Over(ss, n), mean)
                &&& #[trigger] self.gives(Op::Plus(mean, eps), sum)
                &&& #[trigger] self.gives(Op::Root(sum), rms)
                &&& self.gives(Op::Over(self.one, rms), s)
            };
        self.lemma_dot_is_unique(a, a, d, d2);
    }

    proof fn lemma_weighted_steps_agree(
        &self,
        weights: Seq<Weight>,
        x: Seq<T>,
        t: Seq<T>,
        u: Seq<T>,
        k: int,
    )
        requires
            self.single_valued(),
            self.weighted_steps(weights, x, t),
            self.weighted_steps(weights, x, u),
            0 <= k <= x.len(),
        ensures
            t[k] == u[k],
        decreases k,
    {
        if k > 0 {
            self.lemma_weighted_steps_agree(weights, x, t, u, k - 1);
            assert(self.plus_weighted(t[k - 1], weights[k - 1], x[k - 1], t[k]));
            assert(self.plus_weighted(u[k - 1], weights[k - 1], x[k - 1], u[k]));
            let v = choose|v: T| #[trigger]
                self.weighs(weights[k - 1], v) && self.plus_product(
                    t[k - 1],
                    v,
                    x[k - 1],
                    t[k],
                );
            let w = choose|v: T| #[trigger]
                self.weighs(weights[k - 1], v) && self.plus_product(
                    u[k - 1],
                    v,
                    x[k - 1],
                    u[k],
                );
            law_weights_have_one_value(*self);
            assert(v == w);
            self.lemma_plus_product_is_unique(t[k - 1], v, x[k - 1], t[k], u[k]);
        }
    }

    proof fn lemma_matrix_product_is_unique(
        &self,
        m: QuantizedMatrix,
        x: Seq<T>,
        y: Seq<T>,
        z: Seq<T>,
    )
        requires
            self.single_valued(),
            self.matrix_product(m, x, y),
            self.matrix_product(m, x, z),
        ensures
            y == z,
    {
        assert forall|row: int| 0 <= row < m.rows implies y[row] == z[row] by {
            let cells = m.row_cells(row);
            assert(self.weighted_sum(cells, x, y[row]));
            assert(self.weighted_sum(cells, x, z[row]));
            let t = choose|t: Seq<T>| #[trigger]
                self.weighted_steps(cells, x, t) && t.last() == y[row];
            let u = choose|t: Seq<T>| #[trigger]
                self.weighted_steps(cells, x, t) && t.last() == z[row];
            self.lemma_weighted_steps_agree(cells, x, t, u, x.len() as int);
        }
        assert(y =~= z);
    }

    proof fn lemma_score_scale_is_unique(&self, head_dim: usize, r: T, s: T)
        requires
            self.single_valued(),
            self.score_scale(head_dim, r),
            self.score_scale(head_dim, s),
        ensures
            r == s,
    {
    }

    proof fn lemma_scores_are_unique(
        &self,
        query: Seq<T>,
        cache: CacheView<T>,
        start: int,
        scale: T,
        x: Seq<T>,
        y: Seq<T>,
    )
        requires
            self.single_valued(),
            self.head_scores(query, cache, start, scale, x),
            self.head_scores(query, cache, start, scale, y),
        ensures
            x == y,
    {
        assert forall|j: int| 0 <= j < cache.len implies x[j] == y[j] by {
            let key = part_of(cache.keys, cache.dim, j, start, query.len() as int);
            assert(self.scaled_dot(query, key, scale, x[j]));
            assert(self.scaled_dot(query, key, scale, y[j]));
            let d = choose|d: T| #[trigger]
                self.dots_to(query, key, d) && self.gives(Op::Times(d, scale), x[j]);
            let e = choose|d: T| #[trigger]
                self.dots_to(query, key, d) && self.gives(Op::Times(d, scale), y[j]);
            self.lemma_dot_is_unique(query, key, d, e);
        }
        assert(x =~= y);
    }

    pub(crate) proof fn lemma_head_is_unique(
        &self,
        query: Seq<T>,
        cache: CacheView<T>,
        start: int,
        x: Seq<T>,
        y: Seq<T>,
    )
        requires
            self.single_valued(),
            self.head_attends(query, cache, start, x),
            self.head_attends(query, cache, start, y),
        ensures
            x == y,
    {
        let (scale, scores, probs) = choose|scale: T, scores: Seq<T>, probs: Seq<T>|
            {
                &&& self.score_scale(query.len() as usize, scale)
                &&& #[trigger] self.head_scores(query, cache, start, scale, scores)
                &&& #[trigger] self.softmaxed(scores, probs)
                &&& forall|d: int|
                    0 <= d < x.len() ==> self.dots_to(
                        probs,
                        value_column(cache, start + d),
                        #[trigger] x[d],
                    )
            };
        let (scale2, scores2, probs2) = choose|scale: T, scores: Seq<T>, probs: Seq<T>|
            {
                &&& self.score_scale(query.len() as usize, scale)
                &&& #[trigger] self.head_scores(query, cache, start, scale, scores)
                &&& #[trigger] self.softmaxed(scores, probs)
                &&& forall|d: int|
                    0 <= d < y.len() ==> self.dots_to(
                        probs,
                        value_column(cache, start + d),
                        #[trigger] y[d],
                    )
            };
        self.lemma_score_scale_is_unique(query.len() as usize, scale, scale2);
        self.lemma_scores_are_unique(query, cache, start, scale, scores, scores2);
        self.lemma_softmax_is_unique(scores, probs, probs2);
        assert forall|d: int| 0 <= d < query.len() implies x[d] == y[d] by {
            assert(self.dots_to(probs, value_column(cache, start + d), x[d]));
            assert(self.dots_to(probs, value_column(cache, start + d), y[d]));
            self.lemma_dot_is_unique(probs, value_column(cache, start + d), x[d], y[d]);
        }
        assert(x =~= y);
    }

    proof fn lemma_embedded_pair_is_unique(
        &self,
        table: RopeView<T>,
        x: Seq<T>,
        start: int,
        position: usize,
        i: int,
        y: Seq<T>,
        z: Seq<T>,
    )
        requires
            self.single_valued(),
            self.pair_embedded(table, x, start, position, i, y),
            self.pair_embedded(table, x, start, position, i, z),
        ensures
            y[start + 2 * i] == z[start + 2 * i],
            y[start + 2 * i + 1] == z[start + 2 * i + 1],
    {
        if position < table.max_pos {
            let k = position * table.half_dim + i;
            lemma_turned_pair_is_unique(
                *self,
                x,
                start + 2 * i,
                table.cos[k],
                table.sin[k],
                y,
                z,
            );
        } else {
            let (base, dim) = (table.base, table.dim as int);
            let (c, s) = choose|c: T, s: T| #[trigger]
                self.angle_at(base, position, i, dim, c, s) && self.turned_at(
                    x,
                    start + 2 * i,
                    c,
                    s,
                    y,
                );
            let (c2, s2) = choose|c: T, s: T| #[trigger]
                self.angle_at(base, position, i, dim, c, s) && self.turned_at(
                    x,
                    start + 2 * i,
                    c,
                    s,
                    z,
                );
            lemma_angle_is_unique(*self, base, position, i, dim, c, s, c2, s2);
            lemma_turned_pair_is_unique(*self, x, start + 2 * i, c, s, y, z);
        }
    }

    proof fn lemma_embedded_heads_are_unique(
        &self,
        table: RopeView<T>,
        x: Seq<T>,
        heads: int,
        position: usize,
        y: Seq<T>,
        z: Seq<T>,
    )
        requires
            self.single_valued(),
            self.heads_embedded(table, x, heads, position, y),
            self.heads_embedded(table, x, heads, position, z),
            x.len() == heads * (2 * table.half_dim),
        ensures
            y == z,
    {
        let dim = 2 * table.half_dim as int;
        assert forall|j: int| 0 <= j < x.len() implies y[j] == z[j] by {
            if dim == 0 {
                assert(heads * 0 == 0);
            } else {
                let (h, r) = (j / dim, j % dim);
                lemma_head_of_place(j, heads, dim);
                let i = r / 2;
                assert(self.pair_embedded(table, x, h * dim, position, i, y));
                assert(self.pair_embedded(table, x, h * dim, position, i, z));
                self.lemma_embedded_pair_is_unique(table, x, h * dim, position, i, y, z);
            }
        }
        assert(y =~= z);
    }
}

proof fn lemma_head_of_place(j: int, heads: int, dim: int)
    requires
        0 < dim,
        0 <= j < heads * dim,
    ensures
        0 <= j / dim < heads,
        0 <= j % dim < dim,
        j == (j / dim) * dim + j % dim,
{
    vstd::arithmetic::div_mod::lemma_fundamental_div_mod(j, dim);
    vstd::arithmetic::div_mod::lemma_mod_bound(j, dim);
    vstd::arithmetic::div_mod::lemma_div_pos_is_pos(j, dim);
    let q = j / dim;
    assert(dim * q == q * dim) by (nonlinear_arith);
    assert(q < heads) by (nonlinear_arith)
        requires
            q * dim < heads * dim,
            0 < dim,
    ;
}

/// The GPU, where there is one, gives the same for the same matrix and vector.
pub open spec fn repeats<T, H: Fn(&QuantizedMatrix, &Vec<T>) -> Option<Vec<T>>>(
    project: Projector<H>,
) -> bool {
    project.gpu is Some ==> forall|
        m: QuantizedMatrix,
        x: Seq<T>,
        g: Option<Vec<T>>,
        h: Option<Vec<T>>,
    | #[trigger]
        gpu_gives(project, m, x, g) && #[trigger] gpu_gives(project, m, x, h) ==> (g is Some) == (
        h is Some) && (g is Some ==> g->Some_0@ == h->Some_0@)
}

pub(crate) proof fn lemma_projection_is_unique<
    T: Copy,
    F: Fn(Op<T>) -> T,
    H: Fn(&QuantizedMatrix, &Vec<T>) -> Option<Vec<T>>,
>(
    n: Numbers<T, F>,
    project: Projector<H>,
    m: QuantizedMatrix,
    x: Seq<T>,
    y: Seq<T>,
    z: Seq<T>,
)
    requires
        n.single_valued(),
        repeats::<T, H>(project),
        projects(n, project, m, x, y),
        projects(n, project, m, x, z),
    ensures
        y == z,
        y.len() == m.rows,
{
    if project.gpu is Some && m.dtype != GgufDataType::Q6_K {
        let g = choose|g: Option<Vec<T>>| #[trigger]
            gpu_gives(project, m, x, g) && (if g is Some && g->Some_0@.len() == m.rows {
                y == g->Some_0@
            } else {
                n.matrix_product(m, x, y)
            });
        let h = choose|g: Option<Vec<T>>| #[trigger]
            gpu_gives(project, m, x, g) && (if g is Some && g->Some_0@.len() == m.rows {
                z == g->Some_0@
            } else {
                n.matrix_product(m, x, z)
            });
        assert((g is Some) == (h is Some));
        if !(g is Some && g->Some_0@.len() == m.rows) {
            n.lemma_matrix_product_is_unique(m, x, y, z);
        }
    } else {
        n.lemma_matrix_product_is_unique(m, x, y, z);
    }
}

pub(crate) proof fn lemma_biased_is_unique<
    T: Copy,
    F: Fn(Op<T>) -> T,
    H: Fn(&QuantizedMatrix, &Vec<T>) -> Option<Vec<T>>,
>(
    n: Numbers<T, F>,
    project: Projector<H>,
    m: QuantizedMatrix,
    bias: Option<Seq<T>>,
    x: Seq<T>,
    y: Seq<T>,
    z: Seq<T>,
)
    requires
        n.single_valued(),
        repeats::<T, H>(project),
        Attention::<T>::biased(n, project, m, bias, x, y),
        Attention::<T>::biased(n, project, m, bias, x, z),
    ensures
        y == z,
        y.len() == m.rows,
{
    let p = choose|p: Seq<T>| #[trigger]
        projects(n, project, m, x, p) && match bias {
            Some(b) => n.added(p, b, y),
            None => y == p,
        };
    let q = choose|p: Seq<T>| #[trigger]
        projects(n, project, m, x, p) && match bias {
            Some(b) => n.added(p, b, z),
            None => z == p,
        };
    lemma_projection_is_unique(n, project, m, x, p, q);
    if let Some(b) = bias {
        n.lemma_sums_are_unique(p, b, y, z);
    }
}

pub(crate) proof fn lemma_rotated_is_unique<
    T: Copy,
    F: Fn(Op<T>) -> T,
    H: Fn(&QuantizedMatrix, &Vec<T>) -> Option<Vec<T>>,
>(
    n: Numbers<T, F>,
    project: Projector<H>,
    m: QuantizedMatrix,
    bias: Option<Seq<T>>,
    x: Seq<T>,
    table: RopeView<T>,
    heads: int,
    position: usize,
    y: Seq<T>,
    z: Seq<T>,
)
    requires
        n.single_valued(),
        repeats::<T, H>(project),
        m.rows == heads * (2 * table.half_dim),
        Attention::<T>::rotated(n, project, m, bias, x, table, heads, position, y),
        Attention::<T>::rotated(n, project, m, bias, x, table, heads, position, z),
    ensures
        y == z,
{
    let b = choose|b: Seq<T>| #[trigger]
        Attention::<T>::biased(n, project, m, bias, x, b) && n.heads_embedded(
            table,
            b,
            heads,
            position,
            y,
        );
    let c = choose|b: Seq<T>| #[trigger]
        Attention::<T>::biased(n, project, m, bias, x, b) && n.heads_embedded(
            table,
            b,
            heads,
            position,
            z,
        );
    lemma_biased_is_unique(n, project, m, bias, x, b, c);
    n.lemma_embedded_heads_are_unique(table, b, heads, position, y, z);
}

proof fn lemma_heads_are_unique<T: Copy, F: Fn(Op<T>) -> T>(
    a: Attention<T>,
    n: Numbers<T, F>,
    q: Seq<T>,
    cache: CacheView<T>,
    x: Seq<T>,
    y: Seq<T>,
)
    requires
        n.single_valued(),
        a.heads_attend(n, q, cache, x),
        a.heads_attend(n, q, cache, y),
    ensures
        x == y,
{
    let dim = a.head_dim as int;
    assert forall|j: int| 0 <= j < x.len() implies x[j] == y[j] by {
        if dim == 0 {
            assert(a.n_heads * 0 == 0);
        } else {
            lemma_head_of_place(j, a.n_heads as int, dim);
            let (h, r) = (j / dim, j % dim);
            assert(h * dim + dim <= a.n_heads * dim) by (nonlinear_arith)
                requires
                    h + 1 <= a.n_heads,
                    0 < dim,
            ;
            assert(0 <= h * dim) by (nonlinear_arith)
                requires
                    0 <= h,
                    0 < dim,
            ;
            let start = kv_head_of(h, a.n_rep as int) * a.head_dim;
            n.lemma_head_is_unique(
                head_of(q, h, dim),
                cache,
                start,
                head_of(x, h, dim),
                head_of(y, h, dim),
            );
            assert(head_of(x, h, dim)[r] == x[j]);
            assert(head_of(y, h, dim)[r] == y[j]);
        }
    }
    assert(x =~= y);
}

proof fn lemma_attention_is_unique<
    T: Copy,
    F: Fn(Op<T>) -> T,
    H: Fn(&QuantizedMatrix, &Vec<T>) -> Option<Vec<T>>,
>(
    a: Attention<T>,
    n: Numbers<T, F>,
    project: Projector<H>,
    table: RopeView<T>,
    x: Seq<T>,
    position: usize,
    before: CacheView<T>,
    after: CacheView<T>,
    out: Seq<T>,
    after2: CacheView<T>,
    out2: Seq<T>,
    embed_dim: nat,
)
    requires
        n.single_valued(),
        repeats::<T, H>(project),
        a.wf(embed_dim),
        2 * table.half_dim == a.head_dim,
        a.attends(n, project, table, x, position, before, after, out),
        a.attends(n, project, table, x, position, before, after2, out2),
    ensures
        after == after2,
        out == out2,
{
    let (hq, hk) = (a.n_heads as int, a.n_kv_heads as int);
    let (bq, bk, bv) = (bias_view(a.bq), bias_view(a.bk), bias_view(a.bv));
    let (q, k, v, heads) = choose|q: Seq<T>, k: Seq<T>, v: Seq<T>, heads: Seq<T>|
        {
            &&& #[trigger] Attention::<T>::rotated(n, project, a.wq, bq, x, table, hq, position, q)
            &&& #[trigger] Attention::<T>::rotated(n, project, a.wk, bk, x, table, hk, position, k)
            &&& #[trigger] Attention::<T>::biased(n, project, a.wv, bv, x, v)
            &&& after == with_token(before, k, v)
            &&& #[trigger] a.heads_attend(n, q, after, heads)
            &&& projects(n, project, a.wo, heads, out)
        };
    let (q2, k2, v2, heads2) = choose|q: Seq<T>, k: Seq<T>, v: Seq<T>, heads: Seq<T>|
        {
            &&& #[trigger] Attention::<T>::rotated(n, project, a.wq, bq, x, table, hq, position, q)
            &&& #[trigger] Attention::<T>::rotated(n, project, a.wk, bk, x, table, hk, position, k)
            &&& #[trigger] Attention::<T>::biased(n, project, a.wv, bv, x, v)
            &&& after2 == with_token(before, k, v)
            &&& #[trigger] a.heads_attend(n, q, after2, heads)
            &&& projects(n, project, a.wo, heads, out2)
        };
    lemma_rotated_is_unique(n, project, a.wq, bq, x, table, hq, position, q, q2);
    lemma_rotated_is_unique(n, project, a.wk, bk, x, table, hk, position, k, k2);
    lemma_biased_is_unique(n, project, a.wv, bv, x, v, v2);
    lemma_heads_are_unique(a, n, q, after, heads, heads2);
    lemma_projection_is_unique(n, project, a.wo, heads, out, out2);
}

proof fn lemma_feeding_is_unique<
    T: Copy,
    F: Fn(Op<T>) -> T,
    H: Fn(&QuantizedMatrix, &Vec<T>) -> Option<Vec<T>>,
>(mlp: Mlp, n: Numbers<T, F>, project: Projector<H>, x: Seq<T>, y: Seq<T>, z: Seq<T>)
    requires
        n.single_valued(),
        repeats::<T, H>(project),
        mlp.feeds(n, project, x, y),
        mlp.feeds(n, project, x, z),
    ensures
        y == z,
{
    let (g, a, u, h) = choose|g: Seq<T>, a: Seq<T>, u: Seq<T>, h: Seq<T>|
        {
            &&& #[trigger] projects(n, project, mlp.gate_proj, x, g)
            &&& #[trigger] n.silu_each(g, a)
            &&& #[trigger] projects(n, project, mlp.up_proj, x, u)
            &&& #[trigger] n.multiplied(a, u, h)
            &&& projects(n, project, mlp.down_proj, h, y)
        };
    let (g2, a2, u2, h2) = choose|g: Seq<T>, a: Seq<T>, u: Seq<T>, h: Seq<T>|
        {
            &&& #[trigger] projects(n, project, mlp.gate_proj, x, g)
            &&& #[trigger] n.silu_each(g, a)
            &&& #[trigger] projects(n, project, mlp.up_proj, x, u)
            &&& #[trigger] n.multiplied(a, u, h)
            &&& projects(n, project, mlp.down_proj, h, z)
        };
    lemma_projection_is_unique(n, project, mlp.gate_proj, x, g, g2);
    n.lemma_silu_is_unique(g, a, a2);
    lemma_projection_is_unique(n, project, mlp.up_proj, x, u, u2);
    n.lemma_products_are_unique(a, u, h, h2);
    lemma_projection_is_unique(n, project, mlp.down_proj, h, y, z);
}

proof fn lemma_layer_is_unique<
    T: Copy,
    F: Fn(Op<T>) -> T,
    H: Fn(&QuantizedMatrix, &Vec<T>) -> Option<Vec<T>>,
>(
    layer: TransformerLayer<T>,
    n: Numbers<T, F>,
    project: Projector<H>,
    table: RopeView<T>,
    x: Seq<T>,
    position: usize,
    before: CacheView<T>,
    after: CacheView<T>,
    out: Seq<T>,
    after2: CacheView<T>,
    out2: Seq<T>,
    embed_dim: nat,
)
    requires
        n.single_valued(),
        repeats::<T, H>(project),
        layer.attention.wf(embed_dim),
        2 * table.half_dim == layer.attention.head_dim,
        layer.steps(n, project, table, x, position, before, after, out),
        layer.steps(n, project, table, x, position, before, after2, out2),
    ensures
        after == after2,
        out == out2,
{
    let (w, eps) = (layer.attention_norm.weight@, layer.attention_norm.eps);
    let (fw, feps) = (layer.ffn_norm.weight@, layer.ffn_norm.eps);
    let att = layer.attention;
    let (a, b, c, d, e) = choose|a: Seq<T>, b: Seq<T>, c: Seq<T>, d: Seq<T>, e: Seq<T>|
        {
            &&& #[trigger] n.rms_normed(x, w, eps, a)
            &&& #[trigger] att.attends(n, project, table, a, position, before, after, b)
            &&& #[trigger] n.added(x, b, c)
            &&& #[trigger] n.rms_normed(c, fw, feps, d)
            &&& #[trigger] layer.mlp.feeds(n, project, d, e)
            &&& n.added(c, e, out)
        };
    let (a2, b2, c2, d2, e2) = choose|a: Seq<T>, b: Seq<T>, c: Seq<T>, d: Seq<T>, e: Seq<T>|
        {
            &&& #[trigger] n.rms_normed(x, w, eps, a)
            &&& #[trigger] att.attends(n, project, table, a, position, before, after2, b)
            &&& #[trigger] n.added(x, b, c)
            &&& #[trigger] n.rms_normed(c, fw, feps, d)
            &&& #[trigger] layer.mlp.feeds(n, project, d, e)
            &&& n.added(c, e, out2)
        };
    n.lemma_norm_is_unique(x, w, eps, a, a2);
    lemma_attention_is_unique(
        att,
        n,
        project,
        table,
        a,
        position,
        before,
        after,
        b,
        after2,
        b2,
        embed_dim,
    );
    n.lemma_sums_are_unique(x, b, c, c2);
    n.lemma_norm_is_unique(c, fw, feps, d, d2);
    lemma_feeding_is_unique(layer.mlp, n, project, d, e, e2);
    n.lemma_sums_are_unique(c, e, out, out2);
}

/// The layers fit the vectors and the table that they work on.
spec fn parts_fit<T: Copy>(t: Transformer<T>, table: RopeView<T>) -> bool {
    forall|i: int|
        0 <= i < t.layers@.len() ==> (#[trigger] t.layers@[i]).attention.wf(t.embed_dim as nat) && 2
            * table.half_dim == t.layers@[i].attention.head_dim
}

proof fn lemma_passing_is_unique<
    T: Copy,
    F: Fn(Op<T>) -> T,
    H: Fn(&QuantizedMatrix, &Vec<T>) -> Option<Vec<T>>,
>(
    t: Transformer<T>,
    n: Numbers<T, F>,
    project: Projector<H>,
    table: RopeView<T>,
    position: usize,
    before: Seq<CacheView<T>>,
    after: Seq<CacheView<T>>,
    h: Seq<Seq<T>>,
    after2: Seq<CacheView<T>>,
    h2: Seq<Seq<T>>,
    k: int,
)
    requires
        n.single_valued(),
        repeats::<T, H>(project),
        parts_fit(t, table),
        before.len() == t.layers@.len(),
        t.passes(n, project, table, position, before, after, h),
        t.passes(n, project, table, position, before, after2, h2),
        h.len() == h2.len() == t.layers@.len() + 1,
        h[0] == h2[0],
        0 <= k <= t.layers@.len(),
    ensures
        h[k] == h2[k],
        forall|i: int| 0 <= i < k ==> #[trigger] after[i] == after2[i],
    decreases k,
{
    if k > 0 {
        lemma_passing_is_unique(
            t,
            n,
            project,
            table,
            position,
            before,
            after,
            h,
            after2,
            h2,
            k - 1,
        );
        let layer = t.layers@[k - 1];
        lemma_layer_is_unique(
            layer,
            n,
            project,
            table,
            h[k - 1],
            position,
            before[k - 1],
            after[k - 1],
            h[k],
            after2[k - 1],
            h2[k],
            t.embed_dim as nat,
        );
    }
}

proof fn lemma_prediction_is_unique<
    T: Copy,
    F: Fn(Op<T>) -> T,
    H: Fn(&QuantizedMatrix, &Vec<T>) -> Option<Vec<T>>,
>(
    t: Transformer<T>,
    n: Numbers<T, F>,
    project: Projector<H>,
    table: RopeView<T>,
    token: int,
    position: usize,
    before: Seq<CacheView<T>>,
    after: Seq<CacheView<T>>,
    logits: Seq<T>,
    after2: Seq<CacheView<T>>,
    logits2: Seq<T>,
)
    requires
        n.single_valued(),
        repeats::<T, H>(project),
        parts_fit(t, table),
        before.len() == t.layers@.len(),
        t.predicts(n, project, table, token, position, before, after, logits),
        t.predicts(n, project, table, token, position, before, after2, logits2),
    ensures
        after == after2,
        logits == logits2,
        logits.len() == t.lm_head.rows,
{
    let (w, eps) = (t.final_norm.weight@, t.final_norm.eps);
    let (h, y) = choose|h: Seq<Seq<T>>, y: Seq<T>|
        {
            &&& after.len() == before.len()
            &&& h.len() == t.layers@.len() + 1
            &&& t.embeds(n, token, h[0])
            &&& #[trigger] t.passes(n, project, table, position, before, after, h)
            &&& #[trigger] n.rms_normed(h.last(), w, eps, y)
            &&& projects(n, project, t.lm_head, y, logits)
        };
    let (h2, y2) = choose|h: Seq<Seq<T>>, y: Seq<T>|
        {
            &&& after2.len() == before.len()
            &&& h.len() == t.layers@.len() + 1
            &&& t.embeds(n, token, h[0])
            &&& #[trigger] t.passes(n, project, table, position, before, after2, h)
            &&& #[trigger] n.rms_normed(h.last(), w, eps, y)
            &&& projects(n, project, t.lm_head, y, logits2)
        };
    law_weights_have_one_value(n);
    assert forall|d: int| 0 <= d < t.embed_dim implies h[0][d] == h2[0][d] by {
        let cell = t.token_embd.cell(t.token_embd.first_block(token), token, d);
        assert(n.weighs(cell, h[0][d]));
        assert(n.weighs(cell, h2[0][d]));
    }
    assert(h[0] =~= h2[0]);
    let k = t.layers@.len() as int;
    lemma_passing_is_unique(t, n, project, table, position, before, after, h, after2, h2, k);
    assert(after =~= after2);
    n.lemma_norm_is_unique(h.last(), w, eps, y, y2);
    lemma_projection_is_unique(n, project, t.lm_head, y, logits, logits2);
}

/// A number has one pattern only.
pub open spec fn single_pattern<T, C: Fn(T) -> u32>(bits: C) -> bool {
    forall|x: T, a: u32, b: u32| #[trigger]
        call_ensures(bits, (x,), a) && #[trigger] call_ensures(bits, (x,), b) ==> a == b
}

proof fn lemma_run_is_unique<
    T: Copy,
    F: Fn(Op<T>) -> T,
    H: Fn(&QuantizedMatrix, &Vec<T>) -> Option<Vec<T>>,
>(
    model: Model<T>,
    n: Numbers<T, F>,
    project: Projector<H>,
    tokens: Seq<usize>,
    caches: Seq<Seq<CacheView<T>>>,
    logits: Seq<Seq<T>>,
    caches2: Seq<Seq<CacheView<T>>>,
    logits2: Seq<Seq<T>>,
    k: int,
)
    requires
        n.single_valued(),
        repeats::<T, H>(project),
        parts_fit(model.transformer, model.rope@),
        model.runs(n, project, tokens, caches, logits),
        model.runs(n, project, tokens, caches2, logits2),
        caches[0] == caches2[0],
        logits[0] == logits2[0],
        caches[0].len() == model.transformer.layers@.len(),
        logits[0].len() <= usize::MAX,
        0 <= k < logits.len(),
        k < logits2.len(),
    ensures
        caches[k] == caches2[k],
        logits[k] == logits2[k],
        caches[k].len() == model.transformer.layers@.len(),
        logits[k].len() <= usize::MAX,
    decreases k,
{
    if k > 0 {
        lemma_run_is_unique(
            model,
            n,
            project,
            tokens,
            caches,
            logits,
            caches2,
            logits2,
            k - 1,
        );
        let i = k - 1;
        assert(logits[i + 1] == logits[k] && logits2[i + 1] == logits2[k]);
        lemma_prediction_is_unique(
            model.transformer,
            n,
            project,
            model.rope@,
            tokens[i] as int,
            i as usize,
            caches[i],
            caches[k],
            logits[k],
            caches2[k],
            logits2[k],
        );
    }
}

proof fn lemma_prefill_is_unique<
    T: Copy,
    F: Fn(Op<T>) -> T,
    H: Fn(&QuantizedMatrix, &Vec<T>) -> Option<Vec<T>>,
>(
    model: Model<T>,
    n: Numbers<T, F>,
    project: Projector<H>,
    tokens: Seq<usize>,
    before: Seq<CacheView<T>>,
    after: Seq<CacheView<T>>,
    out: Seq<T>,
    after2: Seq<CacheView<T>>,
    out2: Seq<T>,
)
    requires
        n.single_valued(),
        repeats::<T, H>(project),
        parts_fit(model.transformer, model.rope@),
        before.len() == model.transformer.layers@.len(),
        model.prefills(n, project, tokens, before, after, out),
        model.prefills(n, project, tokens, before, after2, out2),
    ensures
        after == after2,
        out == out2,
        after.len() == model.transformer.layers@.len(),
        out.len() <= usize::MAX,
{
    let zeros = Seq::new(model.config.vocab_size as nat, |i: int| n.zero);
    let (caches, logits) = choose|caches: Seq<Seq<CacheView<T>>>, logits: Seq<Seq<T>>|
        {
            &&& #[trigger] model.runs(n, project, tokens, caches, logits)
            &&& logits.len() == tokens.len() + 1
            &&& caches[0] == before
            &&& logits[0] == Seq::new(model.config.vocab_size as nat, |i: int| n.zero)
            &&& caches.last() == after
            &&& logits.last() == out
        };
    let (caches2, logits2) = choose|caches: Seq<Seq<CacheView<T>>>, logits: Seq<Seq<T>>|
        {
            &&& #[trigger] model.runs(n, project, tokens, caches, logits)
            &&& logits.len() == tokens.len() + 1
            &&& caches[0] == before
            &&& logits[0] == Seq::new(model.config.vocab_size as nat, |i: int| n.zero)
            &&& caches.last() == after2
            &&& logits.last() == out2
        };
    assert(logits[0] =~= zeros && logits2[0] =~= zeros);
    lemma_run_is_unique(
        model,
        n,
        project,
        tokens,
        caches,
        logits,
        caches2,
        logits2,
        tokens.len() as int,
    );
}

proof fn lemma_continuing_is_unique<T: Copy, B: Fn(Op<u32>) -> u32, C: Fn(T) -> u32>(
    model: Model<T>,
    ops: Numbers<u32, B>,
    bits: C,
    logits: Seq<T>,
    sampler: SamplerView,
    generation: GenerationView,
    sampler2: SamplerView,
    generation2: GenerationView,
    token2: usize,
    sampler3: SamplerView,
    generation3: GenerationView,
    token3: usize,
)
    requires
        ops.single_valued(),
        single_pattern::<T, C>(bits),
        logits.len() <= usize::MAX,
        model.continues(
            ops,
            bits,
            logits,
            sampler,
            sampler2,
            generation,
            generation2,
            token2,
        ),
        model.continues(
            ops,
            bits,
            logits,
            sampler,
            sampler3,
            generation,
            generation3,
            token3,
        ),
    ensures
        sampler2 == sampler3,
        generation2 == generation3,
{
    let recent = recent_tokens(generation.tokens);
    let (before2, after2) = choose|before: Seq<u32>, after: Seq<u32>|
        {
            &&& #[trigger] patterns(bits, logits, before)
            &&& #[trigger] samples(ops, sampler, before, recent, sampler2, after, token2 as int)
        };
    let (before3, after3) = choose|before: Seq<u32>, after: Seq<u32>|
        {
            &&& #[trigger] patterns(bits, logits, before)
            &&& #[trigger] samples(ops, sampler, before, recent, sampler3, after, token3 as int)
        };
    assert forall|i: int| 0 <= i < logits.len() implies before2[i] == before3[i] by {
        assert(call_ensures(bits, (logits[i],), before2[i]));
        assert(call_ensures(bits, (logits[i],), before3[i]));
    }
    assert(before2 =~= before3);
    law_sampling_is_reproducible(
        ops,
        sampler,
        before2,
        recent,
        sampler2,
        after2,
        token2 as int,
        sampler3,
        after3,
        token3 as int,
    );
}

proof fn lemma_sampled_next_is_unique<T: Copy, B: Fn(Op<u32>) -> u32, C: Fn(T) -> u32>(
    model: Model<T>,
    ops: Numbers<u32, B>,
    bits: C,
    a: RunView<T>,
    b: RunView<T>,
    c: RunView<T>,
)
    requires
        ops.single_valued(),
        single_pattern::<T, C>(bits),
        a.logits.len() <= usize::MAX,
        model.samples_next(ops, bits, a, b.sampler, b.generation),
        model.samples_next(ops, bits, a, c.sampler, c.generation),
    ensures
        b.sampler == c.sampler,
        b.generation == c.generation,
{
    let s = choose|token: usize| #[trigger]
        model.continues(
            ops,
            bits,
            a.logits,
            a.sampler,
            b.sampler,
            a.generation,
            b.generation,
            token,
        );
    let t = choose|token: usize| #[trigger]
        model.continues(
            ops,
            bits,
            a.logits,
            a.sampler,
            c.sampler,
            a.generation,
            c.generation,
            token,
        );
    lemma_continuing_is_unique(
        model,
        ops,
        bits,
        a.logits,
        a.sampler,
        a.generation,
        b.sampler,
        b.generation,
        s,
        c.sampler,
        c.generation,
        t,
    );
}

proof fn lemma_round_is_unique<
    T: Copy,
    F: Fn(Op<T>) -> T,
    H: Fn(&QuantizedMatrix, &Vec<T>) -> Option<Vec<T>>,
    B: Fn(Op<u32>) -> u32,
    C: Fn(T) -> u32,
>(
    model: Model<T>,
    n: Numbers<T, F>,
    project: Projector<H>,
    ops: Numbers<u32, B>,
    bits: C,
    a: RunView<T>,
    b: RunView<T>,
    c: RunView<T>,
)
    requires
        n.single_valued(),
        repeats::<T, H>(project),
        ops.single_valued(),
        single_pattern::<T, C>(bits),
        parts_fit(model.transformer, model.rope@),
        a.caches.len() == model.transformer.layers@.len(),
        a.logits.len() <= usize::MAX,
        model.goes_on(n, project, ops, bits, a, b),
        model.goes_on(n, project, ops, bits, a, c),
    ensures
        b == c,
        b.caches.len() == model.transformer.layers@.len(),
        b.logits.len() <= usize::MAX,
{
    lemma_sampled_next_is_unique(model, ops, bits, a, b, c);
    if !b.generation.ended {
        lemma_prediction_is_unique(
            model.transformer,
            n,
            project,
            model.rope@,
            b.generation.tokens.last() as int,
            (b.generation.tokens.len() - 1) as usize,
            a.caches,
            b.caches,
            b.logits,
            c.caches,
            c.logits,
        );
    }
}

proof fn lemma_states_agree<
    T: Copy,
    F: Fn(Op<T>) -> T,
    H: Fn(&QuantizedMatrix, &Vec<T>) -> Option<Vec<T>>,
    B: Fn(Op<u32>) -> u32,
    C: Fn(T) -> u32,
>(
    model: Model<T>,
    n: Numbers<T, F>,
    project: Projector<H>,
    ops: Numbers<u32, B>,
    bits: C,
    a: Seq<RunView<T>>,
    b: Seq<RunView<T>>,
    k: int,
)
    requires
        n.single_valued(),
        repeats::<T, H>(project),
        ops.single_valued(),
        single_pattern::<T, C>(bits),
        parts_fit(model.transformer, model.rope@),
        model.proceeds(n, project, ops, bits, a),
        model.proceeds(n, project, ops, bits, b),
        0 <= k < a.len(),
        k < b.len(),
        a[0] == b[0],
        a[0].caches.len() == model.transformer.layers@.len(),
        a[0].logits.len() <= usize::MAX,
    ensures
        a[k] == b[k],
        a[k].caches.len() == model.transformer.layers@.len(),
        a[k].logits.len() <= usize::MAX,
    decreases k,
{
    if k > 0 {
        lemma_states_agree(model, n, project, ops, bits, a, b, k - 1);
        let i = k - 1;
        assert(model.goes_on(n, project, ops, bits, a[i], a[i + 1]));
        assert(model.goes_on(n, project, ops, bits, b[i], b[i + 1]));
        lemma_round_is_unique(model, n, project, ops, bits, a[i], a[k], b[k]);
    }
}

proof fn lemma_last_state_is_unique<
    T: Copy,
    F: Fn(Op<T>) -> T,
    H: Fn(&QuantizedMatrix, &Vec<T>) -> Option<Vec<T>>,
    B: Fn(Op<u32>) -> u32,
    C: Fn(T) -> u32,
>(
    model: Model<T>,
    n: Numbers<T, F>,
    project: Projector<H>,
    ops: Numbers<u32, B>,
    bits: C,
    last: RunView<T>,
    next: RunView<T>,
    end: GenerationView,
    error: Option<RunError>,
)
    requires
        ops.single_valued(),
        single_pattern::<T, C>(bits),
        last.logits.len() <= usize::MAX,
        model.ends_with(ops, bits, last, end, error),
    ensures
        !model.goes_on(n, project, ops, bits, last, next),
{
    if model.goes_on(n, project, ops, bits, last, next) {
        if let Some(e) = error {
            let b = choose|b: RunView<T>| #[trigger]
                model.breaks_off(ops, bits, last, b, e) && b.generation == end;
            lemma_sampled_next_is_unique(model, ops, bits, last, b, next);
        }
    }
}

proof fn lemma_ending_is_unique<T: Copy, B: Fn(Op<u32>) -> u32, C: Fn(T) -> u32>(
    model: Model<T>,
    ops: Numbers<u32, B>,
    bits: C,
    last: RunView<T>,
    end: GenerationView,
    error: Option<RunError>,
    end2: GenerationView,
    error2: Option<RunError>,
)
    requires
        ops.single_valued(),
        single_pattern::<T, C>(bits),
        last.logits.len() <= usize::MAX,
        model.ends_with(ops, bits, last, end, error),
        model.ends_with(ops, bits, last, end2, error2),
    ensures
        end == end2,
        error == error2,
{
    if let Some(e) = error {
        let x = choose|x: RunView<T>| #[trigger]
            model.breaks_off(ops, bits, last, x, e) && x.generation == end;
        if let Some(f) = error2 {
            let y = choose|x: RunView<T>| #[trigger]
                model.breaks_off(ops, bits, last, x, f) && x.generation == end2;
            lemma_sampled_next_is_unique(model, ops, bits, last, x, y);
        }
    }
}

/// A generation can be repeated: from the same prompt, the same sampler with its seed and
/// the same caches, such as fresh ones, a model comes to the same end, with the same tokens
/// and the same text, and with the same error or none. The arithmetic, the patterns of
/// numbers and the GPU, where there is one, give the same for the same.
pub proof fn law_generations_are_reproducible<
    T: Copy,
    F: Fn(Op<T>) -> T,
    H: Fn(&QuantizedMatrix, &Vec<T>) -> Option<Vec<T>>,
    B: Fn(Op<u32>) -> u32,
    C: Fn(T) -> u32,
>(
    model: Model<T>,
    n: Numbers<T, F>,
    project: Projector<H>,
    ops: Numbers<u32, B>,
    bits: C,
    start: GenerationView,
    sampler: SamplerView,
    caches: Seq<CacheView<T>>,
    end: GenerationView,
    error: Option<RunError>,
    end2: GenerationView,
    error2: Option<RunError>,
)
    requires
        n.single_valued(),
        repeats::<T, H>(project),
        ops.single_valued(),
        single_pattern::<T, C>(bits),
        model.ready(caches),
        model.concludes(n, project, ops, bits, start, sampler, caches, end, error),
        model.concludes(n, project, ops, bits, start, sampler, caches, end2, error2),
    ensures
        end.tokens == end2.tokens,
        end.text == end2.text,
        end == end2,
        error == error2,
{
    assert forall|i: int| 0 <= i < model.transformer.layers@.len() implies (
    #[trigger] model.transformer.layers@[i]).attention.wf(model.transformer.embed_dim as nat) && 2
        * model.rope@.half_dim == model.transformer.layers@[i].attention.head_dim by {
        assert(model.transformer.layers@[i].fits(
            model.transformer.embed_dim as nat,
            model.rope@,
            caches[i],
        ));
    }
    assert(parts_fit(model.transformer, model.rope@));
    if model.prompt_fault(start.tokens, caches, start.tokens.len()) is None {
        let x = choose|states: Seq<RunView<T>>|
            {
                &&& #[trigger] model.proceeds_from(
                    n,
                    project,
                    ops,
                    bits,
                    start,
                    sampler,
                    caches,
                    states,
                )
                &&& model.ends_with(ops, bits, states.last(), end, error)
            };
        let y = choose|states: Seq<RunView<T>>|
            {
                &&& #[trigger] model.proceeds_from(
                    n,
                    project,
                    ops,
                    bits,
                    start,
                    sampler,
                    caches,
                    states,
                )
                &&& model.ends_with(ops, bits, states.last(), end2, error2)
            };
        lemma_prefill_is_unique(
            model,
            n,
            project,
            start.tokens,
            caches,
            x[0].caches,
            x[0].logits,
            y[0].caches,
            y[0].logits,
        );
        assert(x[0] =~= y[0]);
        let k = if x.len() < y.len() {
            x.len() - 1
        } else {
            y.len() - 1
        };
        lemma_states_agree(model, n, project, ops, bits, x, y, k);
        if x.len() < y.len() {
            lemma_last_state_is_unique(
                model,
                n,
                project,
                ops,
                bits,
                x[k],
                y[k + 1],
                end,
                error,
            );
            assert(model.goes_on(n, project, ops, bits, y[k], y[k + 1]));
        } else if y.len() < x.len() {
            lemma_last_state_is_unique(
                model,
                n,
                project,
                ops,
                bits,
                y[k],
                x[k + 1],
                end2,
                error2,
            );
            assert(model.goes_on(n, project, ops, bits, x[k], x[k + 1]));
        }
        lemma_ending_is_unique(model, ops, bits, x.last(), end, error, end2, error2);
    }
}

} // verus!
