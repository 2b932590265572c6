//! The layers in exact arithmetic: what a feed-forward network, an attention block and a
//! layer as a whole add to a vector.

use crate::arith::{Numbers, Op};
use crate::attention::{bias_view, with_token, Attention};
use crate::exact::{
    divides_by, law_norm_divides_by_the_root_mean_square, law_pairs_are_rotated,
    law_products_go_row_by_row, law_silu_is_a_gated_number, sum, turns, worth, Calculus,
};
use crate::kv_cache::CacheView;
use crate::mlp::Mlp;
use crate::projection::{projects, Projector};
use crate::quant::QuantizedMatrix;
use crate::rope::{law_pairs_turn_by_base_and_position, RopeView};
use crate::transformer::{Transformer, TransformerLayer};
use vstd::prelude::*;

verus! {

/// Row `row` of a matrix times a vector.
pub open spec fn row_times<T>(
    val: spec_fn(T) -> real,
    c: Calculus,
    m: QuantizedMatrix,
    row: int,
    x: Seq<T>,
) -> real {
    sum(|col: int| worth(c, m.cell(0, row, col)) * val(x[col]), m.cols as nat)
}

/// `y` is a matrix times `x`.
pub open spec fn is_product<T>(
    val: spec_fn(T) -> real,
    c: Calculus,
    m: QuantizedMatrix,
    x: Seq<T>,
    y: Seq<T>,
) -> bool {
    &&& y.len() == m.rows
    &&& forall|row: int| 0 <= row < m.rows ==> val(#[trigger] y[row]) == row_times(val, c, m, row, x)
}

proof fn lemma_projected<
    T: Copy,
    F: Fn(Op<T>) -> T,
    H: Fn(&QuantizedMatrix, &Vec<T>) -> Option<Vec<T>>,
>(
    n: Numbers<T, F>,
    project: Projector<H>,
    val: spec_fn(T) -> real,
    c: Calculus,
    m: QuantizedMatrix,
    x: Seq<T>,
    y: Seq<T>,
)
    requires
        n.exact(val, c),
        project.gpu is None,
        projects(n, project, m, x, y),
        x.len() == m.cols,
    ensures
        is_product(val, c, m, x, y),
{
    assert forall|row: int| 0 <= row < m.rows implies val(#[trigger] y[row]) == row_times(
        val,
        c,
        m,
        row,
        x,
    ) by {
        law_products_go_row_by_row(n, val, c, m, x, y, row);
    }
}

/// The feed-forward network: each hidden number is SiLU of one row of `gate_proj` times
/// the input, multiplied with that row of `up_proj` times the input, and the output is
/// `down_proj` times them all.
pub proof fn law_feed_forward_is_gated<
    T: Copy,
    F: Fn(Op<T>) -> T,
    H: Fn(&QuantizedMatrix, &Vec<T>) -> Option<Vec<T>>,
>(
    mlp: Mlp,
    n: Numbers<T, F>,
    project: Projector<H>,
    val: spec_fn(T) -> real,
    c: Calculus,
    x: Seq<T>,
    out: Seq<T>,
)
    requires
        n.exact(val, c),
        c.exponential(),
        project.gpu is None,
        mlp.feeds(n, project, x, out),
        mlp.wf(),
        x.len() == mlp.embed_dim,
    ensures
        exists|h: Seq<T>|
            {
                &&& #[trigger] is_product(val, c, mlp.down_proj, h, out)
                &&& h.len() == mlp.hidden_dim
                &&& forall|i: int|
                    0 <= i < h.len() ==> gated(
                        c,
                        row_times(val, c, mlp.gate_proj, i, x),
                        row_times(val, c, mlp.up_proj, i, x),
                        val(#[trigger] h[i]),
                    )
            },
{
    let (g, a, u, h) = choose|g: Seq<T>, a: Seq<T>, u: Seq<T>, h: Seq<T>|
        {
            &&& #[trigger] projects(n, project, mlp.gate_proj, x, g)
            &&& #[trigger] n.silu_each(g, a)
            &&& #[trigger] projects(n, project, mlp.up_proj, x, u)
            &&& #[trigger] n.multiplied(a, u, h)
            &&& projects(n, project, mlp.down_proj, h, out)
        };
    lemma_projected(n, project, val, c, mlp.gate_proj, x, g);
    lemma_projected(n, project, val, c, mlp.up_proj, x, u);
    lemma_projected(n, project, val, c, mlp.down_proj, h, out);
    assert forall|i: int| 0 <= i < h.len() implies gated(
        c,
        row_times(val, c, mlp.gate_proj, i, x),
        row_times(val, c, mlp.up_proj, i, x),
        val(#[trigger] h[i]),
    ) by {
        assert(n.silu_of(g[i], a[i]));
        law_silu_is_a_gated_number(n, val, c, g[i], a[i]);
        assert(n.gives(Op::Times(a[i], u[i]), h[i]));
        assert(val(g[i]) == row_times(val, c, mlp.gate_proj, i, x));
        assert(val(u[i]) == row_times(val, c, mlp.up_proj, i, x));
        assert(val(h[i]) == val(a[i]) * val(u[i]));
        assert(silu_is(c, val(g[i]), val(a[i])));
    }
}

/// `s` is SiLU of `x`: times one plus the exponential of `-x`, it is `x`.
pub open spec fn silu_is(c: Calculus, x: real, s: real) -> bool {
    s * (1real + (c.exp)(-x)) == x
}

/// `h` is SiLU of `g`, times `u`.
pub open spec fn gated(c: Calculus, g: real, u: real, h: real) -> bool {
    exists|s: real| #[trigger] silu_is(c, g, s) && h == s * u
}

/// `y` is a matrix times `x`, plus a bias where there is one.
pub open spec fn is_biased_product<T>(
    val: spec_fn(T) -> real,
    c: Calculus,
    m: QuantizedMatrix,
    bias: Option<Seq<T>>,
    x: Seq<T>,
    y: Seq<T>,
) -> bool {
    &&& y.len() == m.rows
    &&& forall|row: int|
        0 <= row < m.rows ==> val(#[trigger] y[row]) == row_times(val, c, m, row, x) + match bias {
            Some(b) => val(b[row]),
            None => 0real,
        }
}

proof fn lemma_biased<
    T: Copy,
    F: Fn(Op<T>) -> T,
    H: Fn(&QuantizedMatrix, &Vec<T>) -> Option<Vec<T>>,
>(
    n: Numbers<T, F>,
    project: Projector<H>,
    val: spec_fn(T) -> real,
    c: Calculus,
    m: QuantizedMatrix,
    bias: Option<Seq<T>>,
    x: Seq<T>,
    y: Seq<T>,
)
    requires
        n.exact(val, c),
        project.gpu is None,
        Attention::<T>::biased(n, project, m, bias, x, y),
        x.len() == m.cols,
    ensures
        is_biased_product(val, c, m, bias, x, y),
{
    let p = choose|p: Seq<T>| #[trigger]
        projects(n, project, m, x, p) && match bias {
            Some(b) => n.added(p, b, y),
            None => y == p,
        };
    lemma_projected(n, project, val, c, m, x, p);
    assert forall|row: int| 0 <= row < m.rows implies val(#[trigger] y[row]) == row_times(
        val,
        c,
        m,
        row,
        x,
    ) + match bias {
        Some(b) => val(b[row]),
        None => 0real,
    } by {
        assert(val(p[row]) == row_times(val, c, m, row, x));
        if let Some(b) = bias {
            assert(n.gives(Op::Plus(p[row], b[row]), y[row]));
        }
    }
}

/// The attention block: queries, keys and values are the input through their own matrices
/// and biases; queries and keys are turned by the position, values are not; the key and
/// the value are added to the cache before the heads read it; and the output is the
/// output matrix times what the heads put out.
pub proof fn law_attention_turns_queries_and_keys<
    T: Copy,
    F: Fn(Op<T>) -> T,
    H: Fn(&QuantizedMatrix, &Vec<T>) -> Option<Vec<T>>,
>(
    a: Attention<T>,
    n: Numbers<T, F>,
    project: Projector<H>,
    val: spec_fn(T) -> real,
    c: Calculus,
    table: RopeView<T>,
    x: Seq<T>,
    position: usize,
    before: CacheView<T>,
    after: CacheView<T>,
    out: Seq<T>,
    embed_dim: nat,
)
    requires
        n.exact(val, c),
        project.gpu is None,
        a.wf(embed_dim),
        x.len() == embed_dim,
        a.attends(n, project, table, x, position, before, after, out),
    ensures
        exists|q0: Seq<T>, q: Seq<T>, k0: Seq<T>, k: Seq<T>, v: Seq<T>, heads: Seq<T>|
            {
                &&& #[trigger] is_biased_product(val, c, a.wq, bias_view(a.bq), x, q0)
                &&& #[trigger] is_biased_product(val, c, a.wk, bias_view(a.bk), x, k0)
                &&& #[trigger] is_biased_product(val, c, a.wv, bias_view(a.bv), x, v)
                &&& #[trigger] n.heads_embedded(table, q0, a.n_heads as int, position, q)
                &&& #[trigger] n.heads_embedded(table, k0, a.n_kv_heads as int, position, k)
                &&& after == with_token(before, k, v)
                &&& #[trigger] a.heads_attend(n, q, after, heads)
                &&& is_product(val, c, a.wo, heads, out)
            },
{
    let (hq, hk) = (a.n_heads as int, a.n_kv_heads as int);
    let (bq, bk, bv) = (bias_view(a.bq), bias_view(a.bk), bias_view(a.bv));
    let (q, k, v, heads) = choose|q: Seq<T>, k: Seq<T>, v: Seq<T>, heads: Seq<T>|
        {
            &&& #[trigger] Attention::<T>::rotated(n, project, a.wq, bq, x, table, hq, position, q)
            &&& #[trigger] Attention::<T>::rotated(n, project, a.wk, bk, x, table, hk, position, k)
            &&& #[trigger] Attention::<T>::biased(n, project, a.wv, bv, x, v)
            &&& after == with_token(before, k, v)
            &&& #[trigger] a.heads_attend(n, q, after, heads)
            &&& projects(n, project, a.wo, heads, out)
        };
    let q0 = choose|b: Seq<T>| #[trigger]
        Attention::<T>::biased(n, project, a.wq, bq, x, b) && n.heads_embedded(
            table,
            b,
            hq,
            position,
            q,
        );
    let k0 = choose|b: Seq<T>| #[trigger]
        Attention::<T>::biased(n, project, a.wk, bk, x, b) && n.heads_embedded(
            table,
            b,
            hk,
            position,
            k,
        );
    lemma_biased(n, project, val, c, a.wq, bq, x, q0);
    lemma_biased(n, project, val, c, a.wk, bk, x, k0);
    lemma_biased(n, project, val, c, a.wv, bv, x, v);
    lemma_projected(n, project, val, c, a.wo, heads, out);
}

/// A token that is added to a cache stands behind the others, which stay as they are.
pub proof fn law_new_token_is_the_last_row<T>(
    cache: CacheView<T>,
    k: Seq<T>,
    v: Seq<T>,
    t: int,
    e: int,
)
    requires
        cache.wf(),
        cache.len < cache.max,
        k.len() == cache.dim,
        v.len() == cache.dim,
        0 <= t <= cache.len,
        0 <= e < cache.dim,
    ensures
        with_token(cache, k, v).len == cache.len + 1,
        with_token(cache, k, v).dim == cache.dim,
        with_token(cache, k, v).keys[t * cache.dim + e] == (if t < cache.len {
            cache.keys[t * cache.dim + e]
        } else {
            k[e]
        }),
        with_token(cache, k, v).values[t * cache.dim + e] == (if t < cache.len {
            cache.values[t * cache.dim + e]
        } else {
            v[e]
        }),
{
    let (len, dim, max) = (cache.len as int, cache.dim as int, cache.max as int);
    assert(0 <= t * dim && len * dim + dim <= max * dim) by (nonlinear_arith)
        requires
            0 <= t,
            len + 1 <= max,
            0 <= dim,
    ;
    if t < len {
        assert(t * dim + dim <= len * dim) by (nonlinear_arith)
            requires
                t + 1 <= len,
                0 <= dim,
        ;
    }
}

/// A layer adds to its input and takes nothing away: the output is the input, plus what
/// attention makes of the normalized input, plus what the feed-forward network makes of
/// the normalized sum of those two.
pub proof fn law_layer_adds_to_its_input<
    T: Copy,
    F: Fn(Op<T>) -> T,
    H: Fn(&QuantizedMatrix, &Vec<T>) -> Option<Vec<T>>,
>(
    layer: TransformerLayer<T>,
    n: Numbers<T, F>,
    project: Projector<H>,
    val: spec_fn(T) -> real,
    c: Calculus,
    table: RopeView<T>,
    x: Seq<T>,
    position: usize,
    before: CacheView<T>,
    after: CacheView<T>,
    out: Seq<T>,
)
    requires
        n.exact(val, c),
        layer.steps(n, project, table, x, position, before, after, out),
        0 < x.len() <= usize::MAX,
        val(layer.attention_norm.eps) > 0real,
        val(layer.ffn_norm.eps) > 0real,
    ensures
        out.len() == x.len(),
        exists|a: Seq<T>, b: Seq<T>, s: Seq<T>, d: Seq<T>, e: Seq<T>, r1: real, r2: real|
            {
                &&& #[trigger] divides_by(
                    val,
                    x,
                    layer.attention_norm.weight@,
                    layer.attention_norm.eps,
                    a,
                    r1,
                )
                &&& #[trigger] layer.attention.attends(
                    n,
                    project,
                    table,
                    a,
                    position,
                    before,
                    after,
                    b,
                )
                &&& s.len() == x.len()
                &&& forall|i: int| 0 <= i < x.len() ==> val(#[trigger] s[i]) == val(x[i]) + val(b[i])
                &&& #[trigger] divides_by(
                    val,
                    s,
                    layer.ffn_norm.weight@,
                    layer.ffn_norm.eps,
                    d,
                    r2,
                )
                &&& #[trigger] layer.mlp.feeds(n, project, d, e)
                &&& forall|i: int|
                    0 <= i < x.len() ==> val(#[trigger] out[i]) == val(x[i]) + val(b[i]) + val(e[i])
            },
{
    let w1 = layer.attention_norm.weight@;
    let w2 = layer.ffn_norm.weight@;
    let (e1, e2) = (layer.attention_norm.eps, layer.ffn_norm.eps);
    let (a, b, s, d, e) = choose|a: Seq<T>, b: Seq<T>, s: Seq<T>, d: Seq<T>, e: Seq<T>|
        {
            &&& #[trigger] n.rms_normed(x, w1, e1, a)
            &&& #[trigger] layer.attention.attends(
                n,
                project,
                table,
                a,
                position,
                before,
                after,
                b,
            )
            &&& #[trigger] n.added(x, b, s)
            &&& #[trigger] n.rms_normed(s, w2, e2, d)
            &&& #[trigger] layer.mlp.feeds(n, project, d, e)
            &&& n.added(s, e, out)
        };
    law_norm_divides_by_the_root_mean_square(n, val, c, x, w1, e1, a);
    law_norm_divides_by_the_root_mean_square(n, val, c, s, w2, e2, d);
    let r1 = choose|r: real| #[trigger] divides_by(val, x, w1, e1, a, r);
    let r2 = choose|r: real| #[trigger] divides_by(val, s, w2, e2, d, r);
    assert forall|i: int| 0 <= i < x.len() implies val(#[trigger] s[i]) == val(x[i]) + val(b[i]) by {
        assert(n.gives(Op::Plus(x[i], b[i]), s[i]));
    }
    assert forall|i: int| 0 <= i < x.len() implies val(#[trigger] out[i]) == val(x[i]) + val(b[i])
        + val(e[i]) by {
        assert(n.gives(Op::Plus(s[i], e[i]), out[i]));
        assert(val(s[i]) == val(x[i]) + val(b[i]));
    }
}

/// What goes through the model: the embedding of the token, which is its row of the
/// embedding matrix, goes into the first layer, what comes out of each layer goes into the
/// next, with the cache of that layer, and the logits are the head matrix times the
/// normalized output of the last.
pub proof fn law_token_goes_through_all_layers<
    T: Copy,
    F: Fn(Op<T>) -> T,
    H: Fn(&QuantizedMatrix, &Vec<T>) -> Option<Vec<T>>,
>(
    model: Transformer<T>,
    n: Numbers<T, F>,
    project: Projector<H>,
    val: spec_fn(T) -> real,
    c: Calculus,
    table: RopeView<T>,
    token: int,
    position: usize,
    before: Seq<CacheView<T>>,
    after: Seq<CacheView<T>>,
    logits: Seq<T>,
)
    requires
        n.exact(val, c),
        project.gpu is None,
        model.predicts(n, project, table, token, position, before, after, logits),
        model.fits(table, before),
        0 < model.embed_dim,
        val(model.final_norm.eps) > 0real,
        forall|i: int|
            0 <= i < model.layers@.len() ==> val(
                (#[trigger] model.layers@[i]).attention_norm.eps,
            ) > 0real && val(model.layers@[i].ffn_norm.eps) > 0real,
    ensures
        exists|h: Seq<Seq<T>>, y: Seq<T>, rms: real|
            {
                &&& h.len() == model.layers@.len() + 1
                &&& #[trigger] model.passes(n, project, table, position, before, after, h)
                &&& forall|d: int|
                    0 <= d < model.embed_dim ==> val(#[trigger] h[0][d]) == worth(
                        c,
                        model.token_embd.cell(
                            model.token_embd.first_block(token),
                            token,
                            d,
                        ),
                    )
                &&& forall|i: int|
                    0 <= i < model.layers@.len() ==> (#[trigger] model.layers@[i]).steps(
                        n,
                        project,
                        table,
                        h[i],
                        position,
                        before[i],
                        after[i],
                        h[i + 1],
                    )
                &&& #[trigger] divides_by(
                    val,
                    h.last(),
                    model.final_norm.weight@,
                    model.final_norm.eps,
                    y,
                    rms,
                )
                &&& is_product(val, c, model.lm_head, y, logits)
            },
{
    let w = model.final_norm.weight@;
    let eps = model.final_norm.eps;
    let (h, y) = choose|h: Seq<Seq<T>>, y: Seq<T>|
        {
            &&& after.len() == before.len()
            &&& h.len() == model.layers@.len() + 1
            &&& model.embeds(n, token, h[0])
            &&& #[trigger] model.passes(n, project, table, position, before, after, h)
            &&& #[trigger] n.rms_normed(h.last(), w, eps, y)
            &&& projects(n, project, model.lm_head, y, logits)
        };
    lemma_lengths(model, n, project, val, c, table, position, before, after, h, h.len() - 1);
    law_norm_divides_by_the_root_mean_square(n, val, c, h.last(), w, eps, y);
    lemma_projected(n, project, val, c, model.lm_head, y, logits);
    assert forall|d: int| 0 <= d < model.embed_dim implies val(#[trigger] h[0][d]) == worth(
        c,
        model.token_embd.cell(model.token_embd.first_block(token), token, d),
    ) by {
        crate::exact::law_values_are_what_weights_are_worth(
            n,
            val,
            c,
            model.token_embd.cell(model.token_embd.first_block(token), token, d),
            h[0][d],
        );
    }
    let rms = choose|r: real| #[trigger] divides_by(val, h.last(), w, eps, y, r);
}

proof fn lemma_lengths<
    T: Copy,
    F: Fn(Op<T>) -> T,
    H: Fn(&QuantizedMatrix, &Vec<T>) -> Option<Vec<T>>,
>(
    model: Transformer<T>,
    n: Numbers<T, F>,
    project: Projector<H>,
    val: spec_fn(T) -> real,
    c: Calculus,
    table: RopeView<T>,
    position: usize,
    before: Seq<CacheView<T>>,
    after: Seq<CacheView<T>>,
    h: Seq<Seq<T>>,
    k: int,
)
    requires
        n.exact(val, c),
        h.len() == model.layers@.len() + 1,
        h[0].len() == model.embed_dim,
        0 < model.embed_dim,
        model.passes(n, project, table, position, before, after, h),
        forall|i: int|
            0 <= i < model.layers@.len() ==> val(
                (#[trigger] model.layers@[i]).attention_norm.eps,
            ) > 0real && val(model.layers@[i].ffn_norm.eps) > 0real,
        0 <= k < h.len(),
    ensures
        h[k].len() == model.embed_dim,
    decreases k,
{
    if k > 0 {
        lemma_lengths(model, n, project, val, c, table, position, before, after, h, k - 1);
        let layer = model.layers@[k - 1];
        law_layer_adds_to_its_input(
            layer,
            n,
            project,
            val,
            c,
            table,
            h[k - 1],
            position,
            before[k - 1],
            after[k - 1],
            h[k],
        );
    }
}

/// Every head is turned alike, whatever its place: pair `i` of head `h` stands `2 * i` places
/// behind the start of the head, and is turned by the position times the frequency of pair
/// `i`.
pub proof fn law_every_head_is_rotated<T: Copy, F: Fn(Op<T>) -> T>(
    n: Numbers<T, F>,
    val: spec_fn(T) -> real,
    c: Calculus,
    base: T,
    dim: int,
    max_seq_len: int,
    table: RopeView<T>,
    x: Seq<T>,
    heads: int,
    position: usize,
    h: int,
    i: int,
    y: Seq<T>,
)
    requires
        n.exact(val, c),
        c.circular(),
        forall|b: real, e: real| #[trigger] (c.power)(b, e) > 0real,
        n.tabulates(base, dim, max_seq_len, table),
        n.heads_embedded(table, x, heads, position, y),
        0 < dim <= usize::MAX,
        dim % 2 == 0,
        0 <= h < heads,
        0 <= i < dim / 2,
    ensures
        y.len() == x.len(),
        exists|f: real, e: real|
            {
                &&& e * (dim as real) == (2 * i) as real
                &&& f * (c.power)(val(base), e) == 1real
                &&& #[trigger] turns(val, c, (position as int) as real, f, e, x, h * dim + 2 * i, y)
            },
{
    let start = h * dim;
    assert(2 * table.half_dim == dim);
    assert(n.pair_embedded(table, x, h * (2 * table.half_dim), position, i, y));
    law_pairs_turn_by_base_and_position(
        n,
        base,
        dim,
        max_seq_len,
        table,
        x,
        start,
        position,
        i,
        y,
    );
    law_pairs_are_rotated(n, val, c, base, dim, x, start, position, i, y);
}

} // verus!
