//! Which keys and values a query head reads: those of its own key-value head, and no
//! others.

use crate::arith::{Numbers, Op};
use crate::attention::{
    bias_view, head_of, kv_head_of, part_of, value_column, with_token, Attention,
};
use crate::kv_cache::{written, CacheView};
use crate::projection::{projects, Projector};
use crate::quant::QuantizedMatrix;
use crate::repeatable::{lemma_biased_is_unique, lemma_rotated_is_unique, repeats};
use crate::rope::RopeView;
use vstd::prelude::*;

verus! {

/// Element `e` of the columns from `start` on, in row `t`.
pub open spec fn column_entry<T>(buf: Seq<T>, dim: nat, start: int, t: int, e: int) -> T {
    buf[t * dim + start + e]
}

/// The columns from `s` on of one cache hold the keys and values, of all tokens, that the
/// columns from `r` on of another do.
pub open spec fn same_columns<T>(
    c: CacheView<T>,
    s: int,
    d: CacheView<T>,
    r: int,
    width: int,
) -> bool {
    &&& c.len == d.len
    &&& forall|t: int, e: int|
        0 <= t < c.len && 0 <= e < width ==> #[trigger] column_entry(c.keys, c.dim, s, t, e)
            == column_entry(d.keys, d.dim, r, t, e)
    &&& forall|t: int, e: int|
        0 <= t < c.len && 0 <= e < width ==> #[trigger] column_entry(c.values, c.dim, s, t, e)
            == column_entry(d.values, d.dim, r, t, e)
}

/// A cache whose stored rows have the columns from `s` on.
pub open spec fn has_columns<T>(c: CacheView<T>, s: int, width: int) -> bool {
    &&& 0 <= s
    &&& s + width <= c.dim
    &&& c.len <= c.max
    &&& c.keys.len() == c.max * c.dim
    &&& c.values.len() == c.max * c.dim
}

proof fn lemma_column_in_range<T>(c: CacheView<T>, s: int, width: int, t: int)
    requires
        has_columns(c, s, width),
        0 <= width,
        0 <= t < c.len,
    ensures
        0 <= t * c.dim + s,
        t * c.dim + s + width <= c.max * c.dim,
{
    assert(t * c.dim + c.dim <= c.max * c.dim && 0 <= t * c.dim) by (nonlinear_arith)
        requires
            t + 1 <= c.max,
            0 <= t,
            c.dim >= 0,
    ;
}

proof fn lemma_head_reads_its_columns<T: Copy, F: Fn(Op<T>) -> T>(
    n: Numbers<T, F>,
    query: Seq<T>,
    c: CacheView<T>,
    s: int,
    d: CacheView<T>,
    r: int,
    out: Seq<T>,
)
    requires
        n.head_attends(query, c, s, out),
        has_columns(c, s, query.len() as int),
        has_columns(d, r, query.len() as int),
        same_columns(c, s, d, r, query.len() as int),
    ensures
        n.head_attends(query, d, r, out),
{
    let (scale, scores, probs) = choose|scale: T, scores: Seq<T>, probs: Seq<T>|
        {
            &&& n.score_scale(query.len() as usize, scale)
            &&& #[trigger] n.head_scores(query, c, s, scale, scores)
            &&& #[trigger] n.softmaxed(scores, probs)
            &&& forall|i: int|
                0 <= i < out.len() ==> n.dots_to(probs, value_column(c, s + i), #[trigger] out[i])
        };
    let width = query.len() as int;
    assert forall|j: int| 0 <= j < d.len implies n.scaled_dot(
        query,
        part_of(d.keys, d.dim, j, r, width),
        scale,
        #[trigger] scores[j],
    ) by {
        lemma_column_in_range(c, s, width, j);
        lemma_column_in_range(d, r, width, j);
        let a = part_of(c.keys, c.dim, j, s, width);
        let b = part_of(d.keys, d.dim, j, r, width);
        assert forall|e: int| 0 <= e < width implies a[e] == b[e] by {
            assert(column_entry(c.keys, c.dim, s, j, e) == column_entry(d.keys, d.dim, r, j, e));
        }
        assert(a =~= b);
    }
    assert(n.head_scores(query, d, r, scale, scores));
    assert forall|i: int| 0 <= i < out.len() implies n.dots_to(
        probs,
        value_column(d, r + i),
        #[trigger] out[i],
    ) by {
        let a = value_column(c, s + i);
        let b = value_column(d, r + i);
        assert forall|j: int| 0 <= j < c.len implies a[j] == b[j] by {
            assert(column_entry(c.values, c.dim, s, j, i) == column_entry(
                d.values,
                d.dim,
                r,
                j,
                i,
            ));
            assert(j * c.dim + (s + i) == j * c.dim + s + i);
            assert(j * d.dim + (r + i) == j * d.dim + r + i);
        }
        assert(a =~= b);
    }
}

proof fn lemma_group(n_rep: int, n_kv_heads: int, k: int, j: int)
    requires
        0 <= k < n_kv_heads,
        0 <= j < n_rep,
    ensures
        kv_head_of(k * n_rep + j, n_rep) == k,
        0 <= k * n_rep + j < n_kv_heads * n_rep,
{
    vstd::arithmetic::div_mod::lemma_fundamental_div_mod_converse(k * n_rep + j, n_rep, k, j);
    assert(0 <= k * n_rep && k * n_rep + n_rep <= n_kv_heads * n_rep) by (nonlinear_arith)
        requires
            0 <= k,
            k + 1 <= n_kv_heads,
            n_rep > 0,
    ;
}

proof fn lemma_head_in_range(h: int, heads: int, dim: int)
    requires
        0 <= h < heads,
        0 <= dim,
    ensures
        0 <= h * dim,
        h * dim + dim <= heads * dim,
{
    assert(0 <= h * dim && h * dim + dim <= heads * dim) by (nonlinear_arith)
        requires
            0 <= h,
            h + 1 <= heads,
            0 <= dim,
    ;
}

/// The query heads go to the key-value heads in turn, `n_rep` next to each other for each:
/// heads `k * n_rep` to `k * n_rep + n_rep - 1` do what attention with one key-value head
/// does on a cache that holds nothing but columns `k * head_dim` to
/// `k * head_dim + head_dim - 1` of the keys and values.
pub proof fn law_head_attends_to_its_kv_head<T: Copy, F: Fn(Op<T>) -> T>(
    a: Attention<T>,
    n: Numbers<T, F>,
    q: Seq<T>,
    cache: CacheView<T>,
    out: Seq<T>,
    k: int,
    j: int,
    alone: CacheView<T>,
)
    requires
        a.heads_attend(n, q, cache, out),
        a.n_heads == a.n_kv_heads * a.n_rep,
        q.len() == a.n_heads * a.head_dim,
        cache.wf() && cache.len <= cache.max,
        cache.dim == a.n_kv_heads * a.head_dim,
        0 <= k < a.n_kv_heads,
        0 <= j < a.n_rep,
        alone.wf() && alone.len <= alone.max,
        alone.dim == a.head_dim,
        same_columns(cache, k * a.head_dim, alone, 0, a.head_dim as int),
    ensures
        ({
            let at = (k * a.n_rep + j) * a.head_dim;
            n.head_attends(
                q.subrange(at, at + a.head_dim),
                alone,
                0,
                out.subrange(at, at + a.head_dim),
            )
        }),
{
    let (rep, dim) = (a.n_rep as int, a.head_dim as int);
    lemma_group(rep, a.n_kv_heads as int, k, j);
    let h = k * rep + j;
    lemma_head_in_range(h, a.n_heads as int, dim);
    lemma_head_in_range(k, a.n_kv_heads as int, dim);
    let query = head_of(q, h, dim);
    assert(n.head_attends(query, cache, k * dim, head_of(out, h, dim)));
    lemma_head_reads_its_columns(n, query, cache, k * dim, alone, 0, head_of(out, h, dim));
}

proof fn lemma_group_outputs<T: Copy, F: Fn(Op<T>) -> T>(
    a: Attention<T>,
    n: Numbers<T, F>,
    q: Seq<T>,
    c: CacheView<T>,
    d: CacheView<T>,
    x: Seq<T>,
    y: Seq<T>,
    k: int,
    j: int,
)
    requires
        n.single_valued(),
        a.heads_attend(n, q, c, x),
        a.heads_attend(n, q, d, y),
        a.n_heads == a.n_kv_heads * a.n_rep,
        q.len() == a.n_heads * a.head_dim,
        has_columns(c, k * a.head_dim, a.head_dim as int),
        has_columns(d, k * a.head_dim, a.head_dim as int),
        same_columns(c, k * a.head_dim, d, k * a.head_dim, a.head_dim as int),
        0 <= k < a.n_kv_heads,
        0 <= j < a.n_rep,
    ensures
        head_of(x, k * a.n_rep + j, a.head_dim as int) == head_of(
            y,
            k * a.n_rep + j,
            a.head_dim as int,
        ),
{
    let (rep, dim) = (a.n_rep as int, a.head_dim as int);
    lemma_group(rep, a.n_kv_heads as int, k, j);
    let h = k * rep + j;
    lemma_head_in_range(h, a.n_heads as int, dim);
    let query = head_of(q, h, dim);
    assert(n.head_attends(query, c, k * dim, head_of(x, h, dim)));
    assert(n.head_attends(query, d, k * dim, head_of(y, h, dim)));
    lemma_head_reads_its_columns(n, query, c, k * dim, d, k * dim, head_of(x, h, dim));
    n.lemma_head_is_unique(query, d, k * dim, head_of(x, h, dim), head_of(y, h, dim));
}

/// The heads of one group depend on no other columns: whatever else two caches hold,
/// where they agree on key-value head `k`, heads `k * n_rep` to
/// `k * n_rep + n_rep - 1` come out the same.
pub proof fn law_heads_depend_on_their_kv_head_alone<T: Copy, F: Fn(Op<T>) -> T>(
    a: Attention<T>,
    n: Numbers<T, F>,
    q: Seq<T>,
    c: CacheView<T>,
    d: CacheView<T>,
    x: Seq<T>,
    y: Seq<T>,
    k: int,
    j: int,
)
    requires
        n.single_valued(),
        a.heads_attend(n, q, c, x),
        a.heads_attend(n, q, d, y),
        a.n_heads == a.n_kv_heads * a.n_rep,
        q.len() == a.n_heads * a.head_dim,
        c.wf() && c.len <= c.max,
        d.wf() && d.len <= d.max,
        c.dim == a.n_kv_heads * a.head_dim,
        d.dim == a.n_kv_heads * a.head_dim,
        0 <= k < a.n_kv_heads,
        0 <= j < a.n_rep,
        same_columns(c, k * a.head_dim, d, k * a.head_dim, a.head_dim as int),
    ensures
        ({
            let at = (k * a.n_rep + j) * a.head_dim;
            x.subrange(at, at + a.head_dim) == y.subrange(at, at + a.head_dim)
        }),
{
    lemma_head_in_range(k, a.n_kv_heads as int, a.head_dim as int);
    lemma_group_outputs(a, n, q, c, d, x, y, k, j);
}

proof fn lemma_written_columns<T>(
    c: CacheView<T>,
    d: CacheView<T>,
    key: Seq<T>,
    value: Seq<T>,
    s: int,
    width: int,
)
    requires
        has_columns(c, s, width),
        has_columns(d, s, width),
        0 <= width,
        c.dim == d.dim,
        c.len < c.max,
        d.len < d.max,
        key.len() == c.dim,
        value.len() == c.dim,
        same_columns(c, s, d, s, width),
    ensures
        same_columns(with_token(c, key, value), s, with_token(d, key, value), s, width),
        has_columns(with_token(c, key, value), s, width),
        has_columns(with_token(d, key, value), s, width),
{
    let c2 = with_token(c, key, value);
    let d2 = with_token(d, key, value);
    let at = (c.len * c.dim) as int;
    assert(at + c.dim <= c.max * c.dim && at + c.dim <= d.max * c.dim && 0 <= at)
        by (nonlinear_arith)
        requires
            c.len + 1 <= c.max,
            c.len + 1 <= d.max,
            at == c.len * c.dim,
    ;
    assert forall|t: int, e: int| 0 <= t < c2.len && 0 <= e < width implies #[trigger] column_entry(
        c2.keys,
        c2.dim,
        s,
        t,
        e,
    ) == column_entry(d2.keys, d2.dim, s, t, e) by {
        lemma_written_entry(c.keys, c.dim, c.len, key, s, t, e);
        lemma_written_entry(d.keys, d.dim, d.len, key, s, t, e);
        if t < c.len {
            assert(column_entry(c.keys, c.dim, s, t, e) == column_entry(d.keys, d.dim, s, t, e));
        }
    }
    assert forall|t: int, e: int| 0 <= t < c2.len && 0 <= e < width implies #[trigger] column_entry(
        c2.values,
        c2.dim,
        s,
        t,
        e,
    ) == column_entry(d2.values, d2.dim, s, t, e) by {
        lemma_written_entry(c.values, c.dim, c.len, value, s, t, e);
        lemma_written_entry(d.values, d.dim, d.len, value, s, t, e);
        if t < c.len {
            assert(column_entry(c.values, c.dim, s, t, e) == column_entry(
                d.values,
                d.dim,
                s,
                t,
                e,
            ));
        }
    }
}

proof fn lemma_written_entry<T>(
    buf: Seq<T>,
    dim: nat,
    len: nat,
    row: Seq<T>,
    s: int,
    t: int,
    e: int,
)
    requires
        len * dim + dim <= buf.len(),
        row.len() == dim,
        0 <= s,
        0 <= e,
        s + e < dim,
        0 <= t <= len,
    ensures
        column_entry(written(buf, (len * dim) as int, row), dim, s, t, e) == (if t < len {
            column_entry(buf, dim, s, t, e)
        } else {
            row[s + e]
        }),
{
    if t < len {
        assert(t * dim + dim <= len * dim && 0 <= t * dim) by (nonlinear_arith)
            requires
                t + 1 <= len,
                0 <= t,
        ;
    } else {
        assert(0 <= len * dim) by (nonlinear_arith);
    }
}

/// The same on the output of the whole attention: for one input at one position, with two
/// caches that agree on key-value head `k`, the outputs are the projections of two vectors
/// that agree on all of the heads of group `k`.
pub proof fn law_outputs_depend_on_kv_heads_by_group<
    T: Copy,
    F: Fn(Op<T>) -> T,
    H: Fn(&QuantizedMatrix, &Vec<T>) -> Option<Vec<T>>,
>(
    a: Attention<T>,
    n: Numbers<T, F>,
    project: Projector<H>,
    table: RopeView<T>,
    x: Seq<T>,
    position: usize,
    c: CacheView<T>,
    c2: CacheView<T>,
    y: Seq<T>,
    d: CacheView<T>,
    d2: CacheView<T>,
    z: Seq<T>,
    embed_dim: nat,
    k: int,
)
    requires
        n.single_valued(),
        repeats::<T, H>(project),
        a.wf(embed_dim),
        a.n_heads == a.n_kv_heads * a.n_rep,
        2 * table.half_dim == a.head_dim,
        a.attends(n, project, table, x, position, c, c2, y),
        a.attends(n, project, table, x, position, d, d2, z),
        c.wf() && c.len < c.max,
        d.wf() && d.len < d.max,
        c.dim == a.n_kv_heads * a.head_dim,
        d.dim == a.n_kv_heads * a.head_dim,
        0 <= k < a.n_kv_heads,
        same_columns(c, k * a.head_dim, d, k * a.head_dim, a.head_dim as int),
    ensures
        exists|g: Seq<T>, h: Seq<T>|
            {
                &&& #[trigger] projects(n, project, a.wo, g, y)
                &&& #[trigger] projects(n, project, a.wo, h, z)
                &&& forall|j: int|
                    0 <= j < a.n_rep ==> #[trigger] head_of(g, k * a.n_rep + j, a.head_dim as int)
                        == head_of(h, k * a.n_rep + j, a.head_dim as int)
            },
{
    let (hq, hk) = (a.n_heads as int, a.n_kv_heads as int);
    let (bq, bk, bv) = (bias_view(a.bq), bias_view(a.bk), bias_view(a.bv));
    let (q, key, v, g) = choose|q: Seq<T>, k: Seq<T>, v: Seq<T>, heads: Seq<T>|
        {
            &&& #[trigger] Attention::<T>::rotated(n, project, a.wq, bq, x, table, hq, position, q)
            &&& #[trigger] Attention::<T>::rotated(n, project, a.wk, bk, x, table, hk, position, k)
            &&& #[trigger] Attention::<T>::biased(n, project, a.wv, bv, x, v)
            &&& c2 == with_token(c, k, v)
            &&& #[trigger] a.heads_attend(n, q, c2, heads)
            &&& projects(n, project, a.wo, heads, y)
        };
    let (q2, key2, v2, h) = choose|q: Seq<T>, k: Seq<T>, v: Seq<T>, heads: Seq<T>|
        {
            &&& #[trigger] Attention::<T>::rotated(n, project, a.wq, bq, x, table, hq, position, q)
            &&& #[trigger] Attention::<T>::rotated(n, project, a.wk, bk, x, table, hk, position, k)
            &&& #[trigger] Attention::<T>::biased(n, project, a.wv, bv, x, v)
            &&& d2 == with_token(d, k, v)
            &&& #[trigger] a.heads_attend(n, q, d2, heads)
            &&& projects(n, project, a.wo, heads, z)
        };
    lemma_rotated_is_unique(n, project, a.wq, bq, x, table, hq, position, q, q2);
    lemma_rotated_is_unique(n, project, a.wk, bk, x, table, hk, position, key, key2);
    lemma_biased_is_unique(n, project, a.wv, bv, x, v, v2);
    lemma_rotated_len(n, project, a.wq, bq, x, table, hq, position, q);
    lemma_rotated_len(n, project, a.wk, bk, x, table, hk, position, key);
    let dim = a.head_dim as int;
    lemma_head_in_range(k, hk, dim);
    lemma_written_columns(c, d, key, v, k * dim, dim);
    assert forall|j: int| 0 <= j < a.n_rep implies #[trigger] head_of(g, k * a.n_rep + j, dim)
        == head_of(h, k * a.n_rep + j, dim) by {
        lemma_group_outputs(a, n, q, c2, d2, g, h, k, j);
    }
}

proof fn lemma_rotated_len<
    T: Copy,
    F: Fn(Op<T>) -> T,
    H: Fn(&QuantizedMatrix, &Vec<T>) -> Option<Vec<T>>,
>(
    n: Numbers<T, F>,
    project: Projector<H>,
    m: QuantizedMatrix,
    bias: Option<Seq<T>>,
    x: Seq<T>,
    table: RopeView<T>,
    heads: int,
    position: usize,
    y: Seq<T>,
)
    requires
        n.single_valued(),
        repeats::<T, H>(project),
        Attention::<T>::rotated(n, project, m, bias, x, table, heads, position, y),
    ensures
        y.len() == m.rows,
{
    let b = choose|b: Seq<T>| #[trigger]
        Attention::<T>::biased(n, project, m, bias, x, b) && n.heads_embedded(
            table,
            b,
            heads,
            position,
            y,
        );
    lemma_biased_is_unique(n, project, m, bias, x, b, b);
}

} // verus!
