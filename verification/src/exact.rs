//! What the numeric code computes, seen through exact arithmetic: where each operation
//! gives the real number that it stands for, the results are the sums, averages,
//! rotations and weighted means of the mathematics.

use crate::arith::{Numbers, Op};
use crate::attention::{part_of, value_column};
use crate::kv_cache::CacheView;
use crate::quant::{QuantizedMatrix, Weight};
use vstd::prelude::*;

verus! {

/// The functions that arithmetic does not reach, and what the patterns of stored numbers
/// stand for.
pub struct Calculus {
    pub exp: spec_fn(real) -> real,
    pub cos: spec_fn(real) -> real,
    pub sin: spec_fn(real) -> real,
    pub power: spec_fn(real, real) -> real,
    pub wide: spec_fn(u32) -> real,
}

impl Calculus {
    /// The exponential is positive and turns sums into products.
    pub open spec fn exponential(self) -> bool {
        &&& forall|x: real| #[trigger] (self.exp)(x) > 0real
        &&& forall|x: real, y: real| #[trigger] self.multiplies(x, y)
        &&& (self.exp)(0real) == 1real
    }

    /// The exponential of a sum is the product of the exponentials.
    pub open spec fn multiplies(self, x: real, y: real) -> bool {
        (self.exp)(x) * (self.exp)(y) == (self.exp)(x + y)
    }

    /// The sine and the cosine of an angle are the sides of a triangle of length one.
    pub open spec fn circular(self) -> bool {
        forall|x: real|
            (#[trigger] (self.cos)(x)) * (self.cos)(x) + (self.sin)(x) * (self.sin)(x) == 1real
    }
}

impl<T: Copy, F: Fn(Op<T>) -> T> Numbers<T, F> {
    /// The four operations give the real numbers that they stand for.
    pub open spec fn exact_field(&self, val: spec_fn(T) -> real) -> bool {
        &&& val(self.zero) == 0real
        &&& val(self.one) == 1real
        &&& forall|a: T, b: T, r: T| #[trigger]
            self.gives(Op::Plus(a, b), r) ==> val(r) == val(a) + val(b)
        &&& forall|a: T, b: T, r: T| #[trigger]
            self.gives(Op::Minus(a, b), r) ==> val(r) == val(a) - val(b)
        &&& forall|a: T, b: T, r: T| #[trigger]
            self.gives(Op::Times(a, b), r) ==> val(r) == val(a) * val(b)
        &&& forall|a: T, b: T, r: T| #[trigger]
            self.gives(Op::Over(a, b), r) && val(b) != 0real ==> val(r) * val(b) == val(a)
        &&& forall|a: T, r: T| #[trigger] self.gives(Op::Negative(a), r) ==> val(r) == -val(a)
        &&& forall|k: usize, r: T| #[trigger]
            self.gives(Op::Count(k), r) ==> val(r) == (k as int) as real
        &&& forall|k: i32, r: T| #[trigger]
            self.gives(Op::Whole(k), r) ==> val(r) == (k as int) as real
    }

    /// The other operations do, too.
    pub open spec fn exact(&self, val: spec_fn(T) -> real, c: Calculus) -> bool {
        &&& self.exact_field(val)
        &&& forall|a: T, r: T| #[trigger]
            self.gives(Op::Root(a), r) && val(a) >= 0real ==> val(r) >= 0real && val(r) * val(r)
                == val(a)
        &&& forall|a: T, r: T| #[trigger] self.gives(Op::Exp(a), r) ==> val(r) == (c.exp)(val(a))
        &&& forall|a: T, r: T| #[trigger]
            self.gives(Op::Cosine(a), r) ==> val(r) == (c.cos)(val(a))
        &&& forall|a: T, r: T| #[trigger] self.gives(Op::Sine(a), r) ==> val(r) == (c.sin)(val(a))
        &&& forall|a: T, b: T, r: T| #[trigger]
            self.gives(Op::Power(a, b), r) ==> val(r) == (c.power)(val(a), val(b))
        &&& forall|w: u32, r: T| #[trigger] self.gives(Op::Wide(w), r) ==> val(r) == (c.wide)(w)
        &&& forall|a: T, x: T, y: T, r: T| #[trigger]
            self.gives(Op::Choice(a, x, y), r) ==> r == (if val(a) >= 0real {
                x
            } else {
                y
            })
    }
}

/// The sum of the first `n` terms.
pub open spec fn sum(f: spec_fn(int) -> real, n: nat) -> real
    decreases n,
{
    if n == 0 {
        0real
    } else {
        sum(f, (n - 1) as nat) + f(n - 1)
    }
}

proof fn lemma_sum_congruence(f: spec_fn(int) -> real, g: spec_fn(int) -> real, n: nat)
    requires
        forall|i: int| 0 <= i < n ==> #[trigger] f(i) == g(i),
    ensures
        sum(f, n) == sum(g, n),
    decreases n,
{
    if n > 0 {
        lemma_sum_congruence(f, g, (n - 1) as nat);
        assert(f(n - 1) == g(n - 1));
    }
}

proof fn lemma_sum_scales(f: spec_fn(int) -> real, c: real, n: nat)
    ensures
        sum(|i: int| f(i) * c, n) == sum(f, n) * c,
    decreases n,
{
    let g = |i: int| f(i) * c;
    if n > 0 {
        lemma_sum_scales(f, c, (n - 1) as nat);
        let (s, x) = (sum(f, (n - 1) as nat), f(n - 1));
        assert(g(n - 1) == x * c);
        assert(s * c + x * c == (s + x) * c) by (nonlinear_arith);
    } else {
        assert(0real * c == 0real) by (nonlinear_arith);
    }
}

proof fn lemma_sum_is_positive(f: spec_fn(int) -> real, n: nat)
    requires
        forall|i: int| 0 <= i < n ==> #[trigger] f(i) > 0real,
    ensures
        sum(f, n) >= 0real,
        n > 0 ==> sum(f, n) > 0real,
    decreases n,
{
    if n > 0 {
        lemma_sum_is_positive(f, (n - 1) as nat);
        assert(f(n - 1) > 0real);
    }
}

proof fn lemma_squares_are_not_negative(f: spec_fn(int) -> real, n: nat)
    ensures
        sum(|i: int| f(i) * f(i), n) >= 0real,
    decreases n,
{
    if n > 0 {
        lemma_squares_are_not_negative(f, (n - 1) as nat);
        let x = f(n - 1);
        assert(x * x >= 0real) by (nonlinear_arith);
    }
}

proof fn lemma_partial_sums<T: Copy, F: Fn(Op<T>) -> T>(
    n: Numbers<T, F>,
    val: spec_fn(T) -> real,
    a: Seq<T>,
    t: Seq<T>,
    k: nat,
)
    requires
        n.exact_field(val),
        n.running_sums(a, t),
        k < t.len(),
    ensures
        val(t[k as int]) == sum(|i: int| val(a[i]), k),
    decreases k,
{
    if k > 0 {
        lemma_partial_sums(n, val, a, t, (k - 1) as nat);
        assert(n.gives(Op::Plus(t[k - 1], a[k - 1]), t[k as int]));
    }
}

/// A sum is the sum of the elements.
pub proof fn law_sums_add_up<T: Copy, F: Fn(Op<T>) -> T>(
    n: Numbers<T, F>,
    val: spec_fn(T) -> real,
    a: Seq<T>,
    r: T,
)
    requires
        n.exact_field(val),
        n.sums_to(a, r),
    ensures
        val(r) == sum(|i: int| val(a[i]), a.len()),
{
    let t = choose|t: Seq<T>| #[trigger]
        n.running_sums(a, t) && t.len() == a.len() + 1 && t.last() == r;
    lemma_partial_sums(n, val, a, t, a.len());
}

proof fn lemma_partial_dots<T: Copy, F: Fn(Op<T>) -> T>(
    n: Numbers<T, F>,
    val: spec_fn(T) -> real,
    a: Seq<T>,
    b: Seq<T>,
    t: Seq<T>,
    k: nat,
)
    requires
        n.exact_field(val),
        n.running_dots(a, b, t),
        k < t.len(),
    ensures
        val(t[k as int]) == sum(|i: int| val(a[i]) * val(b[i]), k),
    decreases k,
{
    if k > 0 {
        lemma_partial_dots(n, val, a, b, t, (k - 1) as nat);
        assert(n.plus_product(t[k - 1], a[k - 1], b[k - 1], t[k as int]));
        let y = choose|y: T| #[trigger]
            n.gives(Op::Times(a[k - 1], b[k - 1]), y) && n.gives(
                Op::Plus(t[k - 1], y),
                t[k as int],
            );
        assert(val(y) == val(a[k - 1]) * val(b[k - 1]));
    }
}

/// A dot product is the sum of the products of the elements.
pub proof fn law_dots_add_up_products<T: Copy, F: Fn(Op<T>) -> T>(
    n: Numbers<T, F>,
    val: spec_fn(T) -> real,
    a: Seq<T>,
    b: Seq<T>,
    r: T,
)
    requires
        n.exact_field(val),
        n.dots_to(a, b, r),
    ensures
        val(r) == sum(|i: int| val(a[i]) * val(b[i]), a.len()),
{
    let t = choose|t: Seq<T>| #[trigger]
        n.running_dots(a, b, t) && t.len() == a.len() + 1 && t.last() == r;
    lemma_partial_dots(n, val, a, b, t, a.len());
}

/// What a weight is worth: its scale times its integers, less its minimum where it has one.
pub open spec fn worth(c: Calculus, w: Weight) -> real {
    match w {
        Weight::Single(bits) => (c.wide)(bits),
        Weight::Scaled { d, q } => (c.wide)(d) * ((q as int) as real),
        Weight::Grouped { d, sc, q } => (c.wide)(d) * ((sc as int) as real) * ((q as int) as real),
        Weight::Offset { d, sc, q, dmin, m } => (c.wide)(d) * ((sc as int) as real) * ((
        q as int) as real) - (c.wide)(dmin) * ((m as int) as real),
    }
}

proof fn lemma_scaled_whole<T: Copy, F: Fn(Op<T>) -> T>(
    n: Numbers<T, F>,
    val: spec_fn(T) -> real,
    c: Calculus,
    d: u32,
    q: i32,
    r: T,
)
    requires
        n.exact(val, c),
        n.scaled_whole(d, q, r),
    ensures
        val(r) == (c.wide)(d) * ((q as int) as real),
{
    let (x, y) = choose|x: T, y: T|
        {
            &&& #[trigger] n.gives(Op::Wide(d), x)
            &&& #[trigger] n.gives(Op::Whole(q), y)
            &&& n.gives(Op::Times(x, y), r)
        };
    assert(val(r) == val(x) * val(y));
}

proof fn lemma_twice_scaled_whole<T: Copy, F: Fn(Op<T>) -> T>(
    n: Numbers<T, F>,
    val: spec_fn(T) -> real,
    c: Calculus,
    d: u32,
    sc: i32,
    q: i32,
    r: T,
)
    requires
        n.exact(val, c),
        n.twice_scaled_whole(d, sc, q, r),
    ensures
        val(r) == (c.wide)(d) * ((sc as int) as real) * ((q as int) as real),
{
    let (x, y) = choose|x: T, y: T|
        {
            &&& #[trigger] n.scaled_whole(d, sc, x)
            &&& #[trigger] n.gives(Op::Whole(q), y)
            &&& n.gives(Op::Times(x, y), r)
        };
    lemma_scaled_whole(n, val, c, d, sc, x);
    assert(val(r) == val(x) * val(y));
}

/// The value of a weight is what the weight is worth.
pub proof fn law_values_are_what_weights_are_worth<T: Copy, F: Fn(Op<T>) -> T>(
    n: Numbers<T, F>,
    val: spec_fn(T) -> real,
    c: Calculus,
    w: Weight,
    r: T,
)
    requires
        n.exact(val, c),
        n.weighs(w, r),
    ensures
        val(r) == worth(c, w),
{
    match w {
        Weight::Single(bits) => {},
        Weight::Scaled { d, q } => {
            lemma_scaled_whole(n, val, c, d, q, r);
        },
        Weight::Grouped { d, sc, q } => {
            lemma_twice_scaled_whole(n, val, c, d, sc, q, r);
        },
        Weight::Offset { d, sc, q, dmin, m } => {
            let (x, y) = choose|x: T, y: T|
                {
                    &&& #[trigger] n.twice_scaled_whole(d, sc, q, x)
                    &&& #[trigger] n.scaled_whole(dmin, m, y)
                    &&& n.gives(Op::Minus(x, y), r)
                };
            lemma_twice_scaled_whole(n, val, c, d, sc, q, x);
            lemma_scaled_whole(n, val, c, dmin, m, y);
            assert(val(r) == val(x) - val(y));
        },
    }
}

proof fn lemma_weighted_steps<T: Copy, F: Fn(Op<T>) -> T>(
    n: Numbers<T, F>,
    val: spec_fn(T) -> real,
    c: Calculus,
    weights: Seq<Weight>,
    x: Seq<T>,
    steps: Seq<T>,
    k: nat,
)
    requires
        n.exact(val, c),
        n.weighted_steps(weights, x, steps),
        k <= x.len(),
    ensures
        val(steps[k as int]) == sum(|i: int| worth(c, weights[i]) * val(x[i]), k),
    decreases k,
{
    if k > 0 {
        lemma_weighted_steps(n, val, c, weights, x, steps, (k - 1) as nat);
        let (s, w, e) = (steps[k - 1], weights[k - 1], x[k - 1]);
        assert(n.plus_weighted(s, w, e, steps[k as int]));
        let v = choose|v: T| #[trigger] n.weighs(w, v) && n.plus_product(s, v, e, steps[k as int]);
        law_values_are_what_weights_are_worth(n, val, c, w, v);
        let y = choose|y: T| #[trigger]
            n.gives(Op::Times(v, e), y) && n.gives(Op::Plus(s, y), steps[k as int]);
        assert(val(y) == val(v) * val(e));
    }
}

/// Element `row` of the product of a matrix and a vector is the sum, over the columns, of
/// what the weights of that row are worth, each times the element of its column.
pub proof fn law_products_go_row_by_row<T: Copy, F: Fn(Op<T>) -> T>(
    n: Numbers<T, F>,
    val: spec_fn(T) -> real,
    c: Calculus,
    m: QuantizedMatrix,
    x: Seq<T>,
    y: Seq<T>,
    row: int,
)
    requires
        n.exact(val, c),
        n.matrix_product(m, x, y),
        x.len() == m.cols,
        0 <= row < m.rows,
    ensures
        y.len() == m.rows,
        val(y[row]) == sum(|col: int| worth(c, m.cell(0, row, col)) * val(x[col]), m.cols as nat),
{
    let w = m.row_cells(row);
    assert(n.weighted_sum(w, x, y[row]));
    let steps = choose|steps: Seq<T>| #[trigger]
        n.weighted_steps(w, x, steps) && steps.last() == y[row];
    lemma_weighted_steps(n, val, c, w, x, steps, x.len());
    lemma_sum_congruence(
        |i: int| worth(c, w[i]) * val(x[i]),
        |col: int| worth(c, m.cell(0, row, col)) * val(x[col]),
        x.len(),
    );
}

/// Softmax makes probabilities: they are positive and add up to one, and two of them are
/// to each other as the exponentials of their elements.
pub proof fn law_softmax_makes_probabilities<T: Copy, F: Fn(Op<T>) -> T>(
    n: Numbers<T, F>,
    val: spec_fn(T) -> real,
    c: Calculus,
    a: Seq<T>,
    out: Seq<T>,
)
    requires
        n.exact(val, c),
        c.exponential(),
        n.softmaxed(a, out),
        a.len() > 0,
    ensures
        out.len() == a.len(),
        sum(|i: int| val(out[i]), out.len()) == 1real,
        forall|i: int| 0 <= i < out.len() ==> val(#[trigger] out[i]) > 0real,
        forall|i: int, j: int|
            0 <= i < out.len() && 0 <= j < out.len() ==> val(#[trigger] out[i]) * (c.exp)(val(a[j]))
                == val(#[trigger] out[j]) * (c.exp)(val(a[i])),
{
    let (m, e, s) = choose|m: T, e: Seq<T>, s: T|
        {
            &&& n.max_of(a, m)
            &&& #[trigger] n.exps_above(a, m, e)
            &&& #[trigger] n.sums_to(e, s)
            &&& n.divided(e, s, out)
        };
    let inv = choose|inv: T| #[trigger] n.gives(Op::Over(n.one, s), inv) && n.scaled(e, inv, out);
    let f = |i: int| val(e[i]);
    assert forall|i: int| 0 <= i < a.len() implies #[trigger] f(i) == (c.exp)(val(a[i]) - val(m))
        by {
        assert(n.exp_above(a[i], m, e[i]));
        let d = choose|d: T| #[trigger]
            n.gives(Op::Minus(a[i], m), d) && n.gives(Op::Exp(d), e[i]);
        assert(val(d) == val(a[i]) - val(m));
    }
    assert forall|i: int| 0 <= i < a.len() implies #[trigger] f(i) > 0real by {
        assert((c.exp)(val(a[i]) - val(m)) > 0real);
    }
    law_sums_add_up(n, val, e, s);
    lemma_sum_is_positive(f, a.len());
    assert(val(s) == sum(f, a.len()));
    let (vs, vi) = (val(s), val(inv));
    assert(vi * vs == 1real);
    assert(vi > 0real) by (nonlinear_arith)
        requires
            vi * vs == 1real,
            vs > 0real,
    ;
    let g = |i: int| val(out[i]);
    assert forall|i: int| 0 <= i < a.len() implies #[trigger] g(i) == f(i) * vi by {
        assert(n.gives(Op::Times(e[i], inv), out[i]));
    }
    lemma_sum_congruence(g, |i: int| f(i) * vi, a.len());
    lemma_sum_scales(f, vi, a.len());
    assert(vs * vi == 1real) by (nonlinear_arith)
        requires
            vi * vs == 1real,
    ;
    assert forall|i: int| 0 <= i < out.len() implies val(#[trigger] out[i]) > 0real by {
        let x = f(i);
        assert(g(i) == x * vi);
        assert(x * vi > 0real) by (nonlinear_arith)
            requires
                x > 0real,
                vi > 0real,
        ;
    }
    assert forall|i: int, j: int| 0 <= i < out.len() && 0 <= j < out.len() implies val(
        #[trigger] out[i],
    ) * (c.exp)(val(a[j])) == val(#[trigger] out[j]) * (c.exp)(val(a[i])) by {
        let (xi, xj, vm) = (val(a[i]), val(a[j]), val(m));
        let (fi, fj) = (f(i), f(j));
        assert(g(i) == fi * vi && g(j) == fj * vi);
        assert(c.multiplies(xi - vm, xj));
        assert(c.multiplies(xj - vm, xi));
        assert(xi - vm + xj == xj - vm + xi);
        let (ei, ej) = ((c.exp)(xi), (c.exp)(xj));
        assert(fi * vi * ej == fj * vi * ei) by (nonlinear_arith)
            requires
                fi * ej == fj * ei,
        ;
    }
}

/// SiLU of a number, times one plus the exponential of its opposite, is the number, on
/// either side of zero.
pub proof fn law_silu_is_a_gated_number<T: Copy, F: Fn(Op<T>) -> T>(
    n: Numbers<T, F>,
    val: spec_fn(T) -> real,
    c: Calculus,
    x: T,
    r: T,
)
    requires
        n.exact(val, c),
        c.exponential(),
        n.silu_of(x, r),
    ensures
        val(r) * (1real + (c.exp)(-val(x))) == val(x),
{
    let (u, l) = choose|u: T, l: T| #[trigger]
        n.silu_upper(x, u) && #[trigger] n.silu_lower(x, l) && n.gives(Op::Choice(x, u, l), r);
    let vx = val(x);
    let (up, down) = ((c.exp)(-vx), (c.exp)(vx));
    assert(up > 0real && down > 0real);
    if vx >= 0real {
        assert(r == u);
        let (m, e, d) = choose|m: T, e: T, d: T|
            {
                &&& #[trigger] n.gives(Op::Negative(x), m)
                &&& #[trigger] n.gives(Op::Exp(m), e)
                &&& #[trigger] n.gives(Op::Plus(n.one, e), d)
                &&& n.gives(Op::Over(x, d), u)
            };
        assert(val(m) == -vx);
        assert(val(d) == 1real + up);
        assert(val(u) * val(d) == vx);
    } else {
        assert(r == l);
        let (e, p, d) = choose|e: T, p: T, d: T|
            {
                &&& #[trigger] n.gives(Op::Exp(x), e)
                &&& #[trigger] n.gives(Op::Times(x, e), p)
                &&& #[trigger] n.gives(Op::Plus(n.one, e), d)
                &&& n.gives(Op::Over(p, d), l)
            };
        assert(val(d) == 1real + down);
        assert(val(l) * val(d) == vx * down);
        assert(c.multiplies(-vx, vx));
        assert(-vx + vx == 0real);
        let vl = val(l);
        lemma_gate(vl, vx, up, down);
    }
}

proof fn lemma_gate(l: real, x: real, up: real, down: real)
    requires
        l * (1real + down) == x * down,
        up * down == 1real,
    ensures
        l * (1real + up) == x,
{
    assert(l * (1real + down) == l + l * down) by (nonlinear_arith);
    assert(x * down * up == x * (up * down)) by (nonlinear_arith);
    assert((l + l * down) * up == l * up + l * (up * down)) by (nonlinear_arith);
    assert(l * (1real + up) == l + l * up) by (nonlinear_arith);
    assert(l * 1real == l);
    assert(x * 1real == x);
    assert((l + l * down) * up == x * down * up);
}

/// Normalization brings a vector to the root of its mean square: times that root, each
/// element is the input's times its weight.
pub proof fn law_norm_divides_by_the_root_mean_square<T: Copy, F: Fn(Op<T>) -> T>(
    n: Numbers<T, F>,
    val: spec_fn(T) -> real,
    c: Calculus,
    x: Seq<T>,
    w: Seq<T>,
    eps: T,
    out: Seq<T>,
)
    requires
        n.exact(val, c),
        n.rms_normed(x, w, eps, out),
        0 < x.len() <= usize::MAX,
        val(eps) > 0real,
    ensures
        out.len() == x.len(),
        exists|rms: real| #[trigger] divides_by(val, x, w, eps, out, rms),
{
    let s = choose|s: T| #[trigger]
        n.rms_scale(x, eps, s) && forall|i: int|
            0 <= i < x.len() ==> n.twice_scaled(x[i], s, w[i], #[trigger] out[i]);
    let (ss, k, mean, total, rms) = choose|ss: T, k: T, mean: T, sum: T, rms: T|
        {
            &&& #[trigger] n.dots_to(x, x, ss)
            &&& #[trigger] n.gives(Op::Count(x.len() as usize), k)
            &&& #[trigger] n.gives(Op::Over(ss, k), mean)
            &&& #[trigger] n.gives(Op::Plus(mean, eps), sum)
            &&& #[trigger] n.gives(Op::Root(sum), rms)
            &&& n.gives(Op::Over(n.one, rms), s)
        };
    law_dots_add_up_products(n, val, x, x, ss);
    lemma_squares_are_not_negative(|i: int| val(x[i]), x.len());
    let f = |i: int| val(x[i]);
    lemma_sum_congruence(
        |i: int| f(i) * f(i),
        |i: int| val(x[i]) * val(x[i]),
        x.len(),
    );
    let (vs, vk, vm, vr) = (val(ss), val(k), val(mean), val(rms));
    assert(vs >= 0real);
    assert(vk > 0real);
    assert(vm * vk == vs);
    assert(vm >= 0real) by (nonlinear_arith)
        requires
            vm * vk == vs,
            vs >= 0real,
            vk > 0real,
    ;
    assert(vr >= 0real && vr * vr == vm + val(eps));
    assert(vr > 0real) by (nonlinear_arith)
        requires
            vr >= 0real,
            vr * vr > 0real,
    ;
    let inv = val(s);
    assert(inv * vr == 1real);
    assert forall|i: int| 0 <= i < x.len() implies vr * val(#[trigger] out[i]) == val(x[i]) * val(
        w[i],
    ) by {
        assert(n.twice_scaled(x[i], s, w[i], out[i]));
        let y = choose|y: T| #[trigger]
            n.gives(Op::Times(x[i], s), y) && n.gives(Op::Times(y, w[i]), out[i]);
        let (vx, vw, vy, vo) = (val(x[i]), val(w[i]), val(y), val(out[i]));
        assert(vy == vx * inv);
        assert(vo == vy * vw);
        assert(vr * (vx * inv * vw) == (inv * vr) * (vx * vw)) by (nonlinear_arith);
        assert(1real * (vx * vw) == vx * vw);
    }
    assert((vr * vr - val(eps)) * vk == vs);
    assert(divides_by(val, x, w, eps, out, vr));
}

/// `rms` is the root of the mean square of `x` plus `eps`, and `out`, times `rms`, is `x`
/// times `w`.
pub open spec fn divides_by<T>(
    val: spec_fn(T) -> real,
    x: Seq<T>,
    w: Seq<T>,
    eps: T,
    out: Seq<T>,
    rms: real,
) -> bool {
    &&& rms > 0real
    &&& (rms * rms - val(eps)) * ((x.len() as int) as real) == sum(
        |i: int| val(x[i]) * val(x[i]),
        x.len(),
    )
    &&& forall|i: int| 0 <= i < x.len() ==> rms * val(#[trigger] out[i]) == val(x[i]) * val(w[i])
}

/// A pair that is turned by the angle of a position keeps its length, and its new elements
/// are those of the rotation from the first towards the second by the position times the
/// frequency; the frequency of pair `i` is the inverse of the base to the power of
/// `2 * i / dim`.
pub proof fn law_pairs_are_rotated<T: Copy, F: Fn(Op<T>) -> T>(
    n: Numbers<T, F>,
    val: spec_fn(T) -> real,
    c: Calculus,
    base: T,
    dim: int,
    x: Seq<T>,
    start: int,
    position: usize,
    i: int,
    y: Seq<T>,
)
    requires
        n.exact(val, c),
        c.circular(),
        n.pair_placed(base, dim, x, start, position, i, y),
        0 <= i,
        0 < dim <= usize::MAX,
        2 * i <= usize::MAX,
        forall|b: real, e: real| #[trigger] (c.power)(b, e) > 0real,
    ensures
        exists|f: real, e: real|
            {
                &&& e * (dim as real) == (2 * i) as real
                &&& f * (c.power)(val(base), e) == 1real
                &&& #[trigger] turns(val, c, (position as int) as real, f, e, x, start + 2 * i, y)
            },
{
    let (cs, sn) = choose|cs: T, sn: T| #[trigger]
        n.angle_at(base, position, i, dim, cs, sn) && n.turned_at(x, start + 2 * i, cs, sn, y);
    let f = choose|f: T| #[trigger]
        n.frequency(base, i, dim, f) && n.angle_of(position, f, cs, sn);
    let (a, b, e, p) = choose|a: T, b: T, e: T, p: T|
        {
            &&& #[trigger] n.gives(Op::Count((2 * i) as usize), a)
            &&& #[trigger] n.gives(Op::Count(dim as usize), b)
            &&& #[trigger] n.gives(Op::Over(a, b), e)
            &&& #[trigger] n.gives(Op::Power(base, e), p)
            &&& n.gives(Op::Over(n.one, p), f)
        };
    let (q, angle) = choose|q: T, angle: T|
        {
            &&& #[trigger] n.gives(Op::Count(position), q)
            &&& #[trigger] n.gives(Op::Times(q, f), angle)
            &&& n.gives(Op::Cosine(angle), cs)
            &&& n.gives(Op::Sine(angle), sn)
        };
    let o = start + 2 * i;
    let (x0, x1, y0, y1) = (val(x[o]), val(x[o + 1]), val(y[o]), val(y[o + 1]));
    let (vc, vn) = (val(cs), val(sn));
    let (u, w) = choose|u: T, w: T|
        {
            &&& #[trigger] n.gives(Op::Times(x[o], cs), u)
            &&& #[trigger] n.gives(Op::Times(x[o + 1], sn), w)
            &&& n.gives(Op::Minus(u, w), y[o])
        };
    let (g, h) = choose|g: T, h: T|
        {
            &&& #[trigger] n.gives(Op::Times(x[o], sn), g)
            &&& #[trigger] n.gives(Op::Times(x[o + 1], cs), h)
            &&& n.gives(Op::Plus(g, h), y[o + 1])
        };
    assert(val(u) == x0 * vc && val(w) == x1 * vn && val(g) == x0 * vn && val(h) == x1 * vc);
    assert(y0 == x0 * vc - x1 * vn);
    assert(y1 == x0 * vn + x1 * vc);
    assert(val(e) * val(b) == val(a));
    assert((c.power)(val(base), val(e)) > 0real);
    assert(val(f) * val(p) == 1real);
    let turn = ((position as int) as real) * val(f);
    assert(val(angle) == turn);
    assert(vc == (c.cos)(turn) && vn == (c.sin)(turn));
    assert((c.cos)(turn) * (c.cos)(turn) + (c.sin)(turn) * (c.sin)(turn) == 1real);
    lemma_turn_keeps_length(x0, x1, vc, vn);
    assert(turns(val, c, (position as int) as real, val(f), val(e), x, o, y));
}

/// The pair at `o` is turned by the position times `f`, and keeps its length; `e` is what
/// `f` comes from.
pub open spec fn turns<T>(
    val: spec_fn(T) -> real,
    c: Calculus,
    position: real,
    f: real,
    e: real,
    x: Seq<T>,
    o: int,
    y: Seq<T>,
) -> bool {
    let angle = position * f;
    let (x0, x1) = (val(x[o]), val(x[o + 1]));
    let (y0, y1) = (val(y[o]), val(y[o + 1]));
    &&& y0 == x0 * (c.cos)(angle) - x1 * (c.sin)(angle)
    &&& y1 == x0 * (c.sin)(angle) + x1 * (c.cos)(angle)
    &&& y0 * y0 + y1 * y1 == x0 * x0 + x1 * x1
}

proof fn lemma_turn_keeps_length(x: real, y: real, c: real, s: real)
    requires
        c * c + s * s == 1real,
    ensures
        (x * c - y * s) * (x * c - y * s) + (x * s + y * c) * (x * s + y * c) == x * x + y * y,
{
    lemma_square_of_difference(x * c, y * s);
    lemma_square_of_sum(x * s, y * c);
    lemma_products_of_products(x, c, x, c);
    lemma_products_of_products(y, s, y, s);
    lemma_products_of_products(x, s, x, s);
    lemma_products_of_products(y, c, y, c);
    lemma_products_of_products(x, c, y, s);
    lemma_products_of_products(x, s, y, c);
    assert(c * s == s * c) by (nonlinear_arith);
    lemma_split_product(x * x, c * c, s * s);
    lemma_split_product(y * y, c * c, s * s);
    assert((x * x) * 1real == x * x);
    assert((y * y) * 1real == y * y);
}

proof fn lemma_square_of_difference(a: real, b: real)
    ensures
        (a - b) * (a - b) == a * a - a * b - a * b + b * b,
{
    assert((a - b) * (a - b) == a * a - a * b - a * b + b * b) by (nonlinear_arith);
}

proof fn lemma_square_of_sum(a: real, b: real)
    ensures
        (a + b) * (a + b) == a * a + a * b + a * b + b * b,
{
    assert((a + b) * (a + b) == a * a + a * b + a * b + b * b) by (nonlinear_arith);
}

proof fn lemma_products_of_products(a: real, b: real, c: real, d: real)
    ensures
        (a * b) * (c * d) == (a * c) * (b * d),
{
    assert((a * b) * (c * d) == (a * c) * (b * d)) by (nonlinear_arith);
}

proof fn lemma_split_product(a: real, b: real, c: real)
    ensures
        a * (b + c) == a * b + a * c,
{
    assert(a * (b + c) == a * b + a * c) by (nonlinear_arith);
}

/// What a head puts out is a mean of the values of all tokens stored: the weights are
/// positive and add up to one, two of them are to each other as the exponentials of their
/// scores, and a score, times the root of the head's length, is the dot product of the
/// query and the token's key.
pub proof fn law_head_averages_the_values<T: Copy, F: Fn(Op<T>) -> T>(
    n: Numbers<T, F>,
    val: spec_fn(T) -> real,
    c: Calculus,
    query: Seq<T>,
    cache: CacheView<T>,
    start: int,
    out: Seq<T>,
)
    requires
        n.exact(val, c),
        c.exponential(),
        n.head_attends(query, cache, start, out),
        0 < query.len() <= usize::MAX,
        cache.len > 0,
        0 <= start,
        start + query.len() <= cache.dim,
        cache.keys.len() >= cache.len * cache.dim,
    ensures
        out.len() == query.len(),
        exists|p: Seq<real>, s: Seq<real>, root: real| #[trigger]
            averages(val, c, query, cache, start, out, p, s, root),
{
    let (scale, scores, probs) = choose|scale: T, scores: Seq<T>, probs: Seq<T>|
        {
            &&& n.score_scale(query.len() as usize, scale)
            &&& #[trigger] n.head_scores(query, cache, start, scale, scores)
            &&& #[trigger] n.softmaxed(scores, probs)
            &&& forall|d: int|
                0 <= d < out.len() ==> n.dots_to(
                    probs,
                    value_column(cache, start + d),
                    #[trigger] out[d],
                )
        };
    law_softmax_makes_probabilities(n, val, c, scores, probs);
    let p = probs.map_values(|t: T| val(t));
    let s = scores.map_values(|t: T| val(t));
    lemma_sum_congruence(|i: int| val(probs[i]), |i: int| p[i], cache.len);
    let (k, r) = choose|k: T, r: T|
        {
            &&& #[trigger] n.gives(Op::Count(query.len() as usize), k)
            &&& #[trigger] n.gives(Op::Root(k), r)
            &&& n.gives(Op::Over(n.one, r), scale)
        };
    let root = val(r);
    assert(val(k) == (query.len() as int) as real);
    assert(root >= 0real && root * root == (query.len() as int) as real);
    assert(root > 0real) by (nonlinear_arith)
        requires
            root >= 0real,
            root * root > 0real,
    ;
    let vs = val(scale);
    assert(vs * root == 1real);
    assert forall|j: int| 0 <= j < cache.len implies root * #[trigger] s[j] == sum(
        |i: int| val(query[i]) * val(cache.keys[j * cache.dim + start + i]),
        query.len(),
    ) by {
        let key = part_of(cache.keys, cache.dim, j, start, query.len() as int);
        assert(n.scaled_dot(query, key, scale, scores[j]));
        let d = choose|d: T| #[trigger]
            n.dots_to(query, key, d) && n.gives(Op::Times(d, scale), scores[j]);
        law_dots_add_up_products(n, val, query, key, d);
        assert(j * cache.dim + cache.dim <= cache.len * cache.dim && 0 <= j * cache.dim)
            by (nonlinear_arith)
            requires
                j + 1 <= cache.len,
                0 <= j,
        ;
        lemma_sum_congruence(
            |i: int| val(query[i]) * val(key[i]),
            |i: int| val(query[i]) * val(cache.keys[j * cache.dim + start + i]),
            query.len(),
        );
        let (vd, sj) = (val(d), val(scores[j]));
        assert(sj == vd * vs);
        assert(root * (vd * vs) == vd * (vs * root)) by (nonlinear_arith);
        assert(vd * 1real == vd);
    }
    assert forall|d: int| 0 <= d < out.len() implies val(#[trigger] out[d]) == sum(
        |j: int| p[j] * val(cache.values[j * cache.dim + start + d]),
        cache.len,
    ) by {
        let column = value_column(cache, start + d);
        law_dots_add_up_products(n, val, probs, column, out[d]);
        assert forall|j: int| 0 <= j < cache.len implies #[trigger] column[j]
            == cache.values[j * cache.dim + start + d] by {
            assert(j * cache.dim + (start + d) == j * cache.dim + start + d);
        }
        lemma_sum_congruence(
            |j: int| val(probs[j]) * val(column[j]),
            |j: int| p[j] * val(cache.values[j * cache.dim + start + d]),
            cache.len,
        );
    }
    assert forall|i: int, j: int| 0 <= i < cache.len && 0 <= j < cache.len implies #[trigger] p[i]
        * (c.exp)(s[j]) == #[trigger] p[j] * (c.exp)(s[i]) by {
        assert(val(probs[i]) * (c.exp)(val(scores[j])) == val(probs[j]) * (c.exp)(val(scores[i])));
    }
    assert forall|j: int| 0 <= j < cache.len implies #[trigger] p[j] > 0real by {
        assert(val(probs[j]) > 0real);
    }
    assert(averages(val, c, query, cache, start, out, p, s, root));
}

/// `out` holds the means of the values from `start` on by the weights `p`, which go by the
/// scores `s`, which are dot products with the keys over the root of their length.
pub open spec fn averages<T>(
    val: spec_fn(T) -> real,
    c: Calculus,
    query: Seq<T>,
    cache: CacheView<T>,
    start: int,
    out: Seq<T>,
    p: Seq<real>,
    s: Seq<real>,
    root: real,
) -> bool {
    &&& p.len() == cache.len && s.len() == cache.len
    &&& sum(|j: int| p[j], cache.len) == 1real
    &&& forall|j: int| 0 <= j < cache.len ==> #[trigger] p[j] > 0real
    &&& forall|i: int, j: int|
        0 <= i < cache.len && 0 <= j < cache.len ==> #[trigger] p[i] * (c.exp)(s[j])
            == #[trigger] p[j] * (c.exp)(s[i])
    &&& root > 0real && root * root == (query.len() as int) as real
    &&& forall|j: int|
        0 <= j < cache.len ==> root * #[trigger] s[j] == sum(
            |i: int| val(query[i]) * val(cache.keys[j * cache.dim + start + i]),
            query.len(),
        )
    &&& forall|d: int|
        0 <= d < out.len() ==> val(#[trigger] out[d]) == sum(
            |j: int| p[j] * val(cache.values[j * cache.dim + start + d]),
            cache.len,
        )
}

/// The probabilities of tokens are those of softmax at a temperature: two of them are to
/// each other as the exponentials of their values over the temperature, and all add up to
/// one.
pub proof fn law_probabilities_go_by_temperature<F: Fn(Op<u32>) -> u32>(
    n: Numbers<u32, F>,
    val: spec_fn(u32) -> real,
    c: Calculus,
    config: crate::sampler::SamplerConfig,
    v: Seq<u32>,
    p: Seq<u32>,
)
    requires
        n.exact(val, c),
        c.exponential(),
        crate::sampler::probabilities(n, config, v, p),
        v.len() > 0,
        val(config.temperature) != 0real,
    ensures
        p.len() == v.len(),
        sum(|i: int| val(p[i]), p.len()) == 1real,
        exists|w: Seq<u32>|
            {
                &&& #[trigger] w.len() == v.len()
                &&& forall|i: int|
                    0 <= i < v.len() ==> val(#[trigger] w[i]) * val(config.temperature) == val(v[i])
                &&& forall|i: int, j: int|
                    0 <= i < p.len() && 0 <= j < p.len() ==> val(#[trigger] p[i]) * (c.exp)(
                        val(w[j]),
                    ) == val(#[trigger] p[j]) * (c.exp)(val(w[i]))
            },
{
    let w = choose|w: Seq<u32>| #[trigger]
        n.over_each(v, config.temperature, w) && n.softmaxed(w, p);
    law_softmax_makes_probabilities(n, val, c, w, p);
    assert forall|i: int| 0 <= i < v.len() implies val(#[trigger] w[i]) * val(config.temperature)
        == val(v[i]) by {
        assert(n.gives(Op::Over(v[i], config.temperature), w[i]));
    }
    assert(w.len() == v.len());
}

/// The largest of some numbers is one of them, and none is larger.
pub proof fn law_largest_is_one_of_them<T: Copy, F: Fn(Op<T>) -> T>(
    n: Numbers<T, F>,
    val: spec_fn(T) -> real,
    a: Seq<T>,
    m: T,
)
    requires
        forall|x: T, y: T, r: T| #[trigger]
            n.gives(Op::Larger(x, y), r) ==> (r == x && val(y) <= val(x)) || (r == y && val(x)
                <= val(y)),
        forall|x: T| val(n.lowest) < #[trigger] val(x) || x == n.lowest,
        n.max_of(a, m),
        a.len() > 0,
        forall|i: int| 0 <= i < a.len() ==> #[trigger] a[i] != n.lowest,
    ensures
        a.contains(m),
        forall|i: int| 0 <= i < a.len() ==> val(#[trigger] a[i]) <= val(m),
{
    let t = choose|t: Seq<T>| #[trigger]
        n.running_max(a, t) && t.len() == a.len() + 1 && t.last() == m;
    lemma_running_max(n, val, a, t, a.len() as int);
}

proof fn lemma_running_max<T: Copy, F: Fn(Op<T>) -> T>(
    n: Numbers<T, F>,
    val: spec_fn(T) -> real,
    a: Seq<T>,
    t: Seq<T>,
    k: int,
)
    requires
        forall|x: T, y: T, r: T| #[trigger]
            n.gives(Op::Larger(x, y), r) ==> (r == x && val(y) <= val(x)) || (r == y && val(x)
                <= val(y)),
        forall|x: T| val(n.lowest) < #[trigger] val(x) || x == n.lowest,
        n.running_max(a, t),
        t.len() == a.len() + 1,
        forall|i: int| 0 <= i < a.len() ==> #[trigger] a[i] != n.lowest,
        0 <= k <= a.len(),
    ensures
        k > 0 ==> a.contains(t[k]),
        forall|i: int| 0 <= i < k ==> val(#[trigger] a[i]) <= val(t[k]),
    decreases k,
{
    if k > 0 {
        lemma_running_max(n, val, a, t, k - 1);
        assert(n.gives(Op::Larger(t[k - 1], a[k - 1]), t[k]));
        assert(a[k - 1] != n.lowest);
        assert(a.contains(a[k - 1]));
        if k == 1 {
            assert(t[0] == n.lowest);
            assert(val(n.lowest) < val(a[0]));
        }
    }
}

} // verus!
