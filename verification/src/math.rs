//! Vector and matrix operations over numbers whose arithmetic is handed in.

use crate::arith::{Numbers, Op};
use vstd::prelude::*;

pub use crate::ranking::{argmax, top_k};

verus! {

impl<T: Copy, F: Fn(Op<T>) -> T> Numbers<T, F> {
    /// `out` holds the sums of the elements of `a` and `b`.
    pub open spec fn added(&self, a: Seq<T>, b: Seq<T>, out: Seq<T>) -> bool {
        &&& out.len() == a.len()
        &&& forall|i: int| 0 <= i < a.len() ==> self.gives(Op::Plus(a[i], b[i]), #[trigger] out[i])
    }

    /// `out` holds the products of the elements of `a` and `b`.
    pub open spec fn multiplied(&self, a: Seq<T>, b: Seq<T>, out: Seq<T>) -> bool {
        &&& out.len() == a.len()
        &&& forall|i: int| 0 <= i < a.len() ==> self.gives(Op::Times(a[i], b[i]), #[trigger] out[i])
    }

    /// `out` holds the elements of `a` times `s`.
    pub open spec fn scaled(&self, a: Seq<T>, s: T, out: Seq<T>) -> bool {
        &&& out.len() == a.len()
        &&& forall|i: int| 0 <= i < a.len() ==> self.gives(Op::Times(a[i], s), #[trigger] out[i])
    }

    /// `t` holds the running sums of `a`, from zero on.
    pub open spec fn running_sums(&self, a: Seq<T>, t: Seq<T>) -> bool {
        &&& t.len() > 0
        &&& t[0] == self.zero
        &&& forall|i: int|
            0 < i < t.len() ==> self.gives(Op::Plus(t[i - 1], a[i - 1]), #[trigger] t[i])
    }

    /// `r` is the sum of `a`, added up from zero on, element after element.
    pub open spec fn sums_to(&self, a: Seq<T>, r: T) -> bool {
        exists|t: Seq<T>| #[trigger]
            self.running_sums(a, t) && t.len() == a.len() + 1 && t.last() == r
    }

    /// `t` holds the running sums of the products of `a` and `b`, from zero on.
    pub open spec fn running_dots(&self, a: Seq<T>, b: Seq<T>, t: Seq<T>) -> bool {
        &&& t.len() > 0
        &&& t[0] == self.zero
        &&& forall|i: int|
            0 < i < t.len() ==> self.plus_product(t[i - 1], a[i - 1], b[i - 1], #[trigger] t[i])
    }

    /// `r` is the dot product of `a` and `b`: their products, added up from zero on,
    /// element after element.
    pub open spec fn dots_to(&self, a: Seq<T>, b: Seq<T>, r: T) -> bool {
        exists|t: Seq<T>| #[trigger]
            self.running_dots(a, b, t) && t.len() == a.len() + 1 && t.last() == r
    }

    /// The larger of what came before and the next element, over the first `k`
    /// elements.
    pub open spec fn running_max(&self, a: Seq<T>, t: Seq<T>) -> bool {
        &&& t.len() > 0
        &&& t[0] == self.lowest
        &&& forall|i: int|
            0 < i < t.len() ==> self.gives(Op::Larger(t[i - 1], a[i - 1]), #[trigger] t[i])
    }

    /// `m` is the largest element of `a`, or the lowest number.
    pub open spec fn max_of(&self, a: Seq<T>, m: T) -> bool {
        exists|t: Seq<T>| #[trigger]
            self.running_max(a, t) && t.len() == a.len() + 1 && t.last() == m
    }

    /// `e` is the exponential of the difference between `x` and `m`.
    pub open spec fn exp_above(&self, x: T, m: T, e: T) -> bool {
        exists|d: T| #[trigger] self.gives(Op::Minus(x, m), d) && self.gives(Op::Exp(d), e)
    }

    /// `e` holds the exponentials of the elements of `a`, taken relative to `m`.
    pub open spec fn exps_above(&self, a: Seq<T>, m: T, e: Seq<T>) -> bool {
        &&& e.len() == a.len()
        &&& forall|i: int| 0 <= i < a.len() ==> self.exp_above(a[i], m, #[trigger] e[i])
    }

    /// `out` holds the elements of `a` times the inverse of `s`.
    pub open spec fn divided(&self, a: Seq<T>, s: T, out: Seq<T>) -> bool {
        exists|inv: T| #[trigger]
            self.gives(Op::Over(self.one, s), inv) && self.scaled(a, inv, out)
    }

    /// `out` is the softmax of `a`: the exponentials of its elements, taken relative
    /// to the largest, over their sum. Nothing stays nothing.
    pub open spec fn softmaxed(&self, a: Seq<T>, out: Seq<T>) -> bool {
        if a.len() == 0 {
            out == a
        } else {
            exists|m: T, e: Seq<T>, s: T|
                {
                    &&& self.max_of(a, m)
                    &&& #[trigger] self.exps_above(a, m, e)
                    &&& #[trigger] self.sums_to(e, s)
                    &&& self.divided(e, s, out)
                }
        }
    }

    /// `r` is `x / (1 + exp(-x))`.
    pub open spec fn silu_upper(&self, x: T, r: T) -> bool {
        exists|m: T, e: T, d: T|
            {
                &&& #[trigger] self.gives(Op::Negative(x), m)
                &&& #[trigger] self.gives(Op::Exp(m), e)
                &&& #[trigger] self.gives(Op::Plus(self.one, e), d)
                &&& self.gives(Op::Over(x, d), r)
            }
    }

    /// `r` is `x * exp(x) / (1 + exp(x))`.
    pub open spec fn silu_lower(&self, x: T, r: T) -> bool {
        exists|e: T, p: T, d: T|
            {
                &&& #[trigger] self.gives(Op::Exp(x), e)
                &&& #[trigger] self.gives(Op::Times(x, e), p)
                &&& #[trigger] self.gives(Op::Plus(self.one, e), d)
                &&& self.gives(Op::Over(p, d), r)
            }
    }

    /// `r` is SiLU of `x`, computed in the form that does not overflow: the first
    /// where `x` is not below zero, else the second.
    pub open spec fn silu_of(&self, x: T, r: T) -> bool {
        exists|u: T, l: T| #[trigger]
            self.silu_upper(x, u) && #[trigger] self.silu_lower(x, l) && self.gives(
                Op::Choice(x, u, l),
                r,
            )
    }

    /// `out` holds SiLU of each element of `a`.
    pub open spec fn silu_each(&self, a: Seq<T>, out: Seq<T>) -> bool {
        &&& out.len() == a.len()
        &&& forall|i: int| 0 <= i < a.len() ==> self.silu_of(a[i], #[trigger] out[i])
    }

    /// `s` is one over the root of the mean square of `x` plus `eps`.
    pub open spec fn rms_scale(&self, x: Seq<T>, eps: T, s: T) -> bool {
        exists|ss: T, n: T, mean: T, sum: T, rms: T|
            {
                &&& #[trigger] self.dots_to(x, x, ss)
                &&& #[trigger] self.gives(Op::Count(x.len() as usize), n)
                &&& #[trigger] self.gives(Op::Over(ss, n), mean)
                &&& #[trigger] self.gives(Op::Plus(mean, eps), sum)
                &&& #[trigger] self.gives(Op::Root(sum), rms)
                &&& self.gives(Op::Over(self.one, rms), s)
            }
    }

    /// `r` is `x * s * w`.
    pub open spec fn twice_scaled(&self, x: T, s: T, w: T, r: T) -> bool {
        exists|y: T| #[trigger] self.gives(Op::Times(x, s), y) && self.gives(Op::Times(y, w), r)
    }

    /// `out` is `x` over its root mean square, times `w`.
    pub open spec fn rms_normed(&self, x: Seq<T>, w: Seq<T>, eps: T, out: Seq<T>) -> bool {
        &&& out.len() == x.len()
        &&& exists|s: T| #[trigger]
            self.rms_scale(x, eps, s) && forall|i: int|
                0 <= i < x.len() ==> self.twice_scaled(x[i], s, w[i], #[trigger] out[i])
    }
}

/// Element-wise addition: out[i] = a[i] + b[i]
pub fn vec_add<T: Copy, F: Fn(Op<T>) -> T>(n: &Numbers<T, F>, a: &[T], b: &[T], out: &mut [T])
    requires
        n.total(),
        a@.len() == b@.len(),
        a@.len() == old(out)@.len(),
    ensures
        n.added(a@, b@, final(out)@),
{
    let mut i: usize = 0;
    while i < a.len()
        invariant
            n.total(),
            i <= a@.len(),
            a@.len() == b@.len(),
            a@.len() == out@.len(),
            forall|j: int| 0 <= j < i ==> n.gives(Op::Plus(a@[j], b@[j]), #[trigger] out@[j]),
        decreases a@.len() - i,
    {
        out[i] = n.run(Op::Plus(a[i], b[i]));
        i += 1;
    }
}

/// In-place element-wise addition: a[i] += b[i]
pub fn vec_add_inplace<T: Copy, F: Fn(Op<T>) -> T>(n: &Numbers<T, F>, a: &mut [T], b: &[T])
    requires
        n.total(),
        old(a)@.len() == b@.len(),
    ensures
        n.added(old(a)@, b@, final(a)@),
{
    let ghost v = a@;
    let mut i: usize = 0;
    while i < b.len()
        invariant
            n.total(),
            i <= b@.len(),
            v.len() == b@.len(),
            a@.len() == v.len(),
            v == old(a)@,
            forall|j: int| 0 <= j < i ==> n.gives(Op::Plus(v[j], b@[j]), #[trigger] a@[j]),
            forall|j: int| i <= j < v.len() ==> #[trigger] a@[j] == v[j],
        decreases b@.len() - i,
    {
        let x: T = a[i];
        a[i] = n.run(Op::Plus(x, b[i]));
        i += 1;
    }
}

/// Element-wise multiplication: out[i] = a[i] * b[i]
pub fn vec_mul<T: Copy, F: Fn(Op<T>) -> T>(n: &Numbers<T, F>, a: &[T], b: &[T], out: &mut [T])
    requires
        n.total(),
        a@.len() == b@.len(),
        a@.len() == old(out)@.len(),
    ensures
        n.multiplied(a@, b@, final(out)@),
{
    let mut i: usize = 0;
    while i < a.len()
        invariant
            n.total(),
            i <= a@.len(),
            a@.len() == b@.len(),
            a@.len() == out@.len(),
            forall|j: int| 0 <= j < i ==> n.gives(Op::Times(a@[j], b@[j]), #[trigger] out@[j]),
        decreases a@.len() - i,
    {
        out[i] = n.run(Op::Times(a[i], b[i]));
        i += 1;
    }
}

/// In-place element-wise multiplication: a[i] *= b[i]
pub fn vec_mul_inplace<T: Copy, F: Fn(Op<T>) -> T>(n: &Numbers<T, F>, a: &mut [T], b: &[T])
    requires
        n.total(),
        old(a)@.len() == b@.len(),
    ensures
        n.multiplied(old(a)@, b@, final(a)@),
{
    let ghost v = a@;
    let mut i: usize = 0;
    while i < b.len()
        invariant
            n.total(),
            i <= b@.len(),
            v.len() == b@.len(),
            a@.len() == v.len(),
            v == old(a)@,
            forall|j: int| 0 <= j < i ==> n.gives(Op::Times(v[j], b@[j]), #[trigger] a@[j]),
            forall|j: int| i <= j < v.len() ==> #[trigger] a@[j] == v[j],
        decreases b@.len() - i,
    {
        let x: T = a[i];
        a[i] = n.run(Op::Times(x, b[i]));
        i += 1;
    }
}

/// Scalar-vector multiplication: out[i] = a[i] * s
pub fn vec_scale<T: Copy, F: Fn(Op<T>) -> T>(n: &Numbers<T, F>, a: &[T], s: T, out: &mut [T])
    requires
        n.total(),
        a@.len() == old(out)@.len(),
    ensures
        n.scaled(a@, s, final(out)@),
{
    let mut i: usize = 0;
    while i < a.len()
        invariant
            n.total(),
            i <= a@.len(),
            a@.len() == out@.len(),
            forall|j: int| 0 <= j < i ==> n.gives(Op::Times(a@[j], s), #[trigger] out@[j]),
        decreases a@.len() - i,
    {
        out[i] = n.run(Op::Times(a[i], s));
        i += 1;
    }
}

/// In-place scalar multiplication: a[i] *= s
pub fn vec_scale_inplace<T: Copy, F: Fn(Op<T>) -> T>(n: &Numbers<T, F>, a: &mut [T], s: T)
    requires
        n.total(),
    ensures
        n.scaled(old(a)@, s, final(a)@),
{
    let ghost v = a@;
    let mut i: usize = 0;
    while i < a.len()
        invariant
            n.total(),
            i <= v.len(),
            a@.len() == v.len(),
            v == old(a)@,
            forall|j: int| 0 <= j < i ==> n.gives(Op::Times(v[j], s), #[trigger] a@[j]),
            forall|j: int| i <= j < v.len() ==> #[trigger] a@[j] == v[j],
        decreases v.len() - i,
    {
        let x: T = a[i];
        a[i] = n.run(Op::Times(x, s));
        i += 1;
    }
}

/// Dot product: sum(a[i] * b[i])
pub fn dot_product<T: Copy, F: Fn(Op<T>) -> T>(n: &Numbers<T, F>, a: &[T], b: &[T]) -> (r: T)
    requires
        n.total(),
        a@.len() == b@.len(),
    ensures
        n.dots_to(a@, b@, r),
{
    let mut sum: T = n.zero;
    let ghost mut t: Seq<T> = seq![n.zero];
    let mut i: usize = 0;
    while i < a.len()
        invariant
            n.total(),
            i <= a@.len(),
            a@.len() == b@.len(),
            n.running_dots(a@, b@, t),
            t.len() == i + 1,
            t.last() == sum,
        decreases a@.len() - i,
    {
        sum = n.add_product(sum, a[i], b[i]);
        proof {
            t = t.push(sum);
        }
        i += 1;
    }
    sum
}

/// Euclidean norm (L2 norm)
pub fn vec_norm<T: Copy, F: Fn(Op<T>) -> T>(n: &Numbers<T, F>, a: &[T]) -> (r: T)
    requires
        n.total(),
    ensures
        exists|d: T| #[trigger] n.dots_to(a@, a@, d) && n.gives(Op::Root(d), r),
{
    let d: T = dot_product(n, a, a);
    n.run(Op::Root(d))
}

/// Sum of elements
pub fn vec_sum<T: Copy, F: Fn(Op<T>) -> T>(n: &Numbers<T, F>, a: &[T]) -> (r: T)
    requires
        n.total(),
    ensures
        n.sums_to(a@, r),
{
    let mut sum: T = n.zero;
    let ghost mut t: Seq<T> = seq![n.zero];
    let mut i: usize = 0;
    while i < a.len()
        invariant
            n.total(),
            i <= a@.len(),
            n.running_sums(a@, t),
            t.len() == i + 1,
            t.last() == sum,
        decreases a@.len() - i,
    {
        sum = n.run(Op::Plus(sum, a[i]));
        proof {
            t = t.push(sum);
        }
        i += 1;
    }
    sum
}

fn vec_max<T: Copy, F: Fn(Op<T>) -> T>(n: &Numbers<T, F>, a: &[T]) -> (r: T)
    requires
        n.total(),
    ensures
        n.max_of(a@, r),
{
    let mut m: T = n.lowest;
    let ghost mut t: Seq<T> = seq![n.lowest];
    let mut i: usize = 0;
    while i < a.len()
        invariant
            n.total(),
            i <= a@.len(),
            n.running_max(a@, t),
            t.len() == i + 1,
            t.last() == m,
        decreases a@.len() - i,
    {
        m = n.run(Op::Larger(m, a[i]));
        proof {
            t = t.push(m);
        }
        i += 1;
    }
    m
}

/// Softmax over a slice: out[i] = exp(a[i]) / sum(exp(a[j]))
pub fn softmax<T: Copy, F: Fn(Op<T>) -> T>(n: &Numbers<T, F>, a: &[T], out: &mut [T])
    requires
        n.total(),
        a@.len() == old(out)@.len(),
    ensures
        n.softmaxed(a@, final(out)@),
        final(out)@.len() == a@.len(),
{
    let mut i: usize = 0;
    while i < a.len()
        invariant
            i <= a@.len(),
            a@.len() == out@.len(),
            forall|j: int| 0 <= j < i ==> #[trigger] out@[j] == a@[j],
        decreases a@.len() - i,
    {
        out[i] = a[i];
        i += 1;
    }
    assert(out@ =~= a@);
    softmax_inplace(n, out);
}

/// Softmax in-place
pub fn softmax_inplace<T: Copy, F: Fn(Op<T>) -> T>(n: &Numbers<T, F>, a: &mut [T])
    requires
        n.total(),
    ensures
        n.softmaxed(old(a)@, final(a)@),
        final(a)@.len() == old(a)@.len(),
{
    if a.len() == 0 {
        return;
    }
    let ghost v = a@;
    let max_val: T = vec_max(n, a);
    let mut i: usize = 0;
    while i < a.len()
        invariant
            n.total(),
            i <= v.len(),
            a@.len() == v.len(),
            v == old(a)@,
            forall|j: int| 0 <= j < i ==> n.exp_above(v[j], max_val, #[trigger] a@[j]),
            forall|j: int| i <= j < v.len() ==> #[trigger] a@[j] == v[j],
        decreases v.len() - i,
    {
        let x: T = a[i];
        let d: T = n.run(Op::Minus(x, max_val));
        let e: T = n.run(Op::Exp(d));
        assert(n.exp_above(v[i as int], max_val, e));
        a[i] = e;
        i += 1;
    }
    let ghost e = a@;
    let exp_sum: T = vec_sum(n, a);
    let inv_sum: T = n.run(Op::Over(n.one, exp_sum));
    vec_scale_inplace(n, a, inv_sum);
    assert(n.exps_above(v, max_val, e));
    assert(n.divided(e, exp_sum, a@));
}

/// Single element SiLU
pub fn silu_single<T: Copy, F: Fn(Op<T>) -> T>(n: &Numbers<T, F>, x: T) -> (r: T)
    requires
        n.total(),
    ensures
        n.silu_of(x, r),
{
    let m: T = n.run(Op::Negative(x));
    let e: T = n.run(Op::Exp(m));
    let d: T = n.run(Op::Plus(n.one, e));
    let u: T = n.run(Op::Over(x, d));
    assert(n.silu_upper(x, u));
    let e2: T = n.run(Op::Exp(x));
    let p: T = n.run(Op::Times(x, e2));
    let d2: T = n.run(Op::Plus(n.one, e2));
    let l: T = n.run(Op::Over(p, d2));
    assert(n.silu_lower(x, l));
    n.run(Op::Choice(x, u, l))
}

/// SiLU activation: out[i] = a[i] * sigmoid(a[i]) = a[i] / (1 + exp(-a[i]))
pub fn silu<T: Copy, F: Fn(Op<T>) -> T>(n: &Numbers<T, F>, a: &[T], out: &mut [T])
    requires
        n.total(),
        a@.len() == old(out)@.len(),
    ensures
        n.silu_each(a@, final(out)@),
{
    let mut i: usize = 0;
    while i < a.len()
        invariant
            n.total(),
            i <= a@.len(),
            a@.len() == out@.len(),
            forall|j: int| 0 <= j < i ==> n.silu_of(a@[j], #[trigger] out@[j]),
        decreases a@.len() - i,
    {
        out[i] = silu_single(n, a[i]);
        i += 1;
    }
}

/// In-place SiLU
pub fn silu_inplace<T: Copy, F: Fn(Op<T>) -> T>(n: &Numbers<T, F>, a: &mut [T])
    requires
        n.total(),
    ensures
        n.silu_each(old(a)@, final(a)@),
{
    let ghost v = a@;
    let mut i: usize = 0;
    while i < a.len()
        invariant
            n.total(),
            i <= v.len(),
            a@.len() == v.len(),
            v == old(a)@,
            forall|j: int| 0 <= j < i ==> n.silu_of(v[j], #[trigger] a@[j]),
            forall|j: int| i <= j < v.len() ==> #[trigger] a@[j] == v[j],
        decreases v.len() - i,
    {
        let x: T = a[i];
        a[i] = silu_single(n, x);
        i += 1;
    }
}

/// ReLU activation: out[i] = max(0, a[i])
pub fn relu<T: Copy, F: Fn(Op<T>) -> T>(n: &Numbers<T, F>, a: &[T], out: &mut [T])
    requires
        n.total(),
        a@.len() == old(out)@.len(),
    ensures
        final(out)@.len() == a@.len(),
        forall|i: int|
            0 <= i < a@.len() ==> n.gives(Op::Larger(a@[i], n.zero), #[trigger] final(out)@[i]),
{
    let mut i: usize = 0;
    while i < a.len()
        invariant
            n.total(),
            i <= a@.len(),
            a@.len() == out@.len(),
            forall|j: int| 0 <= j < i ==> n.gives(Op::Larger(a@[j], n.zero), #[trigger] out@[j]),
        decreases a@.len() - i,
    {
        out[i] = n.run(Op::Larger(a[i], n.zero));
        i += 1;
    }
}

proof fn lemma_cell(i: int, rows: int, cols: int)
    requires
        0 <= i < rows,
        cols >= 0,
    ensures
        0 <= i * cols,
        i * cols + cols <= rows * cols,
        (i + 1) * cols == i * cols + cols,
{
    assert((i + 1) * cols == i * cols + cols) by (nonlinear_arith);
    assert(0 <= i * cols) by (nonlinear_arith)
        requires
            0 <= i,
            0 <= cols,
    ;
    assert(i * cols + cols <= rows * cols) by (nonlinear_arith)
        requires
            i + 1 <= rows,
            0 <= cols,
    ;
}

/// Row `i` of a matrix in row-major order.
pub open spec fn row_of<T>(a: Seq<T>, i: int, cols: int) -> Seq<T> {
    a.subrange(i * cols, i * cols + cols)
}

/// Column `j` of a matrix in row-major order.
pub open spec fn column_of<T>(b: Seq<T>, j: int, rows: nat, cols: int) -> Seq<T> {
    Seq::new(rows, |l: int| b[l * cols + j])
}

fn dot_column<T: Copy, F: Fn(Op<T>) -> T>(
    n: &Numbers<T, F>,
    a_row: &[T],
    b: &[T],
    j: usize,
    cols: usize,
) -> (r: T)
    requires
        n.total(),
        j < cols,
        b@.len() == a_row@.len() * cols,
    ensures
        n.dots_to(a_row@, column_of(b@, j as int, a_row@.len(), cols as int), r),
{
    let ghost c = column_of(b@, j as int, a_row@.len(), cols as int);
    let mut sum: T = n.zero;
    let ghost mut t: Seq<T> = seq![n.zero];
    let mut l: usize = 0;
    while l < a_row.len()
        invariant
            n.total(),
            l <= a_row@.len(),
            j < cols,
            b@.len() == a_row@.len() * cols,
            c == column_of(b@, j as int, a_row@.len(), cols as int),
            n.running_dots(a_row@, c, t),
            t.len() == l + 1,
            t.last() == sum,
        decreases a_row@.len() - l,
    {
        proof {
            lemma_cell(l as int, a_row@.len() as int, cols as int);
            assert(b.len() <= usize::MAX);
        }
        sum = n.add_product(sum, a_row[l], b[l * cols + j]);
        proof {
            assert(c[l as int] == b@[l * cols + j]);
            t = t.push(sum);
        }
        l += 1;
    }
    sum
}

/// Matrix multiplication: C = A × B
/// A: (M, K), B: (K, N), C: (M, N)
/// All stored in row-major order.
pub fn mat_mul<T: Copy, F: Fn(Op<T>) -> T>(
    num: &Numbers<T, F>,
    a: &[T],
    b: &[T],
    c: &mut [T],
    m: usize,
    k: usize,
    n: usize,
)
    requires
        num.total(),
        a@.len() == m * k,
        b@.len() == k * n,
        old(c)@.len() == m * n,
    ensures
        final(c)@.len() == m * n,
        forall|i: int, j: int|
            0 <= i < m && 0 <= j < n ==> num.dots_to(
                row_of(a@, i, k as int),
                column_of(b@, j, k as nat, n as int),
                #[trigger] final(c)@[i * n + j],
            ),
{
    let mut i: usize = 0;
    while i < m
        invariant
            num.total(),
            i <= m,
            a@.len() == m * k,
            b@.len() == k * n,
            c@.len() == m * n,
            forall|p: int, j: int|
                0 <= p < i && 0 <= j < n ==> num.dots_to(
                    row_of(a@, p, k as int),
                    column_of(b@, j, k as nat, n as int),
                    #[trigger] c@[p * n + j],
                ),
        decreases m - i,
    {
        proof {
            lemma_cell(i as int, m as int, k as int);
            assert(a.len() <= usize::MAX);
        }
        let a_row = &a[i * k..i * k + k];
        let mut j: usize = 0;
        while j < n
            invariant
                num.total(),
                i < m,
                j <= n,
                a_row@ == row_of(a@, i as int, k as int),
                a_row@.len() == k,
                b@.len() == k * n,
                c@.len() == m * n,
                forall|q: int|
                    0 <= q < j ==> num.dots_to(
                        a_row@,
                        column_of(b@, q, k as nat, n as int),
                        #[trigger] c@[i * n + q],
                    ),
                forall|p: int, q: int|
                    0 <= p < i && 0 <= q < n ==> num.dots_to(
                        row_of(a@, p, k as int),
                        column_of(b@, q, k as nat, n as int),
                        #[trigger] c@[p * n + q],
                    ),
            decreases n - j,
        {
            let x: T = dot_column(num, a_row, b, j, n);
            proof {
                lemma_cell(i as int, m as int, n as int);
                assert(c.len() <= usize::MAX);
                assert forall|p: int, q: int| 0 <= p < i && 0 <= q < n implies #[trigger] (p * n + q)
                    < i * n by {
                    lemma_cell(p, i as int, n as int);
                }
            }
            let ghost before = c@;
            c[i * n + j] = x;
            proof {
                assert forall|p: int, q: int| 0 <= p < i && 0 <= q < n implies num.dots_to(
                    row_of(a@, p, k as int),
                    column_of(b@, q, k as nat, n as int),
                    #[trigger] c@[p * n + q],
                ) by {
                    lemma_cell(p, i as int, n as int);
                    assert(c@[p * n + q] == before[p * n + q]);
                }
            }
            j += 1;
        }
        i += 1;
    }
}

/// Matrix-vector multiply for GGUF weight layout: the weights of one output stand
/// next to each other.
/// This computes: out[i] = Σ_j x[j] * weight[j + in_dim * i]
pub fn mat_vec_mul_transposed<T: Copy, F: Fn(Op<T>) -> T>(
    n: &Numbers<T, F>,
    weight: &[T],
    x: &[T],
    out: &mut [T],
    out_dim: usize,
    in_dim: usize,
)
    requires
        n.total(),
        weight@.len() == in_dim * out_dim,
        x@.len() == in_dim,
        old(out)@.len() == out_dim,
    ensures
        final(out)@.len() == out_dim,
        forall|i: int|
            0 <= i < out_dim ==> n.dots_to(
                row_of(weight@, i, in_dim as int),
                x@,
                #[trigger] final(out)@[i],
            ),
{
    let mut i: usize = 0;
    while i < out_dim
        invariant
            n.total(),
            i <= out_dim,
            weight@.len() == in_dim * out_dim,
            x@.len() == in_dim,
            out@.len() == out_dim,
            forall|j: int|
                0 <= j < i ==> n.dots_to(
                    row_of(weight@, j, in_dim as int),
                    x@,
                    #[trigger] out@[j],
                ),
        decreases out_dim - i,
    {
        proof {
            lemma_cell(i as int, out_dim as int, in_dim as int);
            assert(weight.len() <= usize::MAX);
            assert(in_dim * out_dim == out_dim * in_dim) by (nonlinear_arith);
        }
        let start: usize = i * in_dim;
        out[i] = dot_product(n, &weight[start..start + in_dim], x);
        i += 1;
    }
}

/// Matrix-vector multiply for standard row-major storage W[out_dim, in_dim]
pub fn mat_vec_mul<T: Copy, F: Fn(Op<T>) -> T>(
    n: &Numbers<T, F>,
    weight: &[T],
    x: &[T],
    y: &mut [T],
    out_dim: usize,
    in_dim: usize,
)
    requires
        n.total(),
        weight@.len() == out_dim * in_dim,
        x@.len() == in_dim,
        old(y)@.len() == out_dim,
    ensures
        final(y)@.len() == out_dim,
        forall|i: int|
            0 <= i < out_dim ==> n.dots_to(
                row_of(weight@, i, in_dim as int),
                x@,
                #[trigger] final(y)@[i],
            ),
{
    assert(in_dim * out_dim == out_dim * in_dim) by (nonlinear_arith);
    mat_vec_mul_transposed(n, weight, x, y, out_dim, in_dim);
}

fn find_rms_scale<T: Copy, F: Fn(Op<T>) -> T>(n: &Numbers<T, F>, x: &[T], eps: T) -> (s: T)
    requires
        n.total(),
    ensures
        n.rms_scale(x@, eps, s),
{
    let ss: T = dot_product(n, x, x);
    let count: T = n.run(Op::Count(x.len()));
    assert(n.gives(Op::Count(x@.len() as usize), count));
    let mean: T = n.run(Op::Over(ss, count));
    let sum: T = n.run(Op::Plus(mean, eps));
    let rms: T = n.run(Op::Root(sum));
    n.run(Op::Over(n.one, rms))
}

/// RMSNorm: y = x * w / sqrt(mean(x^2) + eps)
/// Normalizes across the entire input vector.
pub fn rmsnorm<T: Copy, F: Fn(Op<T>) -> T>(
    n: &Numbers<T, F>,
    x: &[T],
    w: &[T],
    out: &mut [T],
    eps: T,
)
    requires
        n.total(),
        w@.len() == x@.len(),
        old(out)@.len() == x@.len(),
    ensures
        n.rms_normed(x@, w@, eps, final(out)@),
{
    let scale: T = find_rms_scale(n, x, eps);
    let mut i: usize = 0;
    while i < x.len()
        invariant
            n.total(),
            i <= x@.len(),
            w@.len() == x@.len(),
            out@.len() == x@.len(),
            forall|j: int| 0 <= j < i ==> n.twice_scaled(x@[j], scale, w@[j], #[trigger] out@[j]),
        decreases x@.len() - i,
    {
        let y: T = n.run(Op::Times(x[i], scale));
        out[i] = n.run(Op::Times(y, w[i]));
        i += 1;
    }
}

/// RMSNorm in-place (modifies x directly)
pub fn rmsnorm_inplace<T: Copy, F: Fn(Op<T>) -> T>(
    n: &Numbers<T, F>,
    x: &mut [T],
    w: &[T],
    eps: T,
)
    requires
        n.total(),
        w@.len() == old(x)@.len(),
    ensures
        n.rms_normed(old(x)@, w@, eps, final(x)@),
{
    let ghost v = x@;
    let scale: T = find_rms_scale(n, x, eps);
    let mut i: usize = 0;
    while i < w.len()
        invariant
            n.total(),
            i <= w@.len(),
            w@.len() == v.len(),
            x@.len() == v.len(),
            v == old(x)@,
            forall|j: int| 0 <= j < i ==> n.twice_scaled(v[j], scale, w@[j], #[trigger] x@[j]),
            forall|j: int| i <= j < v.len() ==> #[trigger] x@[j] == v[j],
        decreases w@.len() - i,
    {
        let z: T = x[i];
        let y: T = n.run(Op::Times(z, scale));
        x[i] = n.run(Op::Times(y, w[i]));
        i += 1;
    }
}

impl<T: Copy, F: Fn(Op<T>) -> T> Numbers<T, F> {
    /// `r` is `x0 * c - x1 * s`.
    pub open spec fn turned_first(&self, x0: T, x1: T, c: T, s: T, r: T) -> bool {
        exists|a: T, b: T|
            {
                &&& #[trigger] self.gives(Op::Times(x0, c), a)
                &&& #[trigger] self.gives(Op::Times(x1, s), b)
                &&& self.gives(Op::Minus(a, b), r)
            }
    }

    /// `r` is `x0 * s + x1 * c`.
    pub open spec fn turned_second(&self, x0: T, x1: T, c: T, s: T, r: T) -> bool {
        exists|a: T, b: T|
            {
                &&& #[trigger] self.gives(Op::Times(x0, s), a)
                &&& #[trigger] self.gives(Op::Times(x1, c), b)
                &&& self.gives(Op::Plus(a, b), r)
            }
    }

    /// Turns a pair by an angle, given by its cosine and sine.
    pub fn turn(&self, x0: T, x1: T, c: T, s: T) -> (r: (T, T))
        requires
            self.total(),
        ensures
            self.turned_first(x0, x1, c, s, r.0),
            self.turned_second(x0, x1, c, s, r.1),
    {
        let a: T = self.run(Op::Times(x0, c));
        let b: T = self.run(Op::Times(x1, s));
        let y0: T = self.run(Op::Minus(a, b));
        let d: T = self.run(Op::Times(x0, s));
        let e: T = self.run(Op::Times(x1, c));
        let y1: T = self.run(Op::Plus(d, e));
        (y0, y1)
    }

    /// `y` is `x` with pair `i` turned by the angle whose cosine and sine are `c` and
    /// `s`.
    pub open spec fn pair_turned(&self, x: Seq<T>, i: int, c: T, s: T, y: Seq<T>) -> bool {
        &&& self.turned_first(x[2 * i], x[2 * i + 1], c, s, y[2 * i])
        &&& self.turned_second(x[2 * i], x[2 * i + 1], c, s, y[2 * i + 1])
    }

    /// `c` and `s` are the cosine and the sine of `f` times the position.
    pub open spec fn angle_of(&self, position: usize, f: T, c: T, s: T) -> bool {
        exists|p: T, angle: T|
            {
                &&& #[trigger] self.gives(Op::Count(position), p)
                &&& #[trigger] self.gives(Op::Times(p, f), angle)
                &&& self.gives(Op::Cosine(angle), c)
                &&& self.gives(Op::Sine(angle), s)
            }
    }

    /// `y` is `x` with pair `i` turned by the angle of frequency `f` at a position.
    pub open spec fn pair_rotated(
        &self,
        position: usize,
        f: T,
        x: Seq<T>,
        i: int,
        y: Seq<T>,
    ) -> bool {
        exists|c: T, s: T| #[trigger]
            self.angle_of(position, f, c, s) && self.pair_turned(x, i, c, s, y)
    }

    /// The cosine and the sine of `f` times the position.
    pub fn find_angle(&self, position: usize, f: T) -> (r: (T, T))
        requires
            self.total(),
        ensures
            self.angle_of(position, f, r.0, r.1),
    {
        let p: T = self.run(Op::Count(position));
        let angle: T = self.run(Op::Times(p, f));
        let c: T = self.run(Op::Cosine(angle));
        let s: T = self.run(Op::Sine(angle));
        (c, s)
    }

    /// `f` is the frequency of pair `i` in a vector of length `dim`:
    /// `1 / base^(2i / dim)`.
    pub open spec fn frequency(&self, base: T, i: int, dim: int, f: T) -> bool {
        exists|a: T, b: T, e: T, p: T|
            {
                &&& #[trigger] self.gives(Op::Count((2 * i) as usize), a)
                &&& #[trigger] self.gives(Op::Count(dim as usize), b)
                &&& #[trigger] self.gives(Op::Over(a, b), e)
                &&& #[trigger] self.gives(Op::Power(base, e), p)
                &&& self.gives(Op::Over(self.one, p), f)
            }
    }

    /// The frequency of pair `i` in a vector of length `dim`.
    pub fn find_frequency(&self, base: T, i: usize, dim: usize) -> (f: T)
        requires
            self.total(),
            2 * i <= usize::MAX,
        ensures
            self.frequency(base, i as int, dim as int, f),
    {
        let a: T = self.run(Op::Count(2 * i));
        let b: T = self.run(Op::Count(dim));
        assert(self.gives(Op::Count((2 * (i as int)) as usize), a));
        assert(self.gives(Op::Count((dim as int) as usize), b));
        let e: T = self.run(Op::Over(a, b));
        let p: T = self.run(Op::Power(base, e));
        self.run(Op::Over(self.one, p))
    }
}

/// Apply RoPE to a query or key vector at a given position.
/// For each pair (x[2i], x[2i+1]) at position pos:
///   angle = pos * freqs[i]
///   x'[2i]   = x[2i] * cos(angle) - x[2i+1] * sin(angle)
///   x'[2i+1] = x[2i] * sin(angle) + x[2i+1] * cos(angle)
pub fn apply_rope<T: Copy, F: Fn(Op<T>) -> T>(
    n: &Numbers<T, F>,
    x: &mut [T],
    position: usize,
    freqs: &[T],
)
    requires
        n.total(),
        freqs@.len() == old(x)@.len() / 2,
    ensures
        final(x)@.len() == old(x)@.len(),
        forall|i: int|
            0 <= i < freqs@.len() ==> n.pair_rotated(
                position,
                #[trigger] freqs@[i],
                old(x)@,
                i,
                final(x)@,
            ),
        old(x)@.len() % 2 == 1 ==> final(x)@.last() == old(x)@.last(),
{
    let ghost v = x@;
    let mut i: usize = 0;
    while i < freqs.len()
        invariant
            n.total(),
            i <= freqs@.len(),
            freqs@.len() == v.len() / 2,
            x@.len() == v.len(),
            v == old(x)@,
            forall|k: int|
                0 <= k < i ==> n.pair_rotated(position, #[trigger] freqs@[k], v, k, x@),
            forall|j: int| 2 * i <= j < v.len() ==> #[trigger] x@[j] == v[j],
        decreases freqs@.len() - i,
    {
        assert(x.len() <= usize::MAX);
        let (c, s) = n.find_angle(position, freqs[i]);
        let x0: T = x[2 * i];
        let x1: T = x[2 * i + 1];
        let (y0, y1) = n.turn(x0, x1, c, s);
        let ghost before = x@;
        x[2 * i] = y0;
        x[2 * i + 1] = y1;
        proof {
            assert(n.angle_of(position, freqs@[i as int], c, s));
            assert(n.pair_turned(v, i as int, c, s, x@));
            assert(n.pair_rotated(position, freqs@[i as int], v, i as int, x@));
            assert forall|k: int| 0 <= k < i implies n.pair_rotated(
                position,
                #[trigger] freqs@[k],
                v,
                k,
                x@,
            ) by {
                assert(n.pair_rotated(position, freqs@[k], v, k, before));
                let (c, s) = choose|c: T, s: T| #[trigger]
                    n.angle_of(position, freqs@[k], c, s) && n.pair_turned(v, k, c, s, before);
                assert(n.pair_turned(v, k, c, s, x@));
            }
        }
        i += 1;
    }
}

/// Precompute RoPE frequency table for all positions up to max_pos
/// base: frequency base (typically 10000.0 or 500000.0 for Llama 3)
/// dim: dimension of each query/key head
/// Returns a flat array of shape (max_pos, dim/2)
pub fn precompute_rope_freqs<T: Copy, F: Fn(Op<T>) -> T>(
    n: &Numbers<T, F>,
    max_pos: usize,
    dim: usize,
    base: T,
) -> (r: Vec<T>)
    requires
        n.total(),
        max_pos * (dim / 2) <= usize::MAX,
    ensures
        r@.len() == max_pos * (dim / 2),
        forall|k: int|
            0 <= k < r@.len() ==> n.frequency(
                base,
                k % (dim / 2) as int,
                dim as int,
                #[trigger] r@[k],
            ),
{
    let half_dim: usize = dim / 2;
    let mut freqs: Vec<T> = Vec::new();
    let mut pos: usize = 0;
    assert(0 * half_dim == 0);
    while pos < max_pos
        invariant
            n.total(),
            pos <= max_pos,
            half_dim == dim / 2,
            freqs@.len() == pos * half_dim,
            forall|k: int|
                0 <= k < freqs@.len() ==> n.frequency(
                    base,
                    k % half_dim as int,
                    dim as int,
                    #[trigger] freqs@[k],
                ),
        decreases max_pos - pos,
    {
        let mut i: usize = 0;
        while i < half_dim
            invariant
                n.total(),
                i <= half_dim,
                half_dim == dim / 2,
                freqs@.len() == pos * half_dim + i,
                forall|k: int|
                    0 <= k < freqs@.len() ==> n.frequency(
                        base,
                        k % half_dim as int,
                        dim as int,
                        #[trigger] freqs@[k],
                    ),
            decreases half_dim - i,
        {
            proof {
                vstd::arithmetic::div_mod::lemma_fundamental_div_mod_converse(
                    pos * half_dim + i,
                    half_dim as int,
                    pos as int,
                    i as int,
                );
            }
            freqs.push(n.find_frequency(base, i, dim));
            i += 1;
        }
        proof {
            assert((pos + 1) * half_dim == pos * half_dim + half_dim) by (nonlinear_arith);
        }
        pos += 1;
    }
    freqs
}

/// The rows and columns of a matrix that is stored row after row: element `l` of row `i`
/// stands `l` places behind the start of the row, and element `l` of column `j` in row `l`.
pub proof fn law_matrices_are_stored_row_by_row<T>(
    a: Seq<T>,
    rows: int,
    cols: int,
    i: int,
    l: int,
)
    requires
        a.len() == rows * cols,
        0 <= i < rows,
        0 <= l < cols,
    ensures
        row_of(a, i, cols).len() == cols,
        row_of(a, i, cols)[l] == a[i * cols + l],
        column_of(a, l, rows as nat, cols).len() == rows,
        column_of(a, l, rows as nat, cols)[i] == a[i * cols + l],
{
    assert(0 <= i * cols && i * cols + cols <= rows * cols) by (nonlinear_arith)
        requires
            0 <= i,
            i + 1 <= rows,
            0 <= cols,
    ;
}

} // verus!
