//! Shapes, strides and dense row-major tensors.

use crate::gguf::GgufDataType;
use vstd::prelude::*;
use vstd::string::StringExecFns;

verus! {

broadcast use vstd::string::group_string_axioms;

/// The product of all dimensions.
pub open spec fn product(shape: Seq<usize>) -> nat
    decreases shape.len(),
{
    if shape.len() == 0 {
        1
    } else {
        product(shape.drop_last()) * shape.last() as nat
    }
}

/// Multiplying the dimensions from left to right stays within `usize`.
pub open spec fn product_fits(shape: Seq<usize>) -> bool {
    forall|i: int| 0 <= i <= shape.len() ==> product(#[trigger] shape.take(i)) <= usize::MAX
}

/// Total number of elements of a shape.
pub fn shape_elements(shape: &[usize]) -> (r: usize)
    requires
        product_fits(shape@),
    ensures
        r == product(shape@),
{
    let mut r: usize = 1;
    let mut i: usize = 0;
    while i < shape.len()
        invariant
            i <= shape@.len(),
            product_fits(shape@),
            r == product(shape@.take(i as int)),
        decreases shape@.len() - i,
    {
        assert(shape@.take(i + 1).drop_last() =~= shape@.take(i as int));
        assert(product(shape@.take(i + 1)) == r * shape@[i as int]);
        r = r * shape[i];
        i += 1;
    }
    assert(shape@.take(i as int) =~= shape@);
    r
}

/// Total number of elements of a shape, where multiplying the dimensions does not
/// overflow.
pub fn checked_elements(shape: &[usize]) -> (r: Option<usize>)
    ensures
        r is Some <==> product_fits(shape@),
        r matches Some(n) ==> n == product(shape@),
{
    let mut r: usize = 1;
    let mut i: usize = 0;
    while i < shape.len()
        invariant
            i <= shape@.len(),
            r == product(shape@.take(i as int)),
            forall|j: int| 0 <= j <= i ==> product(#[trigger] shape@.take(j)) <= usize::MAX,
        decreases shape@.len() - i,
    {
        proof {
            assert(shape@.take(i + 1).drop_last() =~= shape@.take(i as int));
            let (a, b) = (r as int, shape@[i as int] as int);
            assert(a * b >= 0) by (nonlinear_arith)
                requires
                    a >= 0,
                    b >= 0,
            ;
        }
        match r.checked_mul(shape[i]) {
            Some(p) => {
                r = p;
            },
            None => {
                assert(product(shape@.take(i + 1)) > usize::MAX);
                return None;
            },
        }
        i += 1;
    }
    assert(shape@.take(i as int) =~= shape@);
    Some(r)
}

proof fn lemma_product_front(s: Seq<usize>)
    requires
        s.len() > 0,
    ensures
        product(s) == s[0] * product(s.drop_first()),
    decreases s.len(),
{
    if s.len() == 1 {
        assert(s.drop_last() =~= Seq::empty());
        assert(s.drop_first() =~= Seq::empty());
        assert(product(s.drop_last()) == 1);
        assert(1 * s[0] == s[0] * 1) by (nonlinear_arith);
    } else {
        let t = s.drop_last();
        lemma_product_front(t);
        assert(t.drop_first() =~= s.drop_first().drop_last());
        let a = s[0] as int;
        let b = product(t.drop_first()) as int;
        let c = s.last() as int;
        assert(a * b * c == a * (b * c)) by (nonlinear_arith);
    }
}

/// The position of an element in row-major order.
pub open spec fn flat_index(shape: Seq<usize>, index: Seq<usize>) -> nat
    decreases shape.len(),
{
    if shape.len() == 0 {
        0
    } else {
        flat_index(shape.drop_last(), index.drop_last()) * shape.last() as nat
            + index.last() as nat
    }
}

/// Every component of the index is within its dimension.
pub open spec fn index_in(shape: Seq<usize>, index: Seq<usize>) -> bool {
    shape.len() == index.len() && forall|i: int|
        0 <= i < shape.len() ==> index[i] < #[trigger] shape[i]
}

/// An index within the shape stands for an element.
pub proof fn law_flat_index_in_bounds(shape: Seq<usize>, index: Seq<usize>)
    requires
        index_in(shape, index),
    ensures
        flat_index(shape, index) < product(shape),
    decreases shape.len(),
{
    if shape.len() > 0 {
        let a = flat_index(shape.drop_last(), index.drop_last()) as int;
        let b = product(shape.drop_last()) as int;
        let n = shape.last() as int;
        let i = index.last() as int;
        assert forall|j: int| 0 <= j < shape.len() - 1 implies index.drop_last()[j]
            < #[trigger] shape.drop_last()[j] by {
            assert(index[j] < shape[j]);
        }
        law_flat_index_in_bounds(shape.drop_last(), index.drop_last());
        assert(index[shape.len() - 1] < shape[shape.len() - 1]);
        assert(a * n + i < b * n) by (nonlinear_arith)
            requires
                a + 1 <= b,
                0 <= i < n,
        ;
    }
}

/// Two indices within the shape stand for the same element only where they are
/// equal.
pub proof fn law_flat_index_is_injective(shape: Seq<usize>, a: Seq<usize>, b: Seq<usize>)
    requires
        index_in(shape, a),
        index_in(shape, b),
        flat_index(shape, a) == flat_index(shape, b),
    ensures
        a == b,
    decreases shape.len(),
{
    if shape.len() == 0 {
        assert(a =~= b);
    } else {
        let n = shape.last() as int;
        let k = shape.len() - 1;
        assert(a[k] < shape[k] && b[k] < shape[k]);
        let x = flat_index(shape.drop_last(), a.drop_last()) as int;
        let y = flat_index(shape.drop_last(), b.drop_last()) as int;
        vstd::arithmetic::div_mod::lemma_fundamental_div_mod_converse(
            flat_index(shape, a) as int,
            n,
            x,
            a[k] as int,
        );
        vstd::arithmetic::div_mod::lemma_fundamental_div_mod_converse(
            flat_index(shape, b) as int,
            n,
            y,
            b[k] as int,
        );
        assert forall|j: int| 0 <= j < k implies a.drop_last()[j] < #[trigger] shape.drop_last()[j]
            by {
            assert(a[j] < shape[j]);
        }
        assert forall|j: int| 0 <= j < k implies b.drop_last()[j] < #[trigger] shape.drop_last()[j]
            by {
            assert(b[j] < shape[j]);
        }
        law_flat_index_is_injective(shape.drop_last(), a.drop_last(), b.drop_last());
        assert(a =~= a.drop_last().push(a[k]));
        assert(b =~= b.drop_last().push(b[k]));
    }
}

/// The step from one element to the next along dimension `i`: the product of the
/// dimensions behind it.
pub open spec fn stride_of(shape: Seq<usize>, i: int) -> nat {
    product(shape.skip(i + 1))
}

/// The sum of the components, each times its stride, for the first `n`
/// dimensions.
pub open spec fn strided(shape: Seq<usize>, index: Seq<usize>, n: nat) -> nat
    decreases n,
{
    if n == 0 {
        0
    } else {
        strided(shape, index, (n - 1) as nat) + index[n - 1] as nat * stride_of(shape, n - 1)
    }
}

/// The position of an element is the sum of its index's components, each times
/// the stride of its dimension.
pub proof fn law_strides_give_the_flat_index(shape: Seq<usize>, index: Seq<usize>)
    requires
        shape.len() == index.len(),
    ensures
        strided(shape, index, shape.len()) == flat_index(shape, index),
    decreases shape.len(),
{
    if shape.len() > 0 {
        let s = shape.drop_last();
        let x = index.drop_last();
        let n = s.len();
        law_strides_give_the_flat_index(s, x);
        lemma_strided_last(shape, index, n);
        assert(shape.skip(n as int + 1) =~= Seq::empty());
        assert(stride_of(shape, n as int) == 1);
        assert(index.last() as nat * 1 == index.last());
    }
}

proof fn lemma_strided_last(shape: Seq<usize>, index: Seq<usize>, n: nat)
    requires
        shape.len() == index.len(),
        n < shape.len(),
    ensures
        strided(shape, index, n) == strided(shape.drop_last(), index.drop_last(), n)
            * shape.last() as nat,
    decreases n,
{
    let s = shape.drop_last();
    let x = index.drop_last();
    let m = shape.last() as nat;
    if n == 0 {
        assert(0 * m == 0);
    } else {
        let k = n - 1;
        lemma_strided_last(shape, index, k as nat);
        assert(shape.skip(k + 1).drop_last() =~= s.skip(k + 1));
        let a = strided(s, x, k as nat);
        let b = x[k] as nat;
        let c = stride_of(s, k);
        assert(a * m + b * (c * m) == (a + b * c) * m) by (nonlinear_arith);
    }
}

/// Compute stride for each dimension (row-major)
pub fn compute_strides(shape: &[usize]) -> (r: Vec<usize>)
    requires
        shape@.len() > 0,
        forall|i: int| 0 < i < shape@.len() ==> product(#[trigger] shape@.skip(i)) <= usize::MAX,
    ensures
        r@.len() == shape@.len(),
        forall|i: int| 0 <= i < r@.len() ==> #[trigger] r@[i] == stride_of(shape@, i),
{
    let ndim: usize = shape.len();
    let mut strides: Vec<usize> = vec![1; ndim];
    let mut i: usize = ndim - 1;
    assert(shape@.skip(ndim as int) =~= Seq::empty());
    while i > 0
        invariant
            i < ndim,
            ndim == shape@.len(),
            strides@.len() == ndim,
            forall|j: int|
                0 < j < shape@.len() ==> product(#[trigger] shape@.skip(j)) <= usize::MAX,
            forall|j: int| i <= j < ndim ==> #[trigger] strides@[j] == stride_of(shape@, j),
        decreases i,
    {
        proof {
            let s = shape@.skip(i as int);
            lemma_product_front(s);
            assert(s.drop_first() =~= shape@.skip(i + 1));
            let a = strides@[i as int] as int;
            let b = shape@[i as int] as int;
            assert(a * b == b * a) by (nonlinear_arith);
        }
        strides.set(i - 1, strides[i] * shape[i]);
        i -= 1;
    }
    strides
}

/// Validate that a multi-dimensional index is within bounds
pub fn validate_index(shape: &[usize], index: &[usize]) -> (r: bool)
    ensures
        r == index_in(shape@, index@),
{
    if shape.len() != index.len() {
        return false;
    }
    let mut i: usize = 0;
    while i < shape.len()
        invariant
            i <= shape@.len(),
            shape@.len() == index@.len(),
            forall|j: int| 0 <= j < i ==> index@[j] < #[trigger] shape@[j],
        decreases shape@.len() - i,
    {
        if index[i] >= shape[i] {
            return false;
        }
        i += 1;
    }
    true
}

/// A dense tensor in row-major order.
#[derive(Debug, Clone)]
pub struct Tensor<T> {
    pub name: String,
    pub shape: Vec<usize>,
    pub data: Vec<T>,
}

fn copy_shape(shape: &[usize]) -> (r: Vec<usize>)
    ensures
        r@ == shape@,
{
    let mut v: Vec<usize> = Vec::new();
    v.extend_from_slice(shape);
    assert(v@ =~= shape@);
    v
}

proof fn lemma_later_dims_grow(s: Seq<usize>, x: Seq<usize>, i: int)
    requires
        s.len() == x.len(),
        0 <= i <= s.len(),
        forall|j: int| 0 <= j < s.len() ==> #[trigger] s[j] > 0,
    ensures
        flat_index(s.take(i), x.take(i)) <= flat_index(s, x),
    decreases s.len() - i,
{
    if i < s.len() {
        lemma_later_dims_grow(s, x, i + 1);
        assert(s.take(i + 1).drop_last() =~= s.take(i));
        assert(x.take(i + 1).drop_last() =~= x.take(i));
        let a = flat_index(s.take(i), x.take(i)) as int;
        let n = s[i] as int;
        assert(a <= a * n) by (nonlinear_arith)
            requires
                a >= 0,
                n >= 1,
        ;
    } else {
        assert(s.take(i) =~= s);
        assert(x.take(i) =~= x);
    }
}

proof fn lemma_no_zero(s: Seq<usize>)
    requires
        product(s) > 0,
    ensures
        forall|j: int| 0 <= j < s.len() ==> #[trigger] s[j] > 0,
    decreases s.len(),
{
    if s.len() > 0 {
        let a = product(s.drop_last()) as int;
        let b = s.last() as int;
        assert(a > 0 && b > 0) by (nonlinear_arith)
            requires
                a * b > 0,
                a >= 0,
                b >= 0,
        ;
        lemma_no_zero(s.drop_last());
        assert forall|j: int| 0 <= j < s.len() implies #[trigger] s[j] > 0 by {
            if j < s.len() - 1 {
                assert(s.drop_last()[j] > 0);
            }
        }
    }
}

impl<T: Copy> Tensor<T> {
    /// There are as many elements as the shape says.
    pub open spec fn wf(&self) -> bool {
        self.data@.len() == product(self.shape@)
    }

    /// Create a new tensor filled with `zero`
    pub fn zeros(name: &str, shape: &[usize], zero: T) -> (r: Self)
        requires
            product_fits(shape@),
        ensures
            r.wf(),
            r.name@ == name@,
            r.shape@ == shape@,
            r.data@ == Seq::new(product(shape@), |i: int| zero),
    {
        let n: usize = shape_elements(shape);
        let mut data: Vec<T> = Vec::new();
        let mut i: usize = 0;
        while i < n
            invariant
                i <= n,
                data@ =~= Seq::new(i as nat, |i: int| zero),
            decreases n - i,
        {
            data.push(zero);
            i += 1;
        }
        Tensor { name: name.to_owned(), shape: copy_shape(shape), data }
    }

    /// Create a tensor from existing data
    pub fn new(name: &str, shape: &[usize], data: Vec<T>) -> (r: Self)
        requires
            data@.len() == product(shape@),
        ensures
            r.wf(),
            r.name@ == name@,
            r.shape@ == shape@,
            r.data@ == data@,
    {
        Tensor { name: name.to_owned(), shape: copy_shape(shape), data }
    }

    /// Total number of elements
    pub fn n_elements(&self) -> (r: usize)
        ensures
            r == self.data@.len(),
    {
        self.data.len()
    }

    /// Number of dimensions
    pub fn ndim(&self) -> (r: usize)
        ensures
            r == self.shape@.len(),
    {
        self.shape.len()
    }

    /// Get value at flat index
    pub fn get(&self, idx: usize) -> (r: T)
        requires
            idx < self.data@.len(),
        ensures
            r == self.data@[idx as int],
    {
        self.data[idx]
    }

    /// Set value at flat index
    pub fn set(&mut self, idx: usize, val: T)
        requires
            idx < old(self).data@.len(),
        ensures
            final(self).data@ == old(self).data@.update(idx as int, val),
            final(self).shape@ == old(self).shape@,
            final(self).name@ == old(self).name@,
    {
        self.data.set(idx, val);
    }

    /// Compute flat index from multi-dimensional indices (row-major)
    fn compute_flat_index(&self, indices: &[usize]) -> (r: usize)
        requires
            self.wf(),
            indices@.len() == self.shape@.len(),
            flat_index(self.shape@, indices@) < self.data@.len(),
        ensures
            r == flat_index(self.shape@, indices@),
    {
        let ghost s = self.shape@;
        let ghost x = indices@;
        proof {
            lemma_no_zero(s);
        }
        let mut flat: usize = 0;
        let mut i: usize = 0;
        while i < self.shape.len()
            invariant
                i <= s.len(),
                s == self.shape@,
                x == indices@,
                s.len() == x.len(),
                flat_index(s, x) < self.data@.len(),
                forall|j: int| 0 <= j < s.len() ==> #[trigger] s[j] > 0,
                flat == flat_index(s.take(i as int), x.take(i as int)),
            decreases s.len() - i,
        {
            proof {
                assert(self.data.len() <= usize::MAX);
                lemma_later_dims_grow(s, x, i + 1);
                assert(s.take(i + 1).drop_last() =~= s.take(i as int));
                assert(x.take(i + 1).drop_last() =~= x.take(i as int));
            }
            flat = flat * self.shape[i] + indices[i];
            i += 1;
        }
        assert(s.take(i as int) =~= s);
        assert(x.take(i as int) =~= x);
        flat
    }

    /// Get value by multi-dimensional index (row-major layout)
    pub fn get_indexed(&self, indices: &[usize]) -> (r: T)
        requires
            self.wf(),
            indices@.len() == self.shape@.len(),
            flat_index(self.shape@, indices@) < self.data@.len(),
        ensures
            r == self.data@[flat_index(self.shape@, indices@) as int],
    {
        let flat: usize = self.compute_flat_index(indices);
        self.data[flat]
    }

    /// Set value by multi-dimensional index
    pub fn set_indexed(&mut self, indices: &[usize], val: T)
        requires
            old(self).wf(),
            indices@.len() == old(self).shape@.len(),
            flat_index(old(self).shape@, indices@) < old(self).data@.len(),
        ensures
            final(self).wf(),
            final(self).data@ == old(self).data@.update(
                flat_index(old(self).shape@, indices@) as int,
                val,
            ),
            final(self).shape@ == old(self).shape@,
            final(self).name@ == old(self).name@,
    {
        let flat: usize = self.compute_flat_index(indices);
        self.data.set(flat, val);
    }

    /// The length of a row.
    pub open spec fn row_len(&self) -> nat {
        self.shape@[self.shape@.len() - 1] as nat
    }

    /// Get a row (2D tensor): returns a slice for row `i`
    pub fn row(&self, i: usize) -> (r: &[T])
        requires
            self.shape@.len() >= 2,
            (i + 1) * self.row_len() <= self.data@.len(),
        ensures
            r@ == self.data@.subrange(i * self.row_len(), (i + 1) * self.row_len()),
    {
        let cols: usize = self.shape[self.ndim() - 1];
        proof {
            assert(self.data.len() <= usize::MAX);
            assert((i + 1) * cols == i * cols + cols) by (nonlinear_arith);
            assert(i * cols >= 0) by (nonlinear_arith);
        }
        let start: usize = i * cols;
        &self.data.as_slice()[start..start + cols]
    }

    /// Get a mutable row (2D tensor)
    pub fn row_mut(&mut self, i: usize) -> (r: &mut [T])
        requires
            old(self).shape@.len() >= 2,
            (i + 1) * old(self).row_len() <= old(self).data@.len(),
        ensures
            r@ == old(self).data@.subrange(i * old(self).row_len(), (i + 1) * old(self).row_len()),
            final(self).data@ == old(self).data@.take(i * old(self).row_len()) + final(r)@ + old(
                self,
            ).data@.skip((i + 1) * old(self).row_len()),
            final(self).shape@ == old(self).shape@,
            final(self).name@ == old(self).name@,
    {
        let cols: usize = self.shape[self.ndim() - 1];
        proof {
            assert(self.data.len() <= usize::MAX);
            assert((i + 1) * cols == i * cols + cols) by (nonlinear_arith);
            assert(i * cols >= 0) by (nonlinear_arith);
        }
        let start: usize = i * cols;
        let (front, _rest) = self.data.as_mut_slice().split_at_mut(start + cols);
        let (_before, row) = front.split_at_mut(start);
        row
    }

    /// Get a slice from the data buffer
    pub fn as_slice(&self) -> (r: &[T])
        ensures
            r@ == self.data@,
    {
        self.data.as_slice()
    }

    /// Get a mutable slice from the data buffer
    pub fn as_mut_slice(&mut self) -> (r: &mut [T])
        ensures
            r@ == old(self).data@,
            final(self).data@ == final(r)@,
            final(self).shape@ == old(self).shape@,
            final(self).name@ == old(self).name@,
    {
        self.data.as_mut_slice()
    }

    /// Create a view as a 2D matrix (rows × cols)
    pub fn as_2d(&self) -> (r: (&[T], usize, usize))
        requires
            self.shape@.len() >= 2,
            product_fits(self.shape@.skip(1)),
        ensures
            r.0@ == self.data@,
            r.1 == self.shape@[0],
            r.2 == product(self.shape@.skip(1)),
            self.wf() ==> r.1 * r.2 == self.data@.len(),
    {
        let rows: usize = self.shape[0];
        let cols: usize = shape_elements(&self.shape.as_slice()[1..self.shape.len()]);
        proof {
            assert(self.shape@.subrange(1, self.shape@.len() as int) =~= self.shape@.skip(1));
            lemma_product_front(self.shape@);
            assert(self.shape@.drop_first() =~= self.shape@.skip(1));
        }
        (self.data.as_slice(), rows, cols)
    }

    /// Get the data type size in bytes for this tensor's element type
    pub fn element_size_bytes(dtype: GgufDataType) -> (r: usize)
        ensures
            r == (match dtype {
                GgufDataType::F32 => 4int,
                GgufDataType::F16 => 2,
                _ => 1,
            }),
    {
        match dtype {
            GgufDataType::F32 => 4,
            GgufDataType::F16 => 2,
            _ => 1,
        }
    }
}

/// What is set at an index is what is read there, and elements at other indices
/// stay as they are.
pub proof fn law_set_then_get<T>(
    shape: Seq<usize>,
    data: Seq<T>,
    at: Seq<usize>,
    other: Seq<usize>,
    val: T,
)
    requires
        data.len() == product(shape),
        index_in(shape, at),
        index_in(shape, other),
    ensures
        data.update(flat_index(shape, at) as int, val)[flat_index(shape, at) as int] == val,
        other != at ==> data.update(flat_index(shape, at) as int, val)[flat_index(
            shape,
            other,
        ) as int] == data[flat_index(shape, other) as int],
{
    law_flat_index_in_bounds(shape, at);
    law_flat_index_in_bounds(shape, other);
    if other != at && flat_index(shape, at) == flat_index(shape, other) {
        law_flat_index_is_injective(shape, at, other);
    }
}

} // verus!
