//! Multiplying matrices with vectors: on the CPU from the quantized bytes, or by a
//! GPU that is handed in.

use crate::arith::{Numbers, Op};
use crate::gguf::GgufDataType;
use crate::gpu_backend::runs_on_gpu;
use crate::math::row_of;
use crate::quant::{flat_weight, fold_steps, folds, law_cells_agree_with_dequantize};
use crate::quant::{law_flat_index_is_a_cell, QuantizedMatrix, Weight};
use vstd::prelude::*;

verus! {

impl<T: Copy, F: Fn(Op<T>) -> T> Numbers<T, F> {
    /// `r` is the product of a scale, given by its pattern, and an integer.
    pub open spec fn scaled_whole(&self, d: u32, q: i32, r: T) -> bool {
        exists|x: T, y: T|
            {
                &&& #[trigger] self.gives(Op::Wide(d), x)
                &&& #[trigger] self.gives(Op::Whole(q), y)
                &&& self.gives(Op::Times(x, y), r)
            }
    }

    /// `r` is the product of a scale, given by its pattern, and two integers, taken from
    /// left to right.
    pub open spec fn twice_scaled_whole(&self, d: u32, sc: i32, q: i32, r: T) -> bool {
        exists|x: T, y: T|
            {
                &&& #[trigger] self.scaled_whole(d, sc, x)
                &&& #[trigger] self.gives(Op::Whole(q), y)
                &&& self.gives(Op::Times(x, y), r)
            }
    }

    /// `r` is the value of a weight: the number itself, `d * q`, `(d * sc) * q` or
    /// `(d * sc) * q - dmin * m`.
    pub open spec fn weighs(&self, w: Weight, r: T) -> bool {
        match w {
            Weight::Single(bits) => self.gives(Op::Wide(bits), r),
            Weight::Scaled { d, q } => self.scaled_whole(d, q, r),
            Weight::Grouped { d, sc, q } => self.twice_scaled_whole(d, sc, q, r),
            Weight::Offset { d, sc, q, dmin, m } => exists|x: T, y: T|
                {
                    &&& #[trigger] self.twice_scaled_whole(d, sc, q, x)
                    &&& #[trigger] self.scaled_whole(dmin, m, y)
                    &&& self.gives(Op::Minus(x, y), r)
                },
        }
    }

    fn scale_whole(&self, d: u32, q: i32) -> (r: T)
        requires
            self.total(),
        ensures
            self.scaled_whole(d, q, r),
    {
        let x: T = self.run(Op::Wide(d));
        let y: T = self.run(Op::Whole(q));
        self.run(Op::Times(x, y))
    }

    fn scale_whole_twice(&self, d: u32, sc: i32, q: i32) -> (r: T)
        requires
            self.total(),
        ensures
            self.twice_scaled_whole(d, sc, q, r),
    {
        let x: T = self.scale_whole(d, sc);
        let y: T = self.run(Op::Whole(q));
        self.run(Op::Times(x, y))
    }

    /// The value of a weight
    pub fn weight_value(&self, w: Weight) -> (r: T)
        requires
            self.total(),
        ensures
            self.weighs(w, r),
    {
        match w {
            Weight::Single(bits) => self.run(Op::Wide(bits)),
            Weight::Scaled { d, q } => self.scale_whole(d, q),
            Weight::Grouped { d, sc, q } => self.scale_whole_twice(d, sc, q),
            Weight::Offset { d, sc, q, dmin, m } => {
                let x: T = self.scale_whole_twice(d, sc, q);
                let y: T = self.scale_whole(dmin, m);
                self.run(Op::Minus(x, y))
            },
        }
    }

    /// `r` is `sum` plus the product of a weight's value and `x`.
    pub open spec fn plus_weighted(&self, sum: T, w: Weight, x: T, r: T) -> bool {
        exists|v: T| #[trigger] self.weighs(w, v) && self.plus_product(sum, v, x, r)
    }

    /// The partial sums of the products of weights and factors, from zero on.
    pub open spec fn weighted_steps(
        &self,
        weights: Seq<Weight>,
        x: Seq<T>,
        steps: Seq<T>,
    ) -> bool {
        &&& steps.len() == x.len() + 1
        &&& steps[0] == self.zero
        &&& forall|i: int|
            0 < i < steps.len() ==> self.plus_weighted(
                steps[i - 1],
                weights[i - 1],
                x[i - 1],
                #[trigger] steps[i],
            )
    }

    /// `r` is the sum of the products of weights and factors, added up one after the
    /// other.
    pub open spec fn weighted_sum(&self, weights: Seq<Weight>, x: Seq<T>, r: T) -> bool {
        exists|steps: Seq<T>| #[trigger]
            self.weighted_steps(weights, x, steps) && steps.last() == r
    }

    /// `y` is the product of a matrix and a vector: a sum for each row.
    pub open spec fn matrix_product(&self, m: QuantizedMatrix, x: Seq<T>, y: Seq<T>) -> bool {
        &&& y.len() == m.rows
        &&& forall|row: int|
            0 <= row < m.rows ==> self.weighted_sum(m.row_cells(row), x, #[trigger] y[row])
    }
}

impl<T: Copy, F: Fn(Op<T>) -> T> Numbers<T, F> {
    /// A weight has one value only.
    pub open spec fn single_weights(&self) -> bool {
        forall|w: Weight, a: T, b: T| #[trigger]
            self.weighs(w, a) && #[trigger] self.weighs(w, b) ==> a == b
    }
}

/// Weights have one value only, where the arithmetic gives one result for each operation.
pub proof fn law_weights_have_one_value<T: Copy, F: Fn(Op<T>) -> T>(n: Numbers<T, F>)
    requires
        n.single_valued(),
    ensures
        n.single_weights(),
{
    assert forall|d: u32, q: i32, x: T, y: T| #[trigger]
        n.scaled_whole(d, q, x) && #[trigger] n.scaled_whole(d, q, y) implies x == y by {}
    assert forall|d: u32, sc: i32, q: i32, x: T, y: T| #[trigger]
        n.twice_scaled_whole(d, sc, q, x) && #[trigger] n.twice_scaled_whole(
            d,
            sc,
            q,
            y,
        ) implies x == y by {}
}

/// Multiplies a quantized matrix with a vector on the CPU
pub fn multiply<T: Copy, F: Fn(Op<T>) -> T>(
    n: &Numbers<T, F>,
    m: &QuantizedMatrix,
    x: &Vec<T>,
) -> (y: Vec<T>)
    requires
        n.total(),
        m.complete(),
        x@.len() == m.cols,
    ensures
        n.matrix_product(*m, x@, y@),
{
    proof {
        m.lemma_complete_is_readable();
    }
    let fused = |sum: T, w: Weight, v: T| -> (r: T)
        requires
            n.total(),
            ensures
            n.plus_weighted(sum, w, v, r),
        { n.add_product(sum, n.weight_value(w), v) };
    let rows: usize = m.rows;
    let mut y: Vec<T> = vec![n.zero; rows];
    m.mat_vec_mul(x.as_slice(), &mut y, n.zero, fused);
    proof {
        assert forall|row: int| 0 <= row < m.rows implies n.weighted_sum(
            m.row_cells(row),
            x@,
            #[trigger] y@[row],
        ) by {
            let cells = m.row_cells(row);
            assert(folds(fused, n.zero, cells, x@, m.cols as nat, y@[row]));
            let steps = choose|steps: Seq<T>| #[trigger]
                fold_steps(fused, n.zero, cells, x@, steps) && steps.len() == m.cols + 1
                    && steps.last() == y@[row];
            assert(n.weighted_steps(cells, x@, steps));
        }
    }
    y
}

/// `w` holds the values of all weights of a matrix, as expanding it gives them.
pub open spec fn expands_to<T: Copy, F: Fn(Op<T>) -> T>(
    n: Numbers<T, F>,
    m: QuantizedMatrix,
    w: Seq<T>,
) -> bool {
    &&& w.len() == m.rows * m.cols
    &&& forall|f: int|
        0 <= f < w.len() ==> n.weighs(flat_weight(m.dtype, m.data@, f), #[trigger] w[f])
}

proof fn lemma_row_range(rows: int, cols: int, row: int)
    requires
        0 <= row < rows,
        0 <= cols,
    ensures
        0 <= row * cols,
        row * cols + cols <= rows * cols,
{
    assert(0 <= row * cols && row * cols + cols <= rows * cols) by (nonlinear_arith)
        requires
            0 <= row,
            row + 1 <= rows,
            0 <= cols,
    ;
}

proof fn lemma_row_steps<T: Copy, F: Fn(Op<T>) -> T>(
    n: Numbers<T, F>,
    m: QuantizedMatrix,
    w: Seq<T>,
    x: Seq<T>,
    row: int,
    t: Seq<T>,
)
    requires
        m.complete(),
        n.single_weights(),
        expands_to(n, m, w),
        x.len() == m.cols,
        t.len() == x.len() + 1,
        0 <= row < m.rows,
    ensures
        n.weighted_steps(m.row_cells(row), x, t) <==> n.running_dots(
            row_of(w, row, m.cols as int),
            x,
            t,
        ),
{
    let cells = m.row_cells(row);
    let part = row_of(w, row, m.cols as int);
    lemma_row_range(m.rows as int, m.cols as int, row);
    assert forall|i: int| 0 < i < t.len() implies #[trigger] n.plus_weighted(
        t[i - 1],
        cells[i - 1],
        x[i - 1],
        t[i],
    ) == n.plus_product(t[i - 1], part[i - 1], x[i - 1], t[i]) by {
        let col = i - 1;
        law_cells_agree_with_dequantize(m, 0, row, col);
        law_flat_index_is_a_cell(m.rows as int, m.cols as int, row, col);
        assert(part[col] == w[row * m.cols + col]);
        assert(n.weighs(cells[col], part[col]));
        if n.plus_weighted(t[i - 1], cells[i - 1], x[i - 1], t[i]) {
            let v = choose|v: T| #[trigger]
                n.weighs(cells[i - 1], v) && n.plus_product(
                    t[i - 1],
                    v,
                    x[i - 1],
                    t[i],
                );
            assert(v == part[col]);
        }
    }
}

/// The product of a quantized matrix is that of its expanded weights: a vector is the
/// one exactly where multiplying the expanded matrix gives it.
pub proof fn law_product_is_that_of_the_expanded_matrix<T: Copy, F: Fn(Op<T>) -> T>(
    n: Numbers<T, F>,
    m: QuantizedMatrix,
    w: Seq<T>,
    x: Seq<T>,
    y: Seq<T>,
)
    requires
        m.complete(),
        n.single_weights(),
        expands_to(n, m, w),
        x.len() == m.cols,
        y.len() == m.rows,
    ensures
        n.matrix_product(m, x, y) <==> forall|row: int|
            0 <= row < m.rows ==> n.dots_to(
                row_of(w, row, m.cols as int),
                x,
                #[trigger] y[row],
            ),
{
    assert forall|row: int| 0 <= row < m.rows implies n.weighted_sum(
        m.row_cells(row),
        x,
        #[trigger] y[row],
    ) == n.dots_to(row_of(w, row, m.cols as int), x, y[row]) by {
        let cells = m.row_cells(row);
        let part = row_of(w, row, m.cols as int);
        lemma_row_range(m.rows as int, m.cols as int, row);
        assert(part.len() == m.cols);
        if n.weighted_sum(cells, x, y[row]) {
            let t = choose|t: Seq<T>| #[trigger]
                n.weighted_steps(cells, x, t) && t.last() == y[row];
            lemma_row_steps(n, m, w, x, row, t);
            assert(n.running_dots(part, x, t));
        }
        if n.dots_to(part, x, y[row]) {
            let t = choose|t: Seq<T>| #[trigger]
                n.running_dots(part, x, t) && t.len() == part.len() + 1 && t.last() == y[row];
            lemma_row_steps(n, m, w, x, row, t);
            assert(n.weighted_steps(cells, x, t));
        }
    }
}

/// What helps to multiply matrices with vectors: a GPU where there is one. It may give
/// nothing.
pub struct Projector<H> {
    pub gpu: Option<H>,
}

/// The GPU can be asked for every product.
pub open spec fn projecting<
    T,
    H: Fn(&QuantizedMatrix, &Vec<T>) -> Option<Vec<T>>,
>(project: &Projector<H>) -> bool {
    project.gpu is Some ==> forall|m: &QuantizedMatrix, x: &Vec<T>| #[trigger]
        call_requires(project.gpu->Some_0, (m, x))
}

/// The GPU gives `g` when it is asked for a product.
pub open spec fn gpu_gives<
    T,
    H: Fn(&QuantizedMatrix, &Vec<T>) -> Option<Vec<T>>,
>(project: Projector<H>, m: QuantizedMatrix, x: Seq<T>, g: Option<Vec<T>>) -> bool {
    exists|xv: Vec<T>|
        xv@ == x && #[trigger] call_ensures(project.gpu->Some_0, (&m, &xv), g)
}

/// `y` is the product of a matrix and a vector: what the GPU gives for it, or, where
/// there is none, it is not asked or it gives nothing of the right length, what the
/// CPU computes.
pub open spec fn projects<
    T: Copy,
    F: Fn(Op<T>) -> T,
    H: Fn(&QuantizedMatrix, &Vec<T>) -> Option<Vec<T>>,
>(n: Numbers<T, F>, project: Projector<H>, m: QuantizedMatrix, x: Seq<T>, y: Seq<T>) -> bool {
    if project.gpu is Some && m.dtype != GgufDataType::Q6_K {
        exists|g: Option<Vec<T>>| #[trigger]
            gpu_gives(project, m, x, g) && (if g is Some && g->Some_0@.len() == m.rows {
                y == g->Some_0@
            } else {
                n.matrix_product(m, x, y)
            })
    } else {
        n.matrix_product(m, x, y)
    }
}

/// A matrix of a type that the GPU does not run is multiplied on the CPU, GPU or not: the
/// product is that of its expanded weights.
pub proof fn law_q6_k_is_multiplied_on_the_cpu<
    T: Copy,
    F: Fn(Op<T>) -> T,
    H: Fn(&QuantizedMatrix, &Vec<T>) -> Option<Vec<T>>,
>(
    n: Numbers<T, F>,
    project: Projector<H>,
    m: QuantizedMatrix,
    w: Seq<T>,
    x: Seq<T>,
    y: Seq<T>,
)
    requires
        m.dtype == GgufDataType::Q6_K,
        m.complete(),
        n.single_weights(),
        expands_to(n, m, w),
        x.len() == m.cols,
        y.len() == m.rows,
    ensures
        projects(n, project, m, x, y) <==> forall|row: int|
            0 <= row < m.rows ==> n.dots_to(
                row_of(w, row, m.cols as int),
                x,
                #[trigger] y[row],
            ),
{
    law_product_is_that_of_the_expanded_matrix(n, m, w, x, y);
}

/// Multiplies a quantized matrix with a vector, on the GPU where there is one and it
/// runs the matrix's type, else on the CPU
pub fn apply_project<
    T: Copy,
    F: Fn(Op<T>) -> T,
    H: Fn(&QuantizedMatrix, &Vec<T>) -> Option<Vec<T>>,
>(n: &Numbers<T, F>, project: &Projector<H>, m: &QuantizedMatrix, x: &Vec<T>) -> (y: Vec<T>)
    requires
        n.total(),
        projecting::<T, H>(project),
        m.complete(),
        x@.len() == m.cols,
    ensures
        projects(*n, *project, *m, x@, y@),
        y@.len() == m.rows,
{
    if let Some(h) = &project.gpu {
        if runs_on_gpu(m.dtype) {
            let g = h(m, x);
            assert(gpu_gives(*project, *m, x@, g));
            if let Some(y) = g {
                if y.len() == m.rows {
                    return y;
                }
            }
        }
    }
    multiply(n, m, x)
}

/// Where the GPU gives no vector, or one of another length, the product is computed on the
/// CPU; where it gives one of the right length, that is the product.
pub proof fn law_cpu_stands_in_for_the_gpu<
    T: Copy,
    F: Fn(Op<T>) -> T,
    H: Fn(&QuantizedMatrix, &Vec<T>) -> Option<Vec<T>>,
>(
    n: Numbers<T, F>,
    project: Projector<H>,
    m: QuantizedMatrix,
    x: Seq<T>,
    y: Seq<T>,
)
    requires
        projects(n, project, m, x, y),
    ensures
        project.gpu is None ==> n.matrix_product(m, x, y),
        (forall|g: Option<Vec<T>>| #[trigger]
            gpu_gives(project, m, x, g) ==> (g matches Some(v) ==> v@.len() != m.rows))
            ==> n.matrix_product(m, x, y),
        project.gpu is Some && m.dtype != GgufDataType::Q6_K && (forall|g: Option<Vec<T>>| #[trigger]
            gpu_gives(project, m, x, g) ==> (g matches Some(v) && v@.len() == m.rows))
            ==> exists|g: Option<Vec<T>>| #[trigger]
            gpu_gives(project, m, x, g) && g is Some && g->Some_0@ == y,
{
}

} // verus!
