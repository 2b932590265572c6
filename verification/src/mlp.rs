//! The gated feed-forward network of a layer.

use crate::arith::{Numbers, Op};
use crate::math::{silu_inplace, vec_mul_inplace};
use crate::projection::{apply_project, projecting, projects, Projector};
use crate::quant::QuantizedMatrix;
use vstd::prelude::*;

verus! {

/// The weights of a feed-forward network.
#[derive(Debug, Clone)]
pub struct Mlp {
    pub gate_proj: QuantizedMatrix,
    pub up_proj: QuantizedMatrix,
    pub down_proj: QuantizedMatrix,
    pub hidden_dim: usize,
    pub embed_dim: usize,
}

impl Mlp {
    /// The matrices have the rows and columns that the dimensions ask for.
    pub open spec fn wf(&self) -> bool {
        &&& self.gate_proj.rows == self.hidden_dim && self.gate_proj.cols == self.embed_dim
        &&& self.up_proj.rows == self.hidden_dim && self.up_proj.cols == self.embed_dim
        &&& self.down_proj.rows == self.embed_dim && self.down_proj.cols == self.hidden_dim
    }

    /// Whether the matrices have the rows and columns that the dimensions ask for
    pub fn is_consistent(&self) -> (r: bool)
        ensures
            r == self.wf(),
    {
        self.gate_proj.rows == self.hidden_dim && self.gate_proj.cols == self.embed_dim
            && self.up_proj.rows == self.hidden_dim && self.up_proj.cols == self.embed_dim
            && self.down_proj.rows == self.embed_dim && self.down_proj.cols == self.hidden_dim
    }

    /// All bytes of the matrices are there.
    pub open spec fn complete(&self) -> bool {
        self.gate_proj.complete() && self.up_proj.complete() && self.down_proj.complete()
    }

    /// Whether all bytes of the matrices are there
    pub fn is_complete(&self) -> (r: bool)
        ensures
            r == self.complete(),
    {
        self.gate_proj.is_complete() && self.up_proj.is_complete() && self.down_proj.is_complete()
    }

    pub fn new(
        gate_proj: QuantizedMatrix,
        up_proj: QuantizedMatrix,
        down_proj: QuantizedMatrix,
        hidden_dim: usize,
        embed_dim: usize,
    ) -> (r: Self)
        ensures
            r == (Mlp { gate_proj, up_proj, down_proj, hidden_dim, embed_dim }),
    {
        Mlp { gate_proj, up_proj, down_proj, hidden_dim, embed_dim }
    }

    /// `out` is `down_proj` times the product of two vectors: SiLU of `gate_proj` times
    /// `x`, and `up_proj` times `x`.
    pub open spec fn feeds<
        T: Copy,
        F: Fn(Op<T>) -> T,
        H: Fn(&QuantizedMatrix, &Vec<T>) -> Option<Vec<T>>,
    >(
        &self,
        n: Numbers<T, F>,
        project: Projector<H>,
        x: Seq<T>,
        out: Seq<T>,
    ) -> bool {
        exists|g: Seq<T>, a: Seq<T>, u: Seq<T>, h: Seq<T>|
            {
                &&& #[trigger] projects(n, project, self.gate_proj, x, g)
                &&& #[trigger] n.silu_each(g, a)
                &&& #[trigger] projects(n, project, self.up_proj, x, u)
                &&& #[trigger] n.multiplied(a, u, h)
                &&& projects(n, project, self.down_proj, h, out)
            }
    }

    pub fn forward<
        T: Copy,
        F: Fn(Op<T>) -> T,
        H: Fn(&QuantizedMatrix, &Vec<T>) -> Option<Vec<T>>,
    >(
        &self,
        n: &Numbers<T, F>,
        project: &Projector<H>,
        x: &Vec<T>,
    ) -> (output: Vec<T>)
        requires
            n.total(),
            projecting::<T, H>(project),
            self.wf(),
            self.complete(),
            x@.len() == self.embed_dim,
        ensures
            output@.len() == self.embed_dim,
            self.feeds(*n, *project, x@, output@),
    {
        let mut gate = apply_project(n, project, &self.gate_proj, x);
        silu_inplace(n, gate.as_mut_slice());
        let up = apply_project(n, project, &self.up_proj, x);
        vec_mul_inplace(n, gate.as_mut_slice(), up.as_slice());
        apply_project(n, project, &self.down_proj, &gate)
    }
}

} // verus!
