//! Root mean square normalization.

use crate::arith::{Numbers, Op};
use crate::math::{rmsnorm, rmsnorm_inplace};
use vstd::prelude::*;

verus! {

/// A normalization with its weights.
#[derive(Debug, Clone)]
pub struct RmsNorm<T> {
    pub weight: Vec<T>,
    pub eps: T,
}

impl<T: Copy> RmsNorm<T> {
    pub fn new(weight: Vec<T>, eps: T) -> (r: Self)
        ensures
            r.weight@ == weight@,
            r.eps == eps,
    {
        RmsNorm { weight, eps }
    }

    pub fn forward<F: Fn(Op<T>) -> T>(&self, n: &Numbers<T, F>, input: &[T], output: &mut [T])
        requires
            n.total(),
            self.weight@.len() == input@.len(),
            old(output)@.len() == input@.len(),
        ensures
            n.rms_normed(input@, self.weight@, self.eps, final(output)@),
    {
        rmsnorm(n, input, self.weight.as_slice(), output, self.eps);
    }

    /// Weights past the end of the input are not used.
    pub fn forward_inplace<F: Fn(Op<T>) -> T>(&self, n: &Numbers<T, F>, input: &mut [T])
        requires
            n.total(),
            old(input)@.len() <= self.weight@.len(),
        ensures
            n.rms_normed(old(input)@, self.weight@, self.eps, final(input)@),
    {
        let len: usize = input.len();
        let w = &self.weight.as_slice()[0..len];
        rmsnorm_inplace(n, input, w, self.eps);
        assert(forall|i: int| 0 <= i < len ==> w@[i] == self.weight@[i]);
    }
}

} // verus!
