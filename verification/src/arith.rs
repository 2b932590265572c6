//! Arithmetic that is handed in: the operations that the numeric code asks for, and
//! the constants that it starts from.

use vstd::prelude::*;

verus! {

/// An operation on numbers of type `T`.
#[derive(Debug, Clone, Copy)]
pub enum Op<T> {
    /// The sum of two numbers.
    Plus(T, T),
    /// The first number less the second.
    Minus(T, T),
    /// The product of two numbers.
    Times(T, T),
    /// The first number over the second.
    Over(T, T),
    /// The larger of two numbers.
    Larger(T, T),
    /// The first number to the power of the second.
    Power(T, T),
    /// The number with its sign turned.
    Negative(T),
    /// The exponential of a number.
    Exp(T),
    /// The square root of a number.
    Root(T),
    /// The cosine of an angle.
    Cosine(T),
    /// The sine of an angle.
    Sine(T),
    /// An integer as a number.
    Count(usize),
    /// A signed integer as a number.
    Whole(i32),
    /// The number of a single-precision pattern.
    Wide(u32),
    /// The second number where the first is not below zero, else the third.
    Choice(T, T, T),
}

/// Numbers: some constants, and what carries out the operations.
pub struct Numbers<T, F> {
    pub zero: T,
    pub one: T,
    /// What is below every number.
    pub lowest: T,
    /// Carries out an operation.
    pub calc: F,
}

impl<T: Copy, F: Fn(Op<T>) -> T> Numbers<T, F> {
    /// Every operation can be carried out.
    pub open spec fn total(&self) -> bool {
        forall|op: Op<T>| call_requires(self.calc, (op,))
    }

    /// Carrying out an operation gives `r`.
    pub open spec fn gives(&self, op: Op<T>, r: T) -> bool {
        call_ensures(self.calc, (op,), r)
    }

    pub fn run(&self, op: Op<T>) -> (r: T)
        requires
            self.total(),
        ensures
            self.gives(op, r),
    {
        (self.calc)(op)
    }

    /// `r` is `s` plus the product of `a` and `b`.
    pub open spec fn plus_product(&self, s: T, a: T, b: T, r: T) -> bool {
        exists|y: T| #[trigger]
            self.gives(Op::Times(a, b), y) && self.gives(Op::Plus(s, y), r)
    }

    /// Adds the product of two numbers to a sum.
    pub fn add_product(&self, s: T, a: T, b: T) -> (r: T)
        requires
            self.total(),
        ensures
            self.plus_product(s, a, b, r),
    {
        let y: T = self.run(Op::Times(a, b));
        self.run(Op::Plus(s, y))
    }
}

} // verus!
