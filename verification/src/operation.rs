//! The operations an accumulator understands, and what can go wrong with one.

use vstd::prelude::*;

verus! {

/// One arithmetic step with its byte-sized operand.
#[derive(Clone, Copy, Debug, PartialEq, Eq, Structural)]
pub enum Operation {
    Add(u8),
    Sub(u8),
    Mul(u8),
    Div(u8),
}

/// Why a line of text is not an operation.
#[derive(Clone, Copy, Debug, PartialEq, Eq, Structural)]
pub enum ParseError {
    /// The line does not hold exactly two whitespace-separated tokens.
    WrongArity,
    /// The second token is not a decimal number in `0..=255`.
    InvalidOperand,
    /// The first token is none of `+`, `-`, `*`, `/`.
    UnknownOperator,
}

/// A division whose divisor is zero was asked for; the accumulator was left
/// as it was.
#[derive(Clone, Copy, Debug, PartialEq, Eq, Structural)]
pub struct DivideByZero;

impl Operation {
    /// The operand carried by the operation.
    pub open spec fn spec_operand(self) -> u8 {
        match self {
            Operation::Add(n) => n,
            Operation::Sub(n) => n,
            Operation::Mul(n) => n,
            Operation::Div(n) => n,
        }
    }

    /// Whether applying the operation is a division by zero.
    pub open spec fn divides_by_zero(self) -> bool {
        self == Operation::Div(0u8)
    }

    /// The value that results from applying the operation to `v`: sums,
    /// differences and products are taken modulo 256, a quotient is rounded
    /// down, and a division by zero leaves `v` as it is.
    pub open spec fn spec_eval(self, v: u8) -> u8 {
        match self {
            Operation::Add(n) => ((v + n) % 256) as u8,
            Operation::Sub(n) => ((v - n) % 256) as u8,
            Operation::Mul(n) => ((v * n) % 256) as u8,
            Operation::Div(n) => if n == 0 { v } else { (v / n) as u8 },
        }
    }

    /// The operand carried by the operation.
    pub fn operand(self) -> (n: u8)
        ensures
            n == self.spec_operand(),
    {
        match self {
            Operation::Add(n) => n,
            Operation::Sub(n) => n,
            Operation::Mul(n) => n,
            Operation::Div(n) => n,
        }
    }
}

/// The value reached from `v` by applying `ops` from first to last.
pub open spec fn eval_all(v: u8, ops: Seq<Operation>) -> u8
    decreases ops.len(),
{
    if ops.len() == 0 {
        v
    } else {
        ops.last().spec_eval(eval_all(v, ops.drop_last()))
    }
}

/// Adding an operand and then subtracting the same operand gives back the
/// value that was there before, whatever wrapped on the way.
pub proof fn lemma_add_then_sub(v: u8, n: u8)
    ensures
        Operation::Sub(n).spec_eval(Operation::Add(n).spec_eval(v)) == v,
{
}

/// A division by zero changes no value.
pub proof fn lemma_divide_by_zero_is_noop(v: u8)
    ensures
        Operation::Div(0).spec_eval(v) == v,
        Operation::Div(0).divides_by_zero(),
{
}

/// Applying one run of operations and then another is applying the two
/// runs joined.
pub proof fn lemma_eval_all_concat(v: u8, first: Seq<Operation>, second: Seq<Operation>)
    ensures
        eval_all(v, first + second) == eval_all(eval_all(v, first), second),
    decreases second.len(),
{
    if second.len() == 0 {
        assert(first + second == first);
    } else {
        lemma_eval_all_concat(v, first, second.drop_last());
        assert((first + second).drop_last() == first + second.drop_last());
        assert((first + second).last() == second.last());
    }
}

} // verus!
