//! The accumulator: one byte and four wrapping transitions.

use vstd::prelude::*;
use crate::operation::{DivideByZero, Operation};

verus! {

/// A calculator over the values `0..=255` whose arithmetic wraps.
#[derive(Clone, Copy, Debug)]
pub struct Calculator {
    value: u8,
}

impl View for Calculator {
    type V = u8;

    closed spec fn view(&self) -> u8 {
        self.value
    }
}

impl Default for Calculator {
    fn default() -> (calc: Calculator)
        ensures
            calc@ == 0,
    {
        Calculator { value: 0 }
    }
}

impl Calculator {
    /// A calculator that holds 0.
    pub fn new() -> (calc: Calculator)
        ensures
            calc@ == 0,
    {
        Calculator { value: 0 }
    }

    /// A calculator that holds `value`.
    pub fn with_value(value: u8) -> (calc: Calculator)
        ensures
            calc@ == value,
    {
        Calculator { value }
    }

    /// The value held now.
    pub fn value(&self) -> (v: u8)
        ensures
            v == self@,
    {
        self.value
    }

    /// Applies one operation in place. A division by zero changes nothing
    /// and is reported as an error; every other operation succeeds.
    pub fn apply(&mut self, op: Operation) -> (res: Result<(), DivideByZero>)
        ensures
            final(self)@ == op.spec_eval(old(self)@),
            res is Err <==> op.divides_by_zero(),
            op.divides_by_zero() ==> final(self)@ == old(self)@,
    {
        match op {
            Operation::Add(n) => {
                self.value = self.value.wrapping_add(n);
                Ok(())
            },
            Operation::Sub(n) => {
                self.value = self.value.wrapping_sub(n);
                Ok(())
            },
            Operation::Mul(n) => {
                self.value = self.value.wrapping_mul(n);
                Ok(())
            },
            Operation::Div(n) => {
                if n == 0 {
                    Err(DivideByZero)
                } else {
                    self.value = self.value / n;
                    Ok(())
                }
            },
        }
    }
}

} // verus!
