//! A wrapping 8-bit calculator driven by line-oriented text.
//!
//! Each line of input names one arithmetic operation (`+ 10`, `* 3`, ...).
//! Operations are applied to a single byte-sized accumulator whose
//! arithmetic wraps modulo 256. The crate holds the grammar of a line, the
//! accumulator, the in-order runner over several inputs, and the model of
//! what a concurrent run over the same inputs may produce.

pub mod accumulator;
pub mod operation;
pub mod parser;
pub mod runner;
pub mod schedule;
pub mod text;

pub use accumulator::Calculator;
pub use operation::{DivideByZero, Operation, ParseError};
pub use runner::{
    run_file, run_sequential, worker_step, Ending, Fault, FileTask, Outcome, Report, Step,
};
pub use schedule::replay;
