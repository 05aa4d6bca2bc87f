//! Running the lines of several inputs in order, on one accumulator.

use vstd::prelude::*;
use crate::accumulator::Calculator;
use crate::operation::{eval_all, lemma_eval_all_concat, Operation, ParseError};
use crate::parser::parse_line;

verus! {

/// How the reading of an input ended.
#[derive(Clone, Copy, Debug, PartialEq, Eq, Structural)]
pub enum Ending {
    /// Every line was read.
    Complete,
    /// The input could not be opened.
    OpenFailed,
    /// A line could not be read; the lines before it were.
    ReadFailed,
}

/// One input: the lines that were read from it, in order, and how the
/// reading ended.
#[derive(Clone, Debug)]
pub struct FileTask {
    pub lines: Vec<String>,
    pub ending: Ending,
}

/// What went wrong at one place of the input. None of these stops a run.
#[derive(Clone, Copy, Debug, PartialEq, Eq, Structural)]
pub enum Fault {
    /// The input could not be opened; it contributes nothing.
    FileOpen,
    /// A line could not be read; the rest of the input is skipped.
    LineRead,
    /// A line is not an operation; the line is skipped.
    Parse(ParseError),
    /// A line divides by zero; the accumulator is left as it was.
    DivideByZero,
}

/// A fault and its place: the position of the input among the inputs and
/// the position of the line in it, both counted from zero.
#[derive(Clone, Copy, Debug, PartialEq, Eq, Structural)]
pub struct Report {
    pub file: usize,
    pub line: usize,
    pub fault: Fault,
}

/// The result of a run: the final value and every fault met on the way.
#[derive(Clone, Debug)]
pub struct Outcome {
    pub value: u8,
    pub reports: Vec<Report>,
}

/// What a worker does with one line.
#[derive(Clone, Copy, Debug, PartialEq, Eq, Structural)]
pub enum Step {
    /// The line is an operation: hand it to the accumulator.
    Apply(Operation),
    /// The line is not an operation: report why and go on.
    Skip(ParseError),
}

impl FileTask {
    /// The characters of each line.
    pub open spec fn texts(&self) -> Seq<Seq<char>> {
        self.lines@.map_values(|line: String| line@)
    }

    /// The operations of the input: those of its lines that are
    /// operations, in order.
    pub open spec fn spec_operations(&self) -> Seq<Operation> {
        parsed_ops(self.texts())
    }

    /// The operations of the input, in order; lines that are not
    /// operations are left out.
    pub fn operations(&self) -> (ops: Vec<Operation>)
        ensures
            ops@ == self.spec_operations(),
    {
        let mut ops: Vec<Operation> = Vec::new();
        let mut i: usize = 0;
        while i < self.lines.len()
            invariant
                i <= self.lines.len(),
                ops@ == parsed_ops(self.texts().take(i as int)),
            decreases self.lines.len() - i,
        {
            proof {
                let next = self.texts().take(i + 1);
                assert(next.drop_last() == self.texts().take(i as int));
                assert(next.last() == self.lines@[i as int]@);
            }
            match worker_step(self.lines[i].as_str()) {
                Step::Apply(op) => ops.push(op),
                Step::Skip(_) => {},
            }
            i = i + 1;
        }
        assert(self.texts().take(i as int) == self.texts());
        ops
    }
}

/// The operations among `texts`, in order.
pub open spec fn parsed_ops(texts: Seq<Seq<char>>) -> Seq<Operation>
    decreases texts.len(),
{
    if texts.len() == 0 {
        Seq::empty()
    } else {
        let before = parsed_ops(texts.drop_last());
        match parse_line(texts.last()) {
            Ok(op) => before.push(op),
            Err(_) => before,
        }
    }
}

/// The fault that a line gives rise to, if any.
pub open spec fn fault_of(text: Seq<char>) -> Option<Fault> {
    match parse_line(text) {
        Ok(op) => if op.divides_by_zero() {
            Some(Fault::DivideByZero)
        } else {
            None
        },
        Err(e) => Some(Fault::Parse(e)),
    }
}

/// The faults of the lines `texts` of input number `file`, in order.
pub open spec fn line_reports(file: usize, texts: Seq<Seq<char>>) -> Seq<Report>
    decreases texts.len(),
{
    if texts.len() == 0 {
        Seq::empty()
    } else {
        let before = line_reports(file, texts.drop_last());
        match fault_of(texts.last()) {
            Some(fault) => before.push(
                Report { file, line: (texts.len() - 1) as usize, fault },
            ),
            None => before,
        }
    }
}

/// The fault with which the reading of input number `file` ended after
/// `read` lines, if it ended with one.
pub open spec fn ending_reports(file: usize, read: usize, ending: Ending) -> Seq<Report> {
    match ending {
        Ending::Complete => Seq::empty(),
        Ending::OpenFailed => seq![Report { file, line: read, fault: Fault::FileOpen }],
        Ending::ReadFailed => seq![Report { file, line: read, fault: Fault::LineRead }],
    }
}

/// Every fault of input number `file`: those of its lines, then that of
/// its ending.
pub open spec fn file_reports(file: usize, task: FileTask) -> Seq<Report> {
    line_reports(file, task.texts()) + ending_reports(
        file,
        task.lines@.len() as usize,
        task.ending,
    )
}

/// The operations of each input.
pub open spec fn task_operations(tasks: Seq<FileTask>) -> Seq<Seq<Operation>> {
    tasks.map_values(|task: FileTask| task.spec_operations())
}

/// Every fault of `tasks`, input by input.
pub open spec fn all_reports(tasks: Seq<FileTask>) -> Seq<Report>
    decreases tasks.len(),
{
    if tasks.len() == 0 {
        Seq::empty()
    } else {
        all_reports(tasks.drop_last()) + file_reports(
            (tasks.len() - 1) as usize,
            tasks.last(),
        )
    }
}

/// The value that an in-order run of `tasks` ends with when it starts from
/// `start`: every operation of the first input, then every operation of
/// the second, and so on.
pub open spec fn sequential_value(start: u8, tasks: Seq<FileTask>) -> u8 {
    eval_all(start, task_operations(tasks).flatten())
}

/// Whether two lists of inputs hold the same lines with the same endings.
pub open spec fn same_inputs(a: Seq<FileTask>, b: Seq<FileTask>) -> bool {
    &&& a.len() == b.len()
    &&& forall|i: int|
        0 <= i < a.len() ==> (#[trigger] a[i]).texts() == b[i].texts() && a[i].ending
            == b[i].ending
}

/// An in-order run is decided by what the inputs hold: two runs over the
/// same lines, from the same value, end with the same value and report the
/// same faults.
pub proof fn lemma_sequential_is_deterministic(start: u8, a: Seq<FileTask>, b: Seq<FileTask>)
    requires
        same_inputs(a, b),
    ensures
        sequential_value(start, a) == sequential_value(start, b),
        all_reports(a) == all_reports(b),
    decreases a.len(),
{
    assert(task_operations(a) =~= task_operations(b)) by {
        assert forall|i: int| 0 <= i < a.len() implies task_operations(a)[i] == task_operations(
            b,
        )[i] by {
            assert(a[i].texts() == b[i].texts());
        }
    }
    if a.len() > 0 {
        let i = a.len() - 1;
        assert(a[i].texts() == b[i].texts());
        assert(a[i].texts().len() == a[i].lines@.len());
        assert(b[i].texts().len() == b[i].lines@.len());
        assert forall|j: int| 0 <= j < a.drop_last().len() implies (#[trigger] a.drop_last()[j]).texts()
            == b.drop_last()[j].texts() && a.drop_last()[j].ending == b.drop_last()[j].ending by {
            assert(a[j].texts() == b[j].texts());
        }
        lemma_sequential_is_deterministic(start, a.drop_last(), b.drop_last());
    }
}

/// Decides what to do with one line, before any shared state is touched.
pub fn worker_step(line: &str) -> (step: Step)
    ensures
        step == match parse_line(line@) {
            Ok(op) => Step::Apply(op),
            Err(e) => Step::Skip(e),
        },
{
    match Operation::from_str(line) {
        Ok(op) => Step::Apply(op),
        Err(e) => Step::Skip(e),
    }
}

/// Runs the lines of one input on `calc` and appends its faults to
/// `reports`.
pub fn run_file(calc: &mut Calculator, file: usize, task: &FileTask, reports: &mut Vec<Report>)
    ensures
        final(calc)@ == eval_all(old(calc)@, task.spec_operations()),
        final(reports)@ == old(reports)@ + file_reports(file, *task),
{
    let ghost texts = task.texts();
    let mut i: usize = 0;
    assert(old(reports)@ + Seq::<Report>::empty() == old(reports)@);
    while i < task.lines.len()
        invariant
            i <= task.lines.len(),
            texts == task.texts(),
            calc@ == eval_all(old(calc)@, parsed_ops(texts.take(i as int))),
            reports@ == old(reports)@ + line_reports(file, texts.take(i as int)),
        decreases task.lines.len() - i,
    {
        let ghost before = texts.take(i as int);
        let ghost next = texts.take(i + 1);
        proof {
            assert(next.drop_last() == before);
            assert(next.last() == task.lines@[i as int]@);
        }
        match worker_step(task.lines[i].as_str()) {
            Step::Apply(op) => {
                proof {
                    assert(parsed_ops(next).drop_last() == parsed_ops(before));
                }
                if calc.apply(op).is_err() {
                    reports.push(Report { file, line: i, fault: Fault::DivideByZero });
                    assert(reports@ == old(reports)@ + line_reports(file, next));
                }
            },
            Step::Skip(e) => {
                reports.push(Report { file, line: i, fault: Fault::Parse(e) });
                assert(reports@ == old(reports)@ + line_reports(file, next));
            },
        }
        i = i + 1;
    }
    assert(texts.take(i as int) == texts);
    let ghost lines_done = reports@;
    match task.ending {
        Ending::Complete => {},
        Ending::OpenFailed => {
            reports.push(Report { file, line: i, fault: Fault::FileOpen });
        },
        Ending::ReadFailed => {
            reports.push(Report { file, line: i, fault: Fault::LineRead });
        },
    }
    assert(reports@ == lines_done + ending_reports(file, i, task.ending));
    assert(reports@ == old(reports)@ + file_reports(file, *task));
}

/// Runs every input in the order given, each from its first line to its
/// last, on one accumulator that starts at zero.
pub fn run_sequential(tasks: &Vec<FileTask>) -> (out: Outcome)
    ensures
        out.value == sequential_value(0, tasks@),
        out.reports@ == all_reports(tasks@),
{
    let mut calc = Calculator::new();
    let mut reports: Vec<Report> = Vec::new();
    let mut i: usize = 0;
    assert(task_operations(tasks@.take(0)).flatten() == Seq::<Operation>::empty());
    while i < tasks.len()
        invariant
            i <= tasks.len(),
            calc@ == sequential_value(0, tasks@.take(i as int)),
            reports@ == all_reports(tasks@.take(i as int)),
        decreases tasks.len() - i,
    {
        proof {
            let before = tasks@.take(i as int);
            let next = tasks@.take(i + 1);
            assert(next.drop_last() == before);
            assert(next.last() == tasks@[i as int]);
            assert(task_operations(next) == task_operations(before).push(
                tasks@[i as int].spec_operations(),
            ));
            task_operations(before).lemma_flatten_push(tasks@[i as int].spec_operations());
            lemma_eval_all_concat(
                0,
                task_operations(before).flatten(),
                tasks@[i as int].spec_operations(),
            );
        }
        run_file(&mut calc, i, &tasks[i], &mut reports);
        i = i + 1;
    }
    assert(tasks@.take(i as int) == tasks@);
    Outcome { value: calc.value(), reports }
}

} // verus!
