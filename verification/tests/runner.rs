use calculator::{
    run_file, run_sequential, worker_step, Calculator, Ending, Fault, FileTask, Operation,
    ParseError, Report, Step,
};

fn task(lines: &[&str]) -> FileTask {
    FileTask { lines: lines.iter().map(|l| l.to_string()).collect(), ending: Ending::Complete }
}

#[test]
fn one_file_add_mul_sub() {
    let out = run_sequential(&vec![task(&["+ 10", "* 3", "- 5"])]);
    assert_eq!(out.value, 25);
    assert_eq!(out.reports, vec![]);
}

#[test]
fn two_files_in_order_with_wrapping() {
    let a = task(&["+ 200", "+ 100"]);
    let b = task(&["* 2"]);
    assert_eq!(run_sequential(&vec![a.clone()]).value, 44);
    let out = run_sequential(&vec![a, b]);
    assert_eq!(out.value, 88);
    assert_eq!(out.reports, vec![]);
}

#[test]
fn file_order_matters() {
    let a = task(&["+ 200", "+ 100"]);
    let b = task(&["* 2"]);
    assert_eq!(run_sequential(&vec![b, a]).value, 44);
}

#[test]
fn empty_file_changes_nothing_and_reports_nothing() {
    let out = run_sequential(&vec![task(&[])]);
    assert_eq!(out.value, 0);
    assert_eq!(out.reports, vec![]);
    let out = run_sequential(&vec![task(&["+ 7"]), task(&[]), task(&["* 3"])]);
    assert_eq!(out.value, 21);
    assert_eq!(out.reports, vec![]);
    let mut calc = Calculator::with_value(99);
    let mut reports = Vec::new();
    run_file(&mut calc, 0, &task(&[]), &mut reports);
    assert_eq!(calc.value(), 99);
    assert_eq!(reports, vec![]);
}

#[test]
fn no_files_give_zero() {
    let out = run_sequential(&vec![]);
    assert_eq!(out.value, 0);
    assert_eq!(out.reports, vec![]);
}

#[test]
fn malformed_line_is_reported_and_skipped() {
    let out = run_sequential(&vec![task(&["+ 10", "foo", "* 3"])]);
    assert_eq!(out.value, 30);
    assert_eq!(
        out.reports,
        vec![Report { file: 0, line: 1, fault: Fault::Parse(ParseError::WrongArity) }]
    );
}

#[test]
fn every_parse_error_is_reported_at_its_line() {
    let out = run_sequential(&vec![
        task(&["+ 1"]),
        task(&["foo 1", "+ 2", "+ 300", "", "+ 4"]),
    ]);
    assert_eq!(out.value, 7);
    assert_eq!(
        out.reports,
        vec![
            Report { file: 1, line: 0, fault: Fault::Parse(ParseError::UnknownOperator) },
            Report { file: 1, line: 2, fault: Fault::Parse(ParseError::InvalidOperand) },
            Report { file: 1, line: 3, fault: Fault::Parse(ParseError::WrongArity) },
        ]
    );
}

#[test]
fn divide_by_zero_is_reported_and_is_a_no_op() {
    let out = run_sequential(&vec![task(&["+ 12", "/ 0", "/ 4"])]);
    assert_eq!(out.value, 3);
    assert_eq!(out.reports, vec![Report { file: 0, line: 1, fault: Fault::DivideByZero }]);
}

#[test]
fn failed_open_is_reported_and_the_next_file_runs() {
    let unopened = FileTask { lines: vec![], ending: Ending::OpenFailed };
    let out = run_sequential(&vec![task(&["+ 5"]), unopened, task(&["* 5"])]);
    assert_eq!(out.value, 25);
    assert_eq!(out.reports, vec![Report { file: 1, line: 0, fault: Fault::FileOpen }]);
}

#[test]
fn failed_read_keeps_the_lines_before_it() {
    let cut = FileTask {
        lines: vec!["+ 5".to_string(), "bar".to_string(), "+ 6".to_string()],
        ending: Ending::ReadFailed,
    };
    let out = run_sequential(&vec![cut, task(&["* 2"])]);
    assert_eq!(out.value, 22);
    assert_eq!(
        out.reports,
        vec![
            Report { file: 0, line: 1, fault: Fault::Parse(ParseError::WrongArity) },
            Report { file: 0, line: 3, fault: Fault::LineRead },
        ]
    );
}

#[test]
fn running_twice_gives_the_same_outcome() {
    let tasks = vec![
        task(&["+ 200", "oops", "* 7", "/ 0"]),
        task(&["- 13", "/ 3"]),
        FileTask { lines: vec!["+ 1".to_string()], ending: Ending::ReadFailed },
    ];
    let first = run_sequential(&tasks);
    let second = run_sequential(&tasks);
    assert_eq!(first.value, second.value);
    assert_eq!(first.reports, second.reports);
    let copy: Vec<FileTask> = tasks.iter().map(|t| t.clone()).collect();
    let third = run_sequential(&copy);
    assert_eq!(first.value, third.value);
    assert_eq!(first.reports, third.reports);
    assert_eq!(first.value, 36);
}

#[test]
fn run_file_continues_from_the_value_held() {
    let mut calc = Calculator::with_value(250);
    let mut reports = vec![Report { file: 9, line: 9, fault: Fault::LineRead }];
    run_file(&mut calc, 4, &task(&["+ 10", "/ 0", "nope 1"]), &mut reports);
    assert_eq!(calc.value(), 4);
    assert_eq!(
        reports,
        vec![
            Report { file: 9, line: 9, fault: Fault::LineRead },
            Report { file: 4, line: 1, fault: Fault::DivideByZero },
            Report { file: 4, line: 2, fault: Fault::Parse(ParseError::UnknownOperator) },
        ]
    );
}

#[test]
fn worker_step_applies_operations_and_skips_the_rest() {
    assert_eq!(worker_step("+ 10"), Step::Apply(Operation::Add(10)));
    assert_eq!(worker_step("/ 0"), Step::Apply(Operation::Div(0)));
    assert_eq!(worker_step("foo"), Step::Skip(ParseError::WrongArity));
    assert_eq!(worker_step("+ 256"), Step::Skip(ParseError::InvalidOperand));
    assert_eq!(worker_step("^ 2"), Step::Skip(ParseError::UnknownOperator));
}

#[test]
fn operations_of_a_task_leave_out_bad_lines() {
    let t = task(&["+ 1", "bad", "/ 0", "* 300", "- 2"]);
    assert_eq!(t.operations(), vec![Operation::Add(1), Operation::Div(0), Operation::Sub(2)]);
    assert_eq!(task(&[]).operations(), vec![]);
}
