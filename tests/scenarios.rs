use rust_lab::cell::{CellReference, Expr, Spreadsheet, Status};
use rust_lab::csv_import::{import_csv, load_records};
use rust_lab::engine::assign_cell;
use rust_lab::graph::initialise;
use rust_lab::parser::{parse_formula, parse_input};
use rust_lab::sleep::{handle_sleep, process_sleep_completions, SleepCompletion, SleepTask};
use rust_lab::undo::{perform_redo, perform_undo, CellState, UndoRedoStack};

fn run(sheet: &mut Spreadsheet, undo: &mut UndoRedoStack, line: &str) -> Status {
    match parse_input(line, sheet.rows, sheet.columns) {
        Ok((row, col, e)) => assign_cell(sheet, undo, row, col, e),
        Err(()) => Status::InvalidInput,
    }
}

fn value(sheet: &Spreadsheet, name: &str) -> i32 {
    let c = rust_lab::cellname::parse_cell_name(name).unwrap();
    sheet.all_cells[c.row as usize][c.column as usize].value
}

fn is_error(sheet: &Spreadsheet, name: &str) -> bool {
    let c = rust_lab::cellname::parse_cell_name(name).unwrap();
    sheet.all_cells[c.row as usize][c.column as usize].is_error
}

#[test]
fn reference_plus_literal() {
    let mut sheet = initialise(3, 3);
    let mut undo = UndoRedoStack::new();
    assert_eq!(run(&mut sheet, &mut undo, "A1=5"), Status::Success);
    assert_eq!(run(&mut sheet, &mut undo, "B1=A1+2"), Status::Success);
    assert_eq!(value(&sheet, "A1"), 5);
    assert_eq!(value(&sheet, "B1"), 7);
    assert!(!is_error(&sheet, "A1"));
    assert!(!is_error(&sheet, "B1"));
}

#[test]
fn division_by_zero_flags_the_cell() {
    let mut sheet = initialise(2, 3);
    let mut undo = UndoRedoStack::new();
    run(&mut sheet, &mut undo, "A1=10");
    run(&mut sheet, &mut undo, "B1=0");
    assert_eq!(run(&mut sheet, &mut undo, "C1=A1/B1"), Status::ComputationError);
    assert!(is_error(&sheet, "C1"));
}

#[test]
fn cycle_is_refused() {
    let mut sheet = initialise(2, 2);
    let mut undo = UndoRedoStack::new();
    assert_eq!(run(&mut sheet, &mut undo, "A1=B1"), Status::Success);
    assert_eq!(run(&mut sheet, &mut undo, "B1=A1"), Status::CyclicDependency);
    assert_eq!(value(&sheet, "A1"), 0);
    assert_eq!(value(&sheet, "B1"), 0);
    assert_eq!(sheet.all_cells[0][1].formula, Expr::Number(0));
    assert!(sheet.all_cells[0][1].precedents.is_empty());
    assert_eq!(sheet.all_cells[0][0].precedents, vec![CellReference { row: 0, column: 1 }]);
    assert_eq!(sheet.all_cells[0][1].dependents, vec![CellReference { row: 0, column: 0 }]);
    assert!(sheet.all_cells[0][0].dependents.is_empty());
}

#[test]
fn sum_follows_its_inputs() {
    let mut sheet = initialise(3, 3);
    let mut undo = UndoRedoStack::new();
    run(&mut sheet, &mut undo, "A1=3");
    run(&mut sheet, &mut undo, "A2=4");
    run(&mut sheet, &mut undo, "A3=SUM(A1:A2)");
    assert_eq!(value(&sheet, "A3"), 7);
    run(&mut sheet, &mut undo, "A1=10");
    assert_eq!(value(&sheet, "A3"), 14);
}

#[test]
fn undo_then_redo() {
    let mut sheet = initialise(2, 2);
    let mut undo = UndoRedoStack::new();
    run(&mut sheet, &mut undo, "A1=5");
    run(&mut sheet, &mut undo, "A1=7");
    assert_eq!(perform_undo(&mut sheet, &mut undo), Some(Status::Success));
    assert_eq!(value(&sheet, "A1"), 5);
    assert_eq!(perform_redo(&mut sheet, &mut undo), Some(Status::Success));
    assert_eq!(value(&sheet, "A1"), 7);
}

#[test]
fn undo_and_redo_with_empty_history() {
    let mut sheet = initialise(2, 2);
    let mut undo = UndoRedoStack::new();
    assert_eq!(perform_undo(&mut sheet, &mut undo), None);
    assert_eq!(perform_redo(&mut sheet, &mut undo), None);
}

#[test]
fn undo_restores_dependents() {
    let mut sheet = initialise(2, 2);
    let mut undo = UndoRedoStack::new();
    run(&mut sheet, &mut undo, "A1=1");
    run(&mut sheet, &mut undo, "B1=A1*10");
    run(&mut sheet, &mut undo, "A1=2");
    assert_eq!(value(&sheet, "B1"), 20);
    perform_undo(&mut sheet, &mut undo);
    assert_eq!(value(&sheet, "A1"), 1);
    assert_eq!(value(&sheet, "B1"), 10);
    perform_redo(&mut sheet, &mut undo);
    assert_eq!(value(&sheet, "B1"), 20);
}

#[test]
fn history_is_bounded() {
    let mut sheet = initialise(1, 1);
    let mut undo = UndoRedoStack::new();
    for i in 0..30 {
        run(&mut sheet, &mut undo, &format!("A1={}", i));
    }
    assert_eq!(undo.undo_stack.len(), 17);
    let mut undone = 0;
    while perform_undo(&mut sheet, &mut undo).is_some() {
        undone += 1;
    }
    assert_eq!(undone, 17);
    assert_eq!(value(&sheet, "A1"), 12);
}

#[test]
fn sleep_returns_its_argument_at_once() {
    let mut sheet = initialise(1, 1);
    let mut undo = UndoRedoStack::new();
    assert_eq!(run(&mut sheet, &mut undo, "A1=SLEEP(1)"), Status::Success);
    assert_eq!(value(&sheet, "A1"), 1);
    let task = handle_sleep(&sheet, 0, 0).unwrap();
    assert_eq!(task, SleepTask { row: 0, column: 0, seconds: 1, value: 1 });
    let done = vec![SleepCompletion { row: task.row, column: task.column, value: task.value }];
    process_sleep_completions(&mut sheet, &done);
    assert_eq!(value(&sheet, "A1"), 1);
}

#[test]
fn sleep_edge_cases() {
    let mut sheet = initialise(2, 2);
    let mut undo = UndoRedoStack::new();
    run(&mut sheet, &mut undo, "A1=SLEEP(-3)");
    assert_eq!(value(&sheet, "A1"), -3);
    assert_eq!(handle_sleep(&sheet, 0, 0), Some(SleepTask { row: 0, column: 0, seconds: 0, value: -3 }));
    run(&mut sheet, &mut undo, "B1=1/0");
    run(&mut sheet, &mut undo, "B2=SLEEP(B1)");
    assert!(is_error(&sheet, "B2"));
    assert_eq!(handle_sleep(&sheet, 1, 1), None);
    assert_eq!(handle_sleep(&sheet, 0, 1), None);
}

#[test]
fn later_sleep_completion_wins() {
    let mut sheet = initialise(1, 2);
    let done = vec![
        SleepCompletion { row: 0, column: 0, value: 4 },
        SleepCompletion { row: 0, column: 0, value: 9 },
        SleepCompletion { row: 5, column: 5, value: 1 },
    ];
    process_sleep_completions(&mut sheet, &done);
    assert_eq!(value(&sheet, "A1"), 9);
    assert_eq!(value(&sheet, "B1"), 0);
}

#[test]
fn stdev_rounds_to_nearest() {
    let mut sheet = initialise(3, 3);
    let mut undo = UndoRedoStack::new();
    run(&mut sheet, &mut undo, "A1=1");
    run(&mut sheet, &mut undo, "A2=3");
    run(&mut sheet, &mut undo, "A3=5");
    run(&mut sheet, &mut undo, "B1=STDEV(A1:A3)");
    assert_eq!(value(&sheet, "B1"), 2);
}

#[test]
fn empty_aggregates_and_wrapping() {
    let mut sheet = initialise(2, 2);
    let mut undo = UndoRedoStack::new();
    run(&mut sheet, &mut undo, "A1=AVG()");
    assert_eq!(value(&sheet, "A1"), 0);
    run(&mut sheet, &mut undo, "A1=2147483647+1");
    assert_eq!(value(&sheet, "A1"), i32::MIN);
    run(&mut sheet, &mut undo, "A1=-2147483648/-1");
    assert_eq!(value(&sheet, "A1"), i32::MIN);
    run(&mut sheet, &mut undo, "A1=-7/2");
    assert_eq!(value(&sheet, "A1"), -3);
    run(&mut sheet, &mut undo, "A1=AVG(-7,0)");
    assert_eq!(value(&sheet, "A1"), -3);
}

#[test]
fn out_of_grid_assignments_are_invalid() {
    let mut sheet = initialise(2, 3);
    let mut undo = UndoRedoStack::new();
    assert_eq!(run(&mut sheet, &mut undo, "AAAA1=1"), Status::InvalidInput);
    assert_eq!(run(&mut sheet, &mut undo, "A1=AAAA1"), Status::InvalidInput);
    let far = Expr::Cell(CellReference { row: 5, column: 0 });
    assert_eq!(assign_cell(&mut sheet, &mut undo, 0, 0, far), Status::InvalidInput);
    assert_eq!(assign_cell(&mut sheet, &mut undo, 9, 0, Expr::Number(1)), Status::InvalidInput);
    assert!(undo.undo_stack.is_empty());
}

#[test]
fn error_clears_on_reassignment() {
    let mut sheet = initialise(2, 2);
    let mut undo = UndoRedoStack::new();
    run(&mut sheet, &mut undo, "A1=1/0");
    run(&mut sheet, &mut undo, "B1=A1+1");
    assert!(is_error(&sheet, "B1"));
    run(&mut sheet, &mut undo, "A1=4");
    assert!(!is_error(&sheet, "A1"));
    assert!(!is_error(&sheet, "B1"));
    assert_eq!(value(&sheet, "B1"), 5);
}

#[test]
fn same_assignment_twice_is_idempotent() {
    let mut once = initialise(3, 3);
    let mut twice = initialise(3, 3);
    let mut u1 = UndoRedoStack::new();
    let mut u2 = UndoRedoStack::new();
    for line in ["A1=2", "B1=A1*3", "C1=SUM(A1:B1)"] {
        run(&mut once, &mut u1, line);
        run(&mut twice, &mut u2, line);
    }
    run(&mut once, &mut u1, "A2=C1-1");
    run(&mut twice, &mut u2, "A2=C1-1");
    run(&mut twice, &mut u2, "A2=C1-1");
    for r in 0..3 {
        for c in 0..3 {
            let a = &once.all_cells[r][c];
            let b = &twice.all_cells[r][c];
            assert_eq!(a.value, b.value);
            assert_eq!(a.is_error, b.is_error);
            assert_eq!(a.formula, b.formula);
        }
    }
}

#[test]
fn formula_round_trips_through_text() {
    for text in ["1+2*3", "(A1-B2)/-4", "SUM(A1:B3, 7, C1*2)", "max(A1)", "SLEEP(B1)", "AVG()"] {
        let e = parse_formula(text).unwrap();
        let printed = rust_lab::printer::expr_to_string(&e);
        assert_eq!(parse_formula(&printed).unwrap(), e);
    }
}

#[test]
fn csv_rows_become_assignments() {
    let mut sheet = initialise(2, 2);
    let mut undo = UndoRedoStack::new();
    let data = b"1, =A1+1, 9\n abc , 4\n5,6\n";
    let report = import_csv(&mut sheet, &mut undo, data);
    assert_eq!(report.rows_loaded, 2);
    assert!(report.extra_rows);
    assert!(report.extra_columns);
    assert!(!report.malformed);
    assert_eq!(value(&sheet, "A1"), 1);
    assert_eq!(value(&sheet, "B1"), 2);
    assert_eq!(value(&sheet, "A2"), 0);
    assert_eq!(value(&sheet, "B2"), 4);
    assert_eq!(sheet.all_cells[0][1].formula, parse_formula("A1+1").unwrap());
}

#[test]
fn csv_unknown_text_degrades_to_zero() {
    let mut sheet = initialise(1, 2);
    let mut undo = UndoRedoStack::new();
    let report = import_csv(&mut sheet, &mut undo, b"=FOO(1),-12\n");
    assert_eq!(report.rows_loaded, 1);
    assert!(!report.extra_rows);
    assert_eq!(value(&sheet, "A1"), 0);
    assert_eq!(value(&sheet, "B1"), -12);
    assert_eq!(sheet.all_cells[0][0].formula, Expr::Number(0));
    assert_eq!(sheet.all_cells[0][1].formula, Expr::Number(-12));
}

#[test]
fn undo_stack_methods() {
    let mut stack = UndoRedoStack::new();
    assert!(!stack.can_undo());
    assert!(!stack.can_redo());
    for i in 0..20 {
        stack.push_state(CellState { row: i, column: 0, formula: Expr::Number(i), is_error: false, precedents: vec![] });
    }
    assert_eq!(stack.undo_stack.len(), 17);
    let top = stack.pop_undo().unwrap();
    assert_eq!(top.row, 19);
    stack.push_redo(top);
    assert!(stack.can_redo());
    assert_eq!(stack.pop_redo().unwrap().formula, Expr::Number(19));
    assert!(stack.pop_redo().is_none());
    assert_eq!(stack.undo_stack[0].row, 3);
}

#[test]
fn errors_raised_downstream_are_reported() {
    let mut sheet = initialise(2, 2);
    let mut undo = UndoRedoStack::new();
    run(&mut sheet, &mut undo, "A1=1");
    assert_eq!(run(&mut sheet, &mut undo, "B1=10/A1"), Status::Success);
    assert_eq!(run(&mut sheet, &mut undo, "A1=0"), Status::ComputationError);
    assert!(!is_error(&sheet, "A1"));
    assert!(is_error(&sheet, "B1"));
    assert_eq!(run(&mut sheet, &mut undo, "A1=5"), Status::Success);
    assert_eq!(value(&sheet, "B1"), 2);
}

#[test]
fn loading_records_stores_formulas_and_numbers() {
    let mut sheet = initialise(2, 2);
    let mut undo = UndoRedoStack::new();
    let rows = vec![
        vec!["4".to_string(), "=A1*2".to_string(), "7".to_string()],
        vec!["A1+B1".to_string(), "text".to_string()],
        vec!["9".to_string()],
    ];
    let report = load_records(&mut sheet, &mut undo, &rows);
    assert_eq!(report.rows_loaded, 2);
    assert!(report.extra_rows);
    assert!(report.extra_columns);
    assert!(!report.malformed);
    assert_eq!(value(&sheet, "A1"), 4);
    assert_eq!(value(&sheet, "B1"), 8);
    assert_eq!(value(&sheet, "A2"), 12);
    assert_eq!(value(&sheet, "B2"), 0);
}
