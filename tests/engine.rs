use rust_lab::cell::{CellReference, Expr, FunctionName, Operand, Spreadsheet, Status};
use rust_lab::engine::{assign_cell, precedent_has_error, zero_div_err};
use rust_lab::graph::{add_dependency, delete_dependency, has_cycle, initialise};
use rust_lab::sleep::get_operand_value;
use rust_lab::undo::UndoRedoStack;

fn at(row: i32, column: i32) -> CellReference {
    CellReference { row, column }
}

fn cell(row: i32, column: i32) -> Expr {
    Expr::Cell(at(row, column))
}

fn num(n: i32) -> Expr {
    Expr::Number(n)
}

fn bin(l: Expr, op: char, r: Expr) -> Expr {
    Expr::BinaryOp(Box::new(l), op, Box::new(r))
}

fn call(f: FunctionName, args: Vec<Expr>) -> Expr {
    Expr::Function(f, args)
}

fn put(sheet: &mut Spreadsheet, undo: &mut UndoRedoStack, row: i32, column: i32, e: Expr) -> Status {
    assign_cell(sheet, undo, row, column, e)
}

#[test]
fn test_initialise_spreadsheet() {
    let sheet = initialise(999, 18278);
    assert_eq!(sheet.rows, 999);
    assert_eq!(sheet.columns, 18278);
    assert_eq!(sheet.all_cells.len(), 999);
    assert_eq!(sheet.all_cells[0].len(), 18278);
}

#[test]
fn test_add_and_delete_dependency() {
    let mut sheet = initialise(2, 2);
    add_dependency(&mut sheet, 0, 0, 1, 1);
    assert!(sheet.all_cells[0][0].dependents.contains(&at(1, 1)));
    assert!(sheet.all_cells[1][1].precedents.contains(&at(0, 0)));
    delete_dependency(&mut sheet, 0, 0, 1, 1);
    assert!(!sheet.all_cells[0][0].dependents.contains(&at(1, 1)));
}

#[test]
fn test_assign_constant_cell() {
    let mut sheet = initialise(2, 2);
    let mut undo = UndoRedoStack::new();
    put(&mut sheet, &mut undo, 0, 0, num(42));
    assert_eq!(sheet.all_cells[0][0].value, 42);
    assert!(!sheet.all_cells[0][0].is_error);
}

#[test]
fn test_assign_addition_formula() {
    let mut sheet = initialise(2, 2);
    let mut undo = UndoRedoStack::new();
    put(&mut sheet, &mut undo, 0, 0, num(5));
    put(&mut sheet, &mut undo, 0, 1, num(10));
    put(&mut sheet, &mut undo, 1, 0, bin(cell(0, 0), '+', cell(0, 1)));
    assert_eq!(sheet.all_cells[1][0].value, 15);
}

#[test]
fn test_get_operand_value() {
    let mut sheet = initialise(1, 1);
    sheet.all_cells[0][0].value = 99;
    let operand = Operand::CellOperand(at(0, 0));
    let (val, err) = get_operand_value(&sheet, &operand);
    assert_eq!(val, 99);
    assert!(!err);
}

#[test]
fn test_zero_div_err() {
    let mut sheet = initialise(1, 3);
    let mut undo = UndoRedoStack::new();
    put(&mut sheet, &mut undo, 0, 1, num(10));
    put(&mut sheet, &mut undo, 0, 2, num(0));
    put(&mut sheet, &mut undo, 0, 0, bin(cell(0, 1), '/', cell(0, 2)));
    assert!(zero_div_err(&sheet, 0, 0));
}

#[test]
fn test_precedent_error_propagation() {
    let mut sheet = initialise(1, 1);
    sheet.all_cells[0][0].is_error = true;
    sheet.all_cells[0][0].precedents.push(at(0, 0));
    assert!(precedent_has_error(&sheet, 0, 0));
}

#[test]
fn test_assign_subtraction() {
    let mut sheet = initialise(2, 2);
    let mut undo = UndoRedoStack::new();
    put(&mut sheet, &mut undo, 0, 0, num(8));
    put(&mut sheet, &mut undo, 0, 1, num(5));
    put(&mut sheet, &mut undo, 1, 0, bin(cell(0, 0), '-', cell(0, 1)));
    assert_eq!(sheet.all_cells[1][0].value, 3);
    assert!(!sheet.all_cells[1][0].is_error);
}

#[test]
fn test_assign_multiplication() {
    let mut sheet = initialise(2, 2);
    let mut undo = UndoRedoStack::new();
    put(&mut sheet, &mut undo, 0, 0, num(3));
    put(&mut sheet, &mut undo, 0, 1, num(4));
    put(&mut sheet, &mut undo, 1, 0, bin(cell(0, 0), '*', cell(0, 1)));
    assert_eq!(sheet.all_cells[1][0].value, 12);
    assert!(!sheet.all_cells[1][0].is_error);
}

#[test]
fn test_assign_division() {
    let mut sheet = initialise(2, 2);
    let mut undo = UndoRedoStack::new();
    put(&mut sheet, &mut undo, 0, 0, num(10));
    put(&mut sheet, &mut undo, 0, 1, num(2));
    put(&mut sheet, &mut undo, 1, 0, bin(cell(0, 0), '/', cell(0, 1)));
    assert_eq!(sheet.all_cells[1][0].value, 5);
    assert!(!sheet.all_cells[1][0].is_error);
}

#[test]
fn test_assign_min_function() {
    let mut sheet = initialise(2, 2);
    let mut undo = UndoRedoStack::new();
    put(&mut sheet, &mut undo, 0, 0, num(9));
    put(&mut sheet, &mut undo, 0, 1, num(2));
    put(&mut sheet, &mut undo, 1, 0, call(FunctionName::Min, vec![cell(0, 0), cell(0, 1)]));
    assert_eq!(sheet.all_cells[1][0].value, 2);
}

#[test]
fn test_assign_max_function() {
    let mut sheet = initialise(2, 2);
    let mut undo = UndoRedoStack::new();
    put(&mut sheet, &mut undo, 0, 0, num(9));
    put(&mut sheet, &mut undo, 0, 1, num(2));
    put(&mut sheet, &mut undo, 1, 0, call(FunctionName::Max, vec![cell(0, 0), cell(0, 1)]));
    assert_eq!(sheet.all_cells[1][0].value, 9);
}

#[test]
fn test_assign_avg_function() {
    let mut sheet = initialise(2, 2);
    let mut undo = UndoRedoStack::new();
    put(&mut sheet, &mut undo, 0, 0, num(10));
    put(&mut sheet, &mut undo, 0, 1, num(20));
    put(&mut sheet, &mut undo, 1, 0, call(FunctionName::Avg, vec![cell(0, 0), cell(0, 1)]));
    assert_eq!(sheet.all_cells[1][0].value, 15);
}

#[test]
fn test_assign_sum_function() {
    let mut sheet = initialise(2, 2);
    let mut undo = UndoRedoStack::new();
    put(&mut sheet, &mut undo, 0, 0, num(3));
    put(&mut sheet, &mut undo, 0, 1, num(4));
    put(&mut sheet, &mut undo, 1, 0, call(FunctionName::Sum, vec![cell(0, 0), cell(0, 1)]));
    assert_eq!(sheet.all_cells[1][0].value, 7);
}

#[test]
fn test_assign_stdev_function() {
    // The formula reads its own cell, so the assignment is refused and A1 keeps 1.
    let mut sheet = initialise(1, 2);
    let mut undo = UndoRedoStack::new();
    put(&mut sheet, &mut undo, 0, 0, num(1));
    put(&mut sheet, &mut undo, 0, 1, num(3));
    let status = put(&mut sheet, &mut undo, 0, 0, call(FunctionName::Stdev, vec![cell(0, 0), cell(0, 1)]));
    assert_eq!(status, Status::CyclicDependency);
    assert_eq!(sheet.all_cells[0][0].value, 1);
}

#[test]
fn test_constant_assignment() {
    let mut sheet = initialise(1, 1);
    let mut undo = UndoRedoStack::new();
    put(&mut sheet, &mut undo, 0, 0, num(42));
    assert_eq!(sheet.all_cells[0][0].value, 42);
    assert!(!sheet.all_cells[0][0].is_error);
}

#[test]
fn test_reference_assignment() {
    let mut sheet = initialise(1, 2);
    let mut undo = UndoRedoStack::new();
    put(&mut sheet, &mut undo, 0, 0, num(10));
    put(&mut sheet, &mut undo, 0, 1, cell(0, 0));
    assert_eq!(sheet.all_cells[0][1].value, 10);
}

#[test]
fn test_addition_assignment() {
    let mut sheet = initialise(1, 3);
    let mut undo = UndoRedoStack::new();
    put(&mut sheet, &mut undo, 0, 0, num(2));
    put(&mut sheet, &mut undo, 0, 1, num(3));
    put(&mut sheet, &mut undo, 0, 2, bin(cell(0, 0), '+', cell(0, 1)));
    assert_eq!(sheet.all_cells[0][2].value, 5);
}

#[test]
fn test_division_by_zero() {
    let mut sheet = initialise(1, 3);
    let mut undo = UndoRedoStack::new();
    put(&mut sheet, &mut undo, 0, 0, num(8));
    put(&mut sheet, &mut undo, 0, 1, num(0));
    put(&mut sheet, &mut undo, 0, 2, bin(cell(0, 0), '/', cell(0, 1)));
    assert!(sheet.all_cells[0][2].is_error);
}

#[test]
fn test_min_function() {
    let mut sheet = initialise(1, 2);
    let mut undo = UndoRedoStack::new();
    put(&mut sheet, &mut undo, 0, 0, num(9));
    put(&mut sheet, &mut undo, 0, 1, call(FunctionName::Min, vec![cell(0, 0)]));
    assert_eq!(sheet.all_cells[0][1].value, 9);
}

#[test]
fn test_max_function() {
    let mut sheet = initialise(1, 2);
    let mut undo = UndoRedoStack::new();
    put(&mut sheet, &mut undo, 0, 0, num(11));
    put(&mut sheet, &mut undo, 0, 1, call(FunctionName::Max, vec![cell(0, 0)]));
    assert_eq!(sheet.all_cells[0][1].value, 11);
}

#[test]
fn test_avg_function() {
    let mut sheet = initialise(1, 3);
    let mut undo = UndoRedoStack::new();
    put(&mut sheet, &mut undo, 0, 0, num(10));
    put(&mut sheet, &mut undo, 0, 1, num(20));
    put(&mut sheet, &mut undo, 0, 2, call(FunctionName::Avg, vec![cell(0, 0), cell(0, 1)]));
    assert_eq!(sheet.all_cells[0][2].value, 15);
}

#[test]
fn test_sum_function() {
    let mut sheet = initialise(1, 3);
    let mut undo = UndoRedoStack::new();
    put(&mut sheet, &mut undo, 0, 0, num(7));
    put(&mut sheet, &mut undo, 0, 1, num(8));
    put(&mut sheet, &mut undo, 0, 2, call(FunctionName::Sum, vec![cell(0, 0), cell(0, 1)]));
    assert_eq!(sheet.all_cells[0][2].value, 15);
}

#[test]
fn test_stdev_function() {
    let mut sheet = initialise(1, 3);
    let mut undo = UndoRedoStack::new();
    put(&mut sheet, &mut undo, 0, 0, num(1));
    put(&mut sheet, &mut undo, 0, 1, num(3));
    put(&mut sheet, &mut undo, 0, 2, call(FunctionName::Stdev, vec![cell(0, 0), cell(0, 1)]));
    assert_eq!(sheet.all_cells[0][2].value, 1);
}

#[test]
fn test_cycle_detection() {
    let mut sheet = initialise(1, 1);
    sheet.all_cells[0][0].dependents.push(at(0, 0));
    assert!(has_cycle(&sheet, 0, 0));
}

#[test]
fn test_subtraction_operation() {
    let mut sheet = initialise(1, 1);
    let mut undo = UndoRedoStack::new();
    put(&mut sheet, &mut undo, 0, 0, bin(num(10), '-', num(3)));
    assert_eq!(sheet.all_cells[0][0].value, 7);
}

#[test]
fn test_multiplication_operation() {
    let mut sheet = initialise(1, 1);
    let mut undo = UndoRedoStack::new();
    put(&mut sheet, &mut undo, 0, 0, bin(num(4), '*', num(5)));
    assert_eq!(sheet.all_cells[0][0].value, 20);
}

#[test]
fn test_division_operation_valid() {
    let mut sheet = initialise(1, 1);
    let mut undo = UndoRedoStack::new();
    put(&mut sheet, &mut undo, 0, 0, bin(num(10), '/', num(2)));
    assert_eq!(sheet.all_cells[0][0].value, 5);
    assert!(!sheet.all_cells[0][0].is_error);
}

#[test]
fn test_division_by_zero_error() {
    let mut sheet = initialise(1, 1);
    let mut undo = UndoRedoStack::new();
    put(&mut sheet, &mut undo, 0, 0, bin(num(10), '/', num(0)));
    assert!(sheet.all_cells[0][0].is_error);
}

#[test]
fn test_min_function_multiple() {
    let mut sheet = initialise(1, 1);
    let mut undo = UndoRedoStack::new();
    put(&mut sheet, &mut undo, 0, 0, call(FunctionName::Min, vec![num(5), num(2), num(9)]));
    assert_eq!(sheet.all_cells[0][0].value, 2);
}

#[test]
fn test_max_function_multiple() {
    let mut sheet = initialise(1, 1);
    let mut undo = UndoRedoStack::new();
    put(&mut sheet, &mut undo, 0, 0, call(FunctionName::Max, vec![num(5), num(10), num(3)]));
    assert_eq!(sheet.all_cells[0][0].value, 10);
}

#[test]
fn test_avg_function_multiple() {
    let mut sheet = initialise(1, 1);
    let mut undo = UndoRedoStack::new();
    put(&mut sheet, &mut undo, 0, 0, call(FunctionName::Avg, vec![num(6), num(12)]));
    assert_eq!(sheet.all_cells[0][0].value, 9);
}

#[test]
fn test_sum_function_multiple() {
    let mut sheet = initialise(1, 1);
    let mut undo = UndoRedoStack::new();
    put(&mut sheet, &mut undo, 0, 0, call(FunctionName::Sum, vec![num(4), num(6), num(10)]));
    assert_eq!(sheet.all_cells[0][0].value, 20);
}

#[test]
fn tes_stdev_function() {
    let mut sheet = initialise(1, 1);
    let mut undo = UndoRedoStack::new();
    let args = vec![num(2), num(4), num(4), num(4), num(5), num(5), num(7), num(9)];
    put(&mut sheet, &mut undo, 0, 0, call(FunctionName::Stdev, args));
    assert_eq!(sheet.all_cells[0][0].value, 2);
}

#[test]
fn test_recalculate_dependents_zero_division() {
    let mut sheet = initialise(1, 3);
    let mut undo = UndoRedoStack::new();
    put(&mut sheet, &mut undo, 0, 0, num(10));
    put(&mut sheet, &mut undo, 0, 1, num(0));
    put(&mut sheet, &mut undo, 0, 2, bin(cell(0, 0), '/', cell(0, 1)));
    assert!(sheet.all_cells[0][2].is_error);
}

#[test]
fn test_recalculate_dependents_chain() {
    let mut sheet = initialise(1, 3);
    let mut undo = UndoRedoStack::new();
    put(&mut sheet, &mut undo, 0, 0, num(2));
    put(&mut sheet, &mut undo, 0, 1, bin(cell(0, 0), '+', num(3)));
    put(&mut sheet, &mut undo, 0, 2, bin(cell(0, 1), '+', num(5)));
    assert_eq!(sheet.all_cells[0][1].value, 5);
    assert_eq!(sheet.all_cells[0][2].value, 10);
}

#[test]
fn test_update_dependency_with_invalid_data() {
    let mut sheet = initialise(2, 2);
    delete_dependency(&mut sheet, 0, 0, 1, 1);
    assert_eq!(sheet.all_cells[1][1].value, 0);
}

#[test]
fn test_avg_function_no_error() {
    let mut sheet = initialise(3, 1);
    let mut undo = UndoRedoStack::new();
    put(&mut sheet, &mut undo, 0, 0, call(FunctionName::Avg, vec![num(6), num(12)]));
    put(&mut sheet, &mut undo, 1, 0, call(FunctionName::Avg, vec![num(10), num(20)]));
    put(&mut sheet, &mut undo, 2, 0, call(FunctionName::Avg, vec![num(30), num(40)]));
    assert_eq!(sheet.all_cells[0][0].value, 9);
    assert_eq!(sheet.all_cells[1][0].value, 15);
    assert_eq!(sheet.all_cells[2][0].value, 35);
    assert!(!sheet.all_cells[0][0].is_error);
    assert!(!sheet.all_cells[1][0].is_error);
    assert!(!sheet.all_cells[2][0].is_error);
}

fn error_row_then(f: FunctionName) -> Spreadsheet {
    let mut sheet = initialise(4, 4);
    let mut undo = UndoRedoStack::new();
    put(&mut sheet, &mut undo, 0, 0, num(10));
    put(&mut sheet, &mut undo, 0, 1, num(0));
    put(&mut sheet, &mut undo, 0, 2, bin(cell(0, 0), '/', cell(0, 1)));
    put(&mut sheet, &mut undo, 1, 2, call(f, vec![cell(0, 0), cell(0, 1), cell(0, 2)]));
    sheet
}

#[test]
fn test_avg_with_division_by_zero_error() {
    let sheet = error_row_then(FunctionName::Avg);
    assert!(!sheet.all_cells[0][0].is_error);
    assert!(!sheet.all_cells[0][1].is_error);
    assert!(sheet.all_cells[0][2].is_error);
    assert!(sheet.all_cells[1][2].is_error);
}

#[test]
fn test_sumvg_with_division_by_zero_error() {
    let sheet = error_row_then(FunctionName::Sum);
    assert!(!sheet.all_cells[0][0].is_error);
    assert!(!sheet.all_cells[0][1].is_error);
    assert!(sheet.all_cells[0][2].is_error);
    assert!(sheet.all_cells[1][2].is_error);
}

#[test]
fn test_std_with_division_by_zero_error() {
    let sheet = error_row_then(FunctionName::Stdev);
    assert!(!sheet.all_cells[0][0].is_error);
    assert!(!sheet.all_cells[0][1].is_error);
    assert!(sheet.all_cells[0][2].is_error);
    assert!(sheet.all_cells[1][2].is_error);
}

#[test]
fn test_maxith_division_by_zero_error() {
    let sheet = error_row_then(FunctionName::Min);
    assert!(!sheet.all_cells[0][0].is_error);
    assert!(!sheet.all_cells[0][1].is_error);
    assert!(sheet.all_cells[0][2].is_error);
    assert!(sheet.all_cells[1][2].is_error);
}

#[test]
fn test_mminh_division_by_zero_error() {
    let sheet = error_row_then(FunctionName::Max);
    assert!(!sheet.all_cells[0][0].is_error);
    assert!(!sheet.all_cells[0][1].is_error);
    assert!(sheet.all_cells[0][2].is_error);
    assert!(sheet.all_cells[1][2].is_error);
}

#[test]
fn test_precedent_cell_non_error_path() {
    let mut sheet = initialise(4, 4);
    let mut undo = UndoRedoStack::new();
    put(&mut sheet, &mut undo, 0, 0, num(20));
    put(&mut sheet, &mut undo, 1, 0, call(FunctionName::Stdev, vec![cell(0, 0)]));
    assert!(!sheet.all_cells[0][0].is_error);
    assert!(!sheet.all_cells[1][0].is_error);
    assert_eq!(sheet.all_cells[1][0].value, 0);
}

#[test]
fn test_min_function_with_error_propagation() {
    let mut sheet = initialise(4, 4);
    let mut undo = UndoRedoStack::new();
    put(&mut sheet, &mut undo, 0, 0, num(3));
    put(&mut sheet, &mut undo, 0, 1, num(0));
    put(&mut sheet, &mut undo, 0, 2, bin(cell(0, 0), '/', cell(0, 1)));
    put(&mut sheet, &mut undo, 0, 3, call(FunctionName::Min, vec![cell(0, 0), cell(0, 1), cell(0, 2)]));
    assert!(sheet.all_cells[0][3].is_error);
    put(&mut sheet, &mut undo, 0, 3, call(FunctionName::Min, vec![cell(0, 0), cell(0, 1)]));
    assert!(!sheet.all_cells[0][0].is_error);
    assert!(!sheet.all_cells[0][1].is_error);
    assert!(sheet.all_cells[0][2].is_error);
    assert_eq!(sheet.all_cells[0][3].value, 0);
}

#[test]
fn test_max_chain_with_division_by_zero() {
    let mut sheet = initialise(7, 1);
    let mut undo = UndoRedoStack::new();
    put(&mut sheet, &mut undo, 0, 0, num(10));
    put(&mut sheet, &mut undo, 1, 0, num(0));
    put(&mut sheet, &mut undo, 2, 0, bin(cell(0, 0), '/', cell(1, 0)));
    put(&mut sheet, &mut undo, 3, 0, num(5));
    let upto4 = vec![cell(0, 0), cell(1, 0), cell(2, 0), cell(3, 0)];
    put(&mut sheet, &mut undo, 4, 0, call(FunctionName::Avg, upto4));
    let upto6 = vec![cell(0, 0), cell(1, 0), cell(2, 0), cell(3, 0), cell(4, 0), cell(5, 0)];
    put(&mut sheet, &mut undo, 5, 0, call(FunctionName::Avg, upto6));
    assert_eq!(sheet.all_cells[0][0].value, 10);
    assert_eq!(sheet.all_cells[1][0].value, 0);
    assert!(sheet.all_cells[2][0].is_error);
    assert_eq!(sheet.all_cells[3][0].value, 5);
    assert!(sheet.all_cells[4][0].is_error);
    assert!(!sheet.all_cells[5][0].is_error);
}

#[test]
fn test_sleep_function() {
    let mut sheet = initialise(1, 2);
    let mut undo = UndoRedoStack::new();
    put(&mut sheet, &mut undo, 0, 0, call(FunctionName::Sleep, vec![num(1)]));
    let task = rust_lab::sleep::handle_sleep(&sheet, 0, 0).unwrap();
    let done = vec![rust_lab::sleep::SleepCompletion { row: task.row, column: task.column, value: task.value }];
    rust_lab::sleep::process_sleep_completions(&mut sheet, &done);
    assert_eq!(sheet.all_cells[0][0].value, 1);
}
