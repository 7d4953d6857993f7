use rust_lab::cell::{CellReference, Expr, FunctionName};
use rust_lab::cellname::{get_column_name, parse_cell_name, string_to_int};
use rust_lab::expr::extract_precedents;
use rust_lab::parser::{parse_formula, parse_input};

fn at(row: i32, column: i32) -> CellReference {
    CellReference { row, column }
}

#[test]
fn test_string_to_int_parsing() {
    assert_eq!(string_to_int("42"), Some(42));
    assert_eq!(string_to_int("-7"), Some(-7));
    assert_eq!(string_to_int("+123"), Some(123));
}

#[test]
fn string_to_int_rejects_other_text() {
    assert_eq!(string_to_int(""), None);
    assert_eq!(string_to_int("-"), None);
    assert_eq!(string_to_int("12a"), None);
    assert_eq!(string_to_int("2147483648"), None);
    assert_eq!(string_to_int("-2147483648"), Some(i32::MIN));
    assert_eq!(string_to_int("2147483647"), Some(i32::MAX));
}

#[test]
fn test_parse_cell_name_basic() {
    assert_eq!(parse_cell_name("B2"), Some(at(1, 1)));
}

#[test]
fn test_invalid_column_name() {
    assert_eq!(parse_cell_name("1A"), None);
    assert_eq!(parse_cell_name("@1"), None);
    // "AA1" is well formed; it lies outside a grid of fewer than 27 columns.
    assert_eq!(parse_cell_name("AA1"), Some(at(0, 26)));
    assert!(parse_input("AA1=1", 3, 3).is_err());
}

#[test]
fn test_invalid_row_part() {
    assert_eq!(parse_cell_name("Aabc"), None);
    assert_eq!(parse_cell_name("A+1"), None);
    assert_eq!(parse_cell_name("A1A"), None);
}

#[test]
fn cell_names_map_columns_in_base_26() {
    assert_eq!(parse_cell_name("Z999"), Some(at(998, 25)));
    assert_eq!(parse_cell_name("ZZ10"), Some(at(9, 701)));
    assert_eq!(parse_cell_name("ZZZ1"), Some(at(0, 18277)));
    assert_eq!(parse_cell_name("A0"), None);
    assert_eq!(parse_cell_name("a1"), None);
}

#[test]
fn column_names_round_trip() {
    assert_eq!(get_column_name(0), "A");
    assert_eq!(get_column_name(25), "Z");
    assert_eq!(get_column_name(26), "AA");
    assert_eq!(get_column_name(701), "ZZ");
    assert_eq!(get_column_name(18277), "ZZZ");
    for c in [0, 5, 26, 700, 18277] {
        let name = format!("{}1", get_column_name(c));
        assert_eq!(parse_cell_name(&name), Some(at(0, c)));
    }
}

#[test]
fn test_parse_input_basic_constant() {
    let (row, col, e) = parse_input("A1=42", 3, 3).unwrap();
    assert_eq!(row, 0);
    assert_eq!(col, 0);
    assert_eq!(e, Expr::Number(42));
}

#[test]
fn test_parse_input_invalid_reference() {
    assert!(parse_input("A1=Z9999", 2, 2).is_err());
}

#[test]
fn test_parse_input_invalid_no_rhs() {
    assert!(parse_input("A1=", 3, 3).is_err());
}

#[test]
fn test_parse_input_invalid_no_lhs() {
    assert!(parse_input("=42", 3, 3).is_err());
}

#[test]
fn test_parse_input_malformed_range() {
    assert!(parse_input("A1=SUM(A1:)", 3, 3).is_err());
}

#[test]
fn test_parse_input_bad_parens_function() {
    assert!(parse_input("A1=MAX(A1", 3, 3).is_err());
}

#[test]
fn test_parse_input_valid_range_sum() {
    let (row, col, e) = parse_input("C1=SUM(A1:B1)", 3, 3).unwrap();
    assert_eq!(row, 0);
    assert_eq!(col, 2);
    assert_eq!(e, Expr::Function(FunctionName::Sum, vec![Expr::Range(at(0, 0), at(0, 1))]));
    assert_eq!(extract_precedents(&e).len(), 2);
}

#[test]
fn formulas_follow_precedence() {
    let e = parse_formula("1+2*3").unwrap();
    let expected = Expr::BinaryOp(
        Box::new(Expr::Number(1)),
        '+',
        Box::new(Expr::BinaryOp(Box::new(Expr::Number(2)), '*', Box::new(Expr::Number(3)))),
    );
    assert_eq!(e, expected);
    let e = parse_formula("8-2-1").unwrap();
    let expected = Expr::BinaryOp(
        Box::new(Expr::BinaryOp(Box::new(Expr::Number(8)), '-', Box::new(Expr::Number(2)))),
        '-',
        Box::new(Expr::Number(1)),
    );
    assert_eq!(e, expected);
}

#[test]
fn formulas_accept_signed_literals_only() {
    assert_eq!(parse_formula("-5").unwrap(), Expr::Number(-5));
    assert_eq!(parse_formula("+5").unwrap(), Expr::Number(5));
    assert_eq!(parse_formula("-2147483648").unwrap(), Expr::Number(i32::MIN));
    assert!(parse_formula("-A1").is_err());
    assert!(parse_formula("2147483648").is_err());
}

#[test]
fn formulas_reject_malformed_text() {
    assert!(parse_formula("").is_err());
    assert!(parse_formula("(1+2").is_err());
    assert!(parse_formula("1+2)").is_err());
    assert!(parse_formula("FOO(1)").is_err());
    assert!(parse_formula("A1:B2").is_err());
    assert!(parse_formula("SUM((A1:B2))").is_err());
    assert!(parse_formula("SLEEP(1,2)").is_err());
    assert!(parse_formula("1 2").is_err());
}

#[test]
fn function_names_ignore_case() {
    let e = parse_formula("sum(A1:A2, 3)").unwrap();
    assert_eq!(e, Expr::Function(FunctionName::Sum, vec![Expr::Range(at(0, 0), at(1, 0)), Expr::Number(3)]));
    assert_eq!(parse_formula("Sleep(B2)").unwrap(), Expr::Function(FunctionName::Sleep, vec![Expr::Cell(at(1, 1))]));
    assert_eq!(parse_formula("MAX()").unwrap(), Expr::Function(FunctionName::Max, vec![]));
}

#[test]
fn division_by_literal_zero_parses() {
    let e = parse_formula("A1/0").unwrap();
    assert_eq!(e, Expr::BinaryOp(Box::new(Expr::Cell(at(0, 0))), '/', Box::new(Expr::Number(0))));
}

#[test]
fn ranges_contribute_every_cell() {
    let e = parse_formula("SUM(A1:B2)+C3").unwrap();
    let refs = extract_precedents(&e);
    assert_eq!(refs, vec![at(0, 0), at(0, 1), at(1, 0), at(1, 1), at(2, 2)]);
}

#[test]
fn single_operations_read_with_or_without_blanks() {
    let e = parse_formula("A1+2").unwrap();
    assert_eq!(e, Expr::BinaryOp(Box::new(Expr::Cell(at(0, 0))), '+', Box::new(Expr::Number(2))));
    assert_eq!(parse_formula(" A1 + 2 ").unwrap(), e);
    assert_eq!(parse_formula("10/0").unwrap(), Expr::BinaryOp(Box::new(Expr::Number(10)), '/', Box::new(Expr::Number(0))));
    assert!(parse_formula("A1:A2+1").is_err());
    assert!(parse_formula("   ").is_err());
    assert!(parse_formula("foo(1)").is_err());
}

#[test]
fn malformed_references_and_parentheses_are_rejected() {
    assert!(parse_formula("A0").is_err());
    assert!(parse_formula("a1+1").is_err());
    assert!(parse_formula("MAX(A1").is_err());
    assert!(parse_formula("(1+2").is_err());
    assert!(parse_formula("1+2)").is_err());
}
