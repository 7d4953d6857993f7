use vstd::prelude::*;
use crate::cell::{CellReference, Expr, FunctionName, Operand, Spreadsheet};
use crate::engine::{lemma_values_only, same_structure, values_only};
use crate::graph::{acyclic, sheet_wf};

verus! {

/// A delayed write of `value` into a cell, due after `seconds`.
#[derive(Clone, Copy, Debug, PartialEq, Eq, Structural)]
pub struct SleepTask {
    pub row: i32,
    pub column: i32,
    pub seconds: u64,
    pub value: i32,
}

/// A finished delay: `value` is to be written into the cell.
#[derive(Clone, Copy, Debug, PartialEq, Eq, Structural)]
pub struct SleepCompletion {
    pub row: i32,
    pub column: i32,
    pub value: i32,
}

/// The argument of a `SLEEP` formula.
pub open spec fn sleep_operand_of(e: Expr) -> Option<Operand> {
    match e {
        Expr::Function(f, args) => if f == FunctionName::Sleep && args@.len() == 1 {
            match args@[0] {
                Expr::Number(n) => Some(Operand::Constant(n)),
                Expr::Cell(r) => Some(Operand::CellOperand(r)),
                _ => None,
            }
        } else {
            None
        },
        _ => None,
    }
}

/// The argument of `expr` when it is `SLEEP` of a literal or a cell.
pub fn sleep_operand(expr: &Expr) -> (r: Option<Operand>)
    ensures
        r == sleep_operand_of(*expr),
{
    match expr {
        Expr::Function(FunctionName::Sleep, args) => {
            if args.len() == 1 {
                match &args[0] {
                    Expr::Number(n) => Some(Operand::Constant(*n)),
                    Expr::Cell(r) => Some(Operand::CellOperand(*r)),
                    _ => None,
                }
            } else {
                None
            }
        },
        _ => None,
    }
}

/// The value of an operand and whether it reads a cell flagged as an error.
pub fn get_operand_value(sheet: &Spreadsheet, operand: &Operand) -> (r: (i32, bool))
    requires
        sheet.shape_ok(),
        *operand matches Operand::CellOperand(c) ==> sheet.in_bounds(c),
    ensures
        *operand matches Operand::Constant(n) ==> r == (n, false),
        *operand matches Operand::CellOperand(c) ==> r == (sheet.cell(c).value, sheet.cell(c).is_error),
{
    match operand {
        Operand::Constant(n) => (*n, false),
        Operand::CellOperand(c) => {
            let cell = &sheet.all_cells[c.row as usize][c.column as usize];
            (cell.value, cell.is_error)
        },
    }
}

/// The delayed write that the formula of the cell `(row, column)` asks
/// for: none unless it is `SLEEP(n)` with `n` a literal or a cell that is
/// not flagged; the delay is `n` seconds, 0 for a negative `n`.
pub fn handle_sleep(sheet: &Spreadsheet, row: i32, column: i32) -> (r: Option<SleepTask>)
    requires
        sheet_wf(*sheet),
        sheet.in_bounds((CellReference { row, column })),
    ensures
        ({
            let op = sleep_operand_of(sheet.cell(CellReference { row, column }).formula);
            match op {
                None => r is None,
                Some(Operand::Constant(n)) => r == Some(
                    SleepTask { row, column, seconds: if n < 0 { 0 } else { n as u64 }, value: n },
                ),
                Some(Operand::CellOperand(c)) => if sheet.cell(c).is_error {
                    r is None
                } else {
                    let n = sheet.cell(c).value;
                    r == Some(SleepTask { row, column, seconds: if n < 0 { 0 } else { n as u64 }, value: n })
                },
            }
        }),
{
    let t = CellReference { row, column };
    let op = match sleep_operand(&sheet.all_cells[row as usize][column as usize].formula) {
        Some(op) => op,
        None => return None,
    };
    proof {
        assert(crate::expr::expr_in_bounds(sheet.cell(t).formula, sheet.rows, sheet.columns));
        if let Expr::Function(_, args) = sheet.cell(t).formula {
            crate::expr::lemma_args_in_bounds(args@, sheet.rows, sheet.columns);
            assert(crate::expr::expr_in_bounds(args@[0], sheet.rows, sheet.columns));
        }
    }
    let (n, error) = get_operand_value(sheet, &op);
    if error {
        None
    } else {
        Some(SleepTask { row, column, seconds: if n < 0 { 0 } else { n as u64 }, value: n })
    }
}

/// The value that the last completion for cell `x` among `cs` writes.
pub open spec fn last_write(cs: Seq<SleepCompletion>, x: CellReference) -> Option<i32>
    decreases cs.len(),
{
    if cs.len() == 0 {
        None
    } else if cs.last().row == x.row && cs.last().column == x.column {
        Some(cs.last().value)
    } else {
        last_write(cs.drop_last(), x)
    }
}

/// Applies finished delays in order: each writes its value into its cell
/// and clears the cell's error flag; a later write to a cell wins.
/// Completions for cells outside the grid are ignored.
pub fn process_sleep_completions(sheet: &mut Spreadsheet, completions: &Vec<SleepCompletion>)
    requires
        sheet_wf(*old(sheet)),
        acyclic(*old(sheet)),
    ensures
        sheet_wf(*final(sheet)),
        acyclic(*final(sheet)),
        values_only(*old(sheet), *final(sheet)),
        forall|x: CellReference| #[trigger] old(sheet).in_bounds(x) ==> match last_write(completions@, x) {
            Some(v) => final(sheet).cell(x).value == v && !final(sheet).cell(x).is_error,
            None => final(sheet).cell(x) == old(sheet).cell(x),
        },
{
    let ghost s0 = *sheet;
    let mut i: usize = 0;
    while i < completions.len()
        invariant
            s0 == *old(sheet),
            sheet_wf(s0),
            i <= completions@.len(),
            values_only(s0, *sheet),
            sheet.shape_ok(),
            forall|x: CellReference| #[trigger] s0.in_bounds(x) ==> match last_write(completions@.subrange(0, i as int), x) {
                Some(v) => sheet.cell(x).value == v && !sheet.cell(x).is_error,
                None => sheet.cell(x) == s0.cell(x),
            },
        decreases completions@.len() - i,
    {
        let c = completions[i];
        let ghost cur = *sheet;
        let ghost pre = completions@.subrange(0, i as int);
        assert(completions@.subrange(0, i + 1).drop_last() =~= pre);
        if 0 <= c.row && c.row < sheet.rows && 0 <= c.column && c.column < sheet.columns {
            sheet.all_cells[c.row as usize][c.column as usize].value = c.value;
            sheet.all_cells[c.row as usize][c.column as usize].is_error = false;
            proof {
                assert forall|x: CellReference| s0.in_bounds(x) && (x.row != c.row || x.column != c.column)
                    implies #[trigger] sheet.cell(x) == cur.cell(x) by {
                    if x.row != c.row {
                        assert(sheet.all_cells@[x.row as int] == cur.all_cells@[x.row as int]);
                    }
                }
                assert forall|x: CellReference| s0.in_bounds(x) implies same_structure(#[trigger] sheet.cell(x), s0.cell(x)) by {
                    assert(same_structure(cur.cell(x), s0.cell(x)));
                    if x.row != c.row || x.column != c.column {
                        assert(sheet.cell(x) == cur.cell(x));
                    }
                }
            }
        }
        i = i + 1;
    }
    assert(completions@.subrange(0, i as int) =~= completions@);
    proof {
        lemma_values_only(s0, *sheet);
        assert forall|x: CellReference, y: CellReference| s0.in_bounds(x) implies #[trigger] crate::graph::edge(s0, x, y) == crate::graph::edge(*sheet, x, y) by {
            assert(same_structure(sheet.cell(x), s0.cell(x)));
        }
        crate::acyclic::lemma_same_edges(s0, *sheet);
    }
}

} // verus!
