use vstd::prelude::*;
use crate::cell::{cref, CellReference, Expr, Spreadsheet, Status};
use crate::cellname::int_text_value;
use crate::engine::bound;
use crate::parser::deep_eq;
use crate::undo::pushed_bounded;
use vstd::string::StringSliceAdditionalSpecFns;
use crate::cellname::string_to_int;
use crate::engine::{assign_cell, closes_cycle, lemma_number_cell_kept};
use crate::expr::expr_in_bounds;
use crate::expr::refs_of;
use crate::printer::{decimal_text, digits_text, formula_text, lemma_digits_text};
use crate::parser::{formula_read, readable};
use crate::graph::{acyclic, sheet_wf};
use crate::parser::parse_formula;
use crate::undo::UndoRedoStack;

verus! {

/// What the csv crate reads from `data`, with no header row, records of
/// any length and every field trimmed: the records read before the first
/// malformed one, and whether one was met.
pub uninterp spec fn csv_read(data: Seq<u8>) -> (Seq<Seq<Seq<char>>>, bool);

/// The fields of records, as character sequences.
pub open spec fn records_view(rows: Seq<Vec<String>>) -> Seq<Seq<Seq<char>>> {
    rows.map_values(|row: Vec<String>| row@.map_values(|f: String| f@))
}

/// Relies on the csv crate's `ReaderBuilder` (no headers, flexible record
/// lengths, `Trim::All`) and `Reader::records`, which yield each record in
/// order until the input ends or a record is malformed.
#[verifier::external_body]
fn csv_records(data: &[u8]) -> (r: (Vec<Vec<String>>, bool))
    ensures
        (records_view(r.0@), r.1) == csv_read(data@),
{
    let mut reader = csv::ReaderBuilder::new().has_headers(false).flexible(true).trim(
        csv::Trim::All,
    ).from_reader(data);
    let mut rows: Vec<Vec<String>> = Vec::new();
    for record in reader.records() {
        match record {
            Ok(record) => rows.push(record.iter().map(|f| f.to_string()).collect()),
            Err(_) => return (rows, true),
        }
    }
    (rows, false)
}

/// The outcome of a CSV import.
#[derive(Clone, Copy, Debug, PartialEq, Eq, Structural)]
pub struct CsvReport {
    /// Rows of the file that fell within the grid.
    pub rows_loaded: usize,
    /// The file had more rows than the grid.
    pub extra_rows: bool,
    /// Some row had more fields than the grid has columns.
    pub extra_columns: bool,
    /// Reading stopped at a malformed record.
    pub malformed: bool,
}

/// Stores a field that is not a formula: assigns its integer value, or 0
/// when it is no integer.
pub fn store_cell_value(
    sheet: &mut Spreadsheet,
    undo_manager: &mut UndoRedoStack,
    row: usize,
    col: usize,
    value: &str,
) -> (status: Status)
    requires
        sheet_wf(*old(sheet)),
        acyclic(*old(sheet)),
        old(undo_manager).wf(),
        row < old(sheet).rows,
        col < old(sheet).columns,
    ensures
        sheet_wf(*final(sheet)),
        acyclic(*final(sheet)),
        final(undo_manager).wf(),
        final(sheet).rows == old(sheet).rows,
        final(sheet).columns == old(sheet).columns,
        status != Status::InvalidInput,
        ({
            let n = match int_text_value(value.spec_bytes()) {
                Some(v) => v,
                None => 0i32,
            };
            let t = CellReference { row: row as i32, column: col as i32 };
            &&& bound(*old(sheet), *final(sheet), t, Expr::Number(n), status)
            &&& final(undo_manager).redo_stack@ == old(undo_manager).redo_stack@
            &&& final(undo_manager).undo_stack@ == pushed_bounded(old(undo_manager).undo_stack@, final(undo_manager).undo_stack@.last())
            &&& final(undo_manager).undo_stack@.last().row == t.row
            &&& final(undo_manager).undo_stack@.last().column == t.column
            &&& final(undo_manager).undo_stack@.last().is_error == old(sheet).cell(t).is_error
            &&& final(undo_manager).undo_stack@.last().precedents@ == old(sheet).cell(t).precedents@
            &&& deep_eq(final(undo_manager).undo_stack@.last().formula, old(sheet).cell(t).formula)
        }),
{
    let n = match string_to_int(value) {
        Some(n) => n,
        None => 0,
    };
    assign_cell(sheet, undo_manager, row as i32, col as i32, Expr::Number(n))
}

/// Stores one field: a formula after `=`, or the whole field when it
/// parses as one, else its integer value.
fn store_field(sheet: &mut Spreadsheet, undo_manager: &mut UndoRedoStack, row: usize, col: usize, field: &String)
    requires
        sheet_wf(*old(sheet)),
        acyclic(*old(sheet)),
        old(undo_manager).wf(),
        row < old(sheet).rows,
        col < old(sheet).columns,
    ensures
        sheet_wf(*final(sheet)),
        acyclic(*final(sheet)),
        final(undo_manager).wf(),
        final(sheet).rows == old(sheet).rows,
        final(sheet).columns == old(sheet).columns,
        forall|x: CellReference| old(sheet).in_bounds(x) && x != (CellReference { row: row as i32, column: col as i32 })
            && #[trigger] old(sheet).cell(x).formula is Number ==> final(sheet).cell(x).formula == old(sheet).cell(x).formula
            && final(sheet).cell(x).value == old(sheet).cell(x).value && final(sheet).cell(x).is_error == old(sheet).cell(x).is_error,
        forall|n: i32| #[trigger] integer_field(field@, n) ==> number_cell(*final(sheet), (CellReference { row: row as i32, column: col as i32 }), n),
        field_stored(*old(sheet), *final(sheet), (CellReference { row: row as i32, column: col as i32 }), field@),
{
    let ghost t = CellReference { row: row as i32, column: col as i32 };
    let text = field.as_str();
    let bytes = text.as_bytes();
    let parsed = if bytes.len() > 0 && bytes[0] == 61u8 {
        crate::parser::parse_formula_bytes(&bytes[1..bytes.len()])
    } else {
        parse_formula(text)
    };
    proof {
        assert forall|n: i32| #[trigger] integer_field(field@, n) implies parsed matches Ok(e) && e == Expr::Number(n) by {
            lemma_integer_field_bytes(text, n);
            lemma_digits_text(if n < 0 { -n } else { n as int });
            assert(formula_text(Expr::Number(n)) == decimal_text(n as int));
            assert(readable(Expr::Number(n)));
        }
    }
    let ghost s0 = *sheet;
    let ghost pr = parsed;
    let ghost bb = vstd::utf8::encode_utf8(field@);
    assert(text@ == field@);
    assert(bytes@ == bb);
    assert(formula_read(field_text(bb), pr)) by {
        if bb.len() > 0 && bb[0] == 61 {
            assert(bytes@.subrange(1, bytes@.len() as int) == field_text(bb));
        }
    }
    match parsed {
        Ok(e) => {
            let status = assign_cell(sheet, undo_manager, row as i32, col as i32, e);
            proof {
                assert(stored_as(s0, *sheet, t, bb, pr, status));
                assert(field_stored(s0, *sheet, t, field@));
                assert forall|x: CellReference| s0.in_bounds(x) && x != t && #[trigger] s0.cell(x).formula is Number implies sheet.cell(x).formula
                    == s0.cell(x).formula && sheet.cell(x).value == s0.cell(x).value && sheet.cell(x).is_error == s0.cell(x).is_error by {
                    if status != Status::InvalidInput {
                        lemma_number_cell_kept(s0, *sheet, t, e, status, x);
                    }
                }
                assert forall|n: i32| #[trigger] integer_field(field@, n) implies number_cell(*sheet, t, n) by {
                    assert(refs_of(e) =~= Seq::<CellReference>::empty());
                    assert(!closes_cycle(s0, t, e));
                }
            }
        },
        Err(_) => {
            let status = store_cell_value(sheet, undo_manager, row, col, text);
            proof {
                assert(stored_as(s0, *sheet, t, bb, pr, status));
                assert(field_stored(s0, *sheet, t, field@));
                assert forall|x: CellReference| s0.in_bounds(x) && x != t && #[trigger] s0.cell(x).formula is Number implies sheet.cell(x).formula
                    == s0.cell(x).formula && sheet.cell(x).value == s0.cell(x).value && sheet.cell(x).is_error == s0.cell(x).is_error by {
                    let m = match int_text_value(text.spec_bytes()) {
                        Some(v) => v,
                        None => 0i32,
                    };
                    lemma_number_cell_kept(s0, *sheet, t, Expr::Number(m), status, x);
                }
            }
        },
    }
}

/// The text a field is read as: what follows a leading `=`, else all of it.
pub open spec fn field_text(bytes: Seq<u8>) -> Seq<u8> {
    if bytes.len() > 0 && bytes[0] == 61 {
        bytes.subrange(1, bytes.len() as int)
    } else {
        bytes
    }
}

/// The integer a field denotes, or 0.
pub open spec fn field_number(bytes: Seq<u8>) -> i32 {
    match int_text_value(bytes) {
        Some(v) => v,
        None => 0i32,
    }
}

/// Storing a field whose text was read as `parsed` took `a` to `b`: a
/// formula naming only cells of the grid is bound as `assign_cell` binds
/// it, one naming cells outside it changes nothing, and a text that is no
/// formula binds its integer value, or 0.
pub open spec fn stored_as(
    a: Spreadsheet,
    b: Spreadsheet,
    t: CellReference,
    bytes: Seq<u8>,
    parsed: Result<Expr, ()>,
    status: Status,
) -> bool {
    match parsed {
        Ok(e) => if expr_in_bounds(e, a.rows, a.columns) {
            status != Status::InvalidInput && bound(a, b, t, e, status)
        } else {
            b == a
        },
        Err(_) => status != Status::InvalidInput && bound(a, b, t, Expr::Number(field_number(bytes)), status),
    }
}

/// Storing the field `f` in the cell `t` took `a` to `b` (see `stored_as`),
/// for a reading of the field's text that `formula_read` allows.
pub open spec fn field_stored(a: Spreadsheet, b: Spreadsheet, t: CellReference, f: Seq<char>) -> bool {
    let bytes = vstd::utf8::encode_utf8(f);
    exists|parsed: Result<Expr, ()>, status: Status|
        formula_read(field_text(bytes), parsed) && #[trigger] stored_as(a, b, t, bytes, parsed, status)
}

/// The positions of the fields of the first `n` records that fall within
/// `cols` columns, record by record.
pub open spec fn fields_upto(records: Seq<Seq<Seq<char>>>, n: int, cols: int) -> Seq<(int, int)>
    decreases n,
{
    if n <= 0 {
        seq![]
    } else {
        fields_upto(records, n - 1, cols) + row_fields(records, n - 1, cols, records[n - 1].len() as int)
    }
}

/// The first `m` fields of record `r` that fall within `cols` columns.
pub open spec fn row_fields(records: Seq<Seq<Seq<char>>>, r: int, cols: int, m: int) -> Seq<(int, int)> {
    Seq::new((if m < cols { m } else { cols }) as nat, |c: int| (r, c))
}

/// `states` leads from `a` through one stored field per position of `pos`.
pub open spec fn store_chain(
    a: Spreadsheet,
    records: Seq<Seq<Seq<char>>>,
    pos: Seq<(int, int)>,
    states: Seq<Spreadsheet>,
) -> bool {
    &&& states.len() == pos.len() + 1
    &&& states[0] == a
    &&& forall|k: int|
        0 <= k < pos.len() ==> #[trigger] field_stored(states[k], states[k + 1], cref(pos[k].0, pos[k].1), records[pos[k].0][pos[k].1])
}

/// `b` is `a` after each field of `records` that falls within the grid was
/// stored, record by record and field by field; fields beyond the grid are
/// not stored.
pub open spec fn records_loaded(a: Spreadsheet, b: Spreadsheet, records: Seq<Seq<Seq<char>>>) -> bool {
    exists|states: Seq<Spreadsheet>|
        #[trigger] store_chain(a, records, fields_upto(records, records_in_grid(records, a), a.columns as int), states)
            && states.last() == b
}

/// How many of the records fall within the grid's rows.
pub open spec fn records_in_grid(records: Seq<Seq<Seq<char>>>, a: Spreadsheet) -> int {
    if records.len() > a.rows {
        a.rows as int
    } else {
        records.len() as int
    }
}

/// The field is the decimal text of `n`.
pub open spec fn integer_field(f: Seq<char>, n: i32) -> bool {
    f == decimal_text(n as int).map_values(|b: u8| b as char)
}

/// The cell `t` holds the number `n`, unflagged.
pub open spec fn number_cell(s: Spreadsheet, t: CellReference, n: i32) -> bool {
    &&& s.cell(t).formula == Expr::Number(n)
    &&& s.cell(t).value == n
    &&& !s.cell(t).is_error
}

proof fn lemma_integer_field_bytes(text: &str, n: i32)
    requires
        integer_field(text@, n),
    ensures
        text.spec_bytes() == decimal_text(n as int),
{
    let d = decimal_text(n as int);
    lemma_digits_text(if n < 0 { -n } else { n as int });
    assert forall|i: int| 0 <= i < d.len() implies #[trigger] d[i] < 128 by {
        if n < 0 {
            if i > 0 {
                assert(d[i] == digits_text(-n)[i - 1]);
            }
        }
    }
    assert(vstd::string::is_ascii(text));
    vstd::string::is_ascii_spec_bytes(text);
    assert(text.spec_bytes() =~= d);
}

/// Loads records into the grid from its top-left corner, one stored field
/// per field that falls within the grid (see `records_loaded`); records and
/// fields beyond it are skipped and reported. A field that is an integer
/// leaves that number, unflagged, in its cell.
pub fn load_records(sheet: &mut Spreadsheet, undo_manager: &mut UndoRedoStack, rows: &Vec<Vec<String>>) -> (r: CsvReport)
    requires
        sheet_wf(*old(sheet)),
        acyclic(*old(sheet)),
        old(undo_manager).wf(),
    ensures
        sheet_wf(*final(sheet)),
        acyclic(*final(sheet)),
        final(undo_manager).wf(),
        final(sheet).rows == old(sheet).rows,
        final(sheet).columns == old(sheet).columns,
        ({
            let records = records_view(rows@);
            &&& !r.malformed
            &&& records_loaded(*old(sheet), *final(sheet), records)
            &&& r.extra_rows == (records.len() > old(sheet).rows)
            &&& r.rows_loaded == if records.len() > old(sheet).rows { old(sheet).rows as int } else { records.len() as int }
            &&& r.extra_columns == exists|i: int| 0 <= i < r.rows_loaded && #[trigger] records[i].len() > old(sheet).columns
            &&& forall|i: int, j: int, n: i32|
                0 <= i < r.rows_loaded && 0 <= j < records[i].len() && j < old(sheet).columns && #[trigger] integer_field(
                    records[i][j],
                    n,
                ) ==> number_cell(*final(sheet), cref(i, j), n)
        }),
{
    let ghost records = records_view(rows@);
    let ghost s_start = *sheet;
    let ghost mut states: Seq<Spreadsheet> = seq![*sheet];
    let ghost mut pos: Seq<(int, int)> = seq![];
    let nrows = sheet.rows as usize;
    let ncols = sheet.columns as usize;
    let mut extra_columns = false;
    let mut r: usize = 0;
    while r < rows.len() && r < nrows
        invariant
            sheet_wf(*sheet),
            acyclic(*sheet),
            undo_manager.wf(),
            sheet.rows == old(sheet).rows,
            sheet.columns == old(sheet).columns,
            nrows == sheet.rows,
            ncols == sheet.columns,
            records == records_view(rows@),
            r <= rows@.len(),
            r <= nrows,
            extra_columns == exists|i: int| 0 <= i < r && #[trigger] records[i].len() > ncols,
            forall|i: int, j: int, n: i32|
                0 <= i < r && 0 <= j < records[i].len() && j < ncols && #[trigger] integer_field(records[i][j], n)
                    ==> number_cell(*sheet, cref(i, j), n),
            s_start == *old(sheet),
            pos == fields_upto(records, r as int, ncols as int),
            store_chain(s_start, records, pos, states),
            states.last() == *sheet,
        decreases rows@.len() - r,
    {
        let row = &rows[r];
        assert(records[r as int].len() == row@.len());
        let mut c: usize = 0;
        while c < row.len() && c < ncols
            invariant
                sheet_wf(*sheet),
                acyclic(*sheet),
                undo_manager.wf(),
                sheet.rows == old(sheet).rows,
                sheet.columns == old(sheet).columns,
                nrows == sheet.rows,
                ncols == sheet.columns,
                r < nrows,
                r < rows@.len(),
                c <= row@.len(),
                *row == rows@[r as int],
                records == records_view(rows@),
                c <= ncols,
                forall|i: int, j: int, n: i32|
                    ((0 <= i < r && 0 <= j < records[i].len() && j < ncols) || (i == r && 0 <= j < c))
                        && #[trigger] integer_field(records[i][j], n) ==> number_cell(*sheet, cref(i, j), n),
                s_start == *old(sheet),
                pos == fields_upto(records, r as int, ncols as int) + row_fields(records, r as int, ncols as int, c as int),
                store_chain(s_start, records, pos, states),
                states.last() == *sheet,
            decreases row@.len() - c,
        {
            let ghost s0 = *sheet;
            store_field(sheet, undo_manager, r, c, &row[c]);
            proof {
                let t = CellReference { row: r as i32, column: c as i32 };
                assert(records[r as int][c as int] == row@[c as int]@);
                let old_states = states;
                let old_pos = pos;
                states = states.push(*sheet);
                pos = pos.push((r as int, c as int));
                assert(pos =~= fields_upto(records, r as int, ncols as int) + row_fields(records, r as int, ncols as int, c + 1));
                assert forall|k: int| 0 <= k < pos.len() implies #[trigger] field_stored(states[k], states[k + 1], cref(pos[k].0, pos[k].1), records[pos[k].0][pos[k].1]) by {
                    if k < old_pos.len() {
                        assert(states[k] == old_states[k]);
                        assert(states[k + 1] == old_states[k + 1]);
                        assert(pos[k] == old_pos[k]);
                    } else {
                        assert(states[k] == s0);
                        assert(cref(r as int, c as int) == t);
                    }
                }
                assert forall|i: int, j: int, n: i32|
                    ((0 <= i < r && 0 <= j < records[i].len() && j < ncols) || (i == r && 0 <= j < c + 1))
                        && #[trigger] integer_field(records[i][j], n) implies number_cell(*sheet, cref(i, j), n) by {
                    if i == r && j == c {
                        assert(cref(i, j) == t);
                    } else {
                        assert(number_cell(s0, cref(i, j), n));
                        assert(s0.in_bounds(cref(i, j)));
                        assert(cref(i, j) != t);
                    }
                }
            }
            c = c + 1;
        }
        proof {
            assert(row_fields(records, r as int, ncols as int, c as int) =~= row_fields(records, r as int, ncols as int, records[r as int].len() as int));
            assert(fields_upto(records, r + 1, ncols as int) == fields_upto(records, r as int, ncols as int) + row_fields(records, r as int, ncols as int, records[r as int].len() as int));
        }
        let ghost before = extra_columns;
        if row.len() > ncols {
            extra_columns = true;
        }
        proof {
            assert forall|i: int, j: int, n: i32|
                0 <= i < r + 1 && 0 <= j < records[i].len() && j < ncols && #[trigger] integer_field(records[i][j], n)
                    implies number_cell(*sheet, cref(i, j), n) by {
                if i == r {
                    assert(j < c);
                }
            }
            assert forall|i: int| 0 <= i < r + 1 && #[trigger] records[i].len() > ncols implies extra_columns by {
                if i < r {
                    assert(before);
                }
            }
            if extra_columns && !before {
                assert(records[r as int].len() > ncols);
            }
        }
        r = r + 1;
    }
    let report = CsvReport { rows_loaded: r, extra_rows: rows.len() > nrows, extra_columns, malformed: false };
    proof {
        assert(records_loaded(s_start, *sheet, records)) by {
            assert(records.len() == rows@.len());
            let n = if records.len() > s_start.rows { s_start.rows as int } else { records.len() as int };
            assert(n == r);
            assert(s_start.columns as int == ncols as int);
            assert(store_chain(s_start, records, fields_upto(records, n, s_start.columns as int), states));
            assert(states.last() == *sheet);
            assert(records_in_grid(records, s_start) == n);
        }
        assert(report.rows_loaded == if records.len() > old(sheet).rows { old(sheet).rows as int } else { records.len() as int });
        assert forall|i: int, j: int, n: i32|
            0 <= i < report.rows_loaded && 0 <= j < records[i].len() && j < old(sheet).columns && #[trigger] integer_field(records[i][j], n)
                implies number_cell(*sheet, cref(i, j), n) by {}
    }
    report
}


/// Loads CSV text into the grid from its top-left corner, through
/// `load_records` on what the csv crate reads from it.
pub fn import_csv(sheet: &mut Spreadsheet, undo_manager: &mut UndoRedoStack, data: &[u8]) -> (r: CsvReport)
    requires
        sheet_wf(*old(sheet)),
        acyclic(*old(sheet)),
        old(undo_manager).wf(),
    ensures
        sheet_wf(*final(sheet)),
        acyclic(*final(sheet)),
        final(undo_manager).wf(),
        final(sheet).rows == old(sheet).rows,
        final(sheet).columns == old(sheet).columns,
        ({
            let (records, malformed) = csv_read(data@);
            &&& r.malformed == malformed
            &&& records_loaded(*old(sheet), *final(sheet), records)
            &&& r.extra_rows == (records.len() > old(sheet).rows)
            &&& r.rows_loaded == if records.len() > old(sheet).rows { old(sheet).rows as int } else { records.len() as int }
            &&& r.extra_columns == exists|i: int| 0 <= i < r.rows_loaded && #[trigger] records[i].len() > old(sheet).columns
            &&& forall|i: int, j: int, n: i32|
                0 <= i < r.rows_loaded && 0 <= j < records[i].len() && j < old(sheet).columns && #[trigger] integer_field(
                    records[i][j],
                    n,
                ) ==> number_cell(*final(sheet), cref(i, j), n)
        }),
{
    let (rows, malformed) = csv_records(data);
    let report = load_records(sheet, undo_manager, &rows);
    CsvReport {
        rows_loaded: report.rows_loaded,
        extra_rows: report.extra_rows,
        extra_columns: report.extra_columns,
        malformed,
    }
}

} // verus!
