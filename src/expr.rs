use vstd::prelude::*;
use crate::aggregate::{
    avg_of, avg_value, max_of, max_value, min_of, min_value, stdev, stdev_of, sum_values,
    sum_wrapping,
};
use crate::cell::{cref, CellReference, Expr, FunctionName, Spreadsheet};

verus! {

/// The cells of the rows `r0..=r1` between columns `c0..=c1`, row by row.
pub open spec fn range_refs(r0: int, r1: int, c0: int, c1: int) -> Seq<CellReference>
    decreases r1 - r0 + 1,
{
    if r1 < r0 {
        seq![]
    } else {
        range_refs(r0, r1 - 1, c0, c1) + row_refs(r1, c0, c1)
    }
}

/// The cells of row `r` between columns `c0..=c1`.
pub open spec fn row_refs(r: int, c0: int, c1: int) -> Seq<CellReference> {
    Seq::new(if c1 < c0 { 0 } else { (c1 - c0 + 1) as nat }, |k: int| cref(r, c0 + k))
}

/// The cells an expression reads, in reading order, with repetitions.
pub open spec fn refs_of(e: Expr) -> Seq<CellReference>
    decreases e,
{
    match e {
        Expr::Number(_) => seq![],
        Expr::Cell(r) => seq![r],
        Expr::BinaryOp(l, _, r) => refs_of(*l) + refs_of(*r),
        Expr::Function(_, args) => refs_of_args(args@),
        Expr::Range(a, b) => range_refs(a.row as int, b.row as int, a.column as int, b.column as int),
    }
}

pub open spec fn refs_of_args(args: Seq<Expr>) -> Seq<CellReference>
    decreases args,
{
    if args.len() == 0 {
        seq![]
    } else {
        refs_of_args(args.drop_last()) + refs_of(args.last())
    }
}


proof fn lemma_range_refs_step(r0: int, r1: int, c0: int, c1: int)
    requires
        r0 <= r1,
    ensures
        range_refs(r0, r1, c0, c1) == range_refs(r0, r1 - 1, c0, c1) + row_refs(r1, c0, c1),
{
}

/// Appends to `acc` the cells of the rectangle between `a` and `b`.
fn push_range(a: CellReference, b: CellReference, acc: &mut Vec<CellReference>)
    ensures
        final(acc)@ == old(acc)@ + range_refs(a.row as int, b.row as int, a.column as int, b.column as int),
{
    let ghost start = acc@;
    let mut r: i64 = a.row as i64;
    if (b.row as i64) < r {
        assert(range_refs(a.row as int, b.row as int, a.column as int, b.column as int) =~= seq![]);
        assert(acc@ =~= start + seq![]);
        return;
    }
    while r <= b.row as i64
        invariant
            a.row <= r <= b.row as i64 + 1,
            acc@ == start + range_refs(a.row as int, r - 1, a.column as int, b.column as int),
        decreases b.row as i64 + 1 - r,
    {
        let ghost before = acc@;
        let mut c: i64 = a.column as i64;
        while c <= b.column as i64
            invariant
                a.row <= r <= b.row,
                a.column <= c,
                c <= b.column as i64 + 1 || c == a.column,
                acc@ == before + row_refs(r as int, a.column as int, c - 1),
            decreases b.column as i64 + 1 - c,
        {
            acc.push(CellReference { row: r as i32, column: c as i32 });
            assert(acc@ =~= before + row_refs(r as int, a.column as int, c as int));
            c = c + 1;
        }
        assert(row_refs(r as int, a.column as int, c - 1) =~= row_refs(r as int, a.column as int, b.column as int));
        proof { lemma_range_refs_step(a.row as int, r as int, a.column as int, b.column as int); }
        assert(acc@ =~= start + range_refs(a.row as int, r as int, a.column as int, b.column as int));
        r = r + 1;
    }
}

/// Appends to `acc` every cell that `expr` reads, in reading order; a
/// range contributes each cell of its rectangle.
pub fn extract_precedents_helper(expr: &Expr, acc: &mut Vec<CellReference>)
    ensures
        final(acc)@ == old(acc)@ + refs_of(*expr),
    decreases expr,
{
    match expr {
        Expr::Number(_) => {
            assert(acc@ =~= acc@ + refs_of(*expr));
        },
        Expr::Cell(r) => {
            acc.push(*r);
        },
        Expr::BinaryOp(left, _, right) => {
            let ghost start = acc@;
            extract_precedents_helper(left, acc);
            extract_precedents_helper(right, acc);
            assert(acc@ =~= start + refs_of(*expr));
        },
        Expr::Function(_, args) => {
            let ghost start = acc@;
            let mut i: usize = 0;
            while i < args.len()
                invariant
                    *expr == Expr::Function(expr->Function_0, *args),
                    i <= args@.len(),
                    acc@ == start + refs_of_args(args@.subrange(0, i as int)),
                decreases args@.len() - i,
            {
                proof {
                    assert(decreases_to!(*expr => (*expr)->Function_1));
                    assert(decreases_to!(*args => args[i as int]));
                }
                extract_precedents_helper(&args[i], acc);
                assert(args@.subrange(0, i + 1).drop_last() =~= args@.subrange(0, i as int));
                assert(acc@ =~= start + refs_of_args(args@.subrange(0, i + 1)));
                i = i + 1;
            }
            assert(args@.subrange(0, i as int) =~= args@);
        },
        Expr::Range(a, b) => {
            push_range(*a, *b, acc);
        },
    }
}

/// Every cell that `expr` reads, in reading order.
pub fn extract_precedents(expr: &Expr) -> (r: Vec<CellReference>)
    ensures
        r@ == refs_of(*expr),
{
    let mut acc: Vec<CellReference> = Vec::new();
    extract_precedents_helper(expr, &mut acc);
    assert(acc@ =~= refs_of(*expr));
    acc
}


/// `a op b` on 32-bit integers: `+ - *` wrap around; `/` truncates toward
/// zero, gives 0 for a zero divisor and wraps `i32::MIN / -1`.
pub open spec fn binop_value(op: char, a: i32, b: i32) -> i32 {
    if op == '+' {
        a.wrapping_add(b)
    } else if op == '-' {
        a.wrapping_sub(b)
    } else if op == '*' {
        a.wrapping_mul(b)
    } else if op == '/' {
        if b == 0 {
            0
        } else {
            match a.checked_div(b) {
                Some(q) => q,
                None => i32::MIN,
            }
        }
    } else {
        0
    }
}

/// The values of the cells of a rectangle, row by row.
pub open spec fn range_values(s: Spreadsheet, a: CellReference, b: CellReference) -> Seq<i32> {
    range_refs(a.row as int, b.row as int, a.column as int, b.column as int).map_values(
        |r: CellReference| s.cell(r).value,
    )
}

/// The result of a function on the values of its arguments.
pub open spec fn aggregate(f: FunctionName, v: Seq<i32>) -> i32 {
    match f {
        FunctionName::Sum => sum_wrapping(v),
        FunctionName::Max => max_of(v),
        FunctionName::Min => min_of(v),
        FunctionName::Avg => avg_of(v),
        FunctionName::Stdev => stdev_of(v),
        FunctionName::Sleep => 0,
    }
}

/// The value of an expression over the current cell values.
pub open spec fn eval(e: Expr, s: Spreadsheet) -> i32
    decreases e,
{
    match e {
        Expr::Number(n) => n,
        Expr::Cell(r) => s.cell(r).value,
        Expr::BinaryOp(l, op, r) => binop_value(op, eval(*l, s), eval(*r, s)),
        Expr::Function(f, args) => if f == FunctionName::Sleep {
            if args@.len() > 0 {
                eval(args@[0], s)
            } else {
                0
            }
        } else {
            aggregate(f, arg_values(args@, s))
        },
        Expr::Range(_, _) => 0,
    }
}

/// The values that function arguments contribute: a range each of its
/// cells, any other argument its value.
pub open spec fn arg_values(args: Seq<Expr>, s: Spreadsheet) -> Seq<i32>
    decreases args,
{
    if args.len() == 0 {
        seq![]
    } else {
        arg_values(args.drop_last(), s) + match args.last() {
            Expr::Range(a, b) => range_values(s, a, b),
            _ => seq![eval(args.last(), s)],
        }
    }
}

/// Every cell the expression names (range corners included) lies in the grid.
pub open spec fn in_grid(r: CellReference, rows: i32, cols: i32) -> bool {
    0 <= r.row < rows && 0 <= r.column < cols
}

pub open spec fn expr_in_bounds(e: Expr, rows: i32, cols: i32) -> bool
    decreases e,
{
    match e {
        Expr::Number(_) => true,
        Expr::Cell(r) => in_grid(r, rows, cols),
        Expr::BinaryOp(l, _, r) => expr_in_bounds(*l, rows, cols) && expr_in_bounds(*r, rows, cols),
        Expr::Function(_, args) => args_in_bounds(args@, rows, cols),
        Expr::Range(a, b) => in_grid(a, rows, cols) && in_grid(b, rows, cols),
    }
}

pub open spec fn args_in_bounds(args: Seq<Expr>, rows: i32, cols: i32) -> bool
    decreases args,
{
    if args.len() == 0 {
        true
    } else {
        args_in_bounds(args.drop_last(), rows, cols) && expr_in_bounds(args.last(), rows, cols)
    }
}

pub proof fn lemma_args_in_bounds(args: Seq<Expr>, rows: i32, cols: i32)
    ensures
        args_in_bounds(args, rows, cols) <==> forall|i: int|
            0 <= i < args.len() ==> #[trigger] expr_in_bounds(args[i], rows, cols),
    decreases args.len(),
{
    if args.len() > 0 {
        let d = args.drop_last();
        lemma_args_in_bounds(d, rows, cols);
        if forall|i: int| 0 <= i < args.len() ==> #[trigger] expr_in_bounds(args[i], rows, cols) {
            assert forall|i: int| 0 <= i < d.len() implies #[trigger] expr_in_bounds(d[i], rows, cols) by {
                assert(d[i] == args[i]);
            }
            assert(expr_in_bounds(args[args.len() - 1], rows, cols));
        }
        if args_in_bounds(args, rows, cols) {
            assert forall|i: int| 0 <= i < args.len() implies #[trigger] expr_in_bounds(args[i], rows, cols) by {
                if i < args.len() - 1 {
                    assert(d[i] == args[i]);
                }
            }
        }
    }
}

/// Appends to `acc` the values of the cells of a rectangle inside the grid.
fn push_range_values(s: &Spreadsheet, a: CellReference, b: CellReference, acc: &mut Vec<i32>)
    requires
        s.shape_ok(),
        s.in_bounds(a),
        s.in_bounds(b),
    ensures
        final(acc)@ == old(acc)@ + range_values(*s, a, b),
{
    let ghost start = acc@;
    let ghost c0 = a.column as int;
    let ghost c1 = b.column as int;
    let mut r: i32 = a.row;
    if b.row < r {
        assert(range_values(*s, a, b) =~= seq![]);
        assert(acc@ =~= start + seq![]);
        return;
    }
    while r <= b.row
        invariant
            s.shape_ok(),
            s.in_bounds(a),
            s.in_bounds(b),
            c0 == a.column,
            c1 == b.column,
            a.row <= r <= b.row + 1,
            acc@ == start + range_refs(a.row as int, r - 1, c0, c1).map_values(
                |x: CellReference| s.cell(x).value,
            ),
        decreases b.row + 1 - r,
    {
        let ghost before = acc@;
        let mut c: i32 = a.column;
        while c <= b.column
            invariant
                s.shape_ok(),
                s.in_bounds(a),
                s.in_bounds(b),
                c0 == a.column,
                c1 == b.column,
                a.row <= r <= b.row,
                a.column <= c,
                c <= b.column + 1 || c == a.column,
                acc@ == before + row_refs(r as int, c0, c - 1).map_values(
                    |x: CellReference| s.cell(x).value,
                ),
            decreases b.column + 1 - c,
        {
            acc.push(s.all_cells[r as usize][c as usize].value);
            assert(acc@ =~= before + row_refs(r as int, c0, c as int).map_values(
                |x: CellReference| s.cell(x).value,
            ));
            c = c + 1;
        }
        assert(row_refs(r as int, c0, c - 1) =~= row_refs(r as int, c0, c1));
        proof {
            lemma_range_refs_step(a.row as int, r as int, c0, c1);
        }
        assert(acc@ =~= start + range_refs(a.row as int, r as int, c0, c1).map_values(
            |x: CellReference| s.cell(x).value,
        ));
        r = r + 1;
    }
}

/// The values that the arguments of a function contribute, in order.
pub fn collect_values(s: &Spreadsheet, args: &Vec<Expr>) -> (r: Vec<i32>)
    requires
        s.shape_ok(),
        forall|i: int| 0 <= i < args@.len() ==> #[trigger] expr_in_bounds(args@[i], s.rows, s.columns),
    ensures
        r@ == arg_values(args@, *s),
    decreases args,
{
    let mut acc: Vec<i32> = Vec::new();
    let mut i: usize = 0;
    while i < args.len()
        invariant
            s.shape_ok(),
            forall|j: int| 0 <= j < args@.len() ==> #[trigger] expr_in_bounds(args@[j], s.rows, s.columns),
            i <= args@.len(),
            acc@ == arg_values(args@.subrange(0, i as int), *s),
        decreases args@.len() - i,
    {
        assert(args@.subrange(0, i + 1).drop_last() =~= args@.subrange(0, i as int));
        assert(args@.subrange(0, i + 1).last() == args@[i as int]);
        assert(expr_in_bounds(args@[i as int], s.rows, s.columns));
        match &args[i] {
            Expr::Range(a, b) => {
                push_range_values(s, *a, *b, &mut acc);
            },
            _ => {
                proof {
                    assert(decreases_to!(*args => args[i as int]));
                }
                let v = eval_expr(&args[i], s);
                acc.push(v);
            },
        }
        i = i + 1;
    }
    assert(args@.subrange(0, i as int) =~= args@);
    acc
}

/// `a op b` as `binop_value` states it.
pub fn apply_binop(op: char, a: i32, b: i32) -> (r: i32)
    ensures
        r == binop_value(op, a, b),
{
    if op == '+' {
        a.wrapping_add(b)
    } else if op == '-' {
        a.wrapping_sub(b)
    } else if op == '*' {
        a.wrapping_mul(b)
    } else if op == '/' {
        if b == 0 {
            0
        } else {
            match a.checked_div(b) {
                Some(q) => q,
                None => i32::MIN,
            }
        }
    } else {
        0
    }
}

/// The value of `expr` over the current cell values.
pub fn eval_expr(expr: &Expr, s: &Spreadsheet) -> (r: i32)
    requires
        s.shape_ok(),
        expr_in_bounds(*expr, s.rows, s.columns),
    ensures
        r == eval(*expr, *s),
    decreases expr,
{
    match expr {
        Expr::Number(n) => *n,
        Expr::Cell(c) => s.all_cells[c.row as usize][c.column as usize].value,
        Expr::BinaryOp(left, op, right) => {
            let a = eval_expr(left, s);
            let b = eval_expr(right, s);
            apply_binop(*op, a, b)
        },
        Expr::Function(f, args) => {
            proof {
                lemma_args_in_bounds(args@, s.rows, s.columns);
            }
            match f {
                FunctionName::Sleep => {
                    if args.len() > 0 {
                        assert(expr_in_bounds(args@[0], s.rows, s.columns));
                        proof {
                            assert(decreases_to!(*expr => (*expr)->Function_1));
                            assert(decreases_to!(*args => args[0]));
                        }
                        eval_expr(&args[0], s)
                    } else {
                        0
                    }
                },
                _ => {
                    proof {
                        assert(decreases_to!(*expr => (*expr)->Function_1));
                    }
                    let values = collect_values(s, args);
                    match f {
                        FunctionName::Sum => sum_values(&values),
                        FunctionName::Max => max_value(&values),
                        FunctionName::Min => min_value(&values),
                        FunctionName::Avg => avg_value(&values),
                        _ => stdev(&values),
                    }
                },
            }
        },
        Expr::Range(_, _) => 0,
    }
}


/// A cell of the rectangle lies outside the grid or is flagged as an error.
pub open spec fn range_has_error(s: Spreadsheet, a: CellReference, b: CellReference) -> bool {
    exists|r: int, c: int| a.row <= r <= b.row && a.column <= c <= b.column && #[trigger] bad_cell(s, r, c)
}

/// The cell at `(r, c)` lies outside the grid or is flagged as an error.
pub open spec fn bad_cell(s: Spreadsheet, r: int, c: int) -> bool {
    !s.in_bounds(cref(r, c)) || s.cell(cref(r, c)).is_error
}

/// The expression reads a cell outside the grid or flagged as an error, or
/// divides by the literal 0.
pub open spec fn has_error(e: Expr, s: Spreadsheet) -> bool
    decreases e,
{
    match e {
        Expr::Number(_) => false,
        Expr::Cell(r) => !s.in_bounds(r) || s.cell(r).is_error,
        Expr::BinaryOp(l, op, r) => has_error(*l, s) || has_error(*r, s) || (op == '/' && *r
            == Expr::Number(0)),
        Expr::Function(_, args) => args_have_error(args@, s),
        Expr::Range(a, b) => range_has_error(s, a, b),
    }
}

pub open spec fn args_have_error(args: Seq<Expr>, s: Spreadsheet) -> bool
    decreases args,
{
    if args.len() == 0 {
        false
    } else {
        args_have_error(args.drop_last(), s) || has_error(args.last(), s)
    }
}

/// Some division in the expression has a divisor that evaluates to 0, or
/// a cell it reads outside a range is flagged as an error.
pub open spec fn div_zero(e: Expr, s: Spreadsheet) -> bool
    decreases e,
{
    match e {
        Expr::Number(_) => false,
        Expr::Cell(r) => s.cell(r).is_error,
        Expr::BinaryOp(l, op, r) => (op == '/' && eval(*r, s) == 0) || div_zero(*l, s) || div_zero(
            *r,
            s,
        ),
        Expr::Function(_, args) => args_div_zero(args@, s),
        Expr::Range(_, _) => false,
    }
}

pub open spec fn args_div_zero(args: Seq<Expr>, s: Spreadsheet) -> bool
    decreases args,
{
    if args.len() == 0 {
        false
    } else {
        args_div_zero(args.drop_last(), s) || div_zero(args.last(), s)
    }
}

/// A cell holding `e` is flagged as an error.
pub open spec fn cell_error(e: Expr, s: Spreadsheet) -> bool {
    has_error(e, s) || div_zero(e, s)
}

proof fn lemma_args_have_error(args: Seq<Expr>, s: Spreadsheet)
    ensures
        args_have_error(args, s) <==> exists|i: int|
            0 <= i < args.len() && #[trigger] has_error(args[i], s),
    decreases args.len(),
{
    if args.len() > 0 {
        let d = args.drop_last();
        lemma_args_have_error(d, s);
        if has_error(args.last(), s) {
            assert(has_error(args[args.len() - 1], s));
        }
        if args_have_error(d, s) {
            let i = choose|i: int| 0 <= i < d.len() && #[trigger] has_error(d[i], s);
            assert(args[i] == d[i]);
            assert(has_error(args[i], s));
        }
        if exists|i: int| 0 <= i < args.len() && #[trigger] has_error(args[i], s) {
            let i = choose|i: int| 0 <= i < args.len() && #[trigger] has_error(args[i], s);
            if i < args.len() - 1 {
                assert(args[i] == d[i]);
                assert(has_error(d[i], s));
            } else {
                assert(args[i] == args.last());
            }
        }
    }
}

proof fn lemma_args_div_zero(args: Seq<Expr>, s: Spreadsheet)
    ensures
        args_div_zero(args, s) <==> exists|i: int|
            0 <= i < args.len() && #[trigger] div_zero(args[i], s),
    decreases args.len(),
{
    if args.len() > 0 {
        let d = args.drop_last();
        lemma_args_div_zero(d, s);
        if div_zero(args.last(), s) {
            assert(div_zero(args[args.len() - 1], s));
        }
        if args_div_zero(d, s) {
            let i = choose|i: int| 0 <= i < d.len() && #[trigger] div_zero(d[i], s);
            assert(args[i] == d[i]);
            assert(div_zero(args[i], s));
        }
        if exists|i: int| 0 <= i < args.len() && #[trigger] div_zero(args[i], s) {
            let i = choose|i: int| 0 <= i < args.len() && #[trigger] div_zero(args[i], s);
            if i < args.len() - 1 {
                assert(args[i] == d[i]);
                assert(div_zero(d[i], s));
            } else {
                assert(args[i] == args.last());
            }
        }
    }
}

/// Whether a cell of the rectangle lies outside the grid or is flagged.
fn range_error(s: &Spreadsheet, a: CellReference, b: CellReference) -> (r: bool)
    requires
        s.shape_ok(),
    ensures
        r == range_has_error(*s, a, b),
{
    let mut r: i64 = a.row as i64;
    while r <= b.row as i64
        invariant
            s.shape_ok(),
            a.row <= r,
            r <= b.row as i64 + 1 || r == a.row,
            forall|x: int, y: int| a.row <= x < r && a.column <= y <= b.column ==> !#[trigger] bad_cell(*s, x, y),
        decreases b.row as i64 + 1 - r,
    {
        let mut c: i64 = a.column as i64;
        while c <= b.column as i64
            invariant
                s.shape_ok(),
                a.row <= r <= b.row,
                a.column <= c,
                c <= b.column as i64 + 1 || c == a.column,
                forall|x: int, y: int| a.row <= x < r && a.column <= y <= b.column ==> !#[trigger] bad_cell(*s, x, y),
                forall|y: int| a.column <= y < c ==> !#[trigger] bad_cell(*s, r as int, y),
            decreases b.column as i64 + 1 - c,
        {
            if r < 0 || r >= s.rows as i64 || c < 0 || c >= s.columns as i64 {
                assert(bad_cell(*s, r as int, c as int));
                return true;
            }
            if s.all_cells[r as usize][c as usize].is_error {
                assert(bad_cell(*s, r as int, c as int));
                return true;
            }
            c = c + 1;
        }
        assert forall|x: int, y: int| a.row <= x < r + 1 && a.column <= y <= b.column implies !#[trigger] bad_cell(*s, x, y) by {
            if x == r {
                assert(!bad_cell(*s, r as int, y));
            }
        }
        r = r + 1;
    }
    false
}

/// Whether `expr` reads a cell outside the grid or flagged as an error, or
/// divides by the literal 0.
pub fn expr_has_error(expr: &Expr, s: &Spreadsheet) -> (r: bool)
    requires
        s.shape_ok(),
    ensures
        r == has_error(*expr, *s),
    decreases expr,
{
    match expr {
        Expr::Number(_) => false,
        Expr::Cell(c) => {
            if c.row < 0 || c.row >= s.rows || c.column < 0 || c.column >= s.columns {
                true
            } else {
                s.all_cells[c.row as usize][c.column as usize].is_error
            }
        },
        Expr::BinaryOp(left, op, right) => {
            let l = expr_has_error(left, s);
            let r = expr_has_error(right, s);
            let zero_literal = match &**right {
                Expr::Number(n) => *n == 0,
                _ => false,
            };
            l || r || (*op == '/' && zero_literal)
        },
        Expr::Function(_, args) => {
            let mut i: usize = 0;
            while i < args.len()
                invariant
                    *expr == Expr::Function(expr->Function_0, *args),
                    s.shape_ok(),
                    i <= args@.len(),
                    forall|j: int| 0 <= j < i ==> !#[trigger] has_error(args@[j], *s),
                decreases args@.len() - i,
            {
                proof {
                    assert(decreases_to!(*expr => (*expr)->Function_1));
                    assert(decreases_to!(*args => args[i as int]));
                }
                if expr_has_error(&args[i], s) {
                    assert(has_error(args@[i as int], *s));
                    proof {
                        lemma_args_have_error(args@, *s);
                    }
                    return true;
                }
                i = i + 1;
            }
            proof {
                lemma_args_have_error(args@, *s);
            }
            false
        },
        Expr::Range(a, b) => range_error(s, *a, *b),
    }
}

/// Whether some division in `expr` has a divisor that evaluates to 0, or a
/// cell it reads outside a range is flagged as an error.
pub fn check_division_by_zero(expr: &Expr, s: &Spreadsheet) -> (r: bool)
    requires
        s.shape_ok(),
        expr_in_bounds(*expr, s.rows, s.columns),
    ensures
        r == div_zero(*expr, *s),
    decreases expr,
{
    match expr {
        Expr::Number(_) => false,
        Expr::Cell(c) => s.all_cells[c.row as usize][c.column as usize].is_error,
        Expr::BinaryOp(left, op, right) => {
            if *op == '/' {
                if eval_expr(right, s) == 0 {
                    return true;
                }
            }
            check_division_by_zero(left, s) || check_division_by_zero(right, s)
        },
        Expr::Function(_, args) => {
            proof {
                lemma_args_in_bounds(args@, s.rows, s.columns);
            }
            let mut i: usize = 0;
            while i < args.len()
                invariant
                    *expr == Expr::Function(expr->Function_0, *args),
                    s.shape_ok(),
                    forall|j: int| 0 <= j < args@.len() ==> #[trigger] expr_in_bounds(args@[j], s.rows, s.columns),
                    i <= args@.len(),
                    forall|j: int| 0 <= j < i ==> !#[trigger] div_zero(args@[j], *s),
                decreases args@.len() - i,
            {
                proof {
                    assert(decreases_to!(*expr => (*expr)->Function_1));
                    assert(decreases_to!(*args => args[i as int]));
                }
                assert(expr_in_bounds(args@[i as int], s.rows, s.columns));
                if check_division_by_zero(&args[i], s) {
                    assert(div_zero(args@[i as int], *s));
                    proof {
                        lemma_args_div_zero(args@, *s);
                    }
                    return true;
                }
                i = i + 1;
            }
            proof {
                lemma_args_div_zero(args@, *s);
            }
            false
        },
        Expr::Range(_, _) => false,
    }
}


/// Two grids of the same dimensions whose cells hold the same values and
/// error flags.
pub open spec fn same_values(s1: Spreadsheet, s2: Spreadsheet) -> bool {
    &&& s1.rows == s2.rows
    &&& s1.columns == s2.columns
    &&& forall|x: CellReference| s1.in_bounds(x) ==> #[trigger] s1.cell(x).value == s2.cell(x).value && s1.cell(x).is_error == s2.cell(x).is_error
}

proof fn lemma_range_refs_within(r0: int, r1: int, c0: int, c1: int, k: int)
    requires
        0 <= k < range_refs(r0, r1, c0, c1).len(),
        i32::MIN <= r0,
        r1 <= i32::MAX,
        i32::MIN <= c0,
        c1 <= i32::MAX,
    ensures
        r0 <= range_refs(r0, r1, c0, c1)[k].row <= r1,
        c0 <= range_refs(r0, r1, c0, c1)[k].column <= c1,
    decreases r1 - r0 + 1,
{
    if r1 >= r0 {
        let prev = range_refs(r0, r1 - 1, c0, c1);
        if k < prev.len() {
            lemma_range_refs_within(r0, r1 - 1, c0, c1, k);
        }
    }
}

proof fn lemma_range_values_frame(s1: Spreadsheet, s2: Spreadsheet, a: CellReference, b: CellReference)
    requires
        same_values(s1, s2),
        s1.in_bounds(a),
        s1.in_bounds(b),
    ensures
        range_values(s1, a, b) == range_values(s2, a, b),
        range_has_error(s1, a, b) == range_has_error(s2, a, b),
{
    let rr = range_refs(a.row as int, b.row as int, a.column as int, b.column as int);
    assert forall|k: int| 0 <= k < rr.len() implies #[trigger] range_values(s1, a, b)[k] == range_values(s2, a, b)[k] by {
        lemma_range_refs_within(a.row as int, b.row as int, a.column as int, b.column as int, k);
        assert(s1.in_bounds(rr[k]));
    }
    assert(range_values(s1, a, b) =~= range_values(s2, a, b));
    assert forall|r: int, c: int| a.row <= r <= b.row && a.column <= c <= b.column implies #[trigger] bad_cell(s1, r, c) == bad_cell(s2, r, c) by {
        assert(s1.in_bounds(cref(r, c)));
        assert(s1.cell(cref(r, c)).value == s2.cell(cref(r, c)).value);
    }
    if range_has_error(s1, a, b) {
        let (r, c) = choose|r: int, c: int| a.row <= r <= b.row && a.column <= c <= b.column && #[trigger] bad_cell(s1, r, c);
        assert(bad_cell(s2, r, c));
    }
    if range_has_error(s2, a, b) {
        let (r, c) = choose|r: int, c: int| a.row <= r <= b.row && a.column <= c <= b.column && #[trigger] bad_cell(s2, r, c);
        assert(bad_cell(s1, r, c));
    }
}

/// Evaluation and error detection read only the values and error flags of
/// the cells in the grid.
pub proof fn lemma_eval_frame(e: Expr, s1: Spreadsheet, s2: Spreadsheet)
    requires
        same_values(s1, s2),
        expr_in_bounds(e, s1.rows, s1.columns),
    ensures
        eval(e, s1) == eval(e, s2),
        has_error(e, s1) == has_error(e, s2),
        div_zero(e, s1) == div_zero(e, s2),
    decreases e,
{
    match e {
        Expr::Number(_) => {},
        Expr::Cell(r) => {
            assert(s1.in_bounds(r));
            assert(s1.cell(r).value == s2.cell(r).value);
        },
        Expr::BinaryOp(l, _, r) => {
            lemma_eval_frame(*l, s1, s2);
            lemma_eval_frame(*r, s1, s2);
        },
        Expr::Function(f, args) => {
            lemma_args_frame(args@, s1, s2);
            if args@.len() > 0 {
                lemma_args_in_bounds(args@, s1.rows, s1.columns);
                lemma_eval_frame(args@[0], s1, s2);
            }
        },
        Expr::Range(a, b) => {
            lemma_range_values_frame(s1, s2, a, b);
        },
    }
}

proof fn lemma_args_frame(args: Seq<Expr>, s1: Spreadsheet, s2: Spreadsheet)
    requires
        same_values(s1, s2),
        args_in_bounds(args, s1.rows, s1.columns),
    ensures
        arg_values(args, s1) == arg_values(args, s2),
        args_have_error(args, s1) == args_have_error(args, s2),
        args_div_zero(args, s1) == args_div_zero(args, s2),
    decreases args,
{
    if args.len() > 0 {
        lemma_args_frame(args.drop_last(), s1, s2);
        lemma_eval_frame(args.last(), s1, s2);
        assert(expr_in_bounds(args.last(), s1.rows, s1.columns));
        match args.last() {
            Expr::Range(a, b) => {
                assert(in_grid(a, s1.rows, s1.columns) && in_grid(b, s1.rows, s1.columns));
                lemma_range_values_frame(s1, s2, a, b);
            },
            _ => {},
        }
    }
}


/// Every cell an expression reads lies in the grid when the expression
/// names only cells of the grid.
pub proof fn lemma_refs_in_bounds(e: Expr, rows: i32, cols: i32)
    requires
        expr_in_bounds(e, rows, cols),
    ensures
        forall|x: CellReference| #[trigger] refs_of(e).contains(x) ==> in_grid(x, rows, cols),
    decreases e,
{
    match e {
        Expr::Number(_) => {
            assert(refs_of(e) =~= Seq::<CellReference>::empty());
        },
        Expr::Cell(r) => {
            assert forall|x: CellReference| #[trigger] refs_of(e).contains(x) implies in_grid(x, rows, cols) by {
                assert(refs_of(e) == seq![r]);
                let k = choose|k: int| 0 <= k < refs_of(e).len() && refs_of(e)[k] == x;
            }
        },
        Expr::BinaryOp(l, _, r) => {
            lemma_refs_in_bounds(*l, rows, cols);
            lemma_refs_in_bounds(*r, rows, cols);
            assert forall|x: CellReference| #[trigger] refs_of(e).contains(x) implies in_grid(x, rows, cols) by {
                let k = choose|k: int| 0 <= k < refs_of(e).len() && refs_of(e)[k] == x;
                if k < refs_of(*l).len() {
                    assert(refs_of(*l)[k] == x);
                    assert(refs_of(*l).contains(x));
                } else {
                    assert(refs_of(*r)[k - refs_of(*l).len()] == x);
                    assert(refs_of(*r).contains(x));
                }
            }
        },
        Expr::Function(_, args) => {
            lemma_args_refs_in_bounds(args@, rows, cols);
            assert(refs_of(e) == refs_of_args(args@));
        },
        Expr::Range(a, b) => {
            assert forall|x: CellReference| #[trigger] refs_of(e).contains(x) implies in_grid(x, rows, cols) by {
                let rr = range_refs(a.row as int, b.row as int, a.column as int, b.column as int);
                assert(refs_of(e) == rr);
                let k = choose|k: int| 0 <= k < rr.len() && rr[k] == x;
                lemma_range_refs_within(a.row as int, b.row as int, a.column as int, b.column as int, k);
                assert(rr[k].row == x.row);
            }
        },
    }
}

proof fn lemma_args_refs_in_bounds(args: Seq<Expr>, rows: i32, cols: i32)
    requires
        args_in_bounds(args, rows, cols),
    ensures
        forall|x: CellReference| #[trigger] refs_of_args(args).contains(x) ==> in_grid(x, rows, cols),
    decreases args,
{
    if args.len() > 0 {
        lemma_args_refs_in_bounds(args.drop_last(), rows, cols);
        lemma_refs_in_bounds(args.last(), rows, cols);
        let p = refs_of_args(args.drop_last());
        let q = refs_of(args.last());
        assert forall|x: CellReference| #[trigger] refs_of_args(args).contains(x) implies in_grid(x, rows, cols) by {
            let k = choose|k: int| 0 <= k < (p + q).len() && (p + q)[k] == x;
            if k < p.len() {
                assert(p[k] == x);
                assert(p.contains(x));
            } else {
                assert(q[k - p.len()] == x);
                assert(q.contains(x));
            }
        }
    }
}

/// Whether every cell `expr` names lies in a `rows` x `cols` grid.
pub fn check_in_bounds(expr: &Expr, rows: i32, cols: i32) -> (r: bool)
    ensures
        r == expr_in_bounds(*expr, rows, cols),
    decreases expr,
{
    match expr {
        Expr::Number(_) => true,
        Expr::Cell(c) => 0 <= c.row && c.row < rows && 0 <= c.column && c.column < cols,
        Expr::BinaryOp(left, _, right) => check_in_bounds(left, rows, cols) && check_in_bounds(right, rows, cols),
        Expr::Function(_, args) => {
            let mut i: usize = 0;
            while i < args.len()
                invariant
                    *expr == Expr::Function(expr->Function_0, *args),
                    i <= args@.len(),
                    forall|j: int| 0 <= j < i ==> #[trigger] expr_in_bounds(args@[j], rows, cols),
                decreases args@.len() - i,
            {
                proof {
                    assert(decreases_to!(*expr => (*expr)->Function_1));
                    assert(decreases_to!(*args => args[i as int]));
                }
                if !check_in_bounds(&args[i], rows, cols) {
                    proof {
                        lemma_args_in_bounds(args@, rows, cols);
                    }
                    return false;
                }
                i = i + 1;
            }
            proof {
                lemma_args_in_bounds(args@, rows, cols);
            }
            true
        },
        Expr::Range(a, b) => 0 <= a.row && a.row < rows && 0 <= a.column && a.column < cols && 0 <= b.row
            && b.row < rows && 0 <= b.column && b.column < cols,
    }
}

/// A copy of `expr`.
pub fn copy_expr(expr: &Expr) -> (r: Expr)
    ensures
        crate::parser::deep_eq(r, *expr),
    decreases expr,
{
    match expr {
        Expr::Number(n) => Expr::Number(*n),
        Expr::Cell(c) => Expr::Cell(*c),
        Expr::BinaryOp(left, op, right) => Expr::BinaryOp(
            Box::new(copy_expr(left)),
            *op,
            Box::new(copy_expr(right)),
        ),
        Expr::Function(f, args) => {
            let mut copied: Vec<Expr> = Vec::new();
            let mut i: usize = 0;
            while i < args.len()
                invariant
                    *expr == Expr::Function(expr->Function_0, *args),
                    i <= args@.len(),
                    copied@.len() == i,
                    crate::parser::args_deep_eq(copied@, args@.subrange(0, i as int)),
                decreases args@.len() - i,
            {
                proof {
                    assert(decreases_to!(*expr => (*expr)->Function_1));
                    assert(decreases_to!(*args => args[i as int]));
                }
                let ghost before = copied@;
                let c = copy_expr(&args[i]);
                copied.push(c);
                proof {
                    crate::parser::lemma_args_deep_eq_push(before, c, args@, i as int);
                    assert(before.push(c) =~= copied@);
                }
                i = i + 1;
            }
            assert(args@.subrange(0, i as int) =~= args@);
            Expr::Function(*f, copied)
        },
        Expr::Range(a, b) => Expr::Range(*a, *b),
    }
}


proof fn lemma_range_refs_contains(r0: int, r1: int, c0: int, c1: int, r: int, c: int)
    requires
        r0 <= r <= r1,
        c0 <= c <= c1,
    ensures
        range_refs(r0, r1, c0, c1).contains(cref(r, c)),
    decreases r1 - r0 + 1,
{
    let prev = range_refs(r0, r1 - 1, c0, c1);
    let row = row_refs(r1, c0, c1);
    if r == r1 {
        assert(row[c - c0] == cref(r, c));
        assert((prev + row)[prev.len() + (c - c0)] == cref(r, c));
    } else {
        lemma_range_refs_contains(r0, r1 - 1, c0, c1, r, c);
        let k = choose|k: int| 0 <= k < prev.len() && prev[k] == cref(r, c);
        assert((prev + row)[k] == cref(r, c));
    }
}

/// The cells that `e` reads hold the same values and flags in `s1` and `s2`.
pub open spec fn agree_on_reads(e: Expr, s1: Spreadsheet, s2: Spreadsheet) -> bool {
    forall|x: CellReference| #[trigger] refs_of(e).contains(x) ==> s1.cell(x).value == s2.cell(x).value
        && s1.cell(x).is_error == s2.cell(x).is_error
}

/// Evaluation and error detection read only the cells the expression
/// reads.
pub proof fn lemma_eval_reads(e: Expr, s1: Spreadsheet, s2: Spreadsheet)
    requires
        s1.rows == s2.rows,
        s1.columns == s2.columns,
        expr_in_bounds(e, s1.rows, s1.columns),
        agree_on_reads(e, s1, s2),
    ensures
        eval(e, s1) == eval(e, s2),
        has_error(e, s1) == has_error(e, s2),
        div_zero(e, s1) == div_zero(e, s2),
    decreases e,
{
    match e {
        Expr::Number(_) => {},
        Expr::Cell(r) => {
            assert(refs_of(e)[0] == r);
            assert(refs_of(e).contains(r));
        },
        Expr::BinaryOp(l, _, r) => {
            assert forall|x: CellReference| #[trigger] refs_of(*l).contains(x) implies refs_of(e).contains(x) by {
                let k = choose|k: int| 0 <= k < refs_of(*l).len() && refs_of(*l)[k] == x;
                assert(refs_of(e)[k] == x);
            }
            assert forall|x: CellReference| #[trigger] refs_of(*r).contains(x) implies refs_of(e).contains(x) by {
                let k = choose|k: int| 0 <= k < refs_of(*r).len() && refs_of(*r)[k] == x;
                assert(refs_of(e)[refs_of(*l).len() + k] == x);
            }
            lemma_eval_reads(*l, s1, s2);
            lemma_eval_reads(*r, s1, s2);
        },
        Expr::Function(_, args) => {
            assert(refs_of(e) == refs_of_args(args@));
            lemma_args_reads(args@, s1, s2);
            if args@.len() > 0 {
                lemma_args_in_bounds(args@, s1.rows, s1.columns);
                lemma_arg_reads_sub(args@, 0);
                lemma_eval_reads(args@[0], s1, s2);
            }
        },
        Expr::Range(a, b) => {
            let rr = range_refs(a.row as int, b.row as int, a.column as int, b.column as int);
            assert(refs_of(e) == rr);
            assert(range_values(s1, a, b) =~= range_values(s2, a, b)) by {
                assert forall|k: int| 0 <= k < rr.len() implies #[trigger] range_values(s1, a, b)[k] == range_values(s2, a, b)[k] by {
                    assert(rr.contains(rr[k]));
                    assert(refs_of(e).contains(rr[k]));
                    assert(s1.cell(rr[k]).value == s2.cell(rr[k]).value);
                }
            }
            assert forall|r: int, c: int| a.row <= r <= b.row && a.column <= c <= b.column implies #[trigger] bad_cell(s1, r, c) == bad_cell(s2, r, c) by {
                lemma_range_refs_contains(a.row as int, b.row as int, a.column as int, b.column as int, r, c);
                assert(refs_of(e).contains(cref(r, c)));
                assert(s1.cell(cref(r, c)).value == s2.cell(cref(r, c)).value);
            }
            if range_has_error(s1, a, b) {
                let (r, c) = choose|r: int, c: int| a.row <= r <= b.row && a.column <= c <= b.column && #[trigger] bad_cell(s1, r, c);
                assert(bad_cell(s2, r, c));
            }
            if range_has_error(s2, a, b) {
                let (r, c) = choose|r: int, c: int| a.row <= r <= b.row && a.column <= c <= b.column && #[trigger] bad_cell(s2, r, c);
                assert(bad_cell(s1, r, c));
            }
        },
    }
}

proof fn lemma_arg_reads_sub(args: Seq<Expr>, i: int)
    requires
        0 <= i < args.len(),
    ensures
        forall|x: CellReference| #[trigger] refs_of(args[i]).contains(x) ==> refs_of_args(args).contains(x),
    decreases args.len(),
{
    let p = refs_of_args(args.drop_last());
    let q = refs_of(args.last());
    if i == args.len() - 1 {
        assert forall|x: CellReference| #[trigger] refs_of(args[i]).contains(x) implies refs_of_args(args).contains(x) by {
            let k = choose|k: int| 0 <= k < q.len() && q[k] == x;
            assert((p + q)[p.len() + k] == x);
        }
    } else {
        lemma_arg_reads_sub(args.drop_last(), i);
        assert(args.drop_last()[i] == args[i]);
        assert forall|x: CellReference| #[trigger] refs_of(args[i]).contains(x) implies refs_of_args(args).contains(x) by {
            assert(p.contains(x));
            let k = choose|k: int| 0 <= k < p.len() && p[k] == x;
            assert((p + q)[k] == x);
        }
    }
}

proof fn lemma_args_reads(args: Seq<Expr>, s1: Spreadsheet, s2: Spreadsheet)
    requires
        s1.rows == s2.rows,
        s1.columns == s2.columns,
        args_in_bounds(args, s1.rows, s1.columns),
        forall|x: CellReference| #[trigger] refs_of_args(args).contains(x) ==> s1.cell(x).value == s2.cell(x).value
            && s1.cell(x).is_error == s2.cell(x).is_error,
    ensures
        arg_values(args, s1) == arg_values(args, s2),
        args_have_error(args, s1) == args_have_error(args, s2),
        args_div_zero(args, s1) == args_div_zero(args, s2),
    decreases args,
{
    if args.len() > 0 {
        let d = args.drop_last();
        let p = refs_of_args(d);
        let q = refs_of(args.last());
        assert forall|x: CellReference| #[trigger] p.contains(x) implies refs_of_args(args).contains(x) by {
            let k = choose|k: int| 0 <= k < p.len() && p[k] == x;
            assert((p + q)[k] == x);
        }
        assert forall|x: CellReference| #[trigger] q.contains(x) implies refs_of_args(args).contains(x) by {
            let k = choose|k: int| 0 <= k < q.len() && q[k] == x;
            assert((p + q)[p.len() + k] == x);
        }
        lemma_args_reads(d, s1, s2);
        assert(expr_in_bounds(args.last(), s1.rows, s1.columns));
        lemma_eval_reads(args.last(), s1, s2);
        match args.last() {
            Expr::Range(a, b) => {
                let rr = range_refs(a.row as int, b.row as int, a.column as int, b.column as int);
                assert(q == rr);
                assert(range_values(s1, a, b) =~= range_values(s2, a, b)) by {
                    assert forall|k: int| 0 <= k < rr.len() implies #[trigger] range_values(s1, a, b)[k] == range_values(s2, a, b)[k] by {
                        assert(q.contains(rr[k]));
                    }
                }
            },
            _ => {},
        }
    }
}

} // verus!
